//! The four instructions of a patch.

use vstd::prelude::*;

verus! {

/// One instruction, with the number of bytes it appends to the target. The
/// number is never zero.
#[derive(Clone, Copy, Debug, PartialEq, Eq, Structural)]
pub enum Action {
    /// Take the bytes from the source, at the position the target has
    /// reached.
    SourceRead(u64),
    /// Take the bytes from the patch itself, where they follow the
    /// instruction.
    TargetRead(u64),
    /// Take the bytes from the source, at the source cursor.
    SourceCopy(u64),
    /// Take the bytes from the target built so far, at the target cursor.
    TargetCopy(u64),
}

impl Action {
    /// The number of bytes the instruction appends.
    pub open spec fn length(self) -> u64 {
        match self {
            Action::SourceRead(n) => n,
            Action::TargetRead(n) => n,
            Action::SourceCopy(n) => n,
            Action::TargetCopy(n) => n,
        }
    }
}

/// The instruction that the control word `data` stands for: its two lowest
/// bits choose the kind, the rest is the length less one.
pub open spec fn spec_action(data: u64) -> Action {
    let length: u64 = (data / 4 + 1) as u64;
    if data % 4 == 0 {
        Action::SourceRead(length)
    } else if data % 4 == 1 {
        Action::TargetRead(length)
    } else if data % 4 == 2 {
        Action::SourceCopy(length)
    } else {
        Action::TargetCopy(length)
    }
}

/// Decodes a control word.
pub fn action(data: u64) -> (a: Action)
    ensures
        a == spec_action(data),
        a.length() == data / 4 + 1,
        a.length() >= 1,
{
    let command: u64 = data & 0b11;
    let quarter: u64 = data >> 2;
    proof {
        assert(data & 0b11 == data % 4) by (bit_vector);
        assert(data >> 2 == data / 4) by (bit_vector);
    }
    let length: u64 = quarter + 1;
    if command == 0 {
        Action::SourceRead(length)
    } else if command == 1 {
        Action::TargetRead(length)
    } else if command == 2 {
        Action::SourceCopy(length)
    } else {
        Action::TargetCopy(length)
    }
}

} // verus!
