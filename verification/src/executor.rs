//! The interpreter that builds the target from the instructions of a patch.
//!
//! The state is the target built so far and two cursors, one into the
//! source and one into the target. Only the two copy instructions move the
//! cursors, and the cursors keep their place from one instruction to the
//! next.

use crate::action::{action, spec_action, Action};
use crate::error::PatchError;
use crate::varint::{
    decode_signed, decodenum, lemma_decode_ignores_later_bytes, spec_decode_signed,
    spec_decodenum,
};
use vstd::prelude::*;
use vstd::slice::slice_subrange;

verus! {

/// The length of the footer that follows the instructions.
pub const FOOTER_LEN: usize = 12;

/// The state of the interpreter, as contracts see it.
pub struct ExecutorState {
    /// The target built so far.
    pub target: Seq<u8>,
    /// Where the next `SourceCopy` starts, before its offset is added.
    pub source_cursor: int,
    /// Where the next `TargetCopy` starts, before its offset is added.
    pub target_cursor: int,
}

/// The state before the first instruction: an empty target, both cursors at
/// zero.
pub open spec fn initial_state() -> ExecutorState {
    ExecutorState { target: Seq::empty(), source_cursor: 0, target_cursor: 0 }
}

/// `length` bytes read from `target` one at a time, starting at `start`,
/// while each byte read is appended to `target` before the next is read.
/// Once the reading passes the old end of `target` it meets the bytes just
/// appended, so the `target.len() - start` bytes from `start` on repeat.
pub open spec fn repeated_run(target: Seq<u8>, start: int, length: nat) -> Seq<u8> {
    Seq::new(length, |j: int| target[start + j % (target.len() - start)])
}

/// The target after `count` bytes were copied one by one within it: each
/// step reads the byte at the cursor, appends it, and moves the cursor on.
pub open spec fn bytewise_copy(target: Seq<u8>, cursor: int, count: nat) -> Seq<u8>
    decreases count,
{
    if count == 0 {
        target
    } else {
        bytewise_copy(target.push(target[cursor]), cursor + 1, (count - 1) as nat)
    }
}

/// `SourceRead`: appends the `length` bytes of `source` that stand where the
/// end of the target is.
pub open spec fn spec_source_read(st: ExecutorState, source: Seq<u8>, length: u64) -> Result<
    ExecutorState,
    PatchError,
> {
    let position: int = st.target.len() as int;
    if position + length > source.len() {
        Err(PatchError::OutOfBoundsCopy)
    } else {
        Ok(
            ExecutorState {
                target: st.target + source.subrange(position, position + length),
                source_cursor: st.source_cursor,
                target_cursor: st.target_cursor,
            },
        )
    }
}

/// `TargetRead`: appends the first `length` bytes of `remaining` and passes
/// over them.
pub open spec fn spec_target_read(st: ExecutorState, remaining: Seq<u8>, length: u64) -> Result<
    (ExecutorState, Seq<u8>),
    PatchError,
> {
    if length > remaining.len() {
        Err(PatchError::OutOfBoundsCopy)
    } else {
        Ok(
            (
                ExecutorState {
                    target: st.target + remaining.subrange(0, length as int),
                    source_cursor: st.source_cursor,
                    target_cursor: st.target_cursor,
                },
                remaining.skip(length as int),
            ),
        )
    }
}

/// `SourceCopy`: moves the source cursor by `delta`, appends the `length`
/// bytes of `source` from there, and leaves the cursor behind them.
pub open spec fn spec_source_copy(
    st: ExecutorState,
    source: Seq<u8>,
    delta: int,
    length: u64,
) -> Result<ExecutorState, PatchError> {
    let start: int = st.source_cursor + delta;
    if start < 0 || start + length > source.len() {
        Err(PatchError::OutOfBoundsCopy)
    } else {
        Ok(
            ExecutorState {
                target: st.target + source.subrange(start, start + length),
                source_cursor: start + length,
                target_cursor: st.target_cursor,
            },
        )
    }
}

/// `TargetCopy`: moves the target cursor by `delta`, then copies `length`
/// bytes within the target, byte by byte, and leaves the cursor behind the
/// last byte read.
pub open spec fn spec_target_copy(st: ExecutorState, delta: int, length: u64) -> Result<
    ExecutorState,
    PatchError,
> {
    let start: int = st.target_cursor + delta;
    if start < 0 || start >= st.target.len() {
        Err(PatchError::OutOfBoundsCopy)
    } else {
        Ok(
            ExecutorState {
                target: st.target + repeated_run(st.target, start, length as nat),
                source_cursor: st.source_cursor,
                target_cursor: start + length,
            },
        )
    }
}

/// One instruction: reads a control word from the front of `remaining`, then
/// what the instruction needs behind it (the literal bytes of a
/// `TargetRead`, the offset of a copy), and carries the instruction out.
/// Gives the new state and what is left of `remaining`.
pub open spec fn spec_step(st: ExecutorState, source: Seq<u8>, remaining: Seq<u8>) -> Result<
    (ExecutorState, Seq<u8>),
    PatchError,
> {
    match spec_decodenum(remaining) {
        None => Err(PatchError::MalformedVarint),
        Some((word, rest)) => match spec_action(word) {
            Action::SourceRead(length) => match spec_source_read(st, source, length) {
                Ok(next) => Ok((next, rest)),
                Err(e) => Err(e),
            },
            Action::TargetRead(length) => spec_target_read(st, rest, length),
            Action::SourceCopy(length) => match spec_decodenum(rest) {
                None => Err(PatchError::MalformedVarint),
                Some((offset, rest)) => match spec_source_copy(
                    st,
                    source,
                    spec_decode_signed(offset),
                    length,
                ) {
                    Ok(next) => Ok((next, rest)),
                    Err(e) => Err(e),
                },
            },
            Action::TargetCopy(length) => match spec_decodenum(rest) {
                None => Err(PatchError::MalformedVarint),
                Some((offset, rest)) => match spec_target_copy(
                    st,
                    spec_decode_signed(offset),
                    length,
                ) {
                    Ok(next) => Ok((next, rest)),
                    Err(e) => Err(e),
                },
            },
        },
    }
}

/// The instruction loop: carries out instructions for as long as more than
/// twelve bytes remain, and gives the state and the bytes it stopped at.
pub open spec fn spec_loop(st: ExecutorState, source: Seq<u8>, remaining: Seq<u8>) -> Result<
    (ExecutorState, Seq<u8>),
    PatchError,
>
    decreases remaining.len(),
    via spec_loop_terminates
{
    if remaining.len() <= FOOTER_LEN {
        Ok((st, remaining))
    } else {
        match spec_step(st, source, remaining) {
            Err(e) => Err(e),
            Ok((next, rest)) => spec_loop(next, source, rest),
        }
    }
}

#[via_fn]
proof fn spec_loop_terminates(st: ExecutorState, source: Seq<u8>, remaining: Seq<u8>) {
    lemma_step_consumes(st, source, remaining);
}

/// The whole instruction stream: the loop must stop with exactly the twelve
/// bytes of the footer left. Gives the final state and the footer.
pub open spec fn spec_run(st: ExecutorState, source: Seq<u8>, instructions: Seq<u8>) -> Result<
    (ExecutorState, Seq<u8>),
    PatchError,
> {
    match spec_loop(st, source, instructions) {
        Err(e) => Err(e),
        Ok((last, rest)) => if rest.len() == FOOTER_LEN {
            Ok((last, rest))
        } else {
            Err(PatchError::TruncatedPatchError)
        },
    }
}

/// The interpreter: the target under construction and the two cursors.
#[derive(Debug)]
pub struct Executor {
    /// The target built so far.
    pub target: Vec<u8>,
    /// Where the next `SourceCopy` starts, before its offset is added.
    pub source_cursor: usize,
    /// Where the next `TargetCopy` starts, before its offset is added.
    pub target_cursor: usize,
}

impl View for Executor {
    type V = ExecutorState;

    open spec fn view(&self) -> ExecutorState {
        ExecutorState {
            target: self.target@,
            source_cursor: self.source_cursor as int,
            target_cursor: self.target_cursor as int,
        }
    }
}

/// Moves `cursor` by `delta`, if that lands between zero and `limit`.
fn move_cursor(cursor: usize, delta: i64, limit: usize) -> (moved: Option<usize>)
    ensures
        match moved {
            Some(place) => place == cursor + delta && place <= limit,
            None => cursor + delta < 0 || cursor + delta > limit,
        },
{
    if delta >= 0 {
        let up: u64 = delta as u64;
        if cursor > limit || up > (limit - cursor) as u64 {
            None
        } else {
            Some(cursor + up as usize)
        }
    } else {
        let down: u64 = (-(delta + 1)) as u64 + 1;
        if down > cursor as u64 {
            None
        } else {
            let place: usize = cursor - down as usize;
            if place > limit {
                None
            } else {
                Some(place)
            }
        }
    }
}

impl Executor {
    /// A fresh interpreter. `target_size` is the size the patch declares for
    /// its target; it serves to set memory aside and for nothing else.
    pub fn new(target_size: u64) -> (fresh: Executor)
        ensures
            fresh@ == initial_state(),
    {
        let mut target: Vec<u8> = Vec::new();
        if target_size <= usize::MAX as u64 {
            let _ = target.try_reserve(target_size as usize);
        }
        Executor { target, source_cursor: 0, target_cursor: 0 }
    }

    /// Carries out `SourceRead(length)`: appends the `length` bytes of
    /// `source` that stand where the end of the target is. Fails with
    /// `OutOfBoundsCopy` if the source does not reach that far.
    pub fn source_read(self, source: &[u8], length: u64) -> (r: Result<Executor, PatchError>)
        ensures
            spec_source_read(self@, source@, length) == (match r {
                Ok(next) => Ok(next@),
                Err(e) => Err(e),
            }),
    {
        let position: usize = self.target.len();
        if position > source.len() || length > (source.len() - position) as u64 {
            return Err(PatchError::OutOfBoundsCopy);
        }
        let mut next = self;
        let run = slice_subrange(source, position, position + length as usize);
        next.target.extend_from_slice(run);
        assert(next.target@ =~= self.target@ + source@.subrange(
            position as int,
            position + length,
        ));
        Ok(next)
    }

    /// Carries out `TargetRead(length)` on the bytes that follow the control
    /// word: appends the first `length` of them and returns the others.
    /// Fails with `OutOfBoundsCopy` if fewer than `length` bytes are left.
    pub fn target_read<'a>(self, remaining: &'a [u8], length: u64) -> (r: Result<
        (Executor, &'a [u8]),
        PatchError,
    >)
        ensures
            spec_target_read(self@, remaining@, length) == (match r {
                Ok((next, rest)) => Ok((next@, rest@)),
                Err(e) => Err(e),
            }),
    {
        if length > remaining.len() as u64 {
            return Err(PatchError::OutOfBoundsCopy);
        }
        let mut next = self;
        let count: usize = length as usize;
        let literal = slice_subrange(remaining, 0, count);
        next.target.extend_from_slice(literal);
        let rest = slice_subrange(remaining, count, remaining.len());
        assert(next.target@ =~= self.target@ + remaining@.subrange(0, length as int));
        assert(rest@ =~= remaining@.skip(length as int));
        Ok((next, rest))
    }

    /// Carries out `SourceCopy(length)` with the offset `delta`: moves the
    /// source cursor by `delta`, appends the `length` bytes of `source` from
    /// there, and leaves the cursor behind them. Fails with
    /// `OutOfBoundsCopy` if the cursor lands before the start of the source
    /// or the bytes reach past its end.
    pub fn source_copy(self, source: &[u8], delta: i64, length: u64) -> (r: Result<
        Executor,
        PatchError,
    >)
        ensures
            spec_source_copy(self@, source@, delta as int, length) == (match r {
                Ok(next) => Ok(next@),
                Err(e) => Err(e),
            }),
    {
        let start: usize = match move_cursor(self.source_cursor, delta, source.len()) {
            Some(place) => place,
            None => {
                return Err(PatchError::OutOfBoundsCopy);
            },
        };
        if length > (source.len() - start) as u64 {
            return Err(PatchError::OutOfBoundsCopy);
        }
        let end: usize = start + length as usize;
        let mut next = self;
        next.target.extend_from_slice(slice_subrange(source, start, end));
        next.source_cursor = end;
        assert(next.target@ =~= self.target@ + source@.subrange(start as int, start + length));
        Ok(next)
    }

    /// Carries out `TargetCopy(length)` with the offset `delta`: moves the
    /// target cursor by `delta` and copies `length` bytes within the target.
    /// The bytes are copied one at a time, so that a run that reaches into
    /// the bytes it is itself appending repeats them. Fails with
    /// `OutOfBoundsCopy` if the cursor lands before the start of the target
    /// or not before its end.
    pub fn target_copy(self, delta: i64, length: u64) -> (r: Result<Executor, PatchError>)
        ensures
            spec_target_copy(self@, delta as int, length) == (match r {
                Ok(next) => Ok(next@),
                Err(e) => Err(e),
            }),
    {
        let start: usize = match move_cursor(self.target_cursor, delta, self.target.len()) {
            Some(place) => place,
            None => {
                return Err(PatchError::OutOfBoundsCopy);
            },
        };
        if start >= self.target.len() {
            return Err(PatchError::OutOfBoundsCopy);
        }
        let ghost before = self.target@;
        let ghost period: int = before.len() - start;
        let mut next = self;
        let mut cursor: usize = start;
        let mut done: u64 = 0;
        assert(next.target@ =~= before + repeated_run(before, start as int, 0));
        while done < length
            invariant
                done <= length,
                cursor == start + done,
                start < before.len(),
                period == before.len() - start,
                next.target@ == before + repeated_run(before, start as int, done as nat),
                next.source_cursor == self.source_cursor,
            decreases length - done,
        {
            let ghost built = next.target@;
            assert(cursor < next.target.len());
            let byte: u8 = next.target[cursor];
            proof {
                if done >= period {
                    vstd::arithmetic::div_mod::lemma_mod_sub_multiples_vanish(
                        done as int,
                        period,
                    );
                    assert(built[cursor as int] == repeated_run(
                        before,
                        start as int,
                        done as nat,
                    )[done - period]);
                } else {
                    vstd::arithmetic::div_mod::lemma_small_mod(done as nat, period as nat);
                }
                assert(byte == before[start + (done as int) % period]);
            }
            next.target.push(byte);
            assert(next.target@ =~= before + repeated_run(before, start as int, (done + 1) as nat));
            cursor += 1;
            done += 1;
        }
        next.target_cursor = cursor;
        Ok(next)
    }

    /// Reads one instruction from the front of `remaining` and carries it
    /// out. Returns the new state and what is left of `remaining`.
    pub fn step<'a>(self, source: &[u8], remaining: &'a [u8]) -> (r: Result<
        (Executor, &'a [u8]),
        PatchError,
    >)
        ensures
            spec_step(self@, source@, remaining@) == (match r {
                Ok((next, rest)) => Ok((next@, rest@)),
                Err(e) => Err(e),
            }),
    {
        let (word, rest): (u64, &[u8]) = match decodenum(remaining) {
            Ok(pair) => pair,
            Err(e) => {
                return Err(e);
            },
        };
        match action(word) {
            Action::SourceRead(length) => match self.source_read(source, length) {
                Ok(next) => Ok((next, rest)),
                Err(e) => Err(e),
            },
            Action::TargetRead(length) => self.target_read(rest, length),
            Action::SourceCopy(length) => {
                let (offset, rest): (u64, &[u8]) = match decodenum(rest) {
                    Ok(pair) => pair,
                    Err(e) => {
                        return Err(e);
                    },
                };
                match self.source_copy(source, decode_signed(offset), length) {
                    Ok(next) => Ok((next, rest)),
                    Err(e) => Err(e),
                }
            },
            Action::TargetCopy(length) => {
                let (offset, rest): (u64, &[u8]) = match decodenum(rest) {
                    Ok(pair) => pair,
                    Err(e) => {
                        return Err(e);
                    },
                };
                match self.target_copy(decode_signed(offset), length) {
                    Ok(next) => Ok((next, rest)),
                    Err(e) => Err(e),
                }
            },
        }
    }

    /// Carries out the instructions at the front of `instructions` until no
    /// more than the footer is left. Returns the final state and the footer.
    /// Fails with `TruncatedPatchError` if the instructions do not end
    /// exactly twelve bytes before the end.
    pub fn run<'a>(self, source: &[u8], instructions: &'a [u8]) -> (r: Result<
        (Executor, &'a [u8]),
        PatchError,
    >)
        ensures
            spec_run(self@, source@, instructions@) == (match r {
                Ok((last, footer)) => Ok((last@, footer@)),
                Err(e) => Err(e),
            }),
    {
        let mut state = self;
        let mut remaining = instructions;
        while remaining.len() > FOOTER_LEN
            invariant
                spec_loop(self@, source@, instructions@) == spec_loop(
                    state@,
                    source@,
                    remaining@,
                ),
            decreases remaining.len(),
        {
            proof {
                lemma_step_consumes(state@, source@, remaining@);
            }
            match state.step(source, remaining) {
                Ok((next, rest)) => {
                    state = next;
                    remaining = rest;
                },
                Err(e) => {
                    return Err(e);
                },
            }
        }
        if remaining.len() != FOOTER_LEN {
            Err(PatchError::TruncatedPatchError)
        } else {
            Ok((state, remaining))
        }
    }
}

/// Every instruction takes at least one byte from the stream.
pub proof fn lemma_step_consumes(st: ExecutorState, source: Seq<u8>, remaining: Seq<u8>)
    ensures
        spec_step(st, source, remaining) matches Ok((_, rest)) ==> rest.len() < remaining.len(),
{
}

/// Copying within the target byte by byte gives the repeating run: each of
/// the `length` steps reads the byte at the cursor, appends it and moves the
/// cursor on by one, and bytes appended by earlier steps are read by later
/// ones.
pub proof fn lemma_target_copy_is_bytewise(target: Seq<u8>, start: int, length: nat)
    requires
        0 <= start < target.len(),
    ensures
        bytewise_copy(target, start, length) == target + repeated_run(target, start, length),
    decreases length,
{
    let period: int = target.len() - start;
    if length == 0 {
        assert(target + repeated_run(target, start, 0) =~= target);
    } else {
        let grown = target.push(target[start]);
        let rest: nat = (length - 1) as nat;
        lemma_target_copy_is_bytewise(grown, start + 1, rest);
        assert forall|j: int| 0 <= j < rest implies #[trigger] repeated_run(
            grown,
            start + 1,
            rest,
        )[j] == repeated_run(target, start, length)[j + 1] by {
            vstd::arithmetic::div_mod::lemma_mod_add_multiples_vanish(j + 1 - period, period);
            vstd::arithmetic::div_mod::lemma_fundamental_div_mod(j, period);
            vstd::arithmetic::div_mod::lemma_fundamental_div_mod(j + 1, period);
            vstd::arithmetic::div_mod::lemma_mod_bound(j, period);
            vstd::arithmetic::div_mod::lemma_mod_bound(j + 1, period);
            if j % period == period - 1 {
                assert((j + 1) % period == 0) by (nonlinear_arith)
                    requires
                        j == period * (j / period) + j % period,
                        j % period == period - 1,
                        period > 0,
                        j + 1 == period * ((j + 1) / period) + (j + 1) % period,
                        0 <= (j + 1) % period < period,
                ;
            } else {
                assert((j + 1) % period == j % period + 1) by (nonlinear_arith)
                    requires
                        j == period * (j / period) + j % period,
                        0 <= j % period < period - 1,
                        period > 0,
                        j + 1 == period * ((j + 1) / period) + (j + 1) % period,
                        0 <= (j + 1) % period < period,
                ;
            }
        }
        vstd::arithmetic::div_mod::lemma_small_mod(0, period as nat);
        assert(grown + repeated_run(grown, start + 1, rest) =~= target + repeated_run(
            target,
            start,
            length,
        ));
    }
}

/// The loop never gives back more bytes than it was given, and it stops
/// only where no more than twelve bytes are left.
pub proof fn lemma_loop_stops_at_footer(st: ExecutorState, source: Seq<u8>, remaining: Seq<u8>)
    ensures
        spec_loop(st, source, remaining) matches Ok((_, rest)) ==> rest.len() <= FOOTER_LEN
            && rest.len() <= remaining.len(),
    decreases remaining.len(),
{
    if remaining.len() > FOOTER_LEN {
        lemma_step_consumes(st, source, remaining);
        if let Ok((next, rest)) = spec_step(st, source, remaining) {
            lemma_loop_stops_at_footer(next, source, rest);
        }
    }
}

/// An instruction stream that the loop leaves with anything but twelve
/// bytes is truncated: too few bytes were left for the footer. Short of an
/// earlier error there is no other outcome than this one and success.
pub proof fn lemma_wrong_remainder_is_truncated(
    st: ExecutorState,
    source: Seq<u8>,
    instructions: Seq<u8>,
)
    ensures
        match spec_loop(st, source, instructions) {
            Ok((last, rest)) => if rest.len() == FOOTER_LEN {
                spec_run(st, source, instructions) == Ok::<(ExecutorState, Seq<u8>), PatchError>(
                    (last, rest),
                )
            } else {
                rest.len() < FOOTER_LEN && spec_run(st, source, instructions) == Err::<
                    (ExecutorState, Seq<u8>),
                    PatchError,
                >(PatchError::TruncatedPatchError)
            },
            Err(e) => spec_run(st, source, instructions) == Err::<
                (ExecutorState, Seq<u8>),
                PatchError,
            >(e),
        },
        instructions.len() < FOOTER_LEN ==> spec_run(st, source, instructions) == Err::<
            (ExecutorState, Seq<u8>),
            PatchError,
        >(PatchError::TruncatedPatchError),
{
    lemma_loop_stops_at_footer(st, source, instructions);
}

/// What an instruction leaves over is the end of what it was given.
pub proof fn lemma_step_leaves_suffix(st: ExecutorState, source: Seq<u8>, remaining: Seq<u8>)
    ensures
        spec_step(st, source, remaining) matches Ok((_, rest)) ==> rest.len() < remaining.len()
            && rest == remaining.skip(remaining.len() - rest.len()),
{
    if let Ok((_, rest)) = spec_step(st, source, remaining) {
        assert(rest =~= remaining.skip(remaining.len() - rest.len()));
    }
}

/// An instruction looks at no byte behind those it takes: if a byte of what
/// it leaves over is replaced, it does the same, and leaves over the same
/// bytes with that one replaced.
pub proof fn lemma_step_ignores_later_bytes(
    st: ExecutorState,
    source: Seq<u8>,
    remaining: Seq<u8>,
    next: ExecutorState,
    rest: Seq<u8>,
    index: int,
    byte: u8,
)
    requires
        spec_step(st, source, remaining) == Ok::<(ExecutorState, Seq<u8>), PatchError>(
            (next, rest),
        ),
        remaining.len() - rest.len() <= index < remaining.len(),
    ensures
        spec_step(st, source, remaining.update(index, byte)) == Ok::<
            (ExecutorState, Seq<u8>),
            PatchError,
        >((next, rest.update(index - (remaining.len() - rest.len()), byte))),
{
    let (word, after_word): (u64, Seq<u8>) = spec_decodenum(remaining).unwrap();
    let at_word: int = index - (remaining.len() - after_word.len());
    lemma_decode_ignores_later_bytes(remaining, word, after_word, index, byte);
    match spec_action(word) {
        Action::SourceRead(length) => {},
        Action::TargetRead(length) => {
            let changed = after_word.update(at_word, byte);
            assert(changed.subrange(0, length as int) =~= after_word.subrange(0, length as int));
            assert(changed.skip(length as int) =~= rest.update(at_word - length, byte));
        },
        Action::SourceCopy(length) => {
            let offset: u64 = spec_decodenum(after_word).unwrap().0;
            lemma_decode_ignores_later_bytes(after_word, offset, rest, at_word, byte);
        },
        Action::TargetCopy(length) => {
            let offset: u64 = spec_decodenum(after_word).unwrap().0;
            lemma_decode_ignores_later_bytes(after_word, offset, rest, at_word, byte);
        },
    }
}

/// A stream that is carried out successfully has its footer at its end: the
/// twelve bytes handed back are the last twelve bytes of the stream.
pub proof fn lemma_run_hands_back_the_end(
    st: ExecutorState,
    source: Seq<u8>,
    instructions: Seq<u8>,
    last: ExecutorState,
    footer: Seq<u8>,
)
    requires
        spec_run(st, source, instructions) == Ok::<(ExecutorState, Seq<u8>), PatchError>(
            (last, footer),
        ),
    ensures
        instructions.len() >= FOOTER_LEN,
        footer == instructions.skip(instructions.len() - FOOTER_LEN),
    decreases instructions.len(),
{
    if instructions.len() > FOOTER_LEN {
        let (next, rest) = spec_step(st, source, instructions)->Ok_0;
        lemma_step_leaves_suffix(st, source, instructions);
        lemma_run_hands_back_the_end(next, source, rest, last, footer);
        assert(rest.skip(rest.len() - FOOTER_LEN) =~= instructions.skip(
            instructions.len() - FOOTER_LEN,
        ));
    } else {
        assert(instructions.skip(0) =~= instructions);
    }
}

/// The instructions look at no byte of the footer: if a byte of the footer
/// of a stream that is carried out successfully is replaced, the same target
/// is built, and the footer handed back is the changed one.
pub proof fn lemma_run_ignores_footer(
    st: ExecutorState,
    source: Seq<u8>,
    instructions: Seq<u8>,
    last: ExecutorState,
    footer: Seq<u8>,
    index: int,
    byte: u8,
)
    requires
        spec_run(st, source, instructions) == Ok::<(ExecutorState, Seq<u8>), PatchError>(
            (last, footer),
        ),
        instructions.len() - FOOTER_LEN <= index < instructions.len(),
    ensures
        spec_run(st, source, instructions.update(index, byte)) == Ok::<
            (ExecutorState, Seq<u8>),
            PatchError,
        >((last, footer.update(index - (instructions.len() - FOOTER_LEN), byte))),
    decreases instructions.len(),
{
    lemma_run_hands_back_the_end(st, source, instructions, last, footer);
    if instructions.len() > FOOTER_LEN {
        let (next, rest) = spec_step(st, source, instructions)->Ok_0;
        let used: int = instructions.len() - rest.len();
        lemma_step_leaves_suffix(st, source, instructions);
        lemma_run_hands_back_the_end(next, source, rest, last, footer);
        lemma_step_ignores_later_bytes(st, source, instructions, next, rest, index, byte);
        lemma_run_ignores_footer(next, source, rest, last, footer, index - used, byte);
    }
}

/// Whether both cursors stand inside their buffers: the source cursor
/// between zero and the length of the source, the target cursor between zero
/// and the length of the target built so far.
pub open spec fn cursors_in_bounds(st: ExecutorState, source: Seq<u8>) -> bool {
    &&& 0 <= st.source_cursor <= source.len()
    &&& 0 <= st.target_cursor <= st.target.len()
}

/// Every instruction that succeeds makes the target longer and leaves the
/// bytes that were there as they were: the target only grows.
pub proof fn lemma_step_extends_target(st: ExecutorState, source: Seq<u8>, remaining: Seq<u8>)
    ensures
        spec_step(st, source, remaining) matches Ok((next, _)) ==> next.target.len()
            > st.target.len() && next.target.subrange(0, st.target.len() as int) == st.target,
{
    if let Ok((next, _)) = spec_step(st, source, remaining) {
        assert(next.target.subrange(0, st.target.len() as int) =~= st.target);
    }
}

/// Cursors that stand inside their buffers still do after an instruction
/// that succeeds, however far its offset moved them.
pub proof fn lemma_step_keeps_cursors_in_bounds(
    st: ExecutorState,
    source: Seq<u8>,
    remaining: Seq<u8>,
)
    requires
        cursors_in_bounds(st, source),
    ensures
        spec_step(st, source, remaining) matches Ok((next, _)) ==> cursors_in_bounds(
            next,
            source,
        ),
{
}

/// From the first instruction to the last the target only grows and the
/// cursors stay inside their buffers: the state that the loop stops in holds
/// the target it started from at its front.
pub proof fn lemma_loop_extends_target(st: ExecutorState, source: Seq<u8>, remaining: Seq<u8>)
    requires
        cursors_in_bounds(st, source),
    ensures
        spec_loop(st, source, remaining) matches Ok((last, _)) ==> cursors_in_bounds(
            last,
            source,
        ) && last.target.len() >= st.target.len() && last.target.subrange(
            0,
            st.target.len() as int,
        ) == st.target,
    decreases remaining.len(),
{
    if remaining.len() > FOOTER_LEN {
        lemma_step_consumes(st, source, remaining);
        lemma_step_extends_target(st, source, remaining);
        lemma_step_keeps_cursors_in_bounds(st, source, remaining);
        if let Ok((next, rest)) = spec_step(st, source, remaining) {
            lemma_loop_extends_target(next, source, rest);
            if let Ok((last, _)) = spec_loop(next, source, rest) {
                assert(last.target.subrange(0, st.target.len() as int) =~= next.target.subrange(
                    0,
                    st.target.len() as int,
                ));
            }
        }
    } else {
        assert(st.target.subrange(0, st.target.len() as int) =~= st.target);
    }
}

} // verus!
