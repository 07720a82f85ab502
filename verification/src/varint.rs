//! The variable-length integers of the BPS format.
//!
//! A number is written least significant digit first, seven bits to a byte.
//! The last byte has its high bit set; the others have it clear. Before each
//! further byte one is subtracted from what is left of the number, so that a
//! longer encoding never repeats a value that a shorter one already has:
//! every number has exactly one encoding.

use crate::error::PatchError;
use vstd::prelude::*;
use vstd::slice::slice_subrange;

verus! {

/// How many bytes stand before the first byte of `s` that has its high bit
/// set; `s.len()` if no byte has.
pub open spec fn terminal_index(s: Seq<u8>) -> nat
    decreases s.len(),
{
    if s.len() == 0 || s[0] >= 0x80 {
        0
    } else {
        1 + terminal_index(s.drop_first())
    }
}

/// The number that the bytes at the front of `s` stand for, up to and
/// including the first byte with its high bit set.
pub open spec fn varint_value(s: Seq<u8>) -> nat
    decreases s.len(),
{
    if s.len() == 0 {
        0
    } else if s[0] >= 0x80 {
        (s[0] - 0x80) as nat
    } else {
        s[0] as nat + 128 * (1 + varint_value(s.drop_first()))
    }
}

/// What decoding `s` gives: the number at its front and the bytes behind it.
/// There is none if no byte of `s` has its high bit set, or if the number
/// does not fit in 64 bits.
pub open spec fn spec_decodenum(s: Seq<u8>) -> Option<(u64, Seq<u8>)> {
    if terminal_index(s) < s.len() && varint_value(s) <= u64::MAX {
        Some((varint_value(s) as u64, s.skip(terminal_index(s) as int + 1)))
    } else {
        None
    }
}

/// The encoding of `v`.
pub open spec fn spec_encodenum(v: nat) -> Seq<u8>
    decreases v,
{
    if v < 128 {
        seq![(v + 128) as u8]
    } else {
        seq![(v % 128) as u8] + spec_encodenum((v / 128 - 1) as nat)
    }
}

/// The signed number that `num` stands for: its lowest bit is the sign, the
/// rest the magnitude.
pub open spec fn spec_decode_signed(num: u64) -> int {
    if num % 2 == 0 {
        (num / 2) as int
    } else {
        -((num / 2) as int)
    }
}

proof fn lemma_skip_step(s: Seq<u8>, i: int)
    requires
        0 <= i < s.len(),
    ensures
        s.skip(i).len() == s.len() - i,
        s.skip(i)[0] == s[i],
        s.skip(i).drop_first() == s.skip(i + 1),
{
    assert(s.skip(i).drop_first() =~= s.skip(i + 1));
}

/// Reads one number from the front of `src` and returns it with the bytes
/// that follow it. Fails with `MalformedVarint` if `src` ends before a byte
/// with its high bit set is found, or if the number does not fit in 64 bits.
pub fn decodenum(src: &[u8]) -> (r: Result<(u64, &[u8]), PatchError>)
    ensures
        spec_decodenum(src@) == (match r {
            Ok((value, rest)) => Some((value, rest@)),
            Err(_) => None,
        }),
        r matches Err(e) ==> e == PatchError::MalformedVarint,
{
    let mut data: u64 = 0;
    let mut shift: u64 = 1;
    let mut i: usize = 0;
    proof {
        assert(src@.skip(0) =~= src@);
    }
    while i < src.len()
        invariant
            i <= src.len(),
            shift >= 1,
            terminal_index(src@) == i + terminal_index(src@.skip(i as int)),
            varint_value(src@) == data + shift * varint_value(src@.skip(i as int)),
        decreases src.len() - i,
    {
        let x: u8 = src[i];
        let low: u64 = (x & 0x7f) as u64;
        let ghost tail: nat = varint_value(src@.skip(i as int));
        let ghost next: nat = varint_value(src@.skip(i + 1));
        proof {
            lemma_skip_step(src@, i as int);
            assert(x & 0x7f == x % 128) by (bit_vector);
            assert((x & 0x80 != 0) == (x >= 0x80)) by (bit_vector);
            assert(shift * tail >= shift * low) by (nonlinear_arith)
                requires
                    tail >= low,
                    shift >= 1,
            ;
        }
        let term: u64 = match low.checked_mul(shift) {
            Some(t) => t,
            None => {
                return Err(PatchError::MalformedVarint);
            },
        };
        let sum: u64 = match data.checked_add(term) {
            Some(t) => t,
            None => {
                return Err(PatchError::MalformedVarint);
            },
        };
        if x & 0x80 != 0 {
            let rest = slice_subrange(src, i + 1, src.len());
            assert(rest@ =~= src@.skip(i + 1));
            return Ok((sum, rest));
        }
        proof {
            assert(shift * tail == shift * low + shift * 128 + shift * 128 * next)
                by (nonlinear_arith)
                requires
                    tail == low + 128 * (1 + next),
            ;
        }
        let wider: u64 = match shift.checked_mul(128) {
            Some(t) => t,
            None => {
                return Err(PatchError::MalformedVarint);
            },
        };
        let carried: u64 = match sum.checked_add(wider) {
            Some(t) => t,
            None => {
                return Err(PatchError::MalformedVarint);
            },
        };
        data = carried;
        shift = wider;
        i += 1;
    }
    Err(PatchError::MalformedVarint)
}

/// Appends the encoding of `src` to `dst`.
pub fn encodenum(src: u64, dst: &mut Vec<u8>)
    ensures
        final(dst)@ == old(dst)@ + spec_encodenum(src as nat),
{
    let mut left: u64 = src;
    loop
        invariant
            old(dst)@ + spec_encodenum(src as nat) == dst@ + spec_encodenum(left as nat),
        decreases left,
    {
        let digit: u8 = (left & 0x7f) as u8;
        let higher: u64 = left >> 7;
        proof {
            assert(left & 0x7f == left % 128) by (bit_vector);
            assert(left >> 7 == left / 128) by (bit_vector);
            assert(digit | 0x80 == digit + 128) by (bit_vector)
                requires
                    digit < 128,
            ;
        }
        if higher == 0 {
            dst.push(digit | 0x80);
            return ;
        }
        let ghost before = dst@;
        dst.push(digit);
        assert(before + (seq![digit] + spec_encodenum((higher - 1) as nat)) =~= dst@
            + spec_encodenum((higher - 1) as nat));
        left = higher - 1;
    }
}

/// Turns a decoded number into the signed offset it stands for.
pub fn decode_signed(num: u64) -> (r: i64)
    ensures
        r == spec_decode_signed(num),
{
    let magnitude: u64 = num >> 1;
    proof {
        assert(num >> 1 == num / 2) by (bit_vector);
        assert((num & 1 == 0) == (num % 2 == 0)) by (bit_vector);
    }
    let half: i64 = magnitude as i64;
    if num & 1 == 0 {
        half
    } else {
        -half
    }
}

proof fn lemma_encoding_read_back(v: nat, tail: Seq<u8>)
    ensures
        terminal_index(spec_encodenum(v) + tail) == spec_encodenum(v).len() - 1,
        varint_value(spec_encodenum(v) + tail) == v,
    decreases v,
{
    let whole = spec_encodenum(v) + tail;
    if v >= 128 {
        let higher: nat = (v / 128 - 1) as nat;
        lemma_encoding_read_back(higher, tail);
        assert(whole[0] == (v % 128) as u8);
        assert(whole.drop_first() =~= spec_encodenum(higher) + tail);
    } else {
        assert(whole[0] == (v + 128) as u8);
    }
}

proof fn lemma_front_is_encoding(s: Seq<u8>)
    requires
        terminal_index(s) < s.len(),
    ensures
        s == spec_encodenum(varint_value(s)) + s.skip(terminal_index(s) as int + 1),
        spec_encodenum(varint_value(s)).len() == terminal_index(s) + 1,
    decreases s.len(),
{
    let v: nat = varint_value(s);
    if s[0] >= 0x80 {
        assert(spec_encodenum(v) == seq![s[0]]);
        assert(s =~= seq![s[0]] + s.skip(1));
    } else {
        let inner = s.drop_first();
        lemma_front_is_encoding(inner);
        assert(v % 128 == s[0] && v / 128 - 1 == varint_value(inner));
        assert(spec_encodenum(v) == seq![s[0]] + spec_encodenum(varint_value(inner)));
        assert(inner.skip(terminal_index(inner) as int + 1) =~= s.skip(
            terminal_index(s) as int + 1,
        ));
        assert(s =~= seq![s[0]] + inner);
        assert(s =~= spec_encodenum(v) + s.skip(terminal_index(s) as int + 1));
    }
}

/// Round trip: decoding the encoding of a 64-bit number gives the number
/// back and leaves no byte over.
pub proof fn lemma_decode_encode(v: u64)
    ensures
        spec_decodenum(spec_encodenum(v as nat)) == Some((v, Seq::<u8>::empty())),
{
    lemma_decode_encode_followed(v, Seq::empty());
    assert(spec_encodenum(v as nat) + Seq::<u8>::empty() =~= spec_encodenum(v as nat));
}

/// Decoding reads one number only: from the encoding of `v` followed by any
/// bytes it gives `v` and hands those bytes back untouched.
pub proof fn lemma_decode_encode_followed(v: u64, tail: Seq<u8>)
    ensures
        spec_decodenum(spec_encodenum(v as nat) + tail) == Some((v, tail)),
{
    let whole = spec_encodenum(v as nat) + tail;
    lemma_encoding_read_back(v as nat, tail);
    lemma_encoding_nonempty(v as nat);
    assert(whole.skip(terminal_index(whole) as int + 1) =~= tail);
}

/// An encoding has at least one byte.
pub proof fn lemma_encoding_nonempty(v: nat)
    ensures
        spec_encodenum(v).len() >= 1,
    decreases v,
{
    if v >= 128 {
        lemma_encoding_nonempty((v / 128 - 1) as nat);
    }
}

/// Encoding is injective: two numbers with the same encoding are the same
/// number, so distinct numbers never share an encoding, of equal length or
/// not.
pub proof fn lemma_encode_injective(a: nat, b: nat)
    ensures
        spec_encodenum(a) == spec_encodenum(b) <==> a == b,
{
    lemma_encoding_read_back(a, Seq::empty());
    lemma_encoding_read_back(b, Seq::empty());
}

/// Canonicality: bytes that decode to `v` can only be the encoding of `v`,
/// followed by what decoding leaves over. No other encoding of `v` is
/// accepted, shorter or longer or of the same length.
pub proof fn lemma_encoding_unique(s: Seq<u8>, v: u64, rest: Seq<u8>)
    requires
        spec_decodenum(s) == Some((v, rest)),
    ensures
        s == spec_encodenum(v as nat) + rest,
        s.len() == spec_encodenum(v as nat).len() + rest.len(),
{
    lemma_front_is_encoding(s);
}

/// A smaller number never has a longer encoding than a larger one.
pub proof fn lemma_encoding_length_monotone(a: nat, b: nat)
    requires
        a <= b,
    ensures
        spec_encodenum(a).len() <= spec_encodenum(b).len(),
    decreases b,
{
    lemma_encoding_nonempty(b);
    if a >= 128 {
        lemma_encoding_length_monotone((a / 128 - 1) as nat, (b / 128 - 1) as nat);
    }
}

/// An even number `2 * m` stands for the offset `m`, the odd number
/// `2 * m + 1` for `-m`.
pub proof fn lemma_decode_signed_halves(m: u64)
    requires
        m <= i64::MAX,
    ensures
        spec_decode_signed((2 * m) as u64) == m,
        spec_decode_signed((2 * m + 1) as u64) == -m,
{
}

proof fn lemma_front_ignores_later_bytes(s: Seq<u8>, index: int, byte: u8)
    requires
        terminal_index(s) < index < s.len(),
    ensures
        terminal_index(s.update(index, byte)) == terminal_index(s),
        varint_value(s.update(index, byte)) == varint_value(s),
    decreases s.len(),
{
    if s[0] < 0x80 {
        lemma_front_ignores_later_bytes(s.drop_first(), index - 1, byte);
        assert(s.update(index, byte).drop_first() =~= s.drop_first().update(index - 1, byte));
    }
}

/// Decoding looks at no byte behind the number it reads: if a byte of what
/// it leaves over is replaced, it gives the same number, and leaves over the
/// same bytes with that one replaced.
pub proof fn lemma_decode_ignores_later_bytes(
    s: Seq<u8>,
    v: u64,
    rest: Seq<u8>,
    index: int,
    byte: u8,
)
    requires
        spec_decodenum(s) == Some((v, rest)),
        s.len() - rest.len() <= index < s.len(),
    ensures
        spec_decodenum(s.update(index, byte)) == Some(
            (v, rest.update(index - (s.len() - rest.len()), byte)),
        ),
{
    lemma_front_ignores_later_bytes(s, index, byte);
    let used: int = terminal_index(s) as int + 1;
    assert(s.update(index, byte).skip(used) =~= s.skip(used).update(index - used, byte));
}

} // verus!
