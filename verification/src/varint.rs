//! Zigzag mapping of signed deltas and the five-bit varint packing.
//!
//! A packed unsigned value is rendered as a sequence of bytes, each holding
//! five payload bits plus a continuation bit, offset by 63 into printable
//! ASCII. Unpacking reads bytes until the continuation bit is clear, until
//! the input runs out, or until a malformed byte or an accumulator overflow
//! stops it.

use vstd::prelude::*;
use vstd::arithmetic::power2::{
    pow2, lemma_pow2_adds, lemma_pow2_strictly_increases, lemma2_to64, lemma2_to64_rest,
};
use vstd::bits::{lemma_u64_shl_is_mul, lemma_u64_shr_is_div, lemma_u64_pow2_no_overflow};
use crate::errors::PolylineError;

verus! {

/// The zigzag image of a signed delta: non-negative deltas map to even
/// numbers, negative deltas to odd numbers, so small magnitudes of either
/// sign stay small.
pub open spec fn zigzag(d: int) -> nat {
    if d >= 0 {
        (2 * d) as nat
    } else {
        (-2 * d - 1) as nat
    }
}

/// The inverse of `zigzag`.
pub open spec fn unzigzag(v: nat) -> int {
    if v % 2 == 0 {
        (v / 2) as int
    } else {
        -(((v + 1) / 2) as int)
    }
}

/// Zigzag and unzigzag invert each other.
pub proof fn lemma_zigzag_roundtrip(d: int)
    ensures
        unzigzag(zigzag(d)) == d,
{
}

/// The zigzag image of a bounded delta is bounded.
pub proof fn lemma_zigzag_bound(d: int, bound: int)
    requires
        -bound <= d <= bound,
    ensures
        zigzag(d) <= 2 * bound,
{
}

/// A delta recovered from a bounded unsigned value is bounded.
pub proof fn lemma_unzigzag_bound(v: nat, bound: nat)
    requires
        v < 2 * bound,
    ensures
        -(bound as int) <= unzigzag(v) < bound,
{
}

/// The bytes that pack an unsigned value: five payload bits per byte, low
/// groups first, continuation bit 0x20 on every byte but the last, all
/// offset by 63.
pub open spec fn varint_bytes(v: nat) -> Seq<u8>
    decreases v,
{
    if v < 32 {
        seq![(v + 63) as u8]
    } else {
        seq![(95 + v % 32) as u8] + varint_bytes(v / 32)
    }
}

/// Packed bytes are printable ASCII, between 63 and 126.
pub proof fn lemma_varint_bytes_range(v: nat)
    ensures
        varint_bytes(v).len() >= 1,
        forall|k: int| 0 <= k < varint_bytes(v).len() ==> 63 <= #[trigger] varint_bytes(v)[k] <= 126,
    decreases v,
{
    if v >= 32 {
        lemma_varint_bytes_range(v / 32);
    }
}

/// What one unpacking pass found: a value and the index just past its last
/// byte, or the index of the byte that stopped it.
pub enum VarintParse {
    /// A value ended by a byte without the continuation bit, or by the end
    /// of the input.
    Parsed { value: nat, next: int },
    /// A byte below 63, or a continuation past the 64-bit accumulator.
    Failed { idx: int },
}

/// Unpacking from index `i` with `acc` already accumulated below bit
/// position `shift`. Mirrors the unpacker: a byte below 63 or a shift past
/// `64 - 5` fails at that byte's index; a byte without the continuation bit,
/// or the end of the input, ends the value.
pub open spec fn parse_varint_from(bytes: Seq<u8>, i: int, shift: nat, acc: nat) -> VarintParse
    decreases bytes.len() - i,
{
    if i >= bytes.len() {
        VarintParse::Parsed { value: acc, next: i }
    } else if bytes[i] < 63 || shift > 59 {
        VarintParse::Failed { idx: i }
    } else {
        let group = (bytes[i] - 63) as nat;
        let acc2 = acc + (group % 32) * pow2(shift);
        if group < 32 {
            VarintParse::Parsed { value: acc2, next: i + 1 }
        } else {
            parse_varint_from(bytes, i + 1, shift + 5, acc2)
        }
    }
}

/// Unpacking one whole varint starting at `start`.
pub open spec fn parse_varint(bytes: Seq<u8>, start: int) -> VarintParse {
    parse_varint_from(bytes, start, 0, 0)
}

/// Unpacking never moves backwards, and always consumes at least one byte
/// when one is there.
pub proof fn lemma_parse_advances(bytes: Seq<u8>, i: int, shift: nat, acc: nat)
    ensures
        parse_varint_from(bytes, i, shift, acc) matches VarintParse::Parsed { next, .. } ==> {
            &&& i <= next <= bytes.len() || next == i
            &&& i < bytes.len() ==> i + 1 <= next <= bytes.len()
        },
    decreases bytes.len() - i,
{
    if i < bytes.len() && !(bytes[i] < 63 || shift > 59) {
        let group = (bytes[i] - 63) as nat;
        let acc2 = acc + (group % 32) * pow2(shift);
        if group >= 32 {
            lemma_parse_advances(bytes, i + 1, shift + 5, acc2);
        }
    }
}

/// A value unpacked from five-bit groups at group-aligned shifts stays below
/// `2^60`.
pub proof fn lemma_parse_value_bound(bytes: Seq<u8>, i: int, shift: nat, acc: nat)
    requires
        shift % 5 == 0,
        shift <= 60,
        acc < pow2(shift),
    ensures
        parse_varint_from(bytes, i, shift, acc) matches VarintParse::Parsed { value, .. }
            ==> value < pow2(60),
    decreases bytes.len() - i,
{
    lemma_pow2_strictly_increases(shift, 61);
    lemma2_to64();
    lemma2_to64_rest();
    if i >= bytes.len() {
        if shift < 60 {
            lemma_pow2_strictly_increases(shift, 60);
        }
    } else if bytes[i] < 63 || shift > 59 {
    } else {
        let group = (bytes[i] - 63) as nat;
        let acc2 = acc + (group % 32) * pow2(shift);
        assert(acc2 < pow2((shift + 5) as nat)) by {
            assert((group % 32) * pow2(shift) <= 31 * pow2(shift)) by (nonlinear_arith)
                requires
                    group % 32 < 32,
                    pow2(shift) >= 0,
            ;
            lemma_pow2_adds(shift, 5);
        }
        if group < 32 {
            if shift + 5 < 60 {
                lemma_pow2_strictly_increases((shift + 5) as nat, 60);
            }
            assert(shift + 5 <= 60);
        } else {
            lemma_parse_value_bound(bytes, i + 1, (shift + 5) as nat, acc2);
        }
    }
}

/// Unpacking at a position whose bytes are the packing of `v` finds exactly
/// `v` (shifted into place above `acc`) and stops right after those bytes.
/// Holds whenever the packed groups stay below the 64-bit accumulator
/// guard, i.e. `v < 2^(60 - shift)`.
pub proof fn lemma_parse_at(bytes: Seq<u8>, p: int, v: nat, shift: nat, acc: nat)
    requires
        0 <= p,
        p + varint_bytes(v).len() <= bytes.len(),
        bytes.subrange(p, p + varint_bytes(v).len() as int) == varint_bytes(v),
        shift % 5 == 0,
        shift <= 55,
        v < pow2((60 - shift) as nat),
    ensures
        parse_varint_from(bytes, p, shift, acc) == (VarintParse::Parsed {
            value: acc + v * pow2(shift),
            next: p + varint_bytes(v).len(),
        }),
    decreases v,
{
    let vb = varint_bytes(v);
    assert(bytes[p] == vb[0]) by {
        assert(bytes.subrange(p, p + vb.len() as int)[0] == bytes[p]);
    }
    lemma2_to64();
    if v < 32 {
        assert(vb == seq![(v + 63) as u8]);
        assert(bytes[p] == (v + 63) as u8);
        assert((((v + 63) as u8) - 63) as nat == v);
        assert((v % 32) * pow2(shift) == v * pow2(shift));
    } else {
        assert(vb == seq![(95 + v % 32) as u8] + varint_bytes(v / 32));
        let b0 = (95 + v % 32) as u8;
        assert(bytes[p] == b0 && 95 <= b0 <= 126);
        let group = (b0 - 63) as nat;
        assert(group == 32 + v % 32 && group >= 32);
        assert(group % 32 == v % 32);
        let acc2 = acc + (group % 32) * pow2(shift);
        // The tail groups stay under the guard, so the shift never passes 55.
        assert(shift < 55) by {
            if shift == 55 {
                assert(pow2((60 - shift) as nat) == 32);
            }
        }
        assert(v / 32 < pow2((60 - (shift + 5)) as nat)) by {
            lemma_pow2_adds((55 - shift) as nat, 5);
            assert(v / 32 < pow2((55 - shift) as nat)) by (nonlinear_arith)
                requires
                    v < pow2((55 - shift) as nat) * 32,
                    pow2((55 - shift) as nat) > 0,
            ;
        }
        let vbr = varint_bytes(v / 32);
        assert(bytes.subrange(p + 1, p + 1 + vbr.len() as int) == vbr) by {
            assert forall|k: int| 0 <= k < vbr.len() implies bytes.subrange(
                p + 1,
                p + 1 + vbr.len() as int,
            )[k] == vbr[k] by {
                assert(bytes.subrange(p, p + vb.len() as int)[k + 1] == bytes[p + 1 + k]);
                assert(vb[k + 1] == vbr[k]);
            }
            assert(bytes.subrange(p + 1, p + 1 + vbr.len() as int) =~= vbr);
        }
        lemma_parse_at(bytes, p + 1, v / 32, (shift + 5) as nat, acc2);
        // Reassemble the value: low group plus the tail shifted five more bits.
        assert(acc2 + (v / 32) * pow2((shift + 5) as nat) == acc + v * pow2(shift)) by {
            lemma_pow2_adds(shift, 5);
            vstd::arithmetic::div_mod::lemma_fundamental_div_mod(v as int, 32);
            assert((v % 32) * pow2(shift) + (v / 32) * (pow2(shift) * 32) == v * pow2(shift))
                by (nonlinear_arith)
                requires
                    v == 32 * (v / 32) + v % 32,
            ;
        }
    }
}

/// Oring a five-bit group shifted above everything accumulated so far is the
/// same as adding it, and keeps the total below the next group boundary.
proof fn lemma_or_shift_is_add(acc: u64, g: u64, shift: u64)
    requires
        shift <= 55,
        g < 32,
        acc < pow2(shift as nat),
    ensures
        g * pow2(shift as nat) <= u64::MAX,
        (acc | (g << shift)) == acc + g * pow2(shift as nat),
        acc + g * pow2(shift as nat) < pow2((shift + 5) as nat),
{
    lemma_u64_pow2_no_overflow(shift as nat);
    lemma2_to64();
    lemma2_to64_rest();
    if shift < 55 {
        lemma_pow2_strictly_increases(shift as nat, 55);
    }
    assert(g * pow2(shift as nat) <= 31 * pow2(55)) by (nonlinear_arith)
        requires
            g < 32,
            0 < pow2(shift as nat) <= pow2(55),
    ;
    lemma_u64_shl_is_mul(g, shift);
    lemma_u64_shl_is_mul(1u64, shift);
    assert((acc | (g << shift)) == acc + (g << shift)) by (bit_vector)
        requires
            acc < (1u64 << shift),
            g < 32,
            shift <= 55,
    ;
    assert(acc + g * pow2(shift as nat) < 32 * pow2(shift as nat)) by (nonlinear_arith)
        requires
            acc < pow2(shift as nat),
            g < 32,
            0 < pow2(shift as nat),
    ;
    lemma_pow2_adds(shift as nat, 5);
}

/// The zigzag image of a delta, computed on machine integers.
fn zigzag_encode(delta: i64) -> (v: u64)
    requires
        delta > i64::MIN,
    ensures
        v == zigzag(delta as int),
{
    if delta >= 0 {
        (delta as u64) * 2
    } else {
        ((-delta) as u64) * 2 - 1
    }
}

/// The delta behind a zigzag image, computed on machine integers.
fn zigzag_decode(v: u64) -> (d: i64)
    ensures
        d == unzigzag(v as nat),
{
    let half = v / 2;
    if v % 2 == 1 {
        -(half as i64) - 1
    } else {
        half as i64
    }
}

/// Zigzag a delta and append its packed bytes to the output.
pub(crate) fn encode(delta: i64, output: &mut Vec<u8>)
    requires
        delta > i64::MIN,
    ensures
        final(output)@ == old(output)@ + varint_bytes(zigzag(delta as int)),
{
    let mut value: u64 = zigzag_encode(delta);
    let ghost v0: nat = value as nat;
    while value >= 32
        invariant
            old(output)@ + varint_bytes(v0) == output@ + varint_bytes(value as nat),
        decreases value,
    {
        proof {
            assert((0x20u64 | (value & 0x1f)) < 64) by (bit_vector);
            assert(value >= 32 ==> (0x20u64 | (value & 0x1f)) + 63 == 95 + (value % 32)
                && (value & 0x1f) == value % 32) by (bit_vector);
            lemma_u64_shr_is_div(value, 5);
            lemma2_to64();
            assert(varint_bytes(value as nat) == seq![(95 + (value as nat) % 32) as u8]
                + varint_bytes((value as nat) / 32));
            assert(old(output)@ + varint_bytes(v0)
                == (output@ + seq![(95 + (value as nat) % 32) as u8])
                    + varint_bytes((value as nat) / 32));
        }
        let byte: u8 = ((0x20u64 | (value & 0x1f)) + 63) as u8;
        output.push(byte);
        value = value >> 5;
    }
    let byte: u8 = (value + 63) as u8;
    output.push(byte);
    proof {
        assert(varint_bytes(value as nat) == seq![((value as nat) + 63) as u8]);
        assert(output@ == old(output)@ + varint_bytes(v0));
    }
}

/// Unpack one varint starting at `start` and unzigzag it: the signed delta
/// and the index of the first unread byte, or the decode error the unpacker
/// stopped with.
pub(crate) fn decode_next(bytes: &[u8], start: usize) -> (r: Result<(i64, usize), PolylineError>)
    requires
        start <= bytes@.len(),
    ensures
        match parse_varint(bytes@, start as int) {
            VarintParse::Parsed { value, next } => {
                &&& r matches Ok(p)
                &&& p.0 == unzigzag(value)
                &&& p.1 == next
            },
            VarintParse::Failed { idx } => {
                &&& r matches Err(e)
                &&& e == (PolylineError::DecodeError { idx: idx as usize })
            },
        },
{
    let mut i: usize = start;
    let mut shift: u32 = 0;
    let mut acc: u64 = 0;
    proof {
        lemma2_to64();
    }
    while i < bytes.len()
        invariant
            start <= i <= bytes@.len(),
            shift % 5 == 0,
            shift <= 60,
            acc < pow2(shift as nat),
            parse_varint(bytes@, start as int) == parse_varint_from(
                bytes@,
                i as int,
                shift as nat,
                acc as nat,
            ),
        decreases bytes@.len() - i,
    {
        let byte = bytes[i];
        if byte < 63 || shift > 59 {
            return Err(PolylineError::DecodeError { idx: i });
        }
        let b = byte - 63;
        let g: u64 = (b & 0x1f) as u64;
        proof {
            assert((b & 0x1f) == b % 32 && (b & 0x1f) < 32) by (bit_vector);
            lemma_or_shift_is_add(acc, g, shift as u64);
        }
        acc = acc | (g << (shift as u64));
        i = i + 1;
        if b < 0x20 {
            return Ok((zigzag_decode(acc), i));
        }
        shift = shift + 5;
    }
    Ok((zigzag_decode(acc), i))
}

} // verus!
