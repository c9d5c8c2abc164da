//! The layout of a field: which bits of the stream hold which digits of its
//! value.
//!
//! A field of `width` bits that begins at place `start` of the stream takes
//! places `start` to `start + width - 1`. The bytes of the stream cut it into
//! parts. The first part holds the lowest digits of the value, the next part
//! the digits above them, and so on; within a part the digits stand from the
//! most significant down. A field that begins and ends at byte boundaries
//! thus has its least significant byte first.

use vstd::prelude::*;
use vstd::arithmetic::div_mod::{lemma_mod_breakdown, lemma_small_mod};
use vstd::arithmetic::power2::{lemma2_to64, lemma_pow2_pos, lemma_pow2_unfold, pow2};
use vstd::bits::lemma_u64_shr_is_div;

verus! {

/// The binary digit of `value` that has weight 2^i.
pub open spec fn bit_of(value: u64, i: nat) -> bool {
    i < 64 && (value >> (i as u64)) & 1 == 1
}

/// The low digits of a number, least significant first.
pub open spec fn low_digits(value: u64, width: nat) -> Seq<bool> {
    Seq::new(width, |i: int| bit_of(value, i as nat))
}

/// The number with the given binary digits, least significant first.
///
/// Opaque: `lemma_number_of_low_digits` says what it is for the digits of a
/// `u64`, and `reveal(number)` opens it.
#[verifier::opaque]
pub open spec fn number(digits: Seq<bool>) -> nat
    decreases digits.len(),
{
    if digits.len() == 0 {
        0
    } else {
        number(digits.drop_last()) + if digits.last() {
            pow2((digits.len() - 1) as nat)
        } else {
            0
        }
    }
}

/// Where the part of a field that shares a byte with place `i` begins.
/// Places are counted from the start of the field, which lies at place
/// `start` of the stream: the part begins with the byte, or with the field
/// where that comes later.
pub open spec fn part_start(start: nat, i: int) -> int {
    let byte_start = (start + i) - (start + i) % 8 - start;
    if byte_start < 0 {
        0
    } else {
        byte_start
    }
}

/// Where the part of a field that shares a byte with place `i` ends: one
/// past its last place, which is the last of the byte, or of the field where
/// that comes sooner.
pub open spec fn part_end(start: nat, width: nat, i: int) -> int {
    let byte_end = (start + i) - (start + i) % 8 + 8 - start;
    if byte_end > width {
        width as int
    } else {
        byte_end
    }
}

/// The place of a field that holds the digit of weight 2^i. A part that
/// takes places `lo` to `hi - 1` of the field holds the digits of weight
/// 2^lo to 2^(hi - 1), the greatest first: places and weights run against
/// each other within the part. So the same function gives, for place `i`, the
/// weight of the digit that it holds.
///
/// Opaque: `lemma_mirror` and `lemma_mirror_in_part` say what it is, and
/// `reveal(mirror)` opens it.
#[verifier::opaque]
pub open spec fn mirror(start: nat, width: nat, i: int) -> int {
    part_start(start, i) + part_end(start, width, i) - 1 - i
}

/// The bits that a field of `width` bits takes in the stream when it begins at
/// place `start`: the low `width` digits of `value`.
pub open spec fn field_bits(start: nat, value: u64, width: nat) -> Seq<bool> {
    Seq::new(width, |k: int| bit_of(value, mirror(start, width, k) as nat))
}

/// The stream after a field of `width` bits, with the low digits of `value`,
/// was added at its end.
pub open spec fn append_field(stream: Seq<bool>, value: u64, width: nat) -> Seq<bool> {
    stream + field_bits(stream.len(), value, width)
}

/// The `width` bits of a stream that begin at place `start`.
pub open spec fn span(stream: Seq<bool>, start: nat, width: nat) -> Seq<bool> {
    stream.subrange(start as int, (start + width) as int)
}

/// The digits of a field, least significant first, from the bits that it
/// takes in the stream.
pub open spec fn field_digits(start: nat, bits: Seq<bool>) -> Seq<bool> {
    Seq::new(bits.len(), |i: int| bits[mirror(start, bits.len(), i)])
}

/// The value of the field that begins at place `start` and takes `bits`, a
/// number below 2 to the power of their count.
pub open spec fn field_value(start: nat, bits: Seq<bool>) -> nat {
    number(field_digits(start, bits))
}

/// `mirror` stays within the field and within the part, and undoes itself.
pub proof fn lemma_mirror(start: nat, width: nat, i: int)
    requires
        0 <= i < width,
    ensures
        0 <= mirror(start, width, i) < width,
        part_start(start, i) <= mirror(start, width, i) < part_end(start, width, i),
        mirror(start, width, mirror(start, width, i)) == i,
{
    reveal(mirror);
    let m = mirror(start, width, i);
    assert(part_start(start, i) <= i < part_end(start, width, i));
    assert(part_start(start, i) <= m < part_end(start, width, i));
    assert((start + m) / 8 == (start + i) / 8);
}

/// A part of a field that begins with the digit of weight 2^done, at bit
/// `offset` of byte `cursor`, and holds `count` digits, holds them in falling
/// order.
pub proof fn lemma_mirror_in_part(
    start: nat,
    width: nat,
    cursor: int,
    offset: int,
    done: int,
    count: int,
    i: int,
)
    requires
        0 <= done <= i < done + count <= width,
        0 <= offset < 8,
        8 * cursor + offset == start + done,
        done == 0 || offset == 0,
        offset + count <= 8,
        done + count == width || offset + count == 8,
    ensures
        mirror(start, width, i) == done + (done + count - 1 - i),
{
    reveal(mirror);
    let within = offset + (i - done);
    assert(start + i == 8 * cursor + within);
    assert((start + i) % 8 == within);
    assert(part_start(start, i) == done);
    assert(part_end(start, width, i) == done + count);
}

/// The lowest digit of a number tells whether it is odd.
proof fn lemma_low_bit_is_parity(x: u64)
    by (bit_vector)
    ensures
        x & 1 == x % 2,
{
}

/// The low digits of a number make up its remainder.
pub proof fn lemma_number_of_low_digits(value: u64, width: nat)
    requires
        width <= 64,
    ensures
        number(low_digits(value, width)) == value as nat % pow2(width),
    decreases width,
{
    reveal(number);
    lemma2_to64();
    if width == 0 {
        assert(value as nat % 1 == 0);
    } else {
        let below = (width - 1) as nat;
        let digits = low_digits(value, width);
        let half = pow2(below) as int;
        let x = value as int;
        let top: int = if bit_of(value, below) {
            half
        } else {
            0
        };
        lemma_number_of_low_digits(value, below);
        assert(digits.drop_last() =~= low_digits(value, below));
        assert(number(digits) == x % half + top);
        lemma_pow2_pos(below);
        lemma_pow2_unfold(width);
        assert(x % (half * 2) == half * ((x / half) % 2) + x % half) by {
            lemma_mod_breakdown(x, half, 2);
        }
        assert(bit_of(value, below) == ((x / half) % 2 == 1)) by {
            lemma_u64_shr_is_div(value, below as u64);
            lemma_low_bit_is_parity(value >> (below as u64));
        }
        assert(half * ((x / half) % 2) == top) by (nonlinear_arith)
            requires
                top == if (x / half) % 2 == 1 {
                    half
                } else {
                    0
                },
        ;
    }
}

/// A field gives back the value that was laid out in it, as far as the value
/// fits the width.
pub proof fn lemma_field_round_trip(start: nat, value: u64, width: nat)
    requires
        width <= 64,
    ensures
        field_value(start, field_bits(start, value, width)) == value as nat % pow2(width),
        value < pow2(width) ==> field_value(start, field_bits(start, value, width)) == value,
{
    let bits = field_bits(start, value, width);
    assert forall|i: int| 0 <= i < width implies field_digits(start, bits)[i] == bit_of(
        value,
        i as nat,
    ) by {
        lemma_mirror(start, width, i);
    }
    assert(field_digits(start, bits) =~= low_digits(value, width));
    lemma_number_of_low_digits(value, width);
    if value < pow2(width) {
        lemma_small_mod(value as nat, pow2(width));
    }
}

} // verus!
