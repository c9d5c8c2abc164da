//! The bit stream: how its bits lie in bytes.
//!
//! A stream is a sequence of bits. Byte `i` of the bytes that hold it has
//! places `8 * i` to `8 * i + 7` of the stream, the first of them in its most
//! significant bit. Where the stream ends within a byte, the rest of the byte
//! is zero.

use vstd::prelude::*;

verus! {

/// The bit of `byte` at place `j`, the most significant bit being at place 0.
pub open spec fn byte_bit(byte: u8, j: nat) -> bool {
    j < 8 && (byte >> ((7 - j) as u8)) & 1 == 1
}

/// The bit at place `p` of a stream that is followed by zeros.
pub open spec fn bit_at(bits: Seq<bool>, p: int) -> bool {
    0 <= p < bits.len() && bits[p]
}

/// `mask` if `bit` is set, else zero.
pub open spec fn weigh(bit: bool, mask: u8) -> u8 {
    if bit {
        mask
    } else {
        0
    }
}

/// The byte with the given bits, most significant first.
pub open spec fn byte_of(
    b0: bool,
    b1: bool,
    b2: bool,
    b3: bool,
    b4: bool,
    b5: bool,
    b6: bool,
    b7: bool,
) -> u8 {
    weigh(b0, 0x80) | weigh(b1, 0x40) | weigh(b2, 0x20) | weigh(b3, 0x10) | weigh(b4, 0x08)
        | weigh(b5, 0x04) | weigh(b6, 0x02) | weigh(b7, 0x01)
}

/// Bit `p` of the stream that `bytes` hold.
pub open spec fn stream_bit(bytes: Seq<u8>, p: int) -> bool {
    byte_bit(bytes[p / 8], (p % 8) as nat)
}

/// The bits of a byte sequence, in stream order: byte after byte, and within
/// a byte from the most significant bit down.
pub open spec fn bytes_to_bits(bytes: Seq<u8>) -> Seq<bool> {
    Seq::new(8 * bytes.len(), |p: int| stream_bit(bytes, p))
}

/// The byte that holds places `8 * i` to `8 * i + 7` of a stream.
pub open spec fn byte_at(bits: Seq<bool>, i: int) -> u8 {
    byte_of(
        bit_at(bits, 8 * i),
        bit_at(bits, 8 * i + 1),
        bit_at(bits, 8 * i + 2),
        bit_at(bits, 8 * i + 3),
        bit_at(bits, 8 * i + 4),
        bit_at(bits, 8 * i + 5),
        bit_at(bits, 8 * i + 6),
        bit_at(bits, 8 * i + 7),
    )
}

/// The fewest bytes that hold a stream, the last one filled up with zeros.
pub open spec fn bits_to_bytes(bits: Seq<bool>) -> Seq<u8> {
    Seq::new(((bits.len() + 7) / 8) as nat, |i: int| byte_at(bits, i))
}

/// Bit `j` of byte `i` is bit `8 * i + j` of the stream.
pub proof fn lemma_stream_bit(bytes: Seq<u8>, i: int, j: int)
    requires
        0 <= j < 8,
    ensures
        stream_bit(bytes, 8 * i + j) == byte_bit(bytes[i], j as nat),
{
    assert((8 * i + j) / 8 == i && (8 * i + j) % 8 == j);
}

/// A byte is made of its eight bits.
pub proof fn lemma_byte_of_its_bits(byte: u8)
    by (bit_vector)
    ensures
        byte == byte_of(
            byte_bit(byte, 0),
            byte_bit(byte, 1),
            byte_bit(byte, 2),
            byte_bit(byte, 3),
            byte_bit(byte, 4),
            byte_bit(byte, 5),
            byte_bit(byte, 6),
            byte_bit(byte, 7),
        ),
{
}

/// The bits of a byte made of eight bits are those bits.
pub proof fn lemma_bits_of_byte_of(
    b0: bool,
    b1: bool,
    b2: bool,
    b3: bool,
    b4: bool,
    b5: bool,
    b6: bool,
    b7: bool,
)
    by (bit_vector)
    ensures
        ({
            let byte = byte_of(b0, b1, b2, b3, b4, b5, b6, b7);
            &&& byte_bit(byte, 0) == b0
            &&& byte_bit(byte, 1) == b1
            &&& byte_bit(byte, 2) == b2
            &&& byte_bit(byte, 3) == b3
            &&& byte_bit(byte, 4) == b4
            &&& byte_bit(byte, 5) == b5
            &&& byte_bit(byte, 6) == b6
            &&& byte_bit(byte, 7) == b7
        }),
{
}

/// The bytes that hold a stream hold its bits in order, then zeros up to the
/// end of the last byte.
pub proof fn lemma_bits_from_their_bytes(bits: Seq<bool>)
    ensures
        bytes_to_bits(bits_to_bytes(bits)).len() == 8 * ((bits.len() + 7) / 8),
        forall|p: int|
            0 <= p < 8 * ((bits.len() + 7) / 8) ==> #[trigger] bytes_to_bits(bits_to_bytes(bits))[p]
                == bit_at(bits, p),
{
    let bytes = bits_to_bytes(bits);
    assert forall|p: int| 0 <= p < 8 * ((bits.len() + 7) / 8) implies #[trigger] bytes_to_bits(
        bytes,
    )[p] == bit_at(bits, p) by {
        let i = p / 8;
        lemma_bits_of_byte_of(
            bit_at(bits, 8 * i),
            bit_at(bits, 8 * i + 1),
            bit_at(bits, 8 * i + 2),
            bit_at(bits, 8 * i + 3),
            bit_at(bits, 8 * i + 4),
            bit_at(bits, 8 * i + 5),
            bit_at(bits, 8 * i + 6),
            bit_at(bits, 8 * i + 7),
        );
        assert(bytes[i] == byte_at(bits, i));
        assert(p == 8 * i + p % 8);
    }
}

/// Bits added to a stream leave the bytes that were full as they were.
pub proof fn lemma_full_bytes_stay(bits: Seq<bool>, more: Seq<bool>, i: int)
    requires
        0 <= i,
        8 * i + 8 <= bits.len(),
    ensures
        bits_to_bytes(bits + more)[i] == bits_to_bytes(bits)[i],
{
    let longer = bits + more;
    assert(bit_at(longer, 8 * i) == bit_at(bits, 8 * i));
    assert(bit_at(longer, 8 * i + 1) == bit_at(bits, 8 * i + 1));
    assert(bit_at(longer, 8 * i + 2) == bit_at(bits, 8 * i + 2));
    assert(bit_at(longer, 8 * i + 3) == bit_at(bits, 8 * i + 3));
    assert(bit_at(longer, 8 * i + 4) == bit_at(bits, 8 * i + 4));
    assert(bit_at(longer, 8 * i + 5) == bit_at(bits, 8 * i + 5));
    assert(bit_at(longer, 8 * i + 6) == bit_at(bits, 8 * i + 6));
    assert(bit_at(longer, 8 * i + 7) == bit_at(bits, 8 * i + 7));
}

} // verus!
