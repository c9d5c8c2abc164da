//! The reader of a bit stream.

use vstd::prelude::*;
use vstd::arithmetic::div_mod::{lemma_fundamental_div_mod, lemma_small_mod};
use vstd::arithmetic::power2::{lemma2_to64, lemma_pow2_pos, pow2};
use vstd::bits::lemma_u64_shr_is_div;
use crate::error::{valid_width, PackError};
use crate::layout::{
    bit_of, field_digits, field_value, lemma_mirror_in_part, lemma_number_of_low_digits,
    low_digits, span,
};
use crate::stream::{byte_bit, bytes_to_bits, lemma_stream_bit, stream_bit};

verus! {

/// What a reader stands for: the bits of its bytes, and how many of them it
/// has read.
pub struct ReadState {
    pub stream: Seq<bool>,
    pub position: nat,
}

impl ReadState {
    /// The number of bits that are left to read.
    pub open spec fn remaining(self) -> nat {
        if self.position <= self.stream.len() {
            (self.stream.len() - self.position) as nat
        } else {
            0
        }
    }

    /// The state after `bits` more bits were read.
    pub open spec fn advance(self, bits: nat) -> ReadState {
        ReadState { stream: self.stream, position: self.position + bits }
    }

    /// The value of the field of `bits` bits that comes next.
    pub open spec fn next_field(self, bits: nat) -> nat {
        field_value(self.position, span(self.stream, self.position, bits))
    }
}

/// Reads fields of 1 to 64 bits, one after the other, from bytes that it
/// borrows.
pub struct Unpacker<'a> {
    buffer: &'a [u8],
    byte_cursor: usize,
    bit_cursor: usize,
}

impl<'a> View for Unpacker<'a> {
    type V = ReadState;

    closed spec fn view(&self) -> ReadState {
        ReadState {
            stream: bytes_to_bits(self.buffer@),
            position: (self.byte_cursor * 8 + self.bit_cursor) as nat,
        }
    }
}

impl<'a> Unpacker<'a> {
    #[verifier::type_invariant]
    spec fn inv(self) -> bool {
        &&& self.bit_cursor < 8
        &&& self.buffer@.len() * 8 <= usize::MAX
        &&& self.byte_cursor * 8 + self.bit_cursor <= self.buffer@.len() * 8
    }

    /// A reader at the start of `buffer`.
    pub fn new(buffer: &'a [u8]) -> (unpacker: Unpacker<'a>)
        requires
            buffer@.len() * 8 <= usize::MAX,
        ensures
            unpacker@ == (ReadState { stream: bytes_to_bits(buffer@), position: 0 }),
    {
        Unpacker { buffer, byte_cursor: 0, bit_cursor: 0 }
    }

    /// The number of bits in the bytes, read or not.
    pub fn total_bits(&self) -> (total: usize)
        ensures
            total == self@.stream.len(),
    {
        proof {
            use_type_invariant(self);
        }
        self.buffer.len() * 8
    }

    /// The number of bits that are left to read.
    pub fn remaining_bits(&self) -> (remaining: usize)
        ensures
            remaining == self@.remaining(),
            self@.position <= self@.stream.len(),
    {
        proof {
            use_type_invariant(self);
        }
        self.total_bits() - (self.byte_cursor * 8 + self.bit_cursor)
    }

    /// Reads the field of `bits` bits that comes next. A width outside 1 to
    /// 64 is refused, then a width beyond what is left; a refused call reads
    /// nothing.
    pub fn unpack(&mut self, bits: usize) -> (result: Result<u64, PackError>)
        ensures
            final(self)@.position <= final(self)@.stream.len(),
            match result {
                Ok(value) => {
                    &&& valid_width(bits as nat)
                    &&& bits <= old(self)@.remaining()
                    &&& value == old(self)@.next_field(bits as nat)
                    &&& final(self)@ == old(self)@.advance(bits as nat)
                },
                Err(PackError::InvalidWidth) => {
                    &&& !valid_width(bits as nat)
                    &&& final(self)@ == old(self)@
                },
                Err(PackError::BufferExhausted) => {
                    &&& valid_width(bits as nat)
                    &&& bits > old(self)@.remaining()
                    &&& final(self)@ == old(self)@
                },
            },
    {
        proof {
            use_type_invariant(&*self);
        }
        if bits == 0 || bits > 64 {
            return Err(PackError::InvalidWidth);
        }
        if bits > self.remaining_bits() {
            return Err(PackError::BufferExhausted);
        }
        let ghost start = self@.position;
        let ghost field = span(self@.stream, start, bits as nat);
        let buffer = self.buffer;
        let mut byte_cursor: usize = self.byte_cursor;
        let mut bit_cursor: usize = self.bit_cursor;
        let mut bits_to_read: usize = bits;
        let mut value: u64 = 0;
        let mut factor: usize = 0;
        proof {
            assert(0u64 >> 0usize == 0) by (bit_vector);
            assert(low_digits(0, 0) =~= field_digits(start, field).take(0));
        }
        while bits_to_read > 0
            invariant
                factor + bits_to_read == bits <= 64,
                start + bits <= buffer@.len() * 8 <= usize::MAX,
                field == span(bytes_to_bits(buffer@), start, bits as nat),
                bit_cursor < 8,
                byte_cursor * 8 + bit_cursor == start + factor,
                factor == 0 || bit_cursor == 0 || bits_to_read == 0,
                factor < 64 ==> value >> factor == 0,
                low_digits(value, factor as nat) == field_digits(start, field).take(factor as int),
            decreases bits_to_read,
        {
            let byte: u8 = buffer[byte_cursor];
            let available: usize = 8 - bit_cursor;
            let count: usize = if bits_to_read < available {
                bits_to_read
            } else {
                available
            };
            let remaining: usize = 8 - bit_cursor - count;
            proof {
                lemma_unpack_step(
                    buffer@,
                    start,
                    bits as nat,
                    value,
                    factor,
                    byte_cursor,
                    bit_cursor,
                    count,
                );
            }
            let mask: u8 = (((1u16 << count) - 1) << remaining) as u8;
            value += (((byte & mask) as u64) >> remaining) << factor;
            factor += count;
            bit_cursor += count;
            if bit_cursor == 8 {
                bit_cursor = 0;
                byte_cursor += 1;
            }
            bits_to_read -= count;
        }
        proof {
            lemma_all_digits_read(start, field, value);
        }
        // The bit cursor first: beside the old byte cursor it stays within the
        // bytes.
        self.bit_cursor = bit_cursor;
        self.byte_cursor = byte_cursor;
        Ok(value)
    }
}

/// The part of `byte` at places `offset` to `offset + count - 1`, as a
/// number.
spec fn chunk_of(byte: u8, offset: usize, count: usize) -> u64 {
    let remaining = (8 - offset - count) as usize;
    let ones = ((1u16 << count) - 1) as u16;
    let mask = (ones << remaining) as u8;
    ((byte & mask) as u64) >> remaining
}

/// The part of a byte, as a number, has the bits of the part for digits,
/// the last bit being the lowest digit.
proof fn lemma_chunk_digits(byte: u8, offset: usize, count: usize, i: usize)
    by (bit_vector)
    requires
        offset < 8,
        1 <= count,
        offset + count <= 8,
    ensures
        1 <= (1u16 << count),
        (((1u16 << count) - 1) as u16) << ((8 - offset - count) as usize) <= 0xff,
        chunk_of(byte, offset, count) >> count == 0,
        i < count ==> bit_of(chunk_of(byte, offset, count), i as nat) == byte_bit(
            byte,
            (offset + count - 1 - i) as usize as nat,
        ),
{
}

/// Digits put above those of a number fit a `u64` as long as all the digits
/// are 64 or fewer, and no digit is set above them.
proof fn lemma_digits_fit(value: u64, chunk: u64, factor: usize, count: usize)
    by (bit_vector)
    requires
        1 <= count <= 8,
        factor + count <= 64,
        value >> factor == 0,
        chunk >> count == 0,
    ensures
        value + (chunk << factor) <= u64::MAX,
        value + (chunk << factor) == value | (chunk << factor),
        factor + count < 64 ==> (value | (chunk << factor)) >> ((factor + count) as usize) == 0,
{
}

/// Digits put above those of a number leave its digits as they are and
/// follow them.
proof fn lemma_digits_joined(value: u64, chunk: u64, factor: usize, i: usize)
    by (bit_vector)
    requires
        factor < 64,
        value >> factor == 0,
        i < 64,
    ensures
        bit_of(value | (chunk << factor), i as nat) == if i < factor {
            bit_of(value, i as nat)
        } else {
            bit_of(chunk, (i - factor) as usize as nat)
        },
{
}

/// A number without digits from `count` on has none at `i`, further up.
proof fn lemma_no_digit(chunk: u64, count: usize, i: usize)
    by (bit_vector)
    requires
        chunk >> count == 0,
        count <= i,
    ensures
        !bit_of(chunk, i as nat),
{
}

/// A part of a byte added above the digits of a number: the sum fits, keeps
/// the digits that the number had, and has the bits of the part above them,
/// the last bit lowest.
proof fn lemma_unpack_chunk(
    byte: u8,
    offset: usize,
    count: usize,
    value: u64,
    factor: usize,
    i: usize,
)
    requires
        offset < 8,
        1 <= count,
        offset + count <= 8,
        factor + count <= 64,
        value >> factor == 0,
        i < 64,
    ensures
        ({
            let chunk = chunk_of(byte, offset, count);
            let sum = (value + (chunk << factor)) as u64;
            &&& 1 <= (1u16 << count)
            &&& (((1u16 << count) - 1) as u16) << ((8 - offset - count) as usize) <= 0xff
            &&& value + (chunk << factor) <= u64::MAX
            &&& bit_of(sum, i as nat) == if i < factor {
                bit_of(value, i as nat)
            } else if i < factor + count {
                byte_bit(byte, (offset + factor + count - 1 - i) as usize as nat)
            } else {
                false
            }
            &&& factor + count < 64 ==> sum >> ((factor + count) as usize) == 0
        }),
{
    let chunk = chunk_of(byte, offset, count);
    let above = if i >= factor {
        (i - factor) as usize
    } else {
        0
    };
    lemma_chunk_digits(byte, offset, count, above);
    lemma_digits_fit(value, chunk, factor, count);
    lemma_digits_joined(value, chunk, factor, i);
    if i >= factor + count {
        lemma_no_digit(chunk, count, above);
    }
}

/// Where the digit of weight 2^i of a field lies in the byte that holds its
/// part.
proof fn lemma_digit_in_byte(
    bytes: Seq<u8>,
    start: nat,
    width: nat,
    factor: usize,
    cursor: usize,
    offset: usize,
    count: usize,
    i: int,
)
    requires
        factor <= i < factor + count <= width,
        start + width <= bytes.len() * 8,
        offset < 8,
        cursor * 8 + offset == start + factor,
        factor == 0 || offset == 0,
        factor + count == width || offset + count == 8,
        offset + count <= 8,
    ensures
        field_digits(start, span(bytes_to_bits(bytes), start, width))[i] == byte_bit(
            bytes[cursor as int],
            (offset + factor + count - 1 - i) as nat,
        ),
{
    let field = span(bytes_to_bits(bytes), start, width);
    let k = factor + (factor + count - 1 - i);
    let j = offset + factor + count - 1 - i;
    lemma_mirror_in_part(
        start,
        width,
        cursor as int,
        offset as int,
        factor as int,
        count as int,
        i,
    );
    lemma_stream_bit(bytes, cursor as int, j);
    assert(start + k == 8 * cursor + j);
    assert(field[k] == stream_bit(bytes, start + k));
}

/// Reading one more part of a field keeps the digits read so far and adds
/// those of the part.
proof fn lemma_unpack_step(
    bytes: Seq<u8>,
    start: nat,
    width: nat,
    value: u64,
    factor: usize,
    cursor: usize,
    offset: usize,
    count: usize,
)
    requires
        factor < width <= 64,
        start + width <= bytes.len() * 8,
        offset < 8,
        cursor * 8 + offset == start + factor,
        factor == 0 || offset == 0,
        count == if width - factor < 8 - offset {
            width - factor
        } else {
            8 - offset
        },
        value >> factor == 0,
        low_digits(value, factor as nat) == field_digits(
            start,
            span(bytes_to_bits(bytes), start, width),
        ).take(factor as int),
    ensures
        ({
            let sum = value + (chunk_of(bytes[cursor as int], offset, count) << factor);
            &&& 1 <= (1u16 << count)
            &&& (((1u16 << count) - 1) as u16) << ((8 - offset - count) as usize) <= 0xff
            &&& sum <= u64::MAX
            &&& factor + count < 64 ==> (sum as u64) >> ((factor + count) as usize) == 0
            &&& low_digits(sum as u64, (factor + count) as nat) == field_digits(
                start,
                span(bytes_to_bits(bytes), start, width),
            ).take(factor + count)
        }),
{
    let byte = bytes[cursor as int];
    let sum = (value + (chunk_of(byte, offset, count) << factor)) as u64;
    let digits = field_digits(start, span(bytes_to_bits(bytes), start, width));
    lemma_unpack_chunk(byte, offset, count, value, factor, 0);
    assert forall|i: int| 0 <= i < factor + count implies bit_of(sum, i as nat) == digits[i] by {
        lemma_unpack_chunk(byte, offset, count, value, factor, i as usize);
        if i >= factor {
            lemma_digit_in_byte(bytes, start, width, factor, cursor, offset, count, i);
        } else {
            assert(low_digits(value, factor as nat)[i] == digits.take(factor as int)[i]);
        }
    }
    assert(low_digits(sum, (factor + count) as nat) =~= digits.take(factor + count));
}

/// A number without digits from `width` on is its own remainder by 2^width.
proof fn lemma_below_power(value: u64, width: usize)
    requires
        width <= 64,
        width < 64 ==> value >> width == 0,
    ensures
        value as nat % pow2(width as nat) == value,
{
    lemma_pow2_pos(width as nat);
    if width < 64 {
        lemma_u64_shr_is_div(value, width as u64);
        lemma_fundamental_div_mod(value as int, pow2(width as nat) as int);
    } else {
        lemma2_to64();
        lemma_small_mod(value as nat, pow2(64));
    }
}

/// Once all the digits of a field are read, the value is that of the field.
proof fn lemma_all_digits_read(start: nat, field: Seq<bool>, value: u64)
    requires
        field.len() <= 64,
        field.len() < 64 ==> value >> (field.len() as usize) == 0,
        low_digits(value, field.len()) == field_digits(start, field).take(field.len() as int),
    ensures
        value == field_value(start, field),
{
    assert(field_digits(start, field).take(field.len() as int) =~= field_digits(start, field));
    lemma_number_of_low_digits(value, field.len());
    lemma_below_power(value, field.len() as usize);
}

} // verus!
