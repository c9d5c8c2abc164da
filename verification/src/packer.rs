//! The writer of a bit stream.

use vstd::prelude::*;
use vstd::arithmetic::div_mod::lemma_div_denominator;
use vstd::arithmetic::power2::{lemma_pow2_adds, lemma_pow2_pos, pow2};
use vstd::bits::lemma_u64_shr_is_div;
use crate::error::{valid_width, PackError};
use crate::layout::{append_field, bit_of, field_bits, lemma_mirror_in_part, span};
use crate::stream::{
    bit_at, bits_to_bytes, byte_at, byte_bit, bytes_to_bits, lemma_byte_of_its_bits,
    lemma_full_bytes_stay, lemma_stream_bit, stream_bit,
};

verus! {

/// Packs fields of 1 to 64 bits, one after the other, into bytes that it owns.
pub struct Packer {
    buffer: Vec<u8>,
    byte_cursor: usize,
    bit_cursor: usize,
}

impl View for Packer {
    type V = Seq<bool>;

    /// The bits packed so far, in stream order.
    closed spec fn view(&self) -> Seq<bool> {
        bytes_to_bits(self.buffer@).take(self.byte_cursor * 8 + self.bit_cursor)
    }
}

impl Packer {
    #[verifier::type_invariant]
    spec fn inv(self) -> bool {
        &&& self.bit_cursor < 8
        &&& self.byte_cursor * 8 + self.bit_cursor <= usize::MAX
        &&& self.buffer.len() == self.byte_cursor + if self.bit_cursor > 0 {
            1int
        } else {
            0int
        }
        &&& self.bit_cursor > 0 ==> clear_from(
            self.buffer[self.byte_cursor as int],
            self.bit_cursor,
        )
    }

    /// A packer that holds no bits.
    pub fn new() -> (packer: Packer)
        ensures
            packer@ == Seq::<bool>::empty(),
    {
        Packer { buffer: Vec::new(), byte_cursor: 0, bit_cursor: 0 }
    }

    /// The number of bits packed so far.
    pub fn total_bits(&self) -> (total: usize)
        ensures
            total == self@.len(),
    {
        proof {
            use_type_invariant(self);
        }
        self.byte_cursor * 8 + self.bit_cursor
    }

    /// The bytes that hold the bits packed so far. Where the last byte is not
    /// full, its low bits are zero.
    pub fn buffer(&self) -> (bytes: &[u8])
        ensures
            bytes@ == bits_to_bytes(self@),
            bytes@.len() == (self@.len() + 7) / 8,
    {
        proof {
            use_type_invariant(self);
            lemma_bytes_of_leading_bits(self.buffer@, self.byte_cursor, self.bit_cursor);
        }
        self.buffer.as_slice()
    }

    /// Appends the low `bits` digits of `value` to the stream. Digits of
    /// `value` above the width are left out. A width outside 1 to 64 is
    /// refused, and nothing is written. The bytes that were full stay as
    /// they were.
    ///
    /// The count of bits packed has to stay within `usize`.
    pub fn pack(&mut self, value: u64, bits: usize) -> (result: Result<(), PackError>)
        requires
            valid_width(bits as nat) ==> old(self)@.len() + bits <= usize::MAX,
        ensures
            forall|i: int|
                0 <= i && 8 * i + 8 <= old(self)@.len() ==> #[trigger] bits_to_bytes(
                    final(self)@,
                )[i] == bits_to_bytes(old(self)@)[i],
            match result {
                Ok(_) => {
                    &&& valid_width(bits as nat)
                    &&& final(self)@ == append_field(old(self)@, value, bits as nat)
                },
                Err(e) => {
                    &&& e == PackError::InvalidWidth
                    &&& !valid_width(bits as nat)
                    &&& final(self)@ == old(self)@
                },
            },
    {
        if bits == 0 || bits > 64 {
            return Err(PackError::InvalidWidth);
        }
        proof {
            use_type_invariant(&*self);
        }
        let ghost start = self@.len();
        let ghost goal = append_field(self@, value, bits as nat);
        // The bytes and the cursors are taken out while the field is written:
        // within a step they do not fit together.
        let mut taken = Packer::new();
        std::mem::swap(self, &mut taken);
        let Packer { mut buffer, mut byte_cursor, mut bit_cursor } = taken;
        let mut rest: u64 = value;
        let mut bits_to_write: usize = bits;
        proof {
            assert(value >> 0u64 == value) by (bit_vector);
            assert(goal.take(start as int) =~= bytes_to_bits(buffer@).take(start as int));
        }
        while bits_to_write > 0
            invariant
                bits_to_write <= bits <= 64,
                goal.len() == start + bits <= usize::MAX,
                span(goal, start, bits as nat) == field_bits(start, value, bits as nat),
                bit_cursor < 8,
                byte_cursor * 8 + bit_cursor == start + bits - bits_to_write,
                buffer.len() == byte_cursor + if bit_cursor > 0 {
                    1int
                } else {
                    0int
                },
                bit_cursor > 0 ==> clear_from(buffer[byte_cursor as int], bit_cursor),
                bits_to_write == bits || bit_cursor == 0 || bits_to_write == 0,
                bits_to_write > 0 ==> rest == value >> ((bits - bits_to_write) as u64),
                bytes_to_bits(buffer@).take(byte_cursor * 8 + bit_cursor) == goal.take(
                    byte_cursor * 8 + bit_cursor,
                ),
            decreases bits_to_write,
        {
            let free: usize = 8 - bit_cursor;
            let count: usize = if bits_to_write < free {
                bits_to_write
            } else {
                free
            };
            let ghost held = buffer@;
            let byte: u8 = if bit_cursor > 0 {
                buffer[byte_cursor]
            } else {
                buffer.push(0);
                0
            };
            proof {
                assert(clear_from(0u8, 0usize)) by (bit_vector);
                lemma_chunk_fits(byte, bit_cursor, count, rest);
            }
            let mask: u8 = ((1u16 << count) - 1) as u8;
            let chunk: u8 = (#[verifier::truncate] (rest as u8)) & mask;
            buffer[byte_cursor] = byte + (chunk << (8 - bit_cursor - count));
            proof {
                lemma_pack_step(
                    held,
                    buffer@,
                    goal,
                    start,
                    value,
                    bits as nat,
                    bits - bits_to_write,
                    byte_cursor,
                    bit_cursor,
                    count,
                );
            }
            bits_to_write -= count;
            rest = rest >> count;
            bit_cursor += count;
            if bit_cursor == 8 {
                bit_cursor = 0;
                byte_cursor += 1;
            }
        }
        proof {
            assert(goal.take(goal.len() as int) =~= goal);
            assert forall|i: int| 0 <= i && 8 * i + 8 <= start implies #[trigger] bits_to_bytes(
                goal,
            )[i] == bits_to_bytes(old(self)@)[i] by {
                lemma_full_bytes_stay(old(self)@, field_bits(start, value, bits as nat), i);
            }
        }
        *self = Packer { buffer, byte_cursor, bit_cursor };
        Ok(())
    }
}

/// Whether `byte` has zeros from place `offset` on, as the byte that takes
/// the next bits has.
spec fn clear_from(byte: u8, offset: usize) -> bool {
    byte & (0xffu8 >> offset) == 0
}

/// `byte` with the low `count` digits of `rest` put at places `offset` to
/// `offset + count - 1`.
spec fn fill(byte: u8, offset: usize, count: usize, rest: u64) -> u8 {
    let mask = ((1u16 << count) - 1) as u8;
    let chunk = (rest as u8) & mask;
    (byte + (chunk << ((8 - offset - count) as usize))) as u8
}

/// Putting a part of a field into a byte that is clear from `offset` on
/// overflows nothing, and leaves the byte clear after the part.
proof fn lemma_chunk_fits(byte: u8, offset: usize, count: usize, rest: u64)
    by (bit_vector)
    requires
        offset < 8,
        1 <= count,
        offset + count <= 8,
        byte & (0xffu8 >> offset) == 0,
    ensures
        ({
            let mask = ((1u16 << count) - 1) as u8;
            let chunk = (rest as u8) & mask;
            &&& 0 <= (1u16 << count) - 1 <= 0xff
            &&& byte + (chunk << ((8 - offset - count) as usize)) <= 0xff
            &&& offset + count < 8 ==> fill(byte, offset, count, rest) & (0xffu8 >> ((offset
                + count) as usize)) == 0
        }),
{
}

/// The bits of a byte that took a part of a field: those that it held, then
/// the low digits of `rest` in falling order.
proof fn lemma_chunk_bit(byte: u8, offset: usize, count: usize, rest: u64, j: usize)
    by (bit_vector)
    requires
        offset < 8,
        1 <= count,
        offset + count <= 8,
        byte & (0xffu8 >> offset) == 0,
        j < offset + count,
    ensures
        byte_bit(fill(byte, offset, count, rest), j as nat) == if j < offset {
            byte_bit(byte, j as nat)
        } else {
            bit_of(rest, (offset + count - 1 - j) as usize as nat)
        },
{
}

/// Shifting down in two steps is shifting down by the sum.
proof fn lemma_shift_twice(value: u64, done: u64, count: u64)
    requires
        done + count < 64,
    ensures
        (value >> done) >> count == value >> ((done + count) as u64),
{
    let low = pow2(done as nat) as int;
    let high = pow2(count as nat) as int;
    lemma_pow2_pos(done as nat);
    lemma_pow2_pos(count as nat);
    lemma_pow2_adds(done as nat, count as nat);
    lemma_u64_shr_is_div(value, done);
    lemma_u64_shr_is_div(value >> done, count);
    lemma_u64_shr_is_div(value, (done + count) as u64);
    lemma_div_denominator(value as int, low, high);
}

/// The digits of a number shifted down are its digits from there on.
proof fn lemma_shifted_bit(value: u64, done: u64, i: u64)
    by (bit_vector)
    requires
        done + i < 64,
    ensures
        bit_of(value >> done, i as nat) == bit_of(value, (done + i) as u64 as nat),
{
}

/// The bits of a byte that took a part of a field: those that it held, then
/// the bits that the field has at those places of the stream.
proof fn lemma_filled_bit(
    goal: Seq<bool>,
    start: nat,
    value: u64,
    width: nat,
    done: int,
    byte: u8,
    cursor: usize,
    offset: usize,
    count: usize,
    j: usize,
)
    requires
        0 <= done < width <= 64,
        goal.len() == start + width,
        span(goal, start, width) == field_bits(start, value, width),
        offset < 8,
        cursor * 8 + offset == start + done,
        done == 0 || offset == 0,
        count == if width - done < 8 - offset {
            width - done
        } else {
            8 - offset
        },
        clear_from(byte, offset),
        j < offset + count,
    ensures
        byte_bit(fill(byte, offset, count, value >> (done as u64)), j as nat) == if j < offset {
            byte_bit(byte, j as nat)
        } else {
            goal[start + done + j - offset]
        },
{
    lemma_chunk_bit(byte, offset, count, value >> (done as u64), j);
    if j >= offset {
        let i = done + j - offset;
        lemma_shifted_bit(value, done as u64, (offset + count - 1 - j) as u64);
        lemma_mirror_in_part(start, width, cursor as int, offset as int, done, count as int, i);
        assert(goal[start + i] == span(goal, start, width)[i]);
    }
}

/// Storing one more part of a field keeps the bits stored so far and adds
/// those of the part.
proof fn lemma_pack_step(
    held: Seq<u8>,
    bytes: Seq<u8>,
    goal: Seq<bool>,
    start: nat,
    value: u64,
    width: nat,
    done: int,
    cursor: usize,
    offset: usize,
    count: usize,
)
    requires
        0 <= done < width <= 64,
        goal.len() == start + width,
        span(goal, start, width) == field_bits(start, value, width),
        offset < 8,
        cursor * 8 + offset == start + done,
        done == 0 || offset == 0,
        count == if width - done < 8 - offset {
            width - done
        } else {
            8 - offset
        },
        held.len() == cursor + if offset > 0 {
            1int
        } else {
            0int
        },
        offset > 0 ==> clear_from(held[cursor as int], offset),
        bytes_to_bits(held).take(start + done) == goal.take(start + done),
        bytes == if offset > 0 {
            held.update(
                cursor as int,
                fill(held[cursor as int], offset, count, value >> (done as u64)),
            )
        } else {
            held.push(0).update(cursor as int, fill(0, offset, count, value >> (done as u64)))
        },
    ensures
        bytes.len() == cursor + 1,
        offset + count < 8 ==> clear_from(bytes[cursor as int], (offset + count) as usize),
        bytes_to_bits(bytes).take(start + done + count) == goal.take(start + done + count),
        done + count < 64 ==> (value >> (done as u64)) >> count == value >> ((done + count) as u64),
{
    let rest = value >> (done as u64);
    let byte = if offset > 0 {
        held[cursor as int]
    } else {
        0u8
    };
    assert(clear_from(0u8, 0usize)) by (bit_vector);
    lemma_chunk_fits(byte, offset, count, rest);
    if done + count < 64 {
        lemma_shift_twice(value, done as u64, count as u64);
    }
    let stored = bytes_to_bits(bytes).take(start + done + count);
    let kept = bytes_to_bits(held).take(start + done);
    assert forall|p: int| 0 <= p < start + done + count implies stored[p] == goal[p] by {
        assert(stored[p] == stream_bit(bytes, p));
        if p < cursor * 8 {
            assert(kept[p] == stream_bit(held, p));
            assert(kept[p] == goal.take(start + done)[p]);
        } else {
            let j = (p - cursor * 8) as usize;
            lemma_filled_bit(goal, start, value, width, done, byte, cursor, offset, count, j);
            if j < offset {
                assert(kept[p] == stream_bit(held, p));
                assert(kept[p] == goal.take(start + done)[p]);
            }
        }
    }
    assert(stored =~= goal.take(start + done + count));
}

/// A byte that is clear from `offset` on has no bit set there.
proof fn lemma_clear_bits(byte: u8, offset: usize, j: usize)
    by (bit_vector)
    requires
        byte & (0xffu8 >> offset) == 0,
        offset <= j < 8,
    ensures
        !byte_bit(byte, j as nat),
{
}

/// Bit `j` of byte `i` is the bit that the stream in use has at that place,
/// or zero past its end.
proof fn lemma_leading_bit(
    bytes: Seq<u8>,
    byte_cursor: usize,
    bit_cursor: usize,
    i: int,
    j: int,
)
    requires
        bit_cursor < 8,
        bytes.len() == byte_cursor + if bit_cursor > 0 {
            1int
        } else {
            0int
        },
        bit_cursor > 0 ==> clear_from(bytes[byte_cursor as int], bit_cursor),
        0 <= i < bytes.len(),
        0 <= j < 8,
    ensures
        bit_at(bytes_to_bits(bytes).take(byte_cursor * 8 + bit_cursor), 8 * i + j) == byte_bit(
            bytes[i],
            j as nat,
        ),
{
    let p = 8 * i + j;
    lemma_stream_bit(bytes, i, j);
    assert(bytes_to_bits(bytes)[p] == stream_bit(bytes, p));
    if p >= byte_cursor * 8 + bit_cursor {
        lemma_clear_bits(bytes[i], bit_cursor, j as usize);
    }
}

/// Bytes whose last byte is clear after the bits in use are the bytes that
/// hold those bits.
proof fn lemma_bytes_of_leading_bits(bytes: Seq<u8>, byte_cursor: usize, bit_cursor: usize)
    requires
        bit_cursor < 8,
        bytes.len() == byte_cursor + if bit_cursor > 0 {
            1int
        } else {
            0int
        },
        bit_cursor > 0 ==> clear_from(bytes[byte_cursor as int], bit_cursor),
    ensures
        bits_to_bytes(bytes_to_bits(bytes).take(byte_cursor * 8 + bit_cursor)) == bytes,
{
    let leading = bytes_to_bits(bytes).take(byte_cursor * 8 + bit_cursor);
    assert forall|i: int| 0 <= i < bytes.len() implies byte_at(leading, i) == bytes[i] by {
        lemma_leading_bit(bytes, byte_cursor, bit_cursor, i, 0);
        lemma_leading_bit(bytes, byte_cursor, bit_cursor, i, 1);
        lemma_leading_bit(bytes, byte_cursor, bit_cursor, i, 2);
        lemma_leading_bit(bytes, byte_cursor, bit_cursor, i, 3);
        lemma_leading_bit(bytes, byte_cursor, bit_cursor, i, 4);
        lemma_leading_bit(bytes, byte_cursor, bit_cursor, i, 5);
        lemma_leading_bit(bytes, byte_cursor, bit_cursor, i, 6);
        lemma_leading_bit(bytes, byte_cursor, bit_cursor, i, 7);
        lemma_byte_of_its_bits(bytes[i]);
    }
    assert(bits_to_bytes(leading) =~= bytes);
}

} // verus!
