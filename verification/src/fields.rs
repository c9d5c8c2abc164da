//! Sequences of fields: what packing them one after the other gives, what
//! reading them one after the other gives, and that the second undoes the
//! first.

use vstd::prelude::*;
use vstd::arithmetic::power2::pow2;
use crate::error::valid_width;
use crate::layout::{append_field, field_bits, lemma_field_round_trip, span};
use crate::stream::{bits_to_bytes, bytes_to_bits, lemma_bits_from_their_bytes};
use crate::unpacker::ReadState;

verus! {

/// The widths of a sequence of fields, each given as a value and a width.
pub open spec fn widths(fields: Seq<(u64, nat)>) -> Seq<nat> {
    Seq::new(fields.len(), |i: int| fields[i].1)
}

/// The values of a sequence of fields.
pub open spec fn values(fields: Seq<(u64, nat)>) -> Seq<nat> {
    Seq::new(fields.len(), |i: int| fields[i].0 as nat)
}

/// The sum of the widths of a sequence of fields.
pub open spec fn total_width(fields: Seq<(u64, nat)>) -> nat
    decreases fields.len(),
{
    if fields.len() == 0 {
        0
    } else {
        total_width(fields.drop_last()) + fields.last().1
    }
}

/// The stream that packing the fields in order gives, from a packer that
/// holds nothing.
pub open spec fn packed(fields: Seq<(u64, nat)>) -> Seq<bool>
    decreases fields.len(),
{
    if fields.len() == 0 {
        Seq::empty()
    } else {
        append_field(packed(fields.drop_last()), fields.last().0, fields.last().1)
    }
}

/// Whether fields of the given widths can be read in order from `state`
/// without a refusal.
pub open spec fn readable(state: ReadState, widths: Seq<nat>) -> bool
    decreases widths.len(),
{
    widths.len() > 0 ==> {
        &&& valid_width(widths.first())
        &&& widths.first() <= state.remaining()
        &&& readable(state.advance(widths.first()), widths.drop_first())
    }
}

/// The values that reading fields of the given widths in order from `state`
/// gives.
pub open spec fn unpacked(state: ReadState, widths: Seq<nat>) -> Seq<nat>
    decreases widths.len(),
{
    if widths.len() == 0 {
        Seq::empty()
    } else {
        seq![state.next_field(widths.first())] + unpacked(
            state.advance(widths.first()),
            widths.drop_first(),
        )
    }
}

/// Fields that packing accepts and that lose no digit: each width is from 1
/// to 64, and each value is below 2 to the power of its width.
pub open spec fn fitting(fields: Seq<(u64, nat)>) -> bool {
    forall|i: int|
        0 <= i < fields.len() ==> valid_width(#[trigger] fields[i].1) && fields[i].0 < pow2(
            fields[i].1,
        )
}

/// Packing takes as many bits as the widths add up to, and the fewest bytes
/// that hold them.
pub proof fn lemma_packed_size(fields: Seq<(u64, nat)>)
    ensures
        packed(fields).len() == total_width(fields),
        bits_to_bytes(packed(fields)).len() == (total_width(fields) + 7) / 8,
    decreases fields.len(),
{
    if fields.len() > 0 {
        lemma_packed_size(fields.drop_last());
    }
}

/// Each field takes, in the packed stream, the bits of its own layout, at the
/// place where the widths before it end.
pub proof fn lemma_packed_field(fields: Seq<(u64, nat)>, k: int)
    requires
        0 <= k < fields.len(),
    ensures
        total_width(fields.take(k)) + fields[k].1 <= packed(fields).len(),
        span(packed(fields), total_width(fields.take(k)), fields[k].1) == field_bits(
            total_width(fields.take(k)),
            fields[k].0,
            fields[k].1,
        ),
    decreases fields.len(),
{
    let before = fields.drop_last();
    let start = total_width(fields.take(k));
    lemma_packed_size(before);
    lemma_packed_size(fields);
    if k == fields.len() - 1 {
        assert(fields.take(k) =~= before);
        assert(span(packed(fields), start, fields[k].1) =~= field_bits(
            start,
            fields[k].0,
            fields[k].1,
        ));
    } else {
        lemma_packed_field(before, k);
        assert(before.take(k) =~= fields.take(k));
        assert(span(packed(fields), start, fields[k].1) =~= span(
            packed(before),
            start,
            fields[k].1,
        ));
    }
}

/// The reader that has read the first `k` fields from the bytes of the packed
/// stream.
pub open spec fn after_reading(fields: Seq<(u64, nat)>, k: int) -> ReadState {
    ReadState {
        stream: bytes_to_bits(bits_to_bytes(packed(fields))),
        position: total_width(fields.take(k)),
    }
}

/// After the first `k` fields are read from the bytes of the packed stream,
/// reading the next one is not refused and gives its value.
pub proof fn lemma_read_one_back(fields: Seq<(u64, nat)>, k: int)
    requires
        fitting(fields),
        0 <= k < fields.len(),
    ensures
        valid_width(fields[k].1),
        fields[k].1 <= after_reading(fields, k).remaining(),
        after_reading(fields, k).next_field(fields[k].1) == fields[k].0,
        after_reading(fields, k).advance(fields[k].1) == after_reading(fields, k + 1),
{
    let stream = bytes_to_bits(bits_to_bytes(packed(fields)));
    let start = total_width(fields.take(k));
    let (value, width) = fields[k];
    lemma_packed_field(fields, k);
    lemma_bits_from_their_bytes(packed(fields));
    assert(span(stream, start, width) =~= span(packed(fields), start, width));
    lemma_field_round_trip(start, value, width);
    assert(fields.take(k + 1).drop_last() =~= fields.take(k));
    assert(fields.take(k + 1).last() == fields[k]);
}

/// Reading from the bytes of the packed stream, with the fields before `k`
/// read already, gives the fields from `k` on.
proof fn lemma_read_back_from(fields: Seq<(u64, nat)>, k: int)
    requires
        fitting(fields),
        0 <= k <= fields.len(),
    ensures
        readable(after_reading(fields, k), widths(fields).skip(k)),
        unpacked(after_reading(fields, k), widths(fields).skip(k)) == values(fields).skip(k),
    decreases fields.len() - k,
{
    let state = after_reading(fields, k);
    let rest = widths(fields).skip(k);
    if k < fields.len() {
        lemma_read_one_back(fields, k);
        lemma_read_back_from(fields, k + 1);
        assert(rest.first() == fields[k].1);
        assert(rest.drop_first() =~= widths(fields).skip(k + 1));
        assert(values(fields).skip(k) =~= seq![fields[k].0 as nat] + values(fields).skip(k + 1));
    } else {
        assert(unpacked(state, rest) =~= values(fields).skip(k));
    }
}

/// Packing fields in order and then reading fields of the same widths, in the
/// same order, from the bytes that packing gave: no read is refused, and the
/// values read are the values packed.
pub proof fn lemma_round_trip(fields: Seq<(u64, nat)>)
    requires
        fitting(fields),
    ensures
        ({
            let state = ReadState {
                stream: bytes_to_bits(bits_to_bytes(packed(fields))),
                position: 0,
            };
            &&& readable(state, widths(fields))
            &&& unpacked(state, widths(fields)) == values(fields)
        }),
{
    lemma_read_back_from(fields, 0);
    assert(widths(fields).skip(0) =~= widths(fields));
    assert(values(fields).skip(0) =~= values(fields));
    assert(fields.take(0) =~= Seq::<(u64, nat)>::empty());
}

} // verus!
