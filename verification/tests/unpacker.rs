use bitpack::{PackError, Packer, Unpacker};

#[test]
fn new_unpacker_has_all_bits_left() {
    let bytes = [0u8; 3];
    let unpacker = Unpacker::new(&bytes);
    assert_eq!(unpacker.total_bits(), 24);
    assert_eq!(unpacker.remaining_bits(), 24);
}

#[test]
fn empty_buffer_has_no_bits() {
    let bytes: [u8; 0] = [];
    let mut unpacker = Unpacker::new(&bytes);
    assert_eq!(unpacker.total_bits(), 0);
    assert_eq!(unpacker.remaining_bits(), 0);
    assert_eq!(unpacker.unpack(1), Err(PackError::BufferExhausted));
}

#[test]
fn one_byte_field_is_read_as_is() {
    let bytes = [0x41u8];
    let mut unpacker = Unpacker::new(&bytes);
    assert_eq!(unpacker.unpack(8), Ok(65));
    assert_eq!(unpacker.remaining_bits(), 0);
}

#[test]
fn three_small_fields_are_read_from_one_byte() {
    let bytes = [0b0110_0000u8];
    let mut unpacker = Unpacker::new(&bytes);
    assert_eq!(unpacker.unpack(1), Ok(0));
    assert_eq!(unpacker.unpack(1), Ok(1));
    assert_eq!(unpacker.unpack(2), Ok(2));
    assert_eq!(unpacker.remaining_bits(), 4);
}

#[test]
fn two_nibbles_are_read_from_one_byte() {
    let bytes = [0x35u8];
    let mut unpacker = Unpacker::new(&bytes);
    assert_eq!(unpacker.unpack(4), Ok(3));
    assert_eq!(unpacker.remaining_bits(), 4);
    assert_eq!(unpacker.unpack(4), Ok(5));
    assert_eq!(unpacker.remaining_bits(), 0);
}

#[test]
fn field_across_a_byte_boundary_takes_low_digits_first() {
    let bytes = [0x1Bu8, 0xA0];
    let mut unpacker = Unpacker::new(&bytes);
    assert_eq!(unpacker.unpack(4), Ok(1));
    assert_eq!(unpacker.unpack(8), Ok(0xAB));
    assert_eq!(unpacker.remaining_bits(), 4);
    assert_eq!(unpacker.unpack(4), Ok(0));
}

#[test]
fn aligned_wide_field_takes_its_low_byte_first() {
    let bytes = [0x34u8, 0x12];
    let mut unpacker = Unpacker::new(&bytes);
    assert_eq!(unpacker.unpack(16), Ok(0x1234));
}

#[test]
fn full_width_field_is_read_whole() {
    let bytes = [0xFFu8; 8];
    let mut unpacker = Unpacker::new(&bytes);
    assert_eq!(unpacker.unpack(64), Ok(u64::MAX));

    let bytes = [0x08u8, 0x07, 0x06, 0x05, 0x04, 0x03, 0x02, 0x01];
    let mut unpacker = Unpacker::new(&bytes);
    assert_eq!(unpacker.unpack(64), Ok(0x0102_0304_0506_0708));
}

#[test]
fn full_width_field_comes_back_after_packing() {
    let mut packer = Packer::new();
    assert_eq!(packer.pack(u64::MAX, 64), Ok(()));
    let mut unpacker = Unpacker::new(packer.buffer());
    assert_eq!(unpacker.unpack(64), Ok(u64::MAX));
}

#[test]
fn unaligned_full_width_field_comes_back() {
    let mut packer = Packer::new();
    assert_eq!(packer.pack(5, 3), Ok(()));
    assert_eq!(packer.pack(0xDEAD_BEEF_0BAD_F00D, 64), Ok(()));
    assert_eq!(packer.pack(1, 2), Ok(()));
    assert_eq!(packer.total_bits(), 69);
    let mut unpacker = Unpacker::new(packer.buffer());
    assert_eq!(unpacker.total_bits(), 72);
    assert_eq!(unpacker.unpack(3), Ok(5));
    assert_eq!(unpacker.unpack(64), Ok(0xDEAD_BEEF_0BAD_F00D));
    assert_eq!(unpacker.unpack(2), Ok(1));
    assert_eq!(unpacker.remaining_bits(), 3);
}

#[test]
fn fields_come_back_in_order() {
    let fields: [(u64, usize); 9] = [
        (1, 1),
        (100, 7),
        (255, 8),
        (300, 9),
        (8191, 13),
        (0x8000_0000_0000_0001, 64),
        (0, 3),
        (0xFFFF_FFFF, 32),
        (17, 5),
    ];
    let mut packer = Packer::new();
    for (value, bits) in fields.iter() {
        assert_eq!(packer.pack(*value, *bits), Ok(()));
    }
    let mut unpacker = Unpacker::new(packer.buffer());
    for (value, bits) in fields.iter() {
        assert_eq!(unpacker.unpack(*bits), Ok(*value));
    }
}

#[test]
fn value_cut_to_the_width_comes_back() {
    let mut packer = Packer::new();
    assert_eq!(packer.pack(0x1234_5678, 12), Ok(()));
    let mut unpacker = Unpacker::new(packer.buffer());
    assert_eq!(unpacker.unpack(12), Ok(0x678));
}

#[test]
fn remaining_bits_counts_down() {
    let bytes = [0u8; 4];
    let mut unpacker = Unpacker::new(&bytes);
    assert_eq!(unpacker.unpack(5), Ok(0));
    assert_eq!(unpacker.total_bits(), 32);
    assert_eq!(unpacker.remaining_bits(), 27);
    assert_eq!(unpacker.unpack(20), Ok(0));
    assert_eq!(unpacker.remaining_bits(), 7);
}

#[test]
fn exhausted_read_leaves_the_cursor() {
    let bytes = [0x35u8];
    let mut unpacker = Unpacker::new(&bytes);
    assert_eq!(unpacker.unpack(4), Ok(3));
    assert_eq!(unpacker.unpack(5), Err(PackError::BufferExhausted));
    assert_eq!(unpacker.remaining_bits(), 4);
    assert_eq!(unpacker.unpack(4), Ok(5));
    assert_eq!(unpacker.unpack(1), Err(PackError::BufferExhausted));
    assert_eq!(unpacker.remaining_bits(), 0);
}

#[test]
fn unpack_refuses_width_zero() {
    let bytes = [0xFFu8; 2];
    let mut unpacker = Unpacker::new(&bytes);
    assert_eq!(unpacker.unpack(0), Err(PackError::InvalidWidth));
    assert_eq!(unpacker.remaining_bits(), 16);
}

#[test]
fn unpack_refuses_width_above_64() {
    let bytes = [0xFFu8; 16];
    let mut unpacker = Unpacker::new(&bytes);
    assert_eq!(unpacker.unpack(65), Err(PackError::InvalidWidth));
    assert_eq!(unpacker.remaining_bits(), 128);
    assert_eq!(unpacker.unpack(64), Ok(u64::MAX));
}

#[test]
fn width_is_judged_before_what_is_left() {
    let bytes = [0xFFu8];
    let mut unpacker = Unpacker::new(&bytes);
    assert_eq!(unpacker.unpack(65), Err(PackError::InvalidWidth));
    assert_eq!(unpacker.unpack(64), Err(PackError::BufferExhausted));
    let empty: [u8; 0] = [];
    let mut unpacker = Unpacker::new(&empty);
    assert_eq!(unpacker.unpack(0), Err(PackError::InvalidWidth));
}
