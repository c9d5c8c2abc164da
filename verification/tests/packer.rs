use bitpack::{PackError, Packer};

#[test]
fn new_packer_is_empty() {
    let packer = Packer::new();
    assert_eq!(packer.total_bits(), 0);
    assert!(packer.buffer().is_empty());
}

#[test]
fn one_byte_field_is_stored_as_is() {
    let mut packer = Packer::new();
    assert_eq!(packer.pack(65, 8), Ok(()));
    assert_eq!(packer.total_bits(), 8);
    assert_eq!(packer.buffer(), &[0x41]);
}

#[test]
fn three_small_fields_share_one_byte() {
    let mut packer = Packer::new();
    assert_eq!(packer.pack(0, 1), Ok(()));
    assert_eq!(packer.pack(1, 1), Ok(()));
    assert_eq!(packer.pack(2, 2), Ok(()));
    assert_eq!(packer.total_bits(), 4);
    assert_eq!(packer.buffer(), &[0b0110_0000]);
}

#[test]
fn two_nibbles_fill_one_byte() {
    let mut packer = Packer::new();
    assert_eq!(packer.pack(3, 4), Ok(()));
    assert_eq!(packer.buffer(), &[0x30]);
    assert_eq!(packer.pack(5, 4), Ok(()));
    assert_eq!(packer.total_bits(), 8);
    assert_eq!(packer.buffer(), &[0x35]);
}

#[test]
fn field_across_a_byte_boundary_puts_low_digits_first() {
    let mut packer = Packer::new();
    assert_eq!(packer.pack(1, 4), Ok(()));
    assert_eq!(packer.pack(0xAB, 8), Ok(()));
    assert_eq!(packer.total_bits(), 12);
    assert_eq!(packer.buffer(), &[0x1B, 0xA0]);
}

#[test]
fn aligned_wide_field_starts_with_its_low_byte() {
    let mut packer = Packer::new();
    assert_eq!(packer.pack(0x1234, 16), Ok(()));
    assert_eq!(packer.buffer(), &[0x34, 0x12]);
}

#[test]
fn partial_last_byte_is_padded_with_zeros() {
    let mut packer = Packer::new();
    assert_eq!(packer.pack(0b111, 3), Ok(()));
    assert_eq!(packer.buffer(), &[0b1110_0000]);
    assert_eq!(packer.pack(0x1FF, 9), Ok(()));
    assert_eq!(packer.total_bits(), 12);
    assert_eq!(packer.buffer(), &[0xFF, 0xF0]);
}

#[test]
fn digits_above_the_width_are_left_out() {
    let mut packer = Packer::new();
    assert_eq!(packer.pack(0x141, 8), Ok(()));
    assert_eq!(packer.buffer(), &[0x41]);
    assert_eq!(packer.pack(u64::MAX, 1), Ok(()));
    assert_eq!(packer.buffer(), &[0x41, 0x80]);
    assert_eq!(packer.total_bits(), 9);
}

#[test]
fn full_width_field_takes_eight_bytes() {
    let mut packer = Packer::new();
    assert_eq!(packer.pack(u64::MAX, 64), Ok(()));
    assert_eq!(packer.total_bits(), 64);
    assert_eq!(packer.buffer(), &[0xFF; 8]);

    let mut packer = Packer::new();
    assert_eq!(packer.pack(0x0102_0304_0506_0708, 64), Ok(()));
    assert_eq!(packer.buffer(), &[0x08, 0x07, 0x06, 0x05, 0x04, 0x03, 0x02, 0x01]);
}

#[test]
fn size_follows_the_sum_of_the_widths() {
    let mut packer = Packer::new();
    let widths = [1usize, 7, 8, 9, 13, 64, 3, 32, 5];
    let mut total = 0usize;
    for bits in widths.iter() {
        assert_eq!(packer.pack(0, *bits), Ok(()));
        total += bits;
        assert_eq!(packer.total_bits(), total);
        assert_eq!(packer.buffer().len(), (total + 7) / 8);
    }
    assert_eq!(total, 142);
    assert_eq!(packer.buffer().len(), 18);
}

#[test]
fn pack_refuses_width_zero() {
    let mut packer = Packer::new();
    assert_eq!(packer.pack(1, 0), Err(PackError::InvalidWidth));
    assert_eq!(packer.total_bits(), 0);
    assert!(packer.buffer().is_empty());
}

#[test]
fn pack_refuses_width_above_64() {
    let mut packer = Packer::new();
    assert_eq!(packer.pack(5, 3), Ok(()));
    assert_eq!(packer.pack(1, 65), Err(PackError::InvalidWidth));
    assert_eq!(packer.pack(1, usize::MAX), Err(PackError::InvalidWidth));
    assert_eq!(packer.total_bits(), 3);
    assert_eq!(packer.buffer(), &[0b1010_0000]);
}

#[test]
fn full_bytes_stay_as_more_is_packed() {
    let mut packer = Packer::new();
    assert_eq!(packer.pack(0xABCD, 16), Ok(()));
    assert_eq!(packer.pack(0b101, 3), Ok(()));
    let before = packer.buffer().to_vec();
    assert_eq!(before, vec![0xCD, 0xAB, 0b1010_0000]);
    assert_eq!(packer.pack(0x3FF, 10), Ok(()));
    assert_eq!(&packer.buffer()[..2], &before[..2]);
    assert_eq!(packer.buffer(), &[0xCD, 0xAB, 0b1011_1111, 0b1111_1000]);
    assert_eq!(packer.total_bits(), 29);
}
