use bitpack::{Packer, Unpacker};
use std::cmp;

fn verify_numbers(numbers: &[(u64, usize)]) {
    let mut packer = Packer::new();
    let mut total_bits = 0usize;
    for (number, bits) in numbers.iter() {
        assert_eq!(packer.pack(*number, *bits), Ok(()));
        total_bits += bits;
        assert_eq!(packer.total_bits(), total_bits);

        let mut bytes_taken = total_bits / 8;
        if total_bits % 8 > 0 {
            bytes_taken += 1;
        }
        assert_eq!(packer.buffer().len(), bytes_taken);
    }
    let mut unpacker = Unpacker::new(packer.buffer());
    for (number, bits) in numbers.iter() {
        assert_eq!(unpacker.unpack(*bits), Ok(*number));
    }
}

#[test]
fn it_works() {
    verify_numbers(&[
        (1 << 6 + 1, 8),
        (1 << 14 + 1, 16),
        (1 << 22 + 1, 24),
        (1 << 30 + 1, 32),
        (1 << 38 + 1, 40),
        (1 << 46 + 1, 48),
        (1 << 54 + 1, 56),
        (1 << 62 + 1, 64),
    ]);

    verify_numbers(&[(0, 1), (1, 1), (2, 2)]);

    for i in 1..65 {
        for j in 1..65 {
            for number in &[0, 1, 2, 3, 4, 1234, 65536, 1234567890, 1 << 63] {
                // min() calls so that we don't try to store more than the number of bits allows
                verify_numbers(&[
                    (cmp::min(*number, 1 << (i - 1)), i),
                    (cmp::min(*number, 1 << (j - 1)), j),
                ]);
            }
        }
    }
}
