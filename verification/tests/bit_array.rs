use constriction::bit_array::{
    bit_array_from_chunks, bit_array_to_chunks_truncated, bit_length_u64, from_u64, low_bits, one,
    pow2_u64, shl_u64, shr_bits, shr_u64, zero, BitArray,
};

#[test]
fn widths_of_the_bit_arrays() {
    assert_eq!(u8::width(), 8);
    assert_eq!(u16::width(), 16);
    assert_eq!(u32::width(), 32);
    assert_eq!(u64::width(), 64);
}

#[test]
fn conversion_keeps_the_low_bits() {
    assert_eq!(u8::from_u64_truncated(0x1234_5678_9abc_def0), 0xf0);
    assert_eq!(u16::from_u64_truncated(0x1234_5678_9abc_def0), 0xdef0);
    assert_eq!(u32::from_u64_truncated(0x1234_5678_9abc_def0), 0x9abc_def0);
    assert_eq!(u64::from_u64_truncated(0x1234_5678_9abc_def0), 0x1234_5678_9abc_def0);
    assert_eq!(0xf0u8.to_u64(), 0xf0);
    assert_eq!(0xdef0u16.to_u64(), 0xdef0);
    assert_eq!(u32::MAX.to_u64(), 0xffff_ffff);
    assert_eq!(u64::MAX.to_u64(), u64::MAX);
    assert_eq!(from_u64::<u16>(0xffff), 0xffff);
    assert_eq!(zero::<u32>(), 0);
    assert_eq!(one::<u8>(), 1);
}

#[test]
fn shifts_are_powers_of_two() {
    assert_eq!(pow2_u64(0), 1);
    assert_eq!(pow2_u64(63), 1 << 63);
    assert_eq!(shr_u64(0xff00, 8), 0xff);
    assert_eq!(shl_u64(0xff, 56), 0xff00_0000_0000_0000);
    assert_eq!(shr_bits(u64::MAX, 64), 0);
    assert_eq!(shr_bits(u64::MAX, 63), 1);
    assert_eq!(shr_bits(12345, 0), 12345);
    assert_eq!(low_bits(0x1234_5678, 16), 0x5678);
    assert_eq!(low_bits(0x1234_5678, 0), 0);
    assert_eq!(low_bits(u64::MAX, 64), u64::MAX);
}

#[test]
fn bit_length_counts_the_digits() {
    assert_eq!(bit_length_u64(0), 0);
    assert_eq!(bit_length_u64(1), 1);
    assert_eq!(bit_length_u64(2), 2);
    assert_eq!(bit_length_u64(3), 2);
    assert_eq!(bit_length_u64(0xffff_ffff), 32);
    assert_eq!(bit_length_u64(0x1_0000_0000), 33);
    assert_eq!(bit_length_u64(u64::MAX), 64);
}

#[test]
fn chunks_start_with_the_least_significant_word() {
    assert_eq!(bit_array_to_chunks_truncated::<u64, u32>(0), Vec::<u32>::new());
    assert_eq!(bit_array_to_chunks_truncated::<u64, u32>(7), vec![7]);
    assert_eq!(bit_array_to_chunks_truncated::<u64, u32>(0x1_0000_0000), vec![0, 1]);
    assert_eq!(
        bit_array_to_chunks_truncated::<u64, u16>(0x0012_0000_3456),
        vec![0x3456, 0, 0x12]
    );
    assert_eq!(
        bit_array_to_chunks_truncated::<u32, u8>(0x0403_0201),
        vec![1, 2, 3, 4]
    );
    assert_eq!(bit_array_to_chunks_truncated::<u64, u64>(u64::MAX), vec![u64::MAX]);
    assert_eq!(bit_array_to_chunks_truncated::<u8, u32>(0x80), vec![0x80]);
}

#[test]
fn chunks_are_assembled_most_significant_word_first() {
    assert_eq!(bit_array_from_chunks::<u32, u64>(&[]), 0);
    assert_eq!(bit_array_from_chunks::<u32, u64>(&[7]), 7);
    assert_eq!(bit_array_from_chunks::<u32, u64>(&[1, 0]), 0x1_0000_0000);
    assert_eq!(bit_array_from_chunks::<u16, u64>(&[0x12, 0, 0x3456]), 0x0012_0000_3456);
    assert_eq!(bit_array_from_chunks::<u8, u32>(&[4, 3, 2, 1]), 0x0403_0201);
    assert_eq!(bit_array_from_chunks::<u64, u64>(&[u64::MAX]), u64::MAX);
    // Words beyond the width of the bit array are left alone.
    assert_eq!(bit_array_from_chunks::<u8, u16>(&[1, 2, 3]), 0x0102);
    assert_eq!(bit_array_from_chunks::<u32, u64>(&[1, 2, 3, 4]), 0x0000_0001_0000_0002);
    assert_eq!(bit_array_from_chunks::<u64, u64>(&[5, 6]), 5);
    // A word that is wider than the bit array gives its low bits.
    assert_eq!(bit_array_from_chunks::<u32, u8>(&[0x1234_5678, 9]), 0x78);
    assert_eq!(bit_array_from_chunks::<u64, u16>(&[0x1234_5678_9abc_def0]), 0xdef0);
    assert_eq!(bit_array_from_chunks::<u16, u8>(&[]), 0);
}

#[test]
fn assembling_undoes_splitting() {
    for data in [0u64, 1, 0xffff, 0x1_0000, 0x8000_0000_0000_0000, 0x1234_5678_9abc_def0] {
        let mut chunks = bit_array_to_chunks_truncated::<u64, u16>(data);
        chunks.reverse();
        assert_eq!(bit_array_from_chunks::<u16, u64>(&chunks), data);
    }
}
