use swiftsync_research::{
    compact_size, compress_amount, size_run_lengths_compact_size, size_run_lengths_varint,
    size_varint,
};

#[test]
fn test_compact_size_thresholds() {
    assert_eq!(compact_size(0), 1);
    assert_eq!(compact_size(0xFC), 1);
    assert_eq!(compact_size(0xFD), 3);
    assert_eq!(compact_size(0xFFFF), 3);
    assert_eq!(compact_size(0x10000), 5);
    assert_eq!(compact_size(0xFFFF_FFFF), 5);
    assert_eq!(compact_size(0x1_0000_0000), 9);
    assert_eq!(compact_size(u64::MAX), 9);
}

#[test]
fn test_size_varint_boundaries() {
    assert_eq!(size_varint(0), 1);
    assert_eq!(size_varint(0x7F), 1);
    assert_eq!(size_varint(0x80), 2);
    assert_eq!(size_varint(0x407F), 2);
    assert_eq!(size_varint(0x4080), 3);
    assert_eq!(size_varint(u64::MAX), 10);
}

#[test]
fn test_compress_amount_values() {
    assert_eq!(compress_amount(0), 0);
    assert_eq!(compress_amount(1), 1);
    assert_eq!(compress_amount(10), 2);
    assert_eq!(compress_amount(100_000_000), 9);
    assert_eq!(compress_amount(50_000_000), 48);
    assert_eq!(compress_amount(123_456_789), 1_111_111_101);
}

#[test]
fn test_run_length_sizes() {
    // Deltas 2, 1, 2 and a count of 3: four one-byte CompactSizes.
    assert_eq!(size_run_lengths_compact_size(&[2, 3, 5]), 4);
    assert_eq!(size_run_lengths_varint(&[2, 3, 5]), 4);
    // A delta of 0xFD takes three bytes as CompactSize, two as VarInt.
    assert_eq!(size_run_lengths_compact_size(&[0xFD]), 1 + 3);
    assert_eq!(size_run_lengths_varint(&[0xFD]), 1 + 2);
    // Duplicates give a zero run length.
    assert_eq!(size_run_lengths_compact_size(&[9, 9]), 1 + 1 + 1);
    assert_eq!(size_run_lengths_varint(&[]), 1);
}
