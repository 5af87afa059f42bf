use swiftsync_research::ef::EliasFano;
use swiftsync_research::hints::{decode_bitmap, BitmapHints};
use swiftsync_research::EfError;

/// A minimal hints file: header, a one-pair table, and one record holding
/// the bitmap 0b0000_0101 over eight bits.
fn crafted_file() -> Vec<u8> {
    let mut data = Vec::new();
    data.extend_from_slice(b"UTXO"); // magic
    data.push(0x00); // version
    data.extend_from_slice(&1u32.to_le_bytes()); // stop_height
    data.extend_from_slice(&1u32.to_le_bytes()); // height 1 ...
    data.extend_from_slice(&21u64.to_le_bytes()); // ... record at offset 21
    data.extend_from_slice(&8u32.to_le_bytes()); // num_bits
    data.push(0b0000_0101); // bitmap
    data
}

#[test]
fn test_crafted_hints_file() {
    let data = crafted_file();
    let hints = BitmapHints::from_bytes(&data).unwrap();
    assert_eq!(hints.stop_height(), 1);
    assert_eq!(hints.offset_for(1).unwrap(), 21);

    let indices = hints.get_indexes(&data, 1).unwrap();
    assert_eq!(indices, vec![0, 2]);

    // The decoded record satisfies the codec's input contract directly.
    let ef = EliasFano::new(&indices).unwrap();
    let bytes = ef.serialize();
    let ef2 = EliasFano::deserialize(&bytes).unwrap();
    assert_eq!(ef2.get(0), Some(0));
    assert_eq!(ef2.get(1), Some(2));
    assert_eq!(ef2.len(), 2);
}

#[test]
fn test_wrong_magic() {
    let mut data = crafted_file();
    data[0] = b'X';
    assert_eq!(BitmapHints::from_bytes(&data).err().unwrap(), EfError::FormatError);
}

#[test]
fn test_unsupported_version() {
    let mut data = crafted_file();
    data[4] = 0x01;
    assert_eq!(BitmapHints::from_bytes(&data).err().unwrap(), EfError::FormatError);
}

#[test]
fn test_truncated_table() {
    let data = crafted_file();
    assert_eq!(BitmapHints::from_bytes(&data[..12]).err().unwrap(), EfError::FormatError);
}

#[test]
fn test_height_out_of_range() {
    let data = crafted_file();
    let hints = BitmapHints::from_bytes(&data).unwrap();
    assert_eq!(hints.get_indexes(&data, 0).err().unwrap(), EfError::RangeError);
    assert_eq!(hints.get_indexes(&data, 2).err().unwrap(), EfError::RangeError);
}

#[test]
fn test_record_out_of_bounds() {
    let mut data = crafted_file();
    // Point the record past the end of the file.
    data[13..21].copy_from_slice(&1000u64.to_le_bytes());
    let hints = BitmapHints::from_bytes(&data).unwrap();
    assert_eq!(hints.get_indexes(&data, 1).err().unwrap(), EfError::IoError);
}

#[test]
fn test_record_bitmap_truncated() {
    let data = crafted_file();
    let hints = BitmapHints::from_bytes(&data).unwrap();
    // The table parses from the prefix, but the bitmap byte is missing.
    assert_eq!(
        hints.get_indexes(&data[..data.len() - 1], 1).err().unwrap(),
        EfError::IoError
    );
}

#[test]
fn test_record_too_many_bits() {
    let mut data = crafted_file();
    data[21..25].copy_from_slice(&0x10001u32.to_le_bytes());
    let hints = BitmapHints::from_bytes(&data).unwrap();
    assert_eq!(hints.get_indexes(&data, 1).err().unwrap(), EfError::FormatError);
}

#[test]
fn test_duplicate_height_last_wins() {
    let mut data = Vec::new();
    data.extend_from_slice(b"UTXO");
    data.push(0x00);
    data.extend_from_slice(&2u32.to_le_bytes());
    data.extend_from_slice(&7u32.to_le_bytes());
    data.extend_from_slice(&100u64.to_le_bytes());
    data.extend_from_slice(&7u32.to_le_bytes());
    data.extend_from_slice(&200u64.to_le_bytes());
    let hints = BitmapHints::from_bytes(&data).unwrap();
    assert_eq!(hints.stop_height(), 2);
    assert_eq!(hints.offset_for(7).unwrap(), 200);
    assert_eq!(hints.offset_for(1).err().unwrap(), EfError::RangeError);
}

#[test]
fn test_decode_bitmap_patterns() {
    assert_eq!(decode_bitmap(0, &[]), Vec::<u16>::new());
    assert_eq!(decode_bitmap(8, &[0b1000_0001]), vec![0, 7]);
    // Only positions below num_bits count, even when the byte has more set.
    assert_eq!(decode_bitmap(3, &[0b1111_1111]), vec![0, 1, 2]);
    assert_eq!(decode_bitmap(16, &[0x00, 0x80]), vec![15]);
    assert_eq!(decode_bitmap(9, &[0xFF, 0x01]), (0..9).collect::<Vec<u16>>());
}
