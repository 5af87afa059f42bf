use swiftsync_research::ef::EliasFano;
use swiftsync_research::EfError;

fn collect_all(ef: &EliasFano) -> Vec<u16> {
    let mut out = Vec::new();
    let mut it = ef.iter();
    while let Some(v) = it.next() {
        out.push(v);
    }
    out
}

#[test]
fn test_empty() {
    let ef = EliasFano::new(&[]).unwrap();
    assert!(ef.is_empty());
    assert_eq!(ef.len(), 0);
    assert_eq!(ef.get(0), None);
    assert!(!ef.contains(0));
    assert_eq!(collect_all(&ef), Vec::<u16>::new());
    assert_eq!(ef.serialized_size(), 2);
}

#[test]
fn test_single_element() {
    let ef = EliasFano::new(&[42]).unwrap();
    assert_eq!(ef.len(), 1);
    assert_eq!(ef.get(0), Some(42));
    assert!(ef.contains(42));
    assert!(!ef.contains(41));
}

#[test]
fn test_basic_sequence() {
    let values: Vec<u16> = vec![2, 3, 5, 7, 11, 13, 24];
    let ef = EliasFano::new(&values).unwrap();

    for (i, &v) in values.iter().enumerate() {
        assert_eq!(ef.get(i as u16), Some(v));
        assert!(ef.contains(v));
    }

    assert!(!ef.contains(0));
    assert!(!ef.contains(4));
    assert!(!ef.contains(25));
}

#[test]
fn test_iterator() {
    let values: Vec<u16> = vec![0, 1, 5, 10, 100, 1000, 10000];
    let ef = EliasFano::new(&values).unwrap();
    let collected: Vec<u16> = collect_all(&ef);
    assert_eq!(collected, values);
}

#[test]
fn test_max_u16() {
    let values: Vec<u16> = vec![0, 1000, 30000, 65534, 65535];
    let ef = EliasFano::new(&values).unwrap();

    for (i, &v) in values.iter().enumerate() {
        assert_eq!(ef.get(i as u16), Some(v));
        assert!(ef.contains(v));
    }

    assert!(!ef.contains(1));
    assert!(!ef.contains(65533));

    let collected: Vec<u16> = collect_all(&ef);
    assert_eq!(collected, values);
}

#[test]
fn test_consecutive() {
    let values: Vec<u16> = (0..100).collect();
    let ef = EliasFano::new(&values).unwrap();

    for &v in &values {
        assert!(ef.contains(v));
    }
    assert!(!ef.contains(100));

    let collected: Vec<u16> = collect_all(&ef);
    assert_eq!(collected, values);
}

#[test]
fn test_sparse() {
    let values: Vec<u16> = vec![100, 20000, 40000, 60000, 65535];
    let ef = EliasFano::new(&values).unwrap();

    for (i, &v) in values.iter().enumerate() {
        assert_eq!(ef.get(i as u16), Some(v));
        assert!(ef.contains(v));
    }

    assert!(!ef.contains(0));
    assert!(!ef.contains(30000));
}

#[test]
fn test_contains_exhaustive_small() {
    let values: Vec<u16> = vec![3, 7, 15, 20];
    let ef = EliasFano::new(&values).unwrap();

    for v in 0..=25u16 {
        assert_eq!(ef.contains(v), values.contains(&v));
    }
}

#[test]
fn test_serialize_deserialize() {
    let values: Vec<u16> = vec![2, 3, 5, 7, 11, 13, 24, 100, 9999];
    let ef = EliasFano::new(&values).unwrap();

    let buffer = ef.serialize();
    assert_eq!(buffer.len(), ef.serialized_size());

    let ef2 = EliasFano::deserialize(&buffer).unwrap();

    assert_eq!(ef2.len(), ef.len());
    for i in 0..ef.len() {
        assert_eq!(ef2.get(i), ef.get(i));
    }
}

#[test]
fn test_serialize_empty() {
    let ef = EliasFano::new(&[]).unwrap();
    let buffer = ef.serialize();
    assert_eq!(buffer.len(), 2);

    let ef2 = EliasFano::deserialize(&buffer).unwrap();
    assert!(ef2.is_empty());
}

#[test]
fn test_u8_saves_space_vs_u64() {
    // With u64 words: each array rounds up to 8-byte boundary
    // With u8 words: each array rounds up to 1-byte boundary
    let values: Vec<u16> = vec![1, 5, 10];
    let ef = EliasFano::new(&values).unwrap();

    let lower_bits_total = 3u64 * ef.lower_bits() as u64;
    let max_upper = 10u64 >> ef.lower_bits();
    let upper_bits_total = 3u64 + max_upper + 1;

    let u8_bytes = ((lower_bits_total + 7) / 8) + ((upper_bits_total + 7) / 8);
    let u64_bytes = ((lower_bits_total + 63) / 64) * 8 + ((upper_bits_total + 63) / 64) * 8;

    println!(
        "u8 words: {} data bytes, u64 words: {} data bytes, saved: {}",
        u8_bytes,
        u64_bytes,
        u64_bytes - u8_bytes
    );

    assert!(u8_bytes <= u64_bytes);
}

#[test]
fn test_compression_ratio() {
    let values: Vec<u16> = (0..1000).map(|i| i * 65).collect();
    let ef = EliasFano::new(&values).unwrap();

    let raw_bytes = values.len() * 2;
    let disk_bytes = ef.serialized_size();

    println!(
        "Raw: {} bytes, Serialized: {} bytes ({:.1}%)",
        raw_bytes,
        disk_bytes,
        disk_bytes as f64 / raw_bytes as f64 * 100.0
    );

    let collected: Vec<u16> = collect_all(&ef);
    assert_eq!(collected, values);
}

#[test]
fn test_size_bound_literal() {
    // 1000 values spanning a universe of 64936: the split width comes out as
    // floor(log2(64936 / 1000)) = 6, so the encoding takes a 5-byte header,
    // 1000 six-bit remainder fields (750 bytes) and a bitvector of
    // 1000 + (64935 >> 6) + 1 = 2015 bits (252 bytes) -- within the
    // n * (2 + log2(U/n))-bit Elias-Fano bound, and far below the raw form.
    let values: Vec<u16> = (0..1000).map(|i| i * 65).collect();
    let ef = EliasFano::new(&values).unwrap();
    assert_eq!(ef.lower_bits(), 6);
    assert_eq!(ef.serialized_size(), 5 + 750 + 252);
    assert!(ef.serialized_size() * 8 <= 5 * 8 + 1000 * (2 + 7));
    assert!(ef.serialized_size() < values.len() * 2);
}

#[test]
fn test_round_trip_bytes() {
    let values: Vec<u16> = vec![0, 3, 4, 9, 300, 301, 65535];
    let ef = EliasFano::new(&values).unwrap();
    let bytes = ef.serialize();
    let ef2 = EliasFano::deserialize(&bytes).unwrap();
    assert_eq!(collect_all(&ef2), values);
    assert_eq!(ef2.serialize(), bytes);
}

#[test]
fn test_new_rejects_unsorted() {
    assert_eq!(EliasFano::new(&[5, 3, 1]).err().unwrap(), EfError::OrderingViolation);
    assert_eq!(EliasFano::new(&[1, 1, 2, 3]).err().unwrap(), EfError::OrderingViolation);
}

#[test]
fn test_deserialize_rejects_malformed() {
    // Too short for the count field.
    assert_eq!(EliasFano::deserialize(&[1]).err().unwrap(), EfError::FormatError);
    // Count of three, but no header or arrays follow.
    assert_eq!(EliasFano::deserialize(&[3, 0]).err().unwrap(), EfError::FormatError);
    // A valid stream cut one byte short.
    let ef = EliasFano::new(&[2, 3, 5, 7]).unwrap();
    let bytes = ef.serialize();
    assert_eq!(
        EliasFano::deserialize(&bytes[..bytes.len() - 1]).err().unwrap(),
        EfError::FormatError
    );
    // A split width the format never produces.
    assert_eq!(
        EliasFano::deserialize(&[1, 0, 42, 0, 17]).err().unwrap(),
        EfError::FormatError
    );
}

#[test]
fn test_size_hint() {
    let values: Vec<u16> = vec![10, 20, 30];
    let ef = EliasFano::new(&values).unwrap();
    let mut it = ef.iter();
    assert_eq!(it.size_hint(), (3, Some(3)));
    it.next();
    assert_eq!(it.size_hint(), (2, Some(2)));
    it.next();
    it.next();
    assert_eq!(it.size_hint(), (0, Some(0)));
    assert_eq!(it.next(), None);
}
