use rvb::codec::{decode_value, value_bytes, value_gt};
use rvb::value::{DbValue, ValueMap};

#[test]
fn test_number_encoding_exact_bytes() {
    // Tag 2, then the 128-bit two's complement pattern, low half first.
    let mut expected = vec![2u8, 1u8];
    expected.extend(std::iter::repeat(0u8).take(15));
    assert_eq!(value_bytes(&DbValue::Number(1)), expected);
}

#[test]
fn test_byte_order_on_numbers() {
    // The order conflict resolution uses is the lexicographic byte order of
    // the canonical encodings.
    assert!(value_gt(&DbValue::Number(2), &DbValue::Number(1)));
    assert!(!value_gt(&DbValue::Number(1), &DbValue::Number(2)));
    assert!(!value_gt(&DbValue::Number(2), &DbValue::Number(2)));
    assert!(value_gt(&DbValue::Number(5), &DbValue::Number(2)));
}

#[test]
fn test_value_roundtrip() {
    let mut inner = ValueMap::new();
    inner.insert("b".to_string(), DbValue::Text("two".to_string()));
    inner.insert("a".to_string(), DbValue::Number(-12));
    let value = DbValue::Array(vec![
        DbValue::Object(inner),
        DbValue::Boolean(false),
        DbValue::Absent,
        DbValue::Number(i128::MIN),
        DbValue::Number(i128::MAX),
    ]);
    let bytes = value_bytes(&value);
    let (decoded, used) = decode_value(&bytes, 0).unwrap();
    assert_eq!(decoded, value);
    assert_eq!(used, bytes.len());
}

#[test]
fn test_insertion_order_does_not_change_encoding() {
    // Mappings are canonical: equal logical mappings encode identically.
    let mut ab = ValueMap::new();
    ab.insert("a".to_string(), DbValue::Number(1));
    ab.insert("b".to_string(), DbValue::Number(2));
    let mut ba = ValueMap::new();
    ba.insert("b".to_string(), DbValue::Number(2));
    ba.insert("a".to_string(), DbValue::Number(1));
    assert_eq!(value_bytes(&DbValue::Object(ab)), value_bytes(&DbValue::Object(ba)));
}

#[test]
fn test_decoder_rejects_unsorted_mapping() {
    // Encode {a, b}, then swap the two entries' bytes by hand: the decoder
    // accepts canonical input only.
    let mut m = ValueMap::new();
    m.insert("a".to_string(), DbValue::Boolean(true));
    let bytes_a = value_bytes(&DbValue::Object(m));
    let mut m2 = ValueMap::new();
    m2.insert("b".to_string(), DbValue::Boolean(true));
    let bytes_b = value_bytes(&DbValue::Object(m2));
    // Splice: count 2, entry "b", entry "a" - keys out of order.
    let entry_a = &bytes_a[9..];
    let entry_b = &bytes_b[9..];
    let mut swapped = vec![4u8, 2, 0, 0, 0, 0, 0, 0, 0];
    swapped.extend_from_slice(entry_b);
    swapped.extend_from_slice(entry_a);
    assert!(decode_value(&swapped, 0).is_none());
}

#[test]
fn test_decoder_rejects_truncated_input() {
    let bytes = value_bytes(&DbValue::Text("hello".to_string()));
    let truncated: Vec<u8> = bytes[..bytes.len() - 1].to_vec();
    assert!(decode_value(&truncated, 0).is_none());
}

#[test]
fn test_insert_replaces_and_get_finds() {
    let mut m = ValueMap::new();
    m.insert("k".to_string(), DbValue::Number(1));
    m.insert("k".to_string(), DbValue::Number(2));
    assert_eq!(m.get("k"), Some(&DbValue::Number(2)));
    assert_eq!(m.len(), 1);
    assert_eq!(m.get("missing"), None);
}

#[test]
fn test_clone_preserves_value() {
    let mut m = ValueMap::new();
    m.insert("k".to_string(), DbValue::Array(vec![DbValue::Number(3)]));
    let v = DbValue::Object(m);
    assert_eq!(v.clone(), v);
}
