use mapdb::db::catalog::{NameCatalog, CATALOG_SER};
use mapdb::error::{DbError, Result};
use mapdb::io::{DataOutput2, SliceInput};

fn encode(cat: &NameCatalog) -> Vec<u8> {
    let mut out = DataOutput2::new();
    CATALOG_SER.serialize(&mut out, cat);
    out.into_vec()
}

fn decode(bytes: &[u8]) -> Result<NameCatalog> {
    let mut input = SliceInput::new(bytes);
    CATALOG_SER.deserialize(&mut input, Some(bytes.len()))
}

#[test]
fn empty_catalog_golden_bytes() {
    let cat = NameCatalog::new();
    assert_eq!(
        encode(&cat),
        vec![0x4D, 0x44, 0x42, 0x43, 0x00, 0x00, 0x00, 0x01, 0x00, 0x80]
    );
}

#[test]
fn single_entry_golden_bytes() {
    let mut cat = NameCatalog::new();
    cat.insert("al#type".to_string(), "AtomicLong".to_string());
    let expected: Vec<u8> = vec![
        0x4D, 0x44, 0x42, 0x43, 0x00, 0x00, 0x00, 0x01, 0x00, 0x81, 0x87, b'a', b'l', b'#', b't',
        b'y', b'p', b'e', 0x8A, b'A', b't', b'o', b'm', b'i', b'c', b'L', b'o', b'n', b'g',
    ];
    assert_eq!(encode(&cat), expected);
    assert_eq!(decode(&expected).unwrap(), cat);
}

#[test]
fn entries_serialize_in_sorted_order() {
    let mut a = NameCatalog::new();
    a.insert("b".to_string(), "2".to_string());
    a.insert("a".to_string(), "1".to_string());
    let mut b = NameCatalog::new();
    b.insert("a".to_string(), "1".to_string());
    b.insert("b".to_string(), "2".to_string());
    assert_eq!(encode(&a), encode(&b));
    let bytes = encode(&a);
    assert_eq!(bytes[10], 0x81);
    assert_eq!(bytes[11], b'a');
}

#[test]
fn round_trips_a_realistic_treemap_row() {
    let mut cat = NameCatalog::new();
    cat.insert("t#type".into(), "TreeMap".into());
    cat.insert("t#keySerializer".into(), "LONG".into());
    cat.insert("t#valueSerializer".into(), "STRING".into());
    cat.insert("t#rootRecidRecid".into(), "2".into());
    cat.insert("t#maxNodeSize".into(), "32".into());
    cat.insert("t#counterRecid".into(), "0".into());
    cat.insert("t#valueInline".into(), "true".into());
    let bytes = encode(&cat);
    assert_eq!(decode(&bytes).unwrap(), cat);
}

#[test]
fn rejects_short_record() {
    assert!(matches!(decode(&[0x4D, 0x44, 0x42]), Err(DbError::DataCorruption(_))));
}

#[test]
fn rejects_bad_magic() {
    let bytes = vec![0x00, 0x00, 0x00, 0x00, 0x00, 0x00, 0x00, 0x01, 0x00, 0x80];
    assert!(matches!(decode(&bytes), Err(DbError::DataCorruption(_))));
}

#[test]
fn rejects_bad_version() {
    let bytes = vec![0x4D, 0x44, 0x42, 0x43, 0x00, 0x00, 0x00, 0x09, 0x00, 0x80];
    assert!(matches!(decode(&bytes), Err(DbError::DataCorruption(_))));
}

#[test]
fn rejects_trailing_bytes() {
    let mut bytes = vec![0x4D, 0x44, 0x42, 0x43, 0x00, 0x00, 0x00, 0x01, 0x00, 0x80];
    bytes.push(0xFF);
    assert!(matches!(decode(&bytes), Err(DbError::DataCorruption(_))));
}

#[test]
fn rejects_string_crossing_record_end() {
    let bytes = vec![
        0x4D, 0x44, 0x42, 0x43, 0x00, 0x00, 0x00, 0x01, 0x00, 0x81, 0xB2,
    ];
    assert!(matches!(decode(&bytes), Err(DbError::DataCorruption(_))));
}

#[test]
fn rejects_overlong_packed_count() {
    let mut bytes = vec![0x4D, 0x44, 0x42, 0x43, 0x00, 0x00, 0x00, 0x01, 0x00];
    bytes.extend(std::iter::repeat(0x00).take(11));
    assert!(matches!(decode(&bytes), Err(DbError::DataCorruption(_))));
}

#[test]
fn rejects_overflowing_packed_count() {
    let mut bytes = vec![0x4D, 0x44, 0x42, 0x43, 0x00, 0x00, 0x00, 0x01, 0x00];
    bytes.extend(std::iter::repeat(0x7F).take(9));
    bytes.push(0xFF);
    assert!(matches!(decode(&bytes), Err(DbError::DataCorruption(_))));
}

#[test]
fn rejects_unterminated_string_length() {
    let mut bytes = vec![0x4D, 0x44, 0x42, 0x43, 0x00, 0x00, 0x00, 0x01, 0x00, 0x81];
    bytes.extend(std::iter::repeat(0x00).take(11));
    assert!(matches!(decode(&bytes), Err(DbError::DataCorruption(_))));
}

#[test]
fn rejects_non_canonical_leading_zero_count() {
    let bytes = vec![
        0x4D, 0x44, 0x42, 0x43, 0x00, 0x00, 0x00, 0x01, 0x00, 0x00, 0x81,
    ];
    assert!(matches!(decode(&bytes), Err(DbError::DataCorruption(_))));
}

#[test]
fn rejects_2_pow_64_with_zero_terminal_group() {
    let mut bytes = vec![0x4D, 0x44, 0x42, 0x43, 0x00, 0x00, 0x00, 0x01, 0x00];
    bytes.push(0x02);
    bytes.extend(std::iter::repeat(0x00).take(8));
    bytes.push(0x80);
    assert!(matches!(decode(&bytes), Err(DbError::DataCorruption(_))));
}

#[test]
fn rejects_duplicate_keys() {
    let bytes = vec![
        0x4D, 0x44, 0x42, 0x43, 0x00, 0x00, 0x00, 0x01, 0x00, 0x82, 0x81, b'a', 0x81, b'x', 0x81,
        b'a', 0x81, b'y',
    ];
    assert!(matches!(decode(&bytes), Err(DbError::DataCorruption(_))));
}

#[test]
fn rejects_invalid_utf8_in_a_string() {
    let bytes = vec![
        0x4D, 0x44, 0x42, 0x43, 0x00, 0x00, 0x00, 0x01, 0x00, 0x81, 0x81, 0x80, 0x81, b'x',
    ];
    assert!(matches!(decode(&bytes), Err(DbError::DataCorruption(_))));
}

#[test]
fn rejects_overlong_surrogate_that_a_lossy_decode_would_accept() {
    let bytes = vec![
        0x4D, 0x44, 0x42, 0x43, 0x00, 0x00, 0x00, 0x01, 0x00, 0x81, 0x83, 0xED, 0xA0, 0x80, 0x81,
        b'x',
    ];
    assert!(matches!(decode(&bytes), Err(DbError::DataCorruption(_))));
}

#[test]
fn unsorted_entries_are_read_and_sorted() {
    let bytes = vec![
        0x4D, 0x44, 0x42, 0x43, 0x00, 0x00, 0x00, 0x01, 0x00, 0x82, 0x81, b'b', 0x81, b'2', 0x81,
        b'a', 0x81, b'1',
    ];
    let cat = decode(&bytes).unwrap();
    assert_eq!(cat.len(), 2);
    assert_eq!(cat.key_at(0), "a");
    assert_eq!(cat.value_at(1), "2");
    assert!(encode(&cat) != bytes);
}

#[test]
fn insert_answers_the_value_before() {
    let mut cat = NameCatalog::new();
    assert!(cat.is_empty());
    assert_eq!(cat.insert("k".into(), "1".into()), None);
    assert_eq!(cat.insert("k".into(), "2".into()), Some("1".to_string()));
    assert_eq!(cat.get("k"), Some(&"2".to_string()));
    assert!(cat.contains_key("k") && !cat.contains_key("j"));
    assert_eq!(cat.dup(), cat);
}
