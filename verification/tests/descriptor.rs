use mapdb::db::descriptor::{
    b64url_decode, b64url_encode, group_descriptor_or_custom, is_valid_group_descriptor,
    is_valid_ser_descriptor, ser_descriptor_or_custom, verify_group, verify_ser, ColumnType,
    ColumnarValueFormat, CompressionSerializer, GroupDescriptor, SerDescriptor, TupleComponent,
    TupleFormat, CUSTOM,
};
use mapdb::error::DbError;
use mapdb::ser::{
    BooleanSer, ByteArrayFormat, IntFormat, IntSer, LongFormat, LongSer, Model, ObjectArrayFormat,
    StringGroupFormat, StringSer,
};

#[test]
fn builtin_group_descriptors() {
    assert_eq!(LongFormat.group_descriptor().unwrap(), "LONG");
    assert_eq!(IntFormat.group_descriptor().unwrap(), "INT");
    assert_eq!(StringGroupFormat.group_descriptor().unwrap(), "STRING");
    assert_eq!(ByteArrayFormat.group_descriptor().unwrap(), "BYTE_ARRAY");
}

#[test]
fn builtin_ser_descriptors() {
    assert_eq!(LongSer.ser_descriptor().unwrap(), "LONG");
    assert_eq!(IntSer.ser_descriptor().unwrap(), "INTEGER");
    assert_eq!(BooleanSer.ser_descriptor().unwrap(), "BOOLEAN");
    assert_eq!(StringSer.ser_descriptor().unwrap(), "STRING");
}

#[test]
fn tuple_descriptor_uses_java_component_names() {
    let f = TupleFormat::of(vec![
        TupleComponent::Str,
        TupleComponent::Long,
        TupleComponent::Int,
    ]);
    assert_eq!(f.group_descriptor().unwrap(), "TUPLE:STRING,LONG,INT");
}

#[test]
fn columnar_descriptor_uses_java_column_names() {
    let f = ColumnarValueFormat::of(vec![ColumnType::Long, ColumnType::Int]);
    assert_eq!(f.group_descriptor().unwrap(), "COLUMNAR:LONG,INT");
}

#[test]
fn object_array_wraps_nested_serializer() {
    let f = ObjectArrayFormat::new(StringSer);
    let expected = format!("OBJECT_ARRAY:{}", b64url_encode(b"STRING"));
    assert_eq!(f.group_descriptor().unwrap(), expected);
}

#[test]
fn deflate_descriptor_embeds_level_and_nested() {
    let s = CompressionSerializer::with_level(StringSer, 6);
    let expected = format!("DEFLATE:6:{}", b64url_encode(b"STRING"));
    assert_eq!(s.ser_descriptor().unwrap(), expected);
}

#[test]
fn deflate_descriptor_rejects_out_of_range_level() {
    let nested = b64url_encode(b"STRING");
    assert!(is_valid_ser_descriptor(&format!("DEFLATE:-1:{nested}")));
    assert!(is_valid_ser_descriptor(&format!("DEFLATE:0:{nested}")));
    assert!(is_valid_ser_descriptor(&format!("DEFLATE:9:{nested}")));
    assert!(!is_valid_ser_descriptor(&format!("DEFLATE:-2:{nested}")));
    assert!(!is_valid_ser_descriptor(&format!("DEFLATE:10:{nested}")));
    assert!(!is_valid_ser_descriptor(&format!("DEFLATE:99999999999:{nested}")));
}

#[test]
fn b64url_matches_known_vectors() {
    assert_eq!(b64url_encode(b"STRING"), "U1RSSU5H");
    assert_eq!(b64url_encode(b""), "");
    assert_eq!(b64url_encode(b"f"), "Zg");
    assert_eq!(b64url_encode(b"fo"), "Zm8");
    assert_eq!(b64url_encode(b"foo"), "Zm9v");
}

#[test]
fn verify_accepts_match_rejects_mismatch() {
    assert!(verify_group("LONG", &LongFormat).is_ok());
    assert!(verify_group("STRING", &LongFormat).is_err());
}

struct CustomSer;

impl SerDescriptor for CustomSer {
    fn ser_name(&self) -> Option<Model<StringSer>> {
        unreachable!()
    }

    fn ser_descriptor(&self) -> Option<String> {
        None
    }
}

#[test]
fn verify_custom_only_matches_custom_marker() {
    assert!(verify_ser(CUSTOM, &CustomSer).is_ok());
    assert!(verify_ser("STRING", &CustomSer).is_err());
}

#[test]
fn a_codec_without_a_name_is_custom() {
    assert_eq!(ser_descriptor_or_custom(&CustomSer), "CUSTOM");
    assert_eq!(ser_descriptor_or_custom(&StringSer), "STRING");
    assert_eq!(group_descriptor_or_custom(&LongFormat), "LONG");
}

#[test]
fn decoding_undoes_encoding() {
    for text in ["", "f", "fo", "foo", "STRING", "grüße"] {
        assert_eq!(b64url_decode(&b64url_encode(text.as_bytes())), Some(text.to_string()));
    }
    assert_eq!(b64url_decode("Z"), None);
    assert_eq!(b64url_decode("Zg=="), None);
    assert_eq!(b64url_decode("a+b/"), None);
    assert_eq!(b64url_decode(&b64url_encode(&[0xFF, 0xFE])), None);
}

#[test]
fn group_descriptors_are_checked_in_depth() {
    assert!(is_valid_group_descriptor("LONG"));
    assert!(is_valid_group_descriptor("TUPLE:STRING,LONG"));
    assert!(!is_valid_group_descriptor("TUPLE:"));
    assert!(!is_valid_group_descriptor("TUPLE:STRING,"));
    assert!(is_valid_group_descriptor("COLUMNAR:SHORT,BYTE"));
    assert!(!is_valid_group_descriptor("COLUMNAR:STRING"));
    assert!(is_valid_group_descriptor(&format!("OBJECT_ARRAY:{}", b64url_encode(b"STRING"))));
    assert!(!is_valid_group_descriptor(&format!("OBJECT_ARRAY:{}", b64url_encode(b"NOPE"))));
    assert!(is_valid_group_descriptor("CUSTOM"));
    assert!(!is_valid_group_descriptor("long"));
}

#[test]
fn a_broken_stored_descriptor_is_corruption() {
    assert!(matches!(verify_group("NOPE", &LongFormat), Err(DbError::DataCorruption(_))));
    assert!(matches!(
        verify_group("STRING", &LongFormat),
        Err(DbError::WrongConfiguration(_))
    ));
    assert!(matches!(verify_ser("NOPE", &StringSer), Err(DbError::DataCorruption(_))));
}
