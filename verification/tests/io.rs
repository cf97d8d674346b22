use mapdb::error::DbError;
use mapdb::io::{DataInput2, DataOutput2, SliceInput};

fn packed(v: u64) -> Vec<u8> {
    let mut o = DataOutput2::new();
    o.pack_long(v);
    o.into_vec()
}

#[test]
fn pack_long_boundaries() {
    assert_eq!(packed(0), vec![0x80]);
    assert_eq!(packed(1), vec![0x81]);
    assert_eq!(packed(127), vec![0xFF]);
    assert_eq!(packed(128), vec![0x01, 0x80]);
    assert_eq!(packed(300), vec![0x02, 0xAC]);
    assert_eq!(packed(16383), vec![0x7F, 0xFF]);
    assert_eq!(packed(16384), vec![0x01, 0x00, 0x80]);
    let m = packed(i64::MAX as u64);
    assert_eq!(m.len(), 9);
    assert_eq!(*m.last().unwrap(), 0xFF);
    assert_eq!(packed(u64::MAX).len(), 10);
}

#[test]
fn pack_unpack_roundtrip() {
    for v in [
        0u64,
        1,
        63,
        64,
        127,
        128,
        129,
        255,
        256,
        16383,
        16384,
        1 << 20,
        1 << 35,
        i64::MAX as u64,
        u64::MAX - 1,
        u64::MAX,
    ] {
        let bytes = packed(v);
        let mut inp = SliceInput::new(&bytes);
        assert_eq!(inp.unpack_long().unwrap(), v, "roundtrip {v}");
        assert_eq!(inp.pos(), bytes.len());
    }
}

#[test]
fn pack_int_masks_32() {
    let mut o = DataOutput2::new();
    o.pack_int(-1);
    let bytes = o.into_vec();
    let mut inp = SliceInput::new(&bytes);
    assert_eq!(inp.unpack_int().unwrap(), -1);

    let mut o2 = DataOutput2::new();
    o2.pack_int(5);
    assert_eq!(o2.into_vec(), packed(5));
}

#[test]
fn big_endian_ints() {
    let mut o = DataOutput2::new();
    o.write_i32(0x01020304);
    o.write_i64(0x0102030405060708);
    o.write_i16(-2);
    let b = o.into_vec();
    assert_eq!(&b[0..4], &[1, 2, 3, 4]);
    assert_eq!(&b[4..12], &[1, 2, 3, 4, 5, 6, 7, 8]);
    assert_eq!(&b[12..14], &[0xFF, 0xFE]);
    let mut inp = SliceInput::new(&b);
    assert_eq!(inp.read_i32().unwrap(), 0x01020304);
    assert_eq!(inp.read_i64().unwrap(), 0x0102030405060708);
    assert_eq!(inp.read_i16().unwrap(), -2);
}

#[test]
fn unpack_long_skip_matches_decode() {
    let mut o = DataOutput2::new();
    let vals = [0u64, 200, 128, 99999, 7];
    for &v in &vals {
        o.pack_long(v);
    }
    let b = o.into_vec();
    let mut inp = SliceInput::new(&b);
    inp.unpack_long_skip(3).unwrap();
    assert_eq!(inp.unpack_long().unwrap(), 99999);
    assert_eq!(inp.unpack_long().unwrap(), 7);
}

#[test]
fn match_bytes_always_advances() {
    let b = b"MDB5.SD1extra";
    let mut inp = SliceInput::new(b);
    assert!(inp.match_bytes(b"MDB5.SD1").unwrap());
    assert_eq!(inp.pos(), 8);
    let mut inp2 = SliceInput::new(b);
    assert!(!inp2.match_bytes(b"XXXX.SD1").unwrap());
    assert_eq!(inp2.pos(), 8);
}

#[test]
fn reads_error_never_panic() {
    let b = [0u8; 2];
    let mut inp = SliceInput::new(&b);
    assert!(inp.read_i32().is_err());
    let mut inp = SliceInput::new(&b);
    assert!(inp.read_i64().is_err());
    let bad = [0u8; 12];
    let mut inp = SliceInput::new(&bad);
    assert!(inp.unpack_long().is_err());
    let mut inp = SliceInput::new(&b);
    assert!(inp.seek(3).is_err());
    assert!(inp.seek(2).is_ok());
}

#[test]
fn every_fixed_width_write_reads_back() {
    let mut o = DataOutput2::with_capacity(64);
    o.write_u8(0xFE);
    o.write_byte(-1);
    o.write_u16(0xABCD);
    o.write_u32(0xDEADBEEF);
    o.write_u64(u64::MAX - 5);
    o.write_all(b"tail");
    assert_eq!(o.pos(), 1 + 1 + 2 + 4 + 8 + 4);
    let copy = o.copy_bytes();
    let b = o.into_vec();
    assert_eq!(copy, b);
    let mut inp = SliceInput::new(&b);
    assert_eq!(inp.read_unsigned_byte().unwrap(), 0xFE);
    assert_eq!(inp.read_i8().unwrap(), -1);
    assert_eq!(inp.read_u16().unwrap(), 0xABCD);
    assert_eq!(inp.read_i32().unwrap(), 0xDEADBEEFu32 as i32);
    assert_eq!(inp.read_u64().unwrap(), u64::MAX - 5);
    assert_eq!(inp.read_vec(4).unwrap(), b"tail".to_vec());
    assert_eq!(inp.remaining(), 0);
}

#[test]
fn reading_past_the_end_moves_nothing() {
    let b = [1u8, 2, 3];
    let mut inp = SliceInput::at(&b, 1);
    assert_eq!(inp.remaining(), 2);
    assert!(inp.skip_bytes(3).is_err());
    assert!(inp.subslice(2, 2).is_err());
    assert_eq!(inp.subslice(1, 2).unwrap(), &[2, 3]);
    inp.skip_bytes(2).unwrap();
    assert!(matches!(inp.read_u8(), Err(DbError::DataCorruption(_))));
    assert!(!inp.is_empty());
    assert_eq!(inp.len(), 3);
}

#[test]
fn canonical_form_is_the_shortest() {
    let ok = [0x01u8, 0x80];
    assert_eq!(SliceInput::new(&ok).unpack_canonical().unwrap(), 128);
    let padded = [0x00u8, 0x81];
    assert!(SliceInput::new(&padded).unpack_canonical().is_err());
    assert_eq!(SliceInput::new(&padded).unpack_long().unwrap(), 1);
}
