use cass_store::io::{CassDeserializer, CassRead, CassSerializer, CassWrite, OffsetCodec, TokenCodec};
use cass_store::util::CassError;

#[test]
fn integers_are_written_big_endian() {
    let mut w = CassWrite::new(vec![9]);
    assert_eq!(w.position(), Ok(1));
    w.write_u8(0xab).unwrap();
    w.write_u16(0x0102).unwrap();
    w.write_u32(0x03040506).unwrap();
    w.write_u64(0x0708090a0b0c0d0e).unwrap();
    w.write_db_timestamp(1).unwrap();
    w.write_db_expiry_timestamp(2).unwrap();
    w.write_bool(true).unwrap();
    w.write_bool(false).unwrap();
    w.write_uuid(0x101112131415161718191a1b1c1d1e1f).unwrap();
    w.write_raw(&[0xfe, 0xff]).unwrap();
    assert_eq!(w.position(), Ok(48));
    assert_eq!(
        w.into_inner(),
        vec![
            9, 0xab, 1, 2, 3, 4, 5, 6, 7, 8, 9, 10, 11, 12, 13, 14, 0, 0, 0, 0, 0, 0, 0, 1, 0, 0,
            0, 2, 1, 0, 0x10, 0x11, 0x12, 0x13, 0x14, 0x15, 0x16, 0x17, 0x18, 0x19, 0x1a, 0x1b,
            0x1c, 0x1d, 0x1e, 0x1f, 0xfe, 0xff
        ]
    );
}

#[test]
fn uuid_bytes_agree_with_the_uuid_crate() {
    let id = uuid::Uuid::from_u128(0x936da01f9abd4d9d80c702af85c822a8);
    let mut w = CassWrite::new(Vec::new());
    w.write_uuid(id.as_u128()).unwrap();
    let bytes = w.into_inner();
    assert_eq!(&bytes[..], &id.as_bytes()[..]);
    let mut r = CassRead::wrap(&bytes);
    assert_eq!(uuid::Uuid::from_u128(r.read_uuid()), id);
}

#[test]
fn strings_carry_a_length_prefix() {
    let mut w = CassWrite::new(Vec::new());
    w.write_utf8("Arno").unwrap();
    w.write_utf8("").unwrap();
    w.write_utf8("ß").unwrap();
    let bytes = w.into_inner();
    assert_eq!(bytes, vec![0, 0, 0, 4, b'A', b'r', b'n', b'o', 0, 0, 0, 0, 0, 0, 0, 2, 0xc3, 0x9f]);
    let mut r = CassRead::wrap(&bytes);
    assert_eq!(r.read_utf8(), Ok("Arno"));
    assert_eq!(r.pos, 8);
    assert_eq!(r.read_utf8(), Ok(""));
    assert_eq!(r.read_utf8(), Ok("ß"));
    assert_eq!(r.pos, bytes.len());
    assert_eq!(r.read_utf8(), Err(CassError::UnexpectedEnd));
}

#[test]
fn invalid_strings_are_refused() {
    let bytes = vec![0, 0, 0, 2, 0xc3, 0x28];
    let mut r = CassRead::wrap(&bytes);
    assert_eq!(r.read_utf8(), Err(CassError::InvalidUtf8));
    assert_eq!(r.pos, 0);
    let bytes = vec![0, 0, 0, 3, b'a', b'b'];
    let mut r = CassRead::wrap(&bytes);
    assert_eq!(r.read_utf8(), Err(CassError::UnexpectedEnd));
    assert_eq!(r.pos, 0);
}

#[test]
fn reads_advance_and_peeks_do_not() {
    let bytes: Vec<u8> = (1..=40).collect();
    let mut r = CassRead::wrap(&bytes);
    assert!(r.has_remaining(40));
    assert!(!r.has_remaining(41));
    r.assert_remaining(40);
    assert_eq!(r.peek_u8(), 1);
    assert_eq!(r.pos, 0);
    assert_eq!(r.read_u8(), 1);
    assert_eq!(r.pos, 1);
    assert_eq!(r.peek_u32(), 0x02030405);
    assert_eq!(r.peek_u32_offs(2), 0x04050607);
    assert_eq!(r.pos, 1);
    assert_eq!(r.read_u32(), 0x02030405);
    assert_eq!(r.pos, 5);
    assert_eq!(r.peek_u64(), 0x060708090a0b0c0d);
    assert_eq!(r.read_u64(), 0x060708090a0b0c0d);
    assert_eq!(r.pos, 13);
    assert_eq!(r.read_slice(3), &[14, 15, 16]);
    assert_eq!(r.read_db_expiry_timestamp(), 0x11121314);
    assert_eq!(r.read_db_timestamp(), 0x15161718191a1b1c);
    assert_eq!(r.pos, 28);
    assert!(r.has_remaining(12));
    assert!(!r.has_remaining(13));
    r.pos = 24;
    assert_eq!(r.read_uuid(), 0x191a1b1c1d1e1f202122232425262728);
    assert_eq!(r.pos, 40);
    assert!(r.has_remaining(0));
    assert!(!r.has_remaining(1));
}

#[test]
fn codecs_write_and_read_fixed_widths() {
    let mut w = CassWrite::new(Vec::new());
    <TokenCodec as CassSerializer<u128>>::ser(&mut w, &0x0102).unwrap();
    <OffsetCodec as CassSerializer<u64>>::ser(&mut w, &0x0304).unwrap();
    let bytes = w.into_inner();
    assert_eq!(
        bytes,
        vec![0, 0, 0, 0, 0, 0, 0, 0, 0, 0, 0, 0, 0, 0, 1, 2, 0, 0, 0, 0, 0, 0, 3, 4]
    );
    let mut r = CassRead::wrap(&bytes);
    assert_eq!(<TokenCodec as CassDeserializer<u128>>::deser(&mut r), 0x0102);
    assert_eq!(<OffsetCodec as CassDeserializer<u64>>::deser(&mut r), 0x0304);
    assert_eq!(r.pos, 24);
}
