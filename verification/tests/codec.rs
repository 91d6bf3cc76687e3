use lexcode::de::Deserializer;
use lexcode::error::Error;
use lexcode::fixed_bytes::str_equal;
use lexcode::fixed_bytes::FIXED_BYTES_NAME;
use lexcode::ser::Serializer;

#[test]
fn serializer_starts_empty() {
    let s = Serializer::new();
    assert!(!s.in_raw_byte_mode());
    assert_eq!(s.into_bytes(), Vec::<u8>::new());
}

#[test]
fn serializer_appends_in_order() {
    let mut s = Serializer::new();
    s.serialize_bool(true).unwrap();
    s.serialize_i8(-1).unwrap();
    s.serialize_i16(-65).unwrap();
    s.serialize_i32(64).unwrap();
    s.serialize_i64(0).unwrap();
    s.serialize_i128(63).unwrap();
    s.serialize_u8(200).unwrap();
    s.serialize_u16(127).unwrap();
    s.serialize_u32(128).unwrap();
    s.serialize_u64(16511).unwrap();
    s.serialize_u128(16512).unwrap();
    s.serialize_char('A').unwrap();
    s.serialize_unit().unwrap();
    s.serialize_none().unwrap();
    s.serialize_some().unwrap();
    assert_eq!(
        s.into_bytes(),
        vec![
            0x01, 0x7F, 0x3F, 0xFF, 0xC0, 0x00, 0x80, 0xBF, 0x80, 0x48, 0x7F, 0x80, 0x00, 0xBF,
            0xFF, 0xC0, 0x00, 0x00, 0x41, 0x00, 0x01
        ]
    );
}

#[test]
fn serializer_frames_strings_and_bytes() {
    let mut s = Serializer::new();
    s.serialize_str("A\0").unwrap();
    s.serialize_bytes(&[0x00, 0x7F, 0x01]).unwrap();
    s.serialize_with_sentinel(&[5, 5, 6], 5).unwrap();
    assert_eq!(
        s.into_bytes(),
        vec![
            0x41, 0x00, 0x01, 0x00, 0x00, // "A\0"
            0x00, 0x7F, 0x01, 0x01, 0x7F, 0x00, // bytes
            5, 1, 5, 1, 6, 5, 0, // sentinel 5
        ]
    );
}

#[test]
fn serializer_marks_frames() {
    let mut s = Serializer::new();
    s.serialize_seq(Some(2)).unwrap();
    s.serialize_seq_element().unwrap();
    s.serialize_u8(1).unwrap();
    s.end_seq().unwrap();
    s.serialize_map(None).unwrap();
    s.serialize_map_key().unwrap();
    s.serialize_u8(2).unwrap();
    s.serialize_u8(3).unwrap();
    s.end_map().unwrap();
    s.serialize_tuple(2).unwrap();
    s.serialize_struct("S", 2).unwrap();
    s.serialize_unit_struct("U").unwrap();
    s.serialize_newtype_struct("N").unwrap();
    s.serialize_unit_variant("E", 3, "A").unwrap();
    s.serialize_newtype_variant("E", 4, "B").unwrap();
    s.serialize_tuple_variant("E", 5, "C", 2).unwrap();
    s.serialize_struct_variant("E", 300, "D", 2).unwrap();
    assert_eq!(
        s.into_bytes(),
        vec![0x01, 0x01, 0x00, 0x01, 0x02, 0x03, 0x00, 0x03, 0x04, 0x05, 0x80, 0xAC]
    );
}

#[test]
fn raw_byte_mode_is_scoped_to_the_reserved_name() {
    let mut s = Serializer::new();
    s.serialize_tuple_struct("Other", 1).unwrap();
    assert!(!s.in_raw_byte_mode());
    s.serialize_u8(0x80).unwrap();
    s.end_tuple_struct().unwrap();
    s.serialize_tuple_struct(FIXED_BYTES_NAME, 2).unwrap();
    assert!(s.in_raw_byte_mode());
    s.serialize_u8(0x80).unwrap();
    s.serialize_u8(0xFF).unwrap();
    // only the 8-bit unsigned value is raw inside the block
    s.serialize_u16(0x80).unwrap();
    s.end_tuple_struct().unwrap();
    assert!(!s.in_raw_byte_mode());
    s.serialize_u8(0x80).unwrap();
    assert_eq!(s.into_bytes(), vec![0x80, 0x00, 0x80, 0xFF, 0x80, 0x00, 0x80, 0x00]);
}

#[test]
fn reserved_name_is_compared_whole() {
    assert_eq!(FIXED_BYTES_NAME, "lexcode::FixedBytes");
    assert!(str_equal(FIXED_BYTES_NAME, "lexcode::FixedBytes"));
    assert!(!str_equal(FIXED_BYTES_NAME, "lexcode::FixedByte"));
    assert!(!str_equal(FIXED_BYTES_NAME, "lexcode::FixedBytez"));
    assert!(!str_equal("", "a"));
    assert!(str_equal("", ""));
    assert!(str_equal("h\u{e9}", "h\u{e9}"));
    assert!(!str_equal("h\u{e9}", "h\u{e8}"));
}

#[test]
fn deserializer_reads_what_the_serializer_wrote() {
    let bytes = vec![
        0x01, 0x7F, 0x3F, 0xFF, 0xC0, 0x00, 0x80, 0xBF, 0x80, 0x48, 0x7F, 0x80, 0x00, 0xBF, 0xFF,
        0xC0, 0x00, 0x00, 0x41, 0x00, 0x01,
    ];
    let mut d = Deserializer::from_bytes(&bytes);
    assert_eq!(d.deserialize_bool(), Ok(true));
    assert_eq!(d.deserialize_i8(), Ok(-1));
    assert_eq!(d.deserialize_i16(), Ok(-65));
    assert_eq!(d.deserialize_i32(), Ok(64));
    assert_eq!(d.deserialize_i64(), Ok(0));
    assert_eq!(d.deserialize_i128(), Ok(63));
    assert_eq!(d.deserialize_u8(), Ok(200));
    assert_eq!(d.deserialize_u16(), Ok(127));
    assert_eq!(d.deserialize_u32(), Ok(128));
    assert_eq!(d.deserialize_u64(), Ok(16511));
    assert_eq!(d.deserialize_u128(), Ok(16512));
    assert_eq!(d.deserialize_char(), Ok('A'));
    assert_eq!(d.deserialize_unit(), Ok(()));
    assert_eq!(d.deserialize_option(), Ok(false));
    assert_eq!(d.deserialize_option(), Ok(true));
    assert!(d.remainder().is_empty());
    assert_eq!(d.deserialize_bool(), Err(Error::Eof));
    assert_eq!(d.deserialize_u8(), Err(Error::Eof));
    assert_eq!(d.deserialize_i64(), Err(Error::Eof));
    assert_eq!(d.deserialize_f32(), Err(Error::Eof));
    assert_eq!(d.deserialize_char(), Err(Error::Eof));
    assert_eq!(d.deserialize_str(), Err(Error::Eof));
    assert_eq!(d.deserialize_bytes(), Err(Error::Eof));
}

#[test]
fn deserializer_reads_framed_fields() {
    let bytes = vec![
        0x41, 0x00, 0x01, 0x00, 0x00, 0x00, 0x7F, 0x01, 0x01, 0x7F, 0x00, 5, 1, 5, 1, 6, 5, 0, 9,
    ];
    let mut d = Deserializer::from_bytes(&bytes);
    assert_eq!(d.deserialize_string(), Ok("A\0".to_string()));
    assert_eq!(d.deserialize_byte_buf(), Ok(vec![0x00, 0x7F, 0x01]));
    assert_eq!(d.deserialize_with_sentinel(5), Ok(vec![5, 5, 6]));
    assert_eq!(d.remainder(), &[9]);
}

#[test]
fn deserializer_stays_where_it_failed() {
    let bytes = vec![0xC3, 0x00, 0x00, 0x55];
    let mut d = Deserializer::from_bytes(&bytes);
    assert_eq!(d.deserialize_str(), Err(Error::Message("Invalid UTF-8 string".to_string())));
    assert_eq!(d.remainder(), &bytes[..]);
    assert_eq!(d.deserialize_bool(), Err(Error::InvalidEncoding));
    assert_eq!(d.remainder(), &bytes[..]);
    assert_eq!(d.deserialize_u8(), Err(Error::IntegerOverflow));
    assert_eq!(d.remainder(), &bytes[..]);
    assert_eq!(d.deserialize_i8(), Err(Error::IntegerOverflow));
    assert_eq!(d.remainder(), &bytes[..]);
    assert_eq!(d.deserialize_i16(), Ok(832));
    assert_eq!(d.remainder(), &bytes[2..]);
    let bytes = vec![0x80, 0x80];
    let mut d = Deserializer::from_bytes(&bytes);
    assert_eq!(d.deserialize_u8(), Err(Error::IntegerOverflow));
    assert_eq!(d.remainder(), &bytes[..]);
    assert_eq!(d.deserialize_u16(), Ok(256));
    assert!(d.remainder().is_empty());
}

#[test]
fn deserializer_reads_floats_as_bits() {
    let mut bytes = vec![0xBF, 0x80, 0x00, 0x00];
    bytes.extend_from_slice(&[0x40, 0x0F, 0xFF, 0xFF, 0xFF, 0xFF, 0xFF, 0xFF]);
    bytes.extend_from_slice(&[0x80, 0x00, 0x00]);
    let mut d = Deserializer::from_bytes(&bytes);
    assert_eq!(d.deserialize_f32().map(f32::from_bits), Ok(1.0));
    assert_eq!(d.deserialize_f64().map(f64::from_bits), Ok(-1.0));
    assert_eq!(d.deserialize_f32(), Err(Error::Eof));
    assert_eq!(d.deserialize_f64(), Err(Error::Eof));
    assert_eq!(d.remainder().len(), 3);
}

#[test]
fn deserializer_counts_fields_and_reads_tags() {
    let bytes = vec![0x01, 0x05, 0x01, 0x06, 0x00, 0x01, 0x02, 0x80, 0xAC];
    let mut d = Deserializer::from_bytes(&bytes);
    assert_eq!(d.deserialize_seq(), Ok(()));
    assert_eq!(d.next_element(), Ok(true));
    assert_eq!(d.deserialize_u8(), Ok(5));
    assert_eq!(d.next_element(), Ok(true));
    assert_eq!(d.deserialize_u8(), Ok(6));
    assert_eq!(d.next_element(), Ok(false));
    assert_eq!(d.deserialize_map(), Ok(()));
    assert_eq!(d.next_key(), Ok(true));
    assert_eq!(d.next_key(), Err(Error::InvalidEncoding));
    assert_eq!(d.deserialize_u8(), Ok(2));
    assert_eq!(d.deserialize_enum("E", &["A", "B"]), Ok(300));
    assert_eq!(d.unit_variant(), Ok(()));
    assert_eq!(d.deserialize_unit_struct("U"), Ok(()));
    assert_eq!(d.deserialize_newtype_struct("N"), Ok(()));
    assert_eq!(d.deserialize_ignored_any(), Ok(()));
    assert!(d.remainder().is_empty());

    let mut access = d.deserialize_tuple(2);
    assert!(access.next_element());
    assert!(access.next_element());
    assert!(!access.next_element());
    assert!(!access.next_element());
    let mut access = d.deserialize_struct("S", &["a", "b", "c"]);
    assert!(access.next_element() && access.next_element() && access.next_element());
    assert!(!access.next_element());
    let mut access = d.tuple_variant(1);
    assert!(access.next_element());
    assert!(!access.next_element());
    let mut access = d.struct_variant(&[]);
    assert!(!access.next_element());
}

#[test]
fn deserializer_raw_byte_mode() {
    let bytes = vec![0x80, 0xFF, 0x80, 0x00];
    let mut d = Deserializer::from_bytes(&bytes);
    let mut access = d.deserialize_tuple_struct("Other", 1);
    assert!(!d.in_raw_byte_mode());
    assert!(access.next_element());
    d.end_tuple_struct();
    let mut access = d.deserialize_tuple_struct(FIXED_BYTES_NAME, 2);
    assert!(d.in_raw_byte_mode());
    assert!(access.next_element());
    assert_eq!(d.deserialize_u8(), Ok(0x80));
    assert!(access.next_element());
    assert_eq!(d.deserialize_u8(), Ok(0xFF));
    assert!(!access.next_element());
    d.end_tuple_struct();
    assert!(!d.in_raw_byte_mode());
    assert_eq!(d.deserialize_u8(), Ok(0x80));
    assert!(d.remainder().is_empty());
}

#[test]
fn unsupported_facilities() {
    let mut d = Deserializer::from_bytes(&[1, 2, 3]);
    assert_eq!(d.deserialize_any(), Err(Error::Unsupported));
    assert_eq!(d.deserialize_identifier(), Err(Error::Unsupported));
    assert_eq!(d.remainder(), &[1, 2, 3]);
}

#[test]
fn characters_and_code_points() {
    let mut d = Deserializer::from_bytes(&[0x80, 0x69]);
    assert_eq!(d.deserialize_char(), Ok('\u{e9}'));
    let mut s = Serializer::new();
    s.serialize_u32(0xD800).unwrap();
    s.serialize_u32(0xDFFF).unwrap();
    s.serialize_u32(0xE000).unwrap();
    s.serialize_u32(0xD7FF).unwrap();
    let bytes = s.into_bytes();
    let mut d = Deserializer::from_bytes(&bytes);
    assert_eq!(d.deserialize_char(), Err(Error::InvalidEncoding));
    assert_eq!(d.deserialize_u32(), Ok(0xD800));
    assert_eq!(d.deserialize_char(), Err(Error::InvalidEncoding));
    assert_eq!(d.deserialize_u32(), Ok(0xDFFF));
    assert_eq!(d.deserialize_char(), Ok('\u{E000}'));
    assert_eq!(d.deserialize_char(), Ok('\u{D7FF}'));
}
