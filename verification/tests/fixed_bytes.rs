use lexcode::de::Deserializer;
use lexcode::error::Error;
use lexcode::fixed_bytes::FixedBytes;
use lexcode::ser::Serializer;

fn to_bytes<const N: usize>(fb: &FixedBytes<N>) -> Result<Vec<u8>, Error> {
    let mut serializer = Serializer::new();
    fb.serialize(&mut serializer)?;
    Ok(serializer.into_bytes())
}

#[test]
fn fixed_bytes_zero_overhead() {
    let fb = FixedBytes([0xDE, 0xAD, 0xBE, 0xEF]);
    let bytes = to_bytes(&fb).unwrap();
    assert_eq!(bytes, vec![0xDE, 0xAD, 0xBE, 0xEF]);
}

#[test]
fn fixed_bytes_identity_encoding() {
    // Every byte value 0x00..=0xFF should be stored as-is
    let mut arr = [0u8; 256];
    for i in 0..256 {
        arr[i] = i as u8;
    }
    let fb = FixedBytes(arr);
    let bytes = to_bytes(&fb).unwrap();
    assert_eq!(bytes.len(), 256);
    assert_eq!(&bytes[..], &arr[..]);
}

#[test]
fn fixed_bytes_round_trip() {
    let fb = FixedBytes([0x00, 0x7F, 0x80, 0xFF, 0x01]);
    let bytes = to_bytes(&fb).unwrap();
    let mut deserializer = Deserializer::from_bytes(&bytes);
    let decoded: FixedBytes<5> = FixedBytes::deserialize(&mut deserializer).unwrap();
    assert_eq!(fb, decoded);
    assert!(deserializer.remainder().is_empty());
    assert!(!deserializer.in_raw_byte_mode());
}

#[test]
fn fixed_bytes_short_input() {
    let mut deserializer = Deserializer::from_bytes(&[1, 2, 3]);
    let r: Result<FixedBytes<4>, Error> = FixedBytes::deserialize(&mut deserializer);
    assert_eq!(r, Err(Error::Eof));
    assert_eq!(deserializer.remainder(), &[1, 2, 3]);
}

#[test]
fn fixed_bytes_conversions() {
    let fb: FixedBytes<3> = FixedBytes::from([1, 2, 3]);
    assert_eq!(fb.as_ref(), &[1, 2, 3]);
    let arr: [u8; 3] = fb.into();
    assert_eq!(arr, [1, 2, 3]);
    assert!(FixedBytes([1u8, 2]) < FixedBytes([1u8, 3]));
}
