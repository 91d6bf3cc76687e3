use lexcode::error::Error;
use lexcode::varint::compute_signed_offsets;
use lexcode::varint::compute_unsigned_offsets;
use lexcode::varint::decode_sint;
use lexcode::varint::decode_uint;
use lexcode::varint::encode_sint;
use lexcode::varint::encode_uint;
use lexcode::varint::leading_ones_in_7bits;

#[test]
fn test_leading_ones_in_7bits() {
    assert_eq!(leading_ones_in_7bits(0b0000_0000), 0);
    assert_eq!(leading_ones_in_7bits(0b0100_0000), 1);
    assert_eq!(leading_ones_in_7bits(0b0110_0000), 2);
    assert_eq!(leading_ones_in_7bits(0b0111_0000), 3);
    assert_eq!(leading_ones_in_7bits(0b0111_1111), 7);
}

#[test]
fn test_uint_roundtrip_small() {
    for v in 0u128..=300 {
        let mut buf = Vec::new();
        encode_uint(v, &mut buf);
        let (decoded, consumed) = decode_uint(&buf).unwrap();
        assert_eq!(v, decoded, "roundtrip failed for {v}");
        assert_eq!(consumed, buf.len(), "consumed mismatch for {v}");
    }
}

#[test]
fn test_uint_order_preservation() {
    let values: Vec<u128> = vec![
        0, 1, 63, 64, 126, 127, 128, 255, 256,
        16511, 16512, 65535, 65536,
        1 << 20, 1 << 28, 1 << 35, 1 << 42, 1 << 49,
        (1u128 << 56) - 1, 1 << 56,
        1 << 63, u64::MAX as u128,
        (u64::MAX as u128) + 1,
        1u128 << 70, 1u128 << 100, 1u128 << 120, 1u128 << 127,
        u128::MAX - 1, u128::MAX,
    ];
    let encoded: Vec<Vec<u8>> = values.iter().map(|&v| {
        let mut buf = Vec::new();
        encode_uint(v, &mut buf);
        buf
    }).collect();
    for i in 0..values.len() {
        for j in (i + 1)..values.len() {
            assert!(
                encoded[i] < encoded[j],
                "{} (enc {:?}) should be < {} (enc {:?})",
                values[i], encoded[i], values[j], encoded[j]
            );
        }
    }
}

#[test]
fn test_uint_roundtrip_boundaries() {
    let offsets = compute_unsigned_offsets();
    for level in 0..17usize {
        let offset = offsets[level];
        let mut buf = Vec::new();
        encode_uint(offset, &mut buf);
        let (decoded, consumed) = decode_uint(&buf).unwrap();
        assert_eq!(offset, decoded, "boundary start failed at level {level}");
        assert_eq!(consumed, buf.len());

        if offset < u128::MAX {
            buf.clear();
            let v = offset + 1;
            encode_uint(v, &mut buf);
            let (decoded, consumed) = decode_uint(&buf).unwrap();
            assert_eq!(v, decoded, "boundary start+1 failed at level {level}");
            assert_eq!(consumed, buf.len());
        }

        if level < 16 {
            buf.clear();
            let v = offsets[level + 1] - 1;
            encode_uint(v, &mut buf);
            let (decoded, consumed) = decode_uint(&buf).unwrap();
            assert_eq!(v, decoded, "boundary end failed at level {level}");
            assert_eq!(consumed, buf.len());
        }
    }
    let mut buf = Vec::new();
    encode_uint(u128::MAX, &mut buf);
    let (decoded, consumed) = decode_uint(&buf).unwrap();
    assert_eq!(u128::MAX, decoded);
    assert_eq!(consumed, buf.len());
}

#[test]
fn test_sint_roundtrip_small() {
    for v in -300i128..=300 {
        let mut buf = Vec::new();
        encode_sint(v, &mut buf);
        let (decoded, consumed) = decode_sint(&buf).unwrap();
        assert_eq!(v, decoded, "roundtrip failed for {v}");
        assert_eq!(consumed, buf.len(), "consumed mismatch for {v}");
    }
}

#[test]
fn test_sint_order_preservation() {
    let values: Vec<i128> = vec![
        i128::MIN,
        i128::MIN + 1,
        i64::MIN as i128,
        -1_000_000,
        -1000,
        -128,
        -127,
        -64,
        -1,
        0,
        1,
        63,
        127,
        128,
        1000,
        1_000_000,
        i64::MAX as i128,
        i128::MAX - 1,
        i128::MAX,
    ];
    let encoded: Vec<Vec<u8>> = values.iter().map(|&v| {
        let mut buf = Vec::new();
        encode_sint(v, &mut buf);
        buf
    }).collect();
    for i in 0..values.len() {
        for j in (i + 1)..values.len() {
            assert!(
                encoded[i] < encoded[j],
                "{} (enc {:?}) should be < {} (enc {:?})",
                values[i], encoded[i], values[j], encoded[j]
            );
        }
    }
}

#[test]
fn test_sint_roundtrip_extremes() {
    for &v in &[i128::MIN, i128::MIN + 1, -1, 0, 1, i128::MAX - 1, i128::MAX] {
        let mut buf = Vec::new();
        encode_sint(v, &mut buf);
        let (decoded, consumed) = decode_sint(&buf).unwrap();
        assert_eq!(v, decoded, "roundtrip failed for {v}");
        assert_eq!(consumed, buf.len(), "consumed mismatch for {v}");
    }
}

#[test]
fn test_uint_compactness() {
    let mut buf = Vec::new();

    encode_uint(0, &mut buf);
    assert_eq!(buf.len(), 1);

    buf.clear();
    encode_uint(127, &mut buf);
    assert_eq!(buf.len(), 1);

    buf.clear();
    encode_uint(128, &mut buf);
    assert_eq!(buf.len(), 2);
}

#[test]
fn test_sint_compactness() {
    let mut buf = Vec::new();

    encode_sint(0, &mut buf);
    assert_eq!(buf.len(), 1);

    buf.clear();
    encode_sint(-1, &mut buf);
    assert_eq!(buf.len(), 1);

    buf.clear();
    encode_sint(63, &mut buf);
    assert_eq!(buf.len(), 1);

    buf.clear();
    encode_sint(-64, &mut buf);
    assert_eq!(buf.len(), 1);

    buf.clear();
    encode_sint(64, &mut buf);
    assert_eq!(buf.len(), 2);
}

fn uint_bytes(v: u128) -> Vec<u8> {
    let mut buf = Vec::new();
    encode_uint(v, &mut buf);
    buf
}

fn sint_bytes(v: i128) -> Vec<u8> {
    let mut buf = Vec::new();
    encode_sint(v, &mut buf);
    buf
}

#[test]
fn uint_exact_bytes() {
    assert_eq!(uint_bytes(0), vec![0x00]);
    assert_eq!(uint_bytes(1), vec![0x01]);
    assert_eq!(uint_bytes(127), vec![0x7F]);
    assert_eq!(uint_bytes(128), vec![0x80, 0x00]);
    assert_eq!(uint_bytes(129), vec![0x80, 0x01]);
    assert_eq!(uint_bytes(16511), vec![0xBF, 0xFF]);
    assert_eq!(uint_bytes(16512), vec![0xC0, 0x00, 0x00]);
    // level 8 starts at the sum of 2^7, 2^14, .., 2^56
    let start8: u128 = (0..8).map(|l| 1u128 << (7 + 7 * l)).sum();
    assert_eq!(uint_bytes(start8 - 1), vec![0xFE, 0xFF, 0xFF, 0xFF, 0xFF, 0xFF, 0xFF, 0xFF]);
    assert_eq!(uint_bytes(start8), vec![0xFF, 0x00, 0, 0, 0, 0, 0, 0, 0, 0]);
    let mut top = vec![0xFF, 0xFF];
    let start16 = compute_unsigned_offsets()[16];
    top.extend_from_slice(&(u128::MAX - start16).to_be_bytes());
    assert_eq!(uint_bytes(u128::MAX), top);
    assert_eq!(uint_bytes(u128::MAX).len(), 18);
}

#[test]
fn sint_exact_bytes() {
    assert_eq!(sint_bytes(0), vec![0x80]);
    assert_eq!(sint_bytes(-1), vec![0x7F]);
    assert_eq!(sint_bytes(63), vec![0xBF]);
    assert_eq!(sint_bytes(-64), vec![0x40]);
    assert_eq!(sint_bytes(64), vec![0xC0, 0x00]);
    assert_eq!(sint_bytes(-65), vec![0x3F, 0xFF]);
    assert_eq!(sint_bytes(1), vec![0x81]);
    assert_eq!(sint_bytes(2), vec![0x82]);
    assert_eq!(sint_bytes(i128::MAX).len(), 18);
    assert_eq!(sint_bytes(i128::MIN).len(), 18);
    assert_eq!(&sint_bytes(i128::MAX)[..2], &[0xFF, 0xFF]);
    assert_eq!(&sint_bytes(i128::MIN)[..2], &[0x00, 0x00]);
}

#[test]
fn offsets_follow_the_data_bits() {
    let unsigned = compute_unsigned_offsets();
    assert_eq!(unsigned[0], 0);
    assert_eq!(unsigned[1], 128);
    assert_eq!(unsigned[2], 128 + 16384);
    assert_eq!(unsigned[9] - unsigned[8], 1u128 << 71);
    assert_eq!(unsigned[16] - unsigned[15], 1u128 << 120);
    let signed = compute_signed_offsets();
    assert_eq!(signed[0], 0);
    assert_eq!(signed[1], 64);
    assert_eq!(signed[2], 64 + 8192);
    assert_eq!(signed[8] - signed[7], 1u128 << 63);
    assert_eq!(signed[15] - signed[14], 1u128 << 112);
}

#[test]
fn sint_compactness_below_minus_64() {
    assert_eq!(sint_bytes(-65).len(), 2);
    assert_eq!(sint_bytes(-8256).len(), 2);
    assert_eq!(sint_bytes(-8257).len(), 3);
    assert_eq!(sint_bytes(8255).len(), 2);
    assert_eq!(sint_bytes(8256).len(), 3);
}

#[test]
fn decode_reports_eof() {
    assert_eq!(decode_uint(&[]), Err(Error::Eof));
    assert_eq!(decode_uint(&[0x80]), Err(Error::Eof));
    assert_eq!(decode_uint(&[0xFF]), Err(Error::Eof));
    assert_eq!(decode_uint(&[0xFF, 0x00, 1, 2, 3]), Err(Error::Eof));
    assert_eq!(decode_sint(&[]), Err(Error::Eof));
    assert_eq!(decode_sint(&[0xC0]), Err(Error::Eof));
    assert_eq!(decode_sint(&[0x3F]), Err(Error::Eof));
    assert_eq!(decode_sint(&[0xFF]), Err(Error::Eof));
    assert_eq!(decode_sint(&[0x00]), Err(Error::Eof));
    assert_eq!(decode_sint(&[0x00, 0x00, 0x80]), Err(Error::Eof));
}

#[test]
fn decode_reports_overflow() {
    // level 16 with all data bits set is above u128::MAX
    let mut bytes = vec![0xFF, 0xFF];
    bytes.extend_from_slice(&[0xFF; 16]);
    assert_eq!(decode_uint(&bytes), Err(Error::IntegerOverflow));
    // level 15 of a magnitude with all data bits set is above i128::MAX
    let mut bytes = vec![0xFF, 0xFF, 0x7F];
    bytes.extend_from_slice(&[0xFF; 15]);
    assert_eq!(decode_sint(&bytes), Err(Error::IntegerOverflow));
    let complemented: Vec<u8> = bytes.iter().map(|b| !b).collect();
    assert_eq!(decode_sint(&complemented), Err(Error::IntegerOverflow));
}

#[test]
fn decode_leaves_what_follows() {
    assert_eq!(decode_uint(&[0x7F, 0xAA, 0xBB]), Ok((127, 1)));
    assert_eq!(decode_uint(&[0x80, 0x01, 0xAA]), Ok((129, 2)));
    assert_eq!(decode_sint(&[0x7F, 0xAA]), Ok((-1, 1)));
    assert_eq!(decode_sint(&[0x3F, 0xFF, 0x00]), Ok((-65, 2)));
}
