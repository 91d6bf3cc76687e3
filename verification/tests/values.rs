use lexcode::from_bytes;
use lexcode::to_bytes;
use lexcode::Error;
use lexcode::Shape;
use lexcode::Value;
use lexcode::Width;

fn encode(value: Value) -> Vec<u8> {
    to_bytes(&value).unwrap()
}

fn u(width: Width, v: u128) -> Value {
    Value::UInt(width, v)
}

fn i(width: Width, v: i128) -> Value {
    Value::SInt(width, v)
}

fn some(v: Value) -> Value {
    Value::Optional(Some(Box::new(v)))
}

#[test]
fn encode_false() {
    assert_eq!(encode(Value::Bool(false)), vec![0x00]);
}

#[test]
fn encode_true() {
    assert_eq!(encode(Value::Bool(true)), vec![0x01]);
}

#[test]
fn encode_zero_u8() {
    assert_eq!(encode(u(Width::W8, 0)), vec![0x00]);
}

#[test]
fn encode_127_u8() {
    assert_eq!(encode(u(Width::W8, 127)), vec![0x7F]);
}

#[test]
fn encode_128_u32() {
    // the first value of level 1: one leading 1-bit, and all data bits clear
    assert_eq!(encode(u(Width::W32, 128)), vec![0x80, 0x00]);
    assert_eq!(encode(u(Width::W32, 128 + 0x80)), vec![0x80, 0x80]);
}

#[test]
fn encode_zero_i8() {
    assert_eq!(encode(i(Width::W8, 0)), vec![0x80]);
}

#[test]
fn encode_minus_one_i8() {
    assert_eq!(encode(i(Width::W8, -1)), vec![0x7F]);
}

#[test]
fn encode_63_i8() {
    assert_eq!(encode(i(Width::W8, 63)), vec![0xBF]);
}

#[test]
fn encode_minus_64_i8() {
    assert_eq!(encode(i(Width::W8, -64)), vec![0x40]);
}

#[test]
fn encode_unit() {
    assert_eq!(encode(Value::Unit), Vec::<u8>::new());
}

#[test]
fn encode_empty_string() {
    assert_eq!(encode(Value::Str(String::new())), vec![0x00, 0x00]);
}

#[test]
fn encode_string_a() {
    assert_eq!(encode(Value::Str("A".to_string())), vec![0x41, 0x00, 0x00]);
}

#[test]
fn encode_bytes_with_sentinel() {
    assert_eq!(encode(Value::Bytes(vec![0x7F, 0x10])), vec![0x7F, 0x01, 0x10, 0x7F, 0x00]);
}

#[test]
fn encode_none() {
    assert_eq!(encode(Value::Optional(None)), vec![0x00]);
}

#[test]
fn encode_some_zero_i8() {
    assert_eq!(encode(some(i(Width::W8, 0))), vec![0x01, 0x80]);
}

#[test]
fn encode_vec_of_i8() {
    let v = Value::Sequence(vec![i(Width::W8, 1), i(Width::W8, 2)]);
    assert_eq!(encode(v), vec![0x01, 0x81, 0x01, 0x82, 0x00]);
}

#[test]
fn encode_fixed_block() {
    assert_eq!(encode(Value::FixedBytes(vec![0xDE, 0xAD, 0xBE, 0xEF])), vec![0xDE, 0xAD, 0xBE, 0xEF]);
}

#[test]
fn order_of_small_integers() {
    assert!(encode(i(Width::W64, -1)) < encode(i(Width::W64, 0)));
    assert!(encode(i(Width::W64, 0)) < encode(i(Width::W64, 1)));
}

#[test]
fn order_of_sequence_and_its_extension() {
    let short = Value::Sequence(vec![u(Width::W8, 1)]);
    let long = Value::Sequence(vec![u(Width::W8, 1), u(Width::W8, 0)]);
    assert!(encode(short) < encode(long));
}

#[test]
fn encode_tuple_is_concatenation() {
    let v = Value::Tuple(vec![u(Width::W8, 1), Value::Str("A".to_string()), Value::Bool(true)]);
    assert_eq!(encode(v), vec![0x01, 0x41, 0x00, 0x00, 0x01]);
    assert_eq!(encode(Value::Tuple(vec![])), Vec::<u8>::new());
}

#[test]
fn encode_variant_is_index_and_payload() {
    assert_eq!(encode(Value::Variant(2, vec![])), vec![0x02]);
    assert_eq!(encode(Value::Variant(1, vec![i(Width::W64, -1)])), vec![0x01, 0x7F]);
    assert_eq!(
        encode(Value::Variant(200, vec![u(Width::W8, 5), u(Width::W8, 6)])),
        vec![0x80, 0x48, 0x05, 0x06]
    );
}

#[test]
fn encode_map_as_sequence_of_entries() {
    let entry = |k: &str, v: i128| Value::Tuple(vec![Value::Str(k.to_string()), i(Width::W64, v)]);
    let map = Value::Sequence(vec![entry("a", 1), entry("b", -1)]);
    assert_eq!(
        encode(map),
        vec![0x01, 0x61, 0x00, 0x00, 0x81, 0x01, 0x62, 0x00, 0x00, 0x7F, 0x00]
    );
}

#[test]
fn encode_string_escapes_its_sentinel() {
    let bytes = encode(Value::Str("a\0b\0".to_string()));
    assert_eq!(bytes, vec![0x61, 0x00, 0x01, 0x62, 0x00, 0x01, 0x00, 0x00]);
    let pairs = bytes.windows(2).filter(|w| w == &[0x00, 0x01]).count();
    assert_eq!(pairs, 2);
    assert_eq!(from_bytes(&bytes, &Shape::Str), Ok(Value::Str("a\0b\0".to_string())));
}

#[test]
fn encode_char_as_scalar_value() {
    assert_eq!(encode(Value::Char('A')), vec![0x41]);
    assert_eq!(encode(Value::Char('\u{80}')), vec![0x80, 0x00]);
    assert_eq!(encode(Value::Char('\u{10FFFF}')), encode(u(Width::W32, 0x10FFFF)));
}

#[test]
fn encode_floats_by_their_bits() {
    assert_eq!(encode(Value::F32(0.0f32.to_bits())), vec![0x80, 0x00, 0x00, 0x00]);
    assert_eq!(encode(Value::F32((-0.0f32).to_bits())), vec![0x7F, 0xFF, 0xFF, 0xFF]);
    assert_eq!(encode(Value::F32(1.0f32.to_bits())), vec![0xBF, 0x80, 0x00, 0x00]);
    assert_eq!(encode(Value::F32((-1.0f32).to_bits())), vec![0x40, 0x7F, 0xFF, 0xFF]);
    assert_eq!(
        encode(Value::F64(1.0f64.to_bits())),
        vec![0xBF, 0xF0, 0x00, 0x00, 0x00, 0x00, 0x00, 0x00]
    );
    assert_eq!(
        encode(Value::F64((-1.0f64).to_bits())),
        vec![0x40, 0x0F, 0xFF, 0xFF, 0xFF, 0xFF, 0xFF, 0xFF]
    );
}

#[test]
fn floats_sort_as_numbers() {
    let values = [
        f64::NEG_INFINITY, -1.0e300, -2.5, -1.0, -1.0e-300, 0.0, 1.0e-300, 1.0, 2.5, 1.0e300,
        f64::INFINITY,
    ];
    for a in 0..values.len() {
        for b in (a + 1)..values.len() {
            assert!(
                encode(Value::F64(values[a].to_bits())) < encode(Value::F64(values[b].to_bits())),
                "{} should sort before {}",
                values[a],
                values[b]
            );
            let (x, y) = (values[a] as f32, values[b] as f32);
            if x < y {
                assert!(encode(Value::F32(x.to_bits())) < encode(Value::F32(y.to_bits())));
            }
        }
    }
}

#[test]
fn floats_round_trip_with_nan_and_zeros() {
    for bits in [0u32, 0x8000_0000, 0x7FC0_0001, 0xFFC0_0000, 0x7F80_0000, 1, 0xFFFF_FFFF] {
        let bytes = encode(Value::F32(bits));
        assert_eq!(from_bytes(&bytes, &Shape::F32), Ok(Value::F32(bits)));
    }
    for bits in [0u64, 1 << 63, 0x7FF8_0000_0000_0001, u64::MAX, 0x3FF0_0000_0000_0000] {
        let bytes = encode(Value::F64(bits));
        assert_eq!(from_bytes(&bytes, &Shape::F64), Ok(Value::F64(bits)));
    }
}

fn sample() -> (Value, Shape) {
    let value = Value::Tuple(vec![
        Value::Unit,
        Value::Bool(true),
        u(Width::W8, 255),
        u(Width::W128, u128::MAX),
        i(Width::W16, -32768),
        i(Width::W128, i128::MIN),
        Value::F32(0x4048_F5C3),
        Value::F64(0xC009_21FB_5444_2D18),
        Value::Char('\u{1F600}'),
        Value::Str("h\u{e9}llo\0w\u{f6}rld".to_string()),
        Value::Bytes(vec![0, 0x7F, 0x7F, 0x80, 0xFF, 1]),
        Value::Optional(None),
        some(some(Value::Str(String::new()))),
        Value::Sequence(vec![
            Value::Tuple(vec![Value::Str("k1".to_string()), i(Width::W64, 1)]),
            Value::Tuple(vec![Value::Str("k2".to_string()), i(Width::W64, -1)]),
        ]),
        Value::Sequence(vec![]),
        Value::Variant(1, vec![u(Width::W8, 7), Value::FixedBytes(vec![0, 1, 0x7F, 0xFF])]),
        Value::Variant(0, vec![]),
        Value::FixedBytes(vec![]),
    ]);
    let variants = || {
        Shape::Enum(vec![vec![], vec![Shape::UInt(Width::W8), Shape::FixedBytes(4)]])
    };
    let shape = Shape::Tuple(vec![
        Shape::Unit,
        Shape::Bool,
        Shape::UInt(Width::W8),
        Shape::UInt(Width::W128),
        Shape::SInt(Width::W16),
        Shape::SInt(Width::W128),
        Shape::F32,
        Shape::F64,
        Shape::Char,
        Shape::Str,
        Shape::Bytes,
        Shape::Optional(Box::new(Shape::Bool)),
        Shape::Optional(Box::new(Shape::Optional(Box::new(Shape::Str)))),
        Shape::Sequence(Box::new(Shape::Tuple(vec![Shape::Str, Shape::SInt(Width::W64)]))),
        Shape::Sequence(Box::new(Shape::Char)),
        variants(),
        variants(),
        Shape::FixedBytes(0),
    ]);
    (value, shape)
}

#[test]
fn round_trip_of_a_nested_value() {
    let (value, shape) = sample();
    let bytes = to_bytes(&value).unwrap();
    assert_eq!(from_bytes(&bytes, &shape), Ok(value));
}

#[test]
fn trailing_bytes_are_left_alone() {
    let (value, shape) = sample();
    let mut bytes = to_bytes(&value).unwrap();
    bytes.extend_from_slice(&[0xAA, 0xBB, 0xCC]);
    assert_eq!(from_bytes(&bytes, &shape), Ok(value));
    assert_eq!(from_bytes(&[0x01, 0x55], &Shape::Bool), Ok(Value::Bool(true)));
    assert_eq!(from_bytes(&[0x55], &Shape::Unit), Ok(Value::Unit));
}

#[test]
fn every_cut_of_a_nested_value_is_eof() {
    let (value, shape) = sample();
    let bytes = to_bytes(&value).unwrap();
    for cut in 0..bytes.len() {
        assert_eq!(from_bytes(&bytes[..cut], &shape), Err(Error::Eof), "cut at {cut}");
    }
}

#[test]
fn cross_width_equivalence() {
    let widths = [Width::W8, Width::W16, Width::W32, Width::W64, Width::W128];
    for v in [0u128, 1, 127, 128, 200, 255] {
        for w in widths {
            assert_eq!(encode(u(w, v)), encode(u(Width::W8, v)));
        }
    }
    for v in [-128i128, -65, -64, -1, 0, 63, 64, 127] {
        for w in widths {
            assert_eq!(encode(i(w, v)), encode(i(Width::W8, v)));
        }
    }
    assert_eq!(encode(u(Width::W64, u64::MAX as u128)), encode(u(Width::W128, u64::MAX as u128)));
    assert_eq!(encode(i(Width::W64, i64::MIN as i128)), encode(i(Width::W128, i64::MIN as i128)));
}

#[test]
fn cross_width_ordering() {
    assert!(encode(u(Width::W8, 8)) < encode(u(Width::W16, 200)));
    assert!(encode(u(Width::W8, 255)) < encode(u(Width::W16, 256)));
    assert!(encode(u(Width::W8, 200)) > encode(u(Width::W64, 199)));
    assert!(encode(i(Width::W8, -128)) > encode(i(Width::W32, -129)));
    assert!(encode(i(Width::W8, 127)) < encode(i(Width::W128, 128)));
    assert_eq!(encode(i(Width::W8, -5)), encode(i(Width::W64, -5)));
}

fn overflows(value: Value, shape: Shape) {
    let bytes = to_bytes(&value).unwrap();
    assert_eq!(from_bytes(&bytes, &shape), Err(Error::IntegerOverflow));
}

#[test]
fn overflow_u16_as_u8() {
    overflows(u(Width::W16, 256), Shape::UInt(Width::W8));
}

#[test]
fn overflow_u32_as_u8() {
    overflows(u(Width::W32, 1000), Shape::UInt(Width::W8));
}

#[test]
fn overflow_u32_as_u16() {
    overflows(u(Width::W32, 70000), Shape::UInt(Width::W16));
}

#[test]
fn overflow_u64_as_u32() {
    overflows(u(Width::W64, u32::MAX as u128 + 1), Shape::UInt(Width::W32));
}

#[test]
fn overflow_u128_as_u64() {
    overflows(u(Width::W128, u64::MAX as u128 + 1), Shape::UInt(Width::W64));
}

#[test]
fn overflow_i16_as_i8_pos() {
    overflows(i(Width::W16, 128), Shape::SInt(Width::W8));
}

#[test]
fn overflow_i16_as_i8_neg() {
    overflows(i(Width::W16, -129), Shape::SInt(Width::W8));
}

#[test]
fn overflow_i32_as_i16_pos() {
    overflows(i(Width::W32, 32768), Shape::SInt(Width::W16));
}

#[test]
fn overflow_i32_as_i16_neg() {
    overflows(i(Width::W32, -32769), Shape::SInt(Width::W16));
}

#[test]
fn overflow_i64_as_i32() {
    overflows(i(Width::W64, i32::MAX as i128 + 1), Shape::SInt(Width::W32));
}

#[test]
fn overflow_i128_as_i64() {
    overflows(i(Width::W128, i64::MAX as i128 + 1), Shape::SInt(Width::W64));
}

#[test]
fn widths_hold_their_extremes() {
    let cases = [
        (Width::W8, u8::MAX as u128, i8::MIN as i128, i8::MAX as i128),
        (Width::W16, u16::MAX as u128, i16::MIN as i128, i16::MAX as i128),
        (Width::W32, u32::MAX as u128, i32::MIN as i128, i32::MAX as i128),
        (Width::W64, u64::MAX as u128, i64::MIN as i128, i64::MAX as i128),
        (Width::W128, u128::MAX, i128::MIN, i128::MAX),
    ];
    for (w, umax, imin, imax) in cases {
        assert_eq!(from_bytes(&encode(u(w, umax)), &Shape::UInt(w)), Ok(u(w, umax)));
        assert_eq!(from_bytes(&encode(i(w, imin)), &Shape::SInt(w)), Ok(i(w, imin)));
        assert_eq!(from_bytes(&encode(i(w, imax)), &Shape::SInt(w)), Ok(i(w, imax)));
        if w != Width::W128 {
            overflows(u(Width::W128, umax + 1), Shape::UInt(w));
            overflows(i(Width::W128, imin - 1), Shape::SInt(w));
            overflows(i(Width::W128, imax + 1), Shape::SInt(w));
        }
    }
}

#[test]
fn invalid_encodings_are_refused() {
    assert_eq!(from_bytes(&[0x02], &Shape::Bool), Err(Error::InvalidEncoding));
    assert_eq!(
        from_bytes(&[0x02], &Shape::Optional(Box::new(Shape::Unit))),
        Err(Error::InvalidEncoding)
    );
    assert_eq!(
        from_bytes(&[0x01, 0x00, 0x02], &Shape::Sequence(Box::new(Shape::Bool))),
        Err(Error::InvalidEncoding)
    );
    assert_eq!(from_bytes(&[0x41, 0x00, 0x02], &Shape::Str), Err(Error::InvalidEncoding));
    assert_eq!(from_bytes(&[0x7F, 0x7F], &Shape::Bytes), Err(Error::InvalidEncoding));
    // a surrogate and a number above the last scalar value
    assert_eq!(from_bytes(&encode(u(Width::W32, 0xD800)), &Shape::Char), Err(Error::InvalidEncoding));
    assert_eq!(
        from_bytes(&encode(u(Width::W32, 0x110000)), &Shape::Char),
        Err(Error::InvalidEncoding)
    );
    assert_eq!(
        from_bytes(&encode(u(Width::W64, 1 << 32)), &Shape::Char),
        Err(Error::IntegerOverflow)
    );
}

#[test]
fn characters_are_decoded_not_copied() {
    assert_eq!(from_bytes(&[0x41], &Shape::Char), Ok(Value::Char('A')));
    assert_eq!(from_bytes(&encode(u(Width::W32, 0xE9)), &Shape::Char), Ok(Value::Char('\u{e9}')));
    assert_eq!(
        from_bytes(&encode(u(Width::W32, 0x10FFFF)), &Shape::Char),
        Ok(Value::Char('\u{10FFFF}'))
    );
}

#[test]
fn strings_are_checked_as_utf8() {
    assert_eq!(
        from_bytes(&[0xC3, 0xA9, 0x00, 0x00], &Shape::Str),
        Ok(Value::Str("\u{e9}".to_string()))
    );
    assert_eq!(
        from_bytes(&[0xC3, 0x00, 0x00], &Shape::Str),
        Err(Error::Message("Invalid UTF-8 string".to_string()))
    );
    assert_eq!(
        from_bytes(&[0xFF, 0x00, 0x00], &Shape::Str),
        Err(Error::Message("Invalid UTF-8 string".to_string()))
    );
    // as bytes the same input is fine
    assert_eq!(from_bytes(&[0xC3, 0x7F, 0x00], &Shape::Bytes), Ok(Value::Bytes(vec![0xC3])));
}

#[test]
fn unknown_variant_is_refused() {
    let shape = Shape::Enum(vec![vec![], vec![Shape::Bool]]);
    assert_eq!(from_bytes(&[0x00], &shape), Ok(Value::Variant(0, vec![])));
    assert_eq!(from_bytes(&[0x01, 0x01], &shape), Ok(Value::Variant(1, vec![Value::Bool(true)])));
    assert_eq!(
        from_bytes(&[0x02], &shape),
        Err(Error::Message("unknown variant index".to_string()))
    );
    assert_eq!(from_bytes(&[0x01], &shape), Err(Error::Eof));
}

#[test]
fn fixed_block_needs_its_length() {
    assert_eq!(from_bytes(&[1, 2, 3], &Shape::FixedBytes(4)), Err(Error::Eof));
    assert_eq!(
        from_bytes(&[1, 2, 3, 4, 5], &Shape::FixedBytes(4)),
        Ok(Value::FixedBytes(vec![1, 2, 3, 4]))
    );
    // inside the block a byte is a byte, outside it is a variable-length integer
    let shape = Shape::Tuple(vec![Shape::FixedBytes(1), Shape::UInt(Width::W8)]);
    assert_eq!(
        from_bytes(&[0x80, 0x80, 0x00], &shape),
        Ok(Value::Tuple(vec![Value::FixedBytes(vec![0x80]), u(Width::W8, 128)]))
    );
}

#[test]
fn strings_sort_as_their_bytes() {
    let words = ["", "\0", "\0\0", "\u{1}", "A", "A\0", "A\u{1}", "AB", "B", "\u{e9}", "\u{1F600}"];
    for a in 0..words.len() {
        for b in 0..words.len() {
            let (x, y) = (words[a], words[b]);
            let (ex, ey) = (encode(Value::Str(x.to_string())), encode(Value::Str(y.to_string())));
            assert_eq!(x.cmp(y), ex.cmp(&ey), "{x:?} against {y:?}");
        }
    }
}

#[test]
fn byte_strings_sort_as_their_bytes_but_for_short_continuations() {
    let enc = |b: &[u8]| encode(Value::Bytes(b.to_vec()));
    assert!(enc(&[0x10]) < enc(&[0x11]));
    assert!(enc(&[0x7F]) < enc(&[0x80]));
    assert!(enc(&[0x10]) < enc(&[0x10, 0x7F]));
    assert!(enc(&[0x10]) < enc(&[0x10, 0x80]));
    assert!(enc(&[]) < enc(&[0xFF]));
    // a continuation by a byte below the sentinel sorts the other way round
    assert!(enc(&[0x10]) > enc(&[0x10, 0x05]));
    assert!(enc(&[]) > enc(&[0x10]));
}

#[test]
fn composites_sort_field_by_field() {
    let pair = |a: i128, b: &str| Value::Tuple(vec![i(Width::W64, a), Value::Str(b.to_string())]);
    assert!(encode(pair(-1, "z")) < encode(pair(0, "")));
    assert!(encode(pair(5, "a")) < encode(pair(5, "b")));
    assert!(encode(pair(5, "")) < encode(pair(5, "\0")));
    assert!(encode(Value::Optional(None)) < encode(some(i(Width::W8, i8::MIN as i128))));
    assert!(encode(some(i(Width::W8, -1))) < encode(some(i(Width::W8, 0))));
    assert!(encode(Value::Variant(0, vec![u(Width::W8, 255)])) < encode(Value::Variant(1, vec![])));
    assert!(
        encode(Value::Variant(3, vec![u(Width::W8, 1)]))
            < encode(Value::Variant(3, vec![u(Width::W8, 2)]))
    );
    let seq = |v: &[i128]| Value::Sequence(v.iter().map(|&x| i(Width::W64, x)).collect());
    assert!(encode(seq(&[])) < encode(seq(&[-1000])));
    assert!(encode(seq(&[1, 2])) < encode(seq(&[1, 2, -5])));
    assert!(encode(seq(&[1, 2, 300])) < encode(seq(&[1, 3])));
    assert!(encode(Value::Bool(false)) < encode(Value::Bool(true)));
    assert!(encode(Value::Char('a')) < encode(Value::Char('\u{e9}')));
    assert!(
        encode(Value::FixedBytes(vec![1, 2, 3])) < encode(Value::FixedBytes(vec![1, 2, 4]))
    );
}
