use fastdsu::dtype::{
    byte_order_from_probe,
    decode_value, native_byte_order, parse_buffer_dtype, promote_stateless, push_value_bytes,
    DTypeError,
};
use fastdsu::encoding::ByteOrder;
use fastdsu::DTypeKind;

#[test]
fn promotion_rules() {
    assert_eq!(
        promote_stateless(&[DTypeKind::I32, DTypeKind::U8]).unwrap(),
        DTypeKind::I32
    );
    assert_eq!(
        promote_stateless(&[DTypeKind::I8, DTypeKind::U16]).unwrap(),
        DTypeKind::I32
    );
    assert_eq!(
        promote_stateless(&[DTypeKind::I16, DTypeKind::U32]).unwrap(),
        DTypeKind::I64
    );
    assert!(promote_stateless(&[DTypeKind::I8, DTypeKind::U64]).is_err());
}

#[test]
fn parse_dtype_aliases() {
    assert_eq!(DTypeKind::from_name_or_code("int32"), Some(DTypeKind::I32));
    assert_eq!(DTypeKind::from_name_or_code("u64"), Some(DTypeKind::U64));
    assert_eq!(DTypeKind::from_name_or_code("Q"), Some(DTypeKind::U64));
    assert_eq!(
        DTypeKind::from_name_or_code("dtype.uint16"),
        Some(DTypeKind::U16)
    );
}

#[test]
fn promotion_of_one_signedness_takes_the_widest() {
    assert_eq!(
        promote_stateless(&[DTypeKind::U8, DTypeKind::U32, DTypeKind::U16]),
        Ok(DTypeKind::U32)
    );
    assert_eq!(
        promote_stateless(&[DTypeKind::I16, DTypeKind::I8]),
        Ok(DTypeKind::I16)
    );
    assert_eq!(promote_stateless(&[DTypeKind::U64]), Ok(DTypeKind::U64));
}

#[test]
fn promotion_errors() {
    assert_eq!(promote_stateless(&[]), Err(DTypeError::NoDtypes));
    assert_eq!(
        promote_stateless(&[DTypeKind::U64, DTypeKind::I64]),
        Err(DTypeError::SignedWithUint64)
    );
    assert_eq!(
        promote_stateless(&[DTypeKind::I64, DTypeKind::U32]),
        Ok(DTypeKind::I64)
    );
    assert_eq!(
        promote_stateless(&[DTypeKind::I8, DTypeKind::U32]),
        Ok(DTypeKind::I64)
    );
}

#[test]
fn names_are_trimmed_and_case_insensitive() {
    assert_eq!(DTypeKind::from_name_or_code("  int8\n"), Some(DTypeKind::I8));
    assert_eq!(DTypeKind::from_name_or_code("INT16"), Some(DTypeKind::I16));
    assert_eq!(
        DTypeKind::from_name_or_code("numpy.UInt32"),
        Some(DTypeKind::U32)
    );
    assert_eq!(DTypeKind::from_name_or_code(" b "), Some(DTypeKind::I8));
    assert_eq!(DTypeKind::from_name_or_code("h"), Some(DTypeKind::I16));
    assert_eq!(DTypeKind::from_name_or_code("float32"), None);
    assert_eq!(DTypeKind::from_name_or_code("x"), None);
    assert_eq!(DTypeKind::from_name_or_code("q."), None);
    assert_eq!(DTypeKind::from_name_or_code(""), None);
}

#[test]
fn dtype_properties() {
    assert_eq!(DTypeKind::I16.format_code(), b'h');
    assert_eq!(DTypeKind::U64.format_code(), b'Q');
    assert_eq!(DTypeKind::I32.itemsize(), 4);
    assert_eq!(DTypeKind::U8.bits(), 8);
    assert!(DTypeKind::I64.is_signed());
    assert!(!DTypeKind::U16.is_signed());
    assert_eq!(DTypeKind::I8.min_value(), -128);
    assert_eq!(DTypeKind::U32.max_value(), 4_294_967_295);
    assert!(DTypeKind::U8.contains(255));
    assert!(!DTypeKind::U8.contains(256));
    assert!(!DTypeKind::I16.contains(-32_769));
    assert_eq!(DTypeKind::from_fixed_bits(true, 32), Some(DTypeKind::I32));
    assert_eq!(DTypeKind::from_fixed_bits(false, 12), None);
}

#[test]
fn buffer_formats() {
    assert_eq!(parse_buffer_dtype(b"H", 2), Ok(DTypeKind::U16));
    assert_eq!(parse_buffer_dtype(b"@q", 8), Ok(DTypeKind::I64));
    assert_eq!(parse_buffer_dtype(b"=B", 1), Ok(DTypeKind::U8));
    assert_eq!(parse_buffer_dtype(b"l", 8), Ok(DTypeKind::I64));
    assert_eq!(parse_buffer_dtype(b"L", 4), Ok(DTypeKind::U32));
    assert_eq!(parse_buffer_dtype(b"n", 8), Ok(DTypeKind::I64));
    assert_eq!(
        parse_buffer_dtype(b"ii", 4),
        Err(DTypeError::UnsupportedBufferFormat)
    );
    assert_eq!(
        parse_buffer_dtype(b"", 4),
        Err(DTypeError::UnsupportedBufferFormat)
    );
    assert_eq!(parse_buffer_dtype(b"<i", 4), Err(DTypeError::NonNativeEndian));
    assert_eq!(parse_buffer_dtype(b"!H", 2), Err(DTypeError::NonNativeEndian));
    assert_eq!(
        parse_buffer_dtype(b"f", 4),
        Err(DTypeError::UnsupportedIntegerFormat)
    );
    assert_eq!(
        parse_buffer_dtype(b"l", 3),
        Err(DTypeError::UnsupportedIntegerFormat)
    );
    assert_eq!(parse_buffer_dtype(b"i", 8), Err(DTypeError::ItemsizeMismatch));
}

#[test]
fn values_round_trip_through_native_bytes() {
    let cases: [(i128, DTypeKind); 8] = [
        (-128, DTypeKind::I8),
        (65_535, DTypeKind::U16),
        (-2, DTypeKind::I16),
        (4_000_000_000, DTypeKind::U32),
        (-7, DTypeKind::I32),
        (i64::MIN as i128, DTypeKind::I64),
        (u64::MAX as i128, DTypeKind::U64),
        (200, DTypeKind::U8),
    ];
    for (value, dtype) in cases {
        let mut buf = vec![9_u8];
        push_value_bytes(&mut buf, value, dtype).unwrap();
        assert_eq!(buf.len(), 1 + dtype.itemsize());
        assert_eq!(buf[0], 9);
        assert_eq!(decode_value(&buf[1..], dtype), value);
    }
}

#[test]
fn bytes_are_native_endian() {
    let mut buf = Vec::new();
    push_value_bytes(&mut buf, 0x1234, DTypeKind::U16).unwrap();
    assert_eq!(buf, 0x1234_u16.to_ne_bytes().to_vec());
    buf.clear();
    push_value_bytes(&mut buf, -3, DTypeKind::I32).unwrap();
    assert_eq!(buf, (-3_i32).to_ne_bytes().to_vec());
    assert_eq!(decode_value(&(-40_000_i64).to_ne_bytes(), DTypeKind::I64), -40_000);
    assert_eq!(decode_value(&[0xff, 7], DTypeKind::U8), 255);
    let expected = if u16::from_ne_bytes([1, 0]) == 1 {
        ByteOrder::Little
    } else {
        ByteOrder::Big
    };
    assert_eq!(native_byte_order(), expected);
}

#[test]
fn out_of_range_values_are_refused() {
    let mut buf = vec![1_u8, 2];
    assert_eq!(
        push_value_bytes(&mut buf, 256, DTypeKind::U8),
        Err(DTypeError::ValueOutOfRange { value: 256 })
    );
    assert_eq!(
        push_value_bytes(&mut buf, -1, DTypeKind::U64),
        Err(DTypeError::ValueOutOfRange { value: -1 })
    );
    assert_eq!(buf, vec![1, 2]);
}

#[test]
fn byte_order_follows_the_probe() {
    assert_eq!(byte_order_from_probe(1), ByteOrder::Little);
    assert_eq!(byte_order_from_probe(256), ByteOrder::Big);
    assert_eq!(
        byte_order_from_probe(u16::from_ne_bytes([1, 0])),
        native_byte_order()
    );
}
