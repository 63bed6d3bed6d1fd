use fastdsu::dtype::DTypeError;
use fastdsu::labels::Labels;
use fastdsu::DTypeKind;

#[test]
fn labels_round_trip() {
    let values = vec![3_i128, 0, 65_535, 7, 3];
    let labels = Labels::from_values(values.clone(), DTypeKind::U16).unwrap();
    assert_eq!(labels.len(), 5);
    assert_eq!(labels.dtype(), DTypeKind::U16);
    assert_eq!(labels.to_list(), values);
    assert_eq!(labels.decoded_values(), values);
}

#[test]
fn labels_store_native_bytes() {
    let labels = Labels::from_values(vec![-1, 300], DTypeKind::I32).unwrap();
    let mut expected = (-1_i32).to_ne_bytes().to_vec();
    expected.extend_from_slice(&300_i32.to_ne_bytes());
    assert_eq!(labels.as_bytes(), expected.as_slice());
    assert_eq!(labels.to_list(), vec![-1, 300]);
}

#[test]
fn labels_of_every_type() {
    let cases: [(i128, DTypeKind); 8] = [
        (-100, DTypeKind::I8),
        (-30_000, DTypeKind::I16),
        (-2_000_000_000, DTypeKind::I32),
        (i64::MIN as i128, DTypeKind::I64),
        (255, DTypeKind::U8),
        (65_535, DTypeKind::U16),
        (4_294_967_295, DTypeKind::U32),
        (u64::MAX as i128, DTypeKind::U64),
    ];
    for (value, dtype) in cases {
        let labels = Labels::from_values(vec![value, 0, value], dtype).unwrap();
        assert_eq!(labels.as_bytes().len(), 3 * dtype.itemsize());
        assert_eq!(labels.to_list(), vec![value, 0, value]);
    }
}

#[test]
fn labels_refuse_first_out_of_range_value() {
    let err = Labels::from_values(vec![1, 128, -129], DTypeKind::I8).err();
    assert_eq!(err, Some(DTypeError::ValueOutOfRange { value: 128 }));
}

#[test]
fn empty_labels() {
    let labels = Labels::from_values(Vec::new(), DTypeKind::U64).unwrap();
    assert_eq!(labels.len(), 0);
    assert!(labels.to_list().is_empty());
    assert!(labels.as_bytes().is_empty());
}
