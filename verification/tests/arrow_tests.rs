use fastdsu::arrow::{ArrowError, ArrowInput};
use fastdsu::keys::{KeyArray, KeyDataType};
use fastdsu::DTypeKind;

fn array(dtype: DTypeKind, values: Vec<i128>) -> KeyArray {
    KeyArray {
        data_type: KeyDataType::Integer(dtype),
        values,
        null_count: 0,
    }
}

/// Confirm one Arrow array is read without materialization.
#[test]
fn single_array_reads_all_values() {
    let array = array(DTypeKind::U16, vec![10, 20, 30]);
    let input = ArrowInput::from_single_array(&array, DTypeKind::U16).unwrap();

    assert_eq!(input.len(), 3);
    assert_eq!(input.read_i128(0), 10);
    assert_eq!(input.read_i128(1), 20);
    assert_eq!(input.read_i128(2), 30);
}

/// Confirm chunked arrays with slices and empty chunks read in logical order.
#[test]
fn chunked_arrays_with_slices_read_values() {
    // The slice of length 2 at offset 1 of [1, 2, 3, 4].
    let first = array(DTypeKind::U32, vec![1, 2, 3, 4][1..3].to_vec());
    let second = array(DTypeKind::U32, Vec::new());
    let third = array(DTypeKind::U32, vec![9, 10]);
    let chunks = vec![first, second, third];

    let input = ArrowInput::from_chunked_arrays(&chunks, DTypeKind::U32).unwrap();
    assert_eq!(input.len(), 4);
    assert_eq!(input.read_i128(0), 2);
    assert_eq!(input.read_i128(1), 3);
    assert_eq!(input.read_i128(2), 9);
    assert_eq!(input.read_i128(3), 10);
}

#[test]
fn many_chunks_read_in_order() {
    let mut chunks = Vec::new();
    let mut expected = Vec::new();
    for c in 0..20_i128 {
        let values: Vec<i128> = (0..(c % 4)).map(|k| c * 100 + k).collect();
        expected.extend(values.iter().copied());
        chunks.push(array(DTypeKind::I64, values));
    }
    let input = ArrowInput::from_chunked_arrays(&chunks, DTypeKind::I64).unwrap();
    assert_eq!(input.len(), expected.len());
    assert_eq!(input.dtype(), DTypeKind::I64);
    for (i, v) in expected.iter().enumerate() {
        assert_eq!(input.read_i128(i), *v);
    }
}

#[test]
fn empty_inputs() {
    let input = ArrowInput::from_single_array(&array(DTypeKind::U8, Vec::new()), DTypeKind::U8)
        .unwrap();
    assert_eq!(input.len(), 0);
    let input = ArrowInput::from_chunked_arrays(&[], DTypeKind::U8).unwrap();
    assert_eq!(input.len(), 0);
}

#[test]
fn single_array_errors() {
    let mut nullable = array(DTypeKind::U16, vec![1, 0]);
    nullable.null_count = 1;
    assert_eq!(
        ArrowInput::from_single_array(&nullable, DTypeKind::U16).err(),
        Some(ArrowError::Nulls)
    );
    assert_eq!(
        ArrowInput::from_single_array(&array(DTypeKind::U16, vec![1]), DTypeKind::I16).err(),
        Some(ArrowError::TypeConversion)
    );
    let floats = KeyArray {
        data_type: KeyDataType::Unsupported("Float32".to_string()),
        values: Vec::new(),
        null_count: 0,
    };
    assert_eq!(
        ArrowInput::from_single_array(&floats, DTypeKind::U16).err(),
        Some(ArrowError::TypeConversion)
    );
}

#[test]
fn chunked_errors_name_the_first_bad_chunk() {
    let mut nullable = array(DTypeKind::U32, vec![1, 0]);
    nullable.null_count = 1;
    let chunks = vec![array(DTypeKind::U32, vec![5]), nullable, array(DTypeKind::I8, vec![1])];
    assert_eq!(
        ArrowInput::from_chunked_arrays(&chunks, DTypeKind::U32).err(),
        Some(ArrowError::ChunkNulls { chunk: 1 })
    );
    let chunks = vec![array(DTypeKind::U32, vec![5]), array(DTypeKind::I8, vec![1])];
    assert_eq!(
        ArrowInput::from_chunked_arrays(&chunks, DTypeKind::U32).err(),
        Some(ArrowError::MixedDtypes {
            expected: DTypeKind::U32,
            found: DTypeKind::I8
        })
    );
    let strings = KeyArray {
        data_type: KeyDataType::Unsupported("Utf8".to_string()),
        values: Vec::new(),
        null_count: 0,
    };
    assert_eq!(
        ArrowInput::from_chunked_arrays(&[strings], DTypeKind::U32).err(),
        Some(ArrowError::UnsupportedType("Utf8".to_string()))
    );
}

#[test]
fn arrays_are_gathered_as_their_own_type() {
    let input = fastdsu::arrow::collect_single_array(&array(DTypeKind::I8, vec![-1, 5])).unwrap();
    assert_eq!(input.dtype(), DTypeKind::I8);
    assert_eq!(input.read_i128(0), -1);
    let binary = KeyArray {
        data_type: KeyDataType::Unsupported("Binary".to_string()),
        values: Vec::new(),
        null_count: 0,
    };
    assert_eq!(
        fastdsu::arrow::collect_single_array(&binary).err(),
        Some(ArrowError::UnsupportedType("Binary".to_string()))
    );
    let chunks = vec![array(DTypeKind::U64, vec![7]), array(DTypeKind::U64, vec![8])];
    let input = fastdsu::arrow::collect_chunked_arrays(
        &KeyDataType::Integer(DTypeKind::U64),
        &chunks,
    )
    .unwrap();
    assert_eq!(input.len(), 2);
    assert_eq!(input.read_i128(1), 8);
    assert_eq!(
        fastdsu::arrow::collect_chunked_arrays(
            &KeyDataType::Unsupported("Float64".to_string()),
            &chunks
        )
        .err(),
        Some(ArrowError::UnsupportedType("Float64".to_string()))
    );
}
