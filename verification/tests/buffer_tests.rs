use fastdsu::arrow::ArrowInput;
use fastdsu::buffer::{BufferError, BufferInput};
use fastdsu::dtype::DTypeError;
use fastdsu::keys::{KeyArray, KeyDataType};
use fastdsu::DTypeKind;

fn u16_bytes(values: &[u16]) -> Vec<u8> {
    values.iter().flat_map(|v| v.to_ne_bytes()).collect()
}

fn u32_bytes(values: &[u32]) -> Vec<u8> {
    values.iter().flat_map(|v| v.to_ne_bytes()).collect()
}

fn i64_bytes(values: &[i64]) -> Vec<u8> {
    values.iter().flat_map(|v| v.to_ne_bytes()).collect()
}

/// Confirm buffer reads decode correctly across multiple dtypes.
#[test]
fn typed_python_buffers_decode_correctly() {
    // The bytes of array('H', [0, 2, 65535]).
    let u16_input =
        BufferInput::from_typed_buffer(1, true, b"H", 2, 3, u16_bytes(&[0, 2, 65535])).unwrap();
    assert_eq!(u16_input.read_checked(0, DTypeKind::U16).unwrap(), 0);
    assert_eq!(u16_input.read_checked(1, DTypeKind::U16).unwrap(), 2);
    assert_eq!(u16_input.read_checked(2, DTypeKind::U16).unwrap(), 65535);

    // The bytes of array('I', [1, 2, 4000000000]).
    let u32_input =
        BufferInput::from_typed_buffer(1, true, b"I", 4, 3, u32_bytes(&[1, 2, 4_000_000_000]))
            .unwrap();
    assert_eq!(u32_input.read_checked(0, DTypeKind::U32).unwrap(), 1);
    assert_eq!(u32_input.read_checked(1, DTypeKind::U32).unwrap(), 2);
    assert_eq!(
        u32_input.read_checked(2, DTypeKind::U32).unwrap(),
        4_000_000_000
    );

    // The bytes of array('q', [-7, 0, 9]).
    let i64_input =
        BufferInput::from_typed_buffer(1, true, b"q", 8, 3, i64_bytes(&[-7, 0, 9])).unwrap();
    assert_eq!(i64_input.read_checked(0, DTypeKind::I64).unwrap(), -7);
    assert_eq!(i64_input.read_checked(1, DTypeKind::I64).unwrap(), 0);
    assert_eq!(i64_input.read_checked(2, DTypeKind::I64).unwrap(), 9);
}

/// Confirm the input keeps its values after the owner of the bytes is gone.
#[test]
fn type_erased_guard_preserves_buffer_lifetime() {
    // The bytes of array('I', [11, 22, 33, 44]).
    let owner = u32_bytes(&[11, 22, 33, 44]);
    let input = BufferInput::from_typed_buffer(1, true, b"I", 4, 4, owner.clone()).unwrap();
    drop(owner);

    assert_eq!(input.read_checked(0, DTypeKind::U32).unwrap(), 11);
    assert_eq!(input.read_checked(1, DTypeKind::U32).unwrap(), 22);
    assert_eq!(input.read_checked(2, DTypeKind::U32).unwrap(), 33);
    assert_eq!(input.read_checked(3, DTypeKind::U32).unwrap(), 44);
}

#[test]
fn buffer_validation_errors() {
    let bytes = u16_bytes(&[1, 2]);
    assert_eq!(
        BufferInput::from_typed_buffer(2, true, b"H", 2, 2, bytes.clone()).err(),
        Some(BufferError::NotOneDimensional)
    );
    assert_eq!(
        BufferInput::from_typed_buffer(1, false, b"H", 2, 2, bytes.clone()).err(),
        Some(BufferError::NotContiguous)
    );
    assert_eq!(
        BufferInput::from_typed_buffer(1, true, b">H", 2, 2, bytes.clone()).err(),
        Some(BufferError::Format(DTypeError::NonNativeEndian))
    );
    assert_eq!(
        BufferInput::from_typed_buffer(1, true, b"e", 2, 2, bytes).err(),
        Some(BufferError::Format(DTypeError::UnsupportedIntegerFormat))
    );
}

#[test]
fn checked_reads_refuse_values_out_of_target_range() {
    let input = BufferInput::from_typed_buffer(1, true, b"q", 8, 3, i64_bytes(&[5, -1, 300]))
        .unwrap();
    assert_eq!(input.len(), 3);
    assert_eq!(input.dtype(), DTypeKind::I64);
    assert_eq!(
        input.read_checked(1, DTypeKind::U8),
        Err(BufferError::ValueOutOfRange {
            value: -1,
            target: DTypeKind::U8
        })
    );
    assert_eq!(
        input.collect_checked(DTypeKind::U8),
        Err(BufferError::ValueOutOfRange {
            value: -1,
            target: DTypeKind::U8
        })
    );
    assert_eq!(input.collect_checked(DTypeKind::I16), Ok(vec![5, -1, 300]));
}

#[test]
fn arrow_backed_input_reads_through() {
    let chunks = vec![
        KeyArray {
            data_type: KeyDataType::Integer(DTypeKind::U8),
            values: vec![1, 2],
            null_count: 0,
        },
        KeyArray {
            data_type: KeyDataType::Integer(DTypeKind::U8),
            values: vec![250],
            null_count: 0,
        },
    ];
    let arrow = ArrowInput::from_chunked_arrays(&chunks, DTypeKind::U8).unwrap();
    let input = BufferInput::from_arrow_input(arrow);
    assert_eq!(input.len(), 3);
    assert_eq!(input.dtype(), DTypeKind::U8);
    assert_eq!(input.collect_checked(DTypeKind::U8), Ok(vec![1, 2, 250]));
    assert_eq!(
        input.read_checked(2, DTypeKind::I8),
        Err(BufferError::ValueOutOfRange {
            value: 250,
            target: DTypeKind::I8
        })
    );
}
