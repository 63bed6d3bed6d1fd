use std::collections::HashMap;

use fastdsu::keys::{KeyArray, KeyDataType};
use fastdsu::{CoreError, DTypeKind, Dsu};

fn u32_array(values: Vec<u32>) -> KeyArray {
    KeyArray {
        data_type: KeyDataType::Integer(DTypeKind::U32),
        values: values.into_iter().map(i128::from).collect(),
        null_count: 0,
    }
}

fn u32_values(values: &[i128]) -> Vec<u32> {
    values.iter().map(|&v| u32::try_from(v).unwrap()).collect()
}

/// A `UInt32` array of optional values: nulls read as `0` and are counted.
fn u32_nullable(values: Vec<Option<u32>>) -> KeyArray {
    let null_count = values.iter().filter(|v| v.is_none()).count();
    KeyArray {
        data_type: KeyDataType::Integer(DTypeKind::U32),
        values: values.into_iter().map(|v| i128::from(v.unwrap_or(0))).collect(),
        null_count,
    }
}

#[test]
/// Sparse, non-contiguous keys merge into one component.
fn dsu_unions_sparse_keys() {
    let mut dsu = Dsu::new();
    dsu.union_edges(
        &u32_array(vec![5, 1_000_000]),
        &u32_array(vec![1_000_000, 42]),
    )
    .unwrap();
    let (keys, labels) = dsu.components();
    let keys = u32_values(&keys);
    let labels = u32_values(&labels);
    let label_of = |key: u32| labels[keys.iter().position(|&k| k == key).unwrap()];
    assert_eq!(label_of(5), label_of(1_000_000));
    assert_eq!(label_of(1_000_000), label_of(42));
}

#[test]
/// Keys that are never unioned still appear as singleton components.
fn dsu_keeps_disjoint_keys_separate() {
    let mut dsu = Dsu::new();
    dsu.union_edges(&u32_array(vec![1, 2]), &u32_array(vec![2, 3]))
        .unwrap();
    dsu.union_edges(&u32_array(vec![100]), &u32_array(vec![100]))
        .unwrap();
    let (keys, labels) = dsu.components();
    let keys = u32_values(&keys);
    let labels = u32_values(&labels);
    let label_of = |key: u32| labels[keys.iter().position(|&k| k == key).unwrap()];
    assert_eq!(label_of(1), label_of(2));
    assert_eq!(label_of(2), label_of(3));
    assert_ne!(label_of(1), label_of(100));
}

#[test]
/// add creates singleton nodes and ignores keys already interned.
fn dsu_adds_singleton_keys() {
    let mut dsu = Dsu::new();
    dsu.add(&u32_array(vec![9, 3, 9])).unwrap();
    dsu.add(&u32_array(vec![3, 9])).unwrap();

    let (keys, labels) = dsu.components();
    let keys = u32_values(&keys);
    let labels = u32_values(&labels);

    assert_eq!(keys, vec![9, 3]);
    assert_ne!(labels[0], labels[1]);
}

#[test]
/// add rejects arrays containing nulls.
fn dsu_add_rejects_nulls() {
    let mut dsu = Dsu::new();
    let keys = u32_nullable(vec![Some(1), None]);

    let result = dsu.add(&keys);

    assert_eq!(result, Err(CoreError::NullsNotAllowed { count: 1 }));
}

#[test]
/// Interning is idempotent: the same key maps to the same node across separate `union_edges` calls.
fn dsu_is_consistent_across_calls() {
    let mut dsu = Dsu::new();
    dsu.union_edges(&u32_array(vec![7]), &u32_array(vec![8]))
        .unwrap();
    dsu.union_edges(&u32_array(vec![8]), &u32_array(vec![9]))
        .unwrap();
    let (keys, labels) = dsu.components();
    let keys = u32_values(&keys);
    let labels = u32_values(&labels);
    let label_of = |key: u32| labels[keys.iter().position(|&k| k == key).unwrap()];
    assert_eq!(label_of(7), label_of(8));
    assert_eq!(label_of(8), label_of(9));
}

#[test]
/// components() returns keys in first-seen order.
fn dsu_components_first_seen_order() {
    let mut dsu = Dsu::new();
    dsu.union_edges(&u32_array(vec![9, 3]), &u32_array(vec![3, 1]))
        .unwrap();
    let (keys, _) = dsu.components();
    assert_eq!(u32_values(&keys), vec![9, 3, 1]);
}

#[test]
/// components() returns insertion order-invariant labels
fn dsu_labels_canonical_across_edge_orders() {
    let mut forward = Dsu::new();
    forward
        .union_edges(&u32_array(vec![1, 2]), &u32_array(vec![2, 3]))
        .unwrap();

    let mut reversed = Dsu::new();
    reversed
        .union_edges(&u32_array(vec![2, 1]), &u32_array(vec![3, 2]))
        .unwrap();

    fn component_map(dsu: &mut Dsu) -> HashMap<u32, u32> {
        let (keys, labels) = dsu.components();
        u32_values(&keys)
            .into_iter()
            .zip(u32_values(&labels))
            .collect()
    }

    let expected = HashMap::from([(1, 1), (2, 1), (3, 1)]);

    assert_eq!(component_map(&mut forward), expected);
    assert_eq!(component_map(&mut reversed), expected);
}

#[test]
/// Unequal src/dst slices return a LengthMismatch error.
fn dsu_length_mismatch_error() {
    let mut dsu = Dsu::new();
    let result = dsu.union_edges(&u32_array(vec![1, 2]), &u32_array(vec![1]));
    assert_eq!(result, Err(CoreError::LengthMismatch { src: 2, dst: 1 }));
}

#[test]
/// Nulls are rejected regardless of the array's DataType.
fn dsu_nulls_not_allowed() {
    let mut dsu = Dsu::new();
    let src = u32_nullable(vec![Some(1), None]);
    let result = dsu.union_edges(&src, &u32_array(vec![1, 2]));
    assert_eq!(result, Err(CoreError::NullsNotAllowed { count: 1 }));
}

#[test]
fn preview_matches_union() {
    let mut dsu = Dsu::new();
    dsu.union_edges(&u32_array(vec![9, 3, 7, 20]), &u32_array(vec![3, 1, 8, 21]))
        .unwrap();
    let parents = dsu.forest().parents().to_vec();
    let ranks = dsu.forest().ranks().to_vec();
    let len = dsu.interner().len();
    let src = u32_array(vec![3, 50, 90]);
    let dst = u32_array(vec![50, 90, 60]);
    let (keys, labels) = dsu.preview_union(&src, &dst).unwrap();
    assert_eq!(u32_values(&keys), vec![9, 3, 1, 50, 90, 60]);
    assert_eq!(dsu.forest().parents(), &parents[..]);
    assert_eq!(dsu.forest().ranks(), &ranks[..]);
    assert_eq!(dsu.interner().len(), len);

    dsu.union_edges(&src, &dst).unwrap();
    let (actual_keys, actual_labels) = dsu.components();
    let actual_keys = u32_values(&actual_keys);
    let actual_labels = u32_values(&actual_labels);
    for (&key, &label) in u32_values(&keys).iter().zip(u32_values(&labels).iter()) {
        let index = actual_keys.iter().position(|&k| k == key).unwrap();
        assert_eq!(label, actual_labels[index]);
    }
}

#[test]
fn preview_empty() {
    let dsu = Dsu::new();
    let empty = u32_array(vec![]);
    let (keys, labels) = dsu.preview_union(&empty, &empty).unwrap();
    assert!(u32_values(&keys).is_empty());
    assert!(u32_values(&labels).is_empty());
    assert_eq!(dsu.interner().len(), 0);
    assert_eq!(dsu.forest().len(), 0);
}

#[test]
/// The label of a component is its smallest key.
fn labels_are_smallest_keys() {
    let mut dsu = Dsu::new();
    dsu.union_edges(&u32_array(vec![50, 7, 30]), &u32_array(vec![7, 90, 31]))
        .unwrap();
    let (keys, labels) = dsu.components();
    assert_eq!(u32_values(&keys), vec![50, 7, 30, 90, 31]);
    assert_eq!(u32_values(&labels), vec![7, 7, 30, 7, 30]);
}

#[test]
/// Signed keys: the smallest key is the most negative one.
fn signed_keys_label_by_smallest() {
    let mut dsu = Dsu::new();
    let src = KeyArray {
        data_type: KeyDataType::Integer(DTypeKind::I64),
        values: vec![5, -3],
        null_count: 0,
    };
    let dst = KeyArray {
        data_type: KeyDataType::Integer(DTypeKind::I64),
        values: vec![-3, i64::MIN as i128],
        null_count: 0,
    };
    dsu.union_edges(&src, &dst).unwrap();
    let (keys, labels) = dsu.components();
    assert_eq!(keys, vec![5, -3, i64::MIN as i128]);
    assert_eq!(labels, vec![i64::MIN as i128; 3]);
}

#[test]
/// The first array fixes the key type; an array of another type is refused.
fn key_type_mismatch_error() {
    let mut dsu = Dsu::new();
    dsu.add(&u32_array(vec![1])).unwrap();
    let other = KeyArray {
        data_type: KeyDataType::Integer(DTypeKind::I64),
        values: vec![2],
        null_count: 0,
    };
    assert_eq!(
        dsu.add(&other),
        Err(CoreError::KeyTypeMismatch { expected: DTypeKind::U32, got: DTypeKind::I64 })
    );
    let (keys, _) = dsu.components();
    assert_eq!(keys, vec![1]);
}

#[test]
/// Arrays of a non-integer type are refused.
fn unsupported_type_error() {
    let mut dsu = Dsu::new();
    let floats = KeyArray {
        data_type: KeyDataType::Unsupported("Float32".to_string()),
        values: vec![],
        null_count: 0,
    };
    assert_eq!(
        dsu.union_edges(&floats, &floats),
        Err(CoreError::UnsupportedType("Float32".to_string()))
    );
    assert_eq!(dsu.interner().key_type(), None);
}

#[test]
/// A length mismatch is found after both arrays were interned: their keys stay, as singletons.
fn length_mismatch_keeps_interned_keys() {
    let mut dsu = Dsu::new();
    let result = dsu.union_edges(&u32_array(vec![4, 5]), &u32_array(vec![6]));
    assert_eq!(result, Err(CoreError::LengthMismatch { src: 2, dst: 1 }));
    let (keys, labels) = dsu.components();
    assert_eq!(u32_values(&keys), vec![4, 5, 6]);
    assert_eq!(u32_values(&labels), vec![4, 5, 6]);
}

#[test]
/// A preview reports errors as a union would.
fn preview_errors() {
    let dsu = Dsu::new();
    assert_eq!(
        dsu.preview_union(&u32_nullable(vec![None]), &u32_array(vec![1])),
        Err(CoreError::NullsNotAllowed { count: 1 })
    );
    assert_eq!(
        dsu.preview_union(&u32_array(vec![1, 2]), &u32_array(vec![1])),
        Err(CoreError::LengthMismatch { src: 2, dst: 1 })
    );
}

#[test]
/// A preview leaves untouched components out.
fn preview_reports_touched_components_only() {
    let mut dsu = Dsu::new();
    dsu.union_edges(&u32_array(vec![1, 10]), &u32_array(vec![2, 11]))
        .unwrap();
    let (keys, labels) = dsu.preview_union(&u32_array(vec![2]), &u32_array(vec![0]))
        .unwrap();
    assert_eq!(u32_values(&keys), vec![1, 2, 0]);
    assert_eq!(u32_values(&labels), vec![0, 0, 0]);
}
