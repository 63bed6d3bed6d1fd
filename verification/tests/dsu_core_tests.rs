use fastdsu::{CoreError, DsuCore};

#[test]
/// Each node starts as its own root after grow.
fn new_nodes_are_own_roots() {
    let mut dsu = DsuCore::new();
    dsu.grow(5);
    let labels = dsu.labels();
    for (i, &label) in labels.iter().enumerate() {
        assert_eq!(label as usize, i);
    }
}

#[test]
/// grow extends the node space with singleton nodes.
fn grow_adds_singleton_nodes() {
    let mut dsu = DsuCore::new();
    dsu.grow(2);
    dsu.grow(5);
    assert_eq!(dsu.len(), 5);
    let labels = dsu.labels();
    for (i, &label) in labels.iter().enumerate() {
        assert_eq!(label as usize, i);
    }
}

#[test]
/// Two disjoint chains are each merged into one component.
fn union_edges_merges_components() {
    let mut dsu = DsuCore::new();
    dsu.grow(6);
    dsu.union_edges(&[0, 1, 3, 4], &[1, 2, 4, 5]).unwrap();
    let labels = dsu.labels();
    assert_eq!(labels[0], labels[1]);
    assert_eq!(labels[1], labels[2]);
    assert_eq!(labels[3], labels[4]);
    assert_eq!(labels[4], labels[5]);
    assert_ne!(labels[0], labels[3]);
}

#[test]
/// Unconnected nodes are not merged into existing components.
fn labels_groups_components() {
    let mut dsu = DsuCore::new();
    dsu.grow(6);
    dsu.union_edges(&[0, 1, 3], &[1, 2, 4]).unwrap();
    let labels = dsu.labels();
    assert_eq!(labels[0], labels[1]);
    assert_eq!(labels[1], labels[2]);
    assert_eq!(labels[3], labels[4]);
    assert_ne!(labels[0], labels[3]);
    assert_ne!(labels[0], labels[5]);
}

#[test]
/// Unequal src/dst slices return a LengthMismatch error.
fn length_mismatch_error() {
    let mut dsu = DsuCore::new();
    dsu.grow(4);
    let result = dsu.union_edges(&[0, 1], &[1]);
    assert_eq!(result, Err(CoreError::LengthMismatch { src: 2, dst: 1 }));
}

#[test]
/// A rejected batch leaves every node in its own set.
fn length_mismatch_changes_nothing() {
    let mut dsu = DsuCore::new();
    dsu.grow(3);
    assert!(dsu.union_edges(&[0, 1], &[1]).is_err());
    assert_eq!(dsu.labels(), vec![0, 1, 2]);
}

#[test]
/// Every label is a root: it labels itself.
fn labels_are_roots() {
    let mut dsu = DsuCore::new();
    dsu.grow(8);
    dsu.union_edges(&[0, 2, 4, 6, 1], &[1, 3, 5, 7, 3]).unwrap();
    let labels = dsu.labels();
    for &label in &labels {
        assert_eq!(labels[label as usize], label);
    }
    assert_eq!(labels[0], labels[2]);
    assert_ne!(labels[0], labels[4]);
    assert_ne!(labels[4], labels[6]);
}

#[test]
/// The partition does not depend on the order or direction of the edges.
fn edge_order_does_not_matter() {
    let mut forward = DsuCore::new();
    forward.grow(6);
    forward.union_edges(&[0, 1, 3], &[1, 2, 4]).unwrap();
    let mut backward = DsuCore::new();
    backward.grow(6);
    backward.union_edges(&[4, 2, 1], &[3, 1, 0]).unwrap();
    let a = forward.labels();
    let b = backward.labels();
    for i in 0..6 {
        for j in 0..6 {
            assert_eq!(a[i] == a[j], b[i] == b[j]);
        }
    }
}

#[test]
/// Union by rank: joining two singletons raises the rank of the surviving root.
fn union_raises_rank_of_equal_roots() {
    let mut dsu = DsuCore::new();
    dsu.grow(2);
    dsu.union_edges(&[0], &[1]).unwrap();
    assert_eq!(dsu.parents(), &[0, 0]);
    assert_eq!(dsu.ranks(), &[1, 0]);
    dsu.grow(3);
    dsu.union_edges(&[2], &[1]).unwrap();
    assert_eq!(dsu.parents(), &[0, 0, 0]);
    assert_eq!(dsu.ranks(), &[1, 0, 0]);
}

#[test]
/// Path compression: after labels, every node points at its root.
fn labels_compress_paths() {
    let mut dsu = DsuCore::new();
    dsu.grow(4);
    dsu.union_edges(&[0, 2, 0], &[1, 3, 2]).unwrap();
    let labels = dsu.labels();
    for (i, &p) in dsu.parents().iter().enumerate() {
        assert_eq!(p, labels[i]);
    }
}

/// Whether two labellings describe the same partition.
fn same_partition(a: &[u32], b: &[u32]) -> bool {
    a.len() == b.len()
        && (0..a.len()).all(|i| (0..a.len()).all(|j| (a[i] == a[j]) == (b[i] == b[j])))
}

#[test]
/// Two unions one after the other give the partition of one union of all their
/// edges, in any order, direction or number of repeats.
fn sequential_unions_match_one_union() {
    let mut d1 = DsuCore::new();
    d1.grow(7);
    d1.union_edges(&[0, 2], &[1, 3]).unwrap();
    d1.union_edges(&[1, 5], &[3, 6]).unwrap();

    let mut d2 = DsuCore::new();
    d2.grow(7);
    d2.union_edges(&[1, 5, 0, 2], &[3, 6, 1, 3]).unwrap();

    let mut d3 = DsuCore::new();
    d3.grow(7);
    d3.union_edges(&[1, 3], &[0, 2]).unwrap();
    d3.union_edges(&[0, 2], &[1, 3]).unwrap();
    d3.union_edges(&[3, 6], &[1, 5]).unwrap();

    let l1 = d1.labels();
    let l2 = d2.labels();
    let l3 = d3.labels();
    assert!(same_partition(&l1, &l2));
    assert!(same_partition(&l1, &l3));
    assert_eq!(l1[0], l1[3]);
    assert_ne!(l1[0], l1[4]);
    assert_eq!(l1[5], l1[6]);
}

#[test]
/// Joining two nodes that already share a set leaves every label as it was.
fn union_within_one_set_changes_nothing() {
    let mut dsu = DsuCore::new();
    dsu.grow(4);
    dsu.union_edges(&[0, 1], &[1, 2]).unwrap();
    let before = dsu.labels();
    let parents = dsu.parents().to_vec();
    dsu.union_edges(&[2, 0], &[0, 1]).unwrap();
    assert_eq!(dsu.labels(), before);
    assert_eq!(dsu.parents(), parents.as_slice());
}

#[test]
/// Ranks grow strictly along parent links and stay small.
fn ranks_grow_towards_roots() {
    let mut dsu = DsuCore::new();
    dsu.grow(64);
    let src: Vec<u32> = (0..63).collect();
    let dst: Vec<u32> = (1..64).collect();
    dsu.union_edges(&src, &dst).unwrap();
    let parents = dsu.parents().to_vec();
    let ranks = dsu.ranks().to_vec();
    for x in 0..64 {
        assert!(ranks[x] <= 32);
        let p = parents[x] as usize;
        if p != x {
            assert!(ranks[x] < ranks[p]);
        }
    }
}
