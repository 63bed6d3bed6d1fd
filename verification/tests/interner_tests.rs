use fastdsu::Interner;

#[test]
/// The same key always resolves to the same id.
fn repeated_key_reuses_id() {
    let mut interner = Interner::new();
    let a = interner.intern(42);
    let b = interner.intern(42);
    assert_eq!(a, b);
    assert_eq!(interner.len(), 1);
}

#[test]
/// New keys are assigned sequential ids in first-seen order.
fn new_keys_get_sequential_ids() {
    let mut interner = Interner::new();
    assert_eq!(interner.intern(100), 0);
    assert_eq!(interner.intern(5), 1);
    assert_eq!(interner.intern(100), 0);
    assert_eq!(interner.intern(7), 2);
    assert_eq!(interner.len(), 3);
}

#[test]
/// decode is the inverse of intern.
fn decode_round_trips() {
    let mut interner = Interner::new();
    let id = interner.intern(1_000_000);
    assert_eq!(interner.decode(id), 1_000_000);
}

#[test]
/// Widely spaced keys are handled like any other key.
fn sparse_keys() {
    let mut interner = Interner::new();
    let a = interner.intern(0);
    let b = interner.intern(u32::MAX);
    assert_ne!(a, b);
    assert_eq!(interner.decode(a), 0);
    assert_eq!(interner.decode(b), u32::MAX);
}

#[test]
/// keys() reflects first-seen order.
fn keys_in_first_seen_order() {
    let mut interner = Interner::new();
    interner.intern(9);
    interner.intern(3);
    interner.intern(9);
    interner.intern(1);
    assert_eq!(interner.keys(), &[9, 3, 1]);
}

#[test]
/// A new interner holds no keys.
fn new_interner_is_empty() {
    let interner = Interner::new();
    assert_eq!(interner.len(), 0);
    assert!(interner.keys().is_empty());
}
