//! Dense ids for `u32` keys.

use vstd::prelude::*;

use crate::maps::{ahash_u32_entries, ahash_u32_get, ahash_u32_insert, ahash_u32_new};

verus! {

/// Maps arbitrary `u32` keys to a dense, sequential `u32` id space.
///
/// Ids are assigned in first-seen order starting at `0`. The same key always
/// resolves to the same id for the lifetime of the interner. Its view is the
/// sequence of keys, indexed by id.
pub struct Interner {
    ids: ahash::AHashMap<u32, u32>,
    keys: Vec<u32>,
}

impl View for Interner {
    type V = Seq<u32>;

    closed spec fn view(&self) -> Seq<u32> {
        self.keys@
    }
}

impl Interner {
    /// No key occurs twice, and the map sends each key to its position.
    pub closed spec fn wf(&self) -> bool {
        let m = ahash_u32_entries(self.ids);
        &&& self.keys@.no_duplicates()
        &&& self.keys@.len() <= 0x1_0000_0000
        &&& forall|k: u32| m.contains_key(k) <==> self.keys@.contains(k)
        &&& forall|j: int| 0 <= j < self.keys@.len() ==> m[#[trigger] self.keys@[j]] == j
    }

    /// No key occurs twice, and there are at most `2^32` keys.
    pub proof fn lemma_wf(&self)
        requires
            self.wf(),
        ensures
            self@.no_duplicates(),
            self@.len() <= 0x1_0000_0000,
    {
    }

    /// Create an empty interner.
    pub fn new() -> (r: Self)
        ensures
            r.wf(),
            r@ == Seq::<u32>::empty(),
    {
        Interner { ids: ahash_u32_new(), keys: Vec::new() }
    }

    /// The number of distinct keys interned so far.
    pub fn len(&self) -> (n: usize)
        ensures
            n == self@.len(),
    {
        self.keys.len()
    }

    /// Resolve `key` to its dense id, assigning a new one if not yet seen.
    ///
    /// Ids are `u32`, so at most `2^32` distinct keys can be interned.
    pub fn intern(&mut self, key: u32) -> (id: u32)
        requires
            old(self).wf(),
            old(self)@.contains(key) || old(self)@.len() < 0x1_0000_0000,
        ensures
            final(self).wf(),
            final(self)@ == (if old(self)@.contains(key) {
                old(self)@
            } else {
                old(self)@.push(key)
            }),
            (id as int) < final(self)@.len(),
            final(self)@[id as int] == key,
    {
        if let Some(id) = ahash_u32_get(&self.ids, key) {
            return id;
        }
        let id = self.keys.len() as u32;
        let ghost prev = self.keys@;
        self.keys.push(key);
        ahash_u32_insert(&mut self.ids, key, id);
        proof {
            let m = ahash_u32_entries(self.ids);
            assert(!prev.contains(key));
            assert forall|j: int| 0 <= j < self.keys@.len() implies m[#[trigger] self.keys@[j]]
                == j by {
                if j < prev.len() {
                    assert(prev[j] != key);
                }
            }
            assert forall|k: u32| m.contains_key(k) <==> self.keys@.contains(k) by {
                assert(self.keys@[prev.len() as int] == key);
                if prev.contains(k) {
                    let j = choose|j: int| 0 <= j < prev.len() && prev[j] == k;
                    assert(self.keys@[j] == k);
                }
                if self.keys@.contains(k) && k != key {
                    let j = choose|j: int| 0 <= j < self.keys@.len() && self.keys@[j] == k;
                    assert(prev[j] == k);
                }
            }
        }
        id
    }

    /// Resolve a dense id back to its original key.
    pub fn decode(&self, id: u32) -> (key: u32)
        requires
            (id as int) < self@.len(),
        ensures
            key == self@[id as int],
    {
        self.keys[id as usize]
    }

    /// All interned keys, in first-seen (ascending id) order.
    pub fn keys(&self) -> (keys: &[u32])
        ensures
            keys@ == self@,
    {
        self.keys.as_slice()
    }
}

} // verus!
