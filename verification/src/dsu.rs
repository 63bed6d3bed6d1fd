//! Disjoint set union over arbitrary fixed-width integer keys.

use vstd::prelude::*;

use crate::compact::{
    canonical, compact_wf, lemma_compact_insert, meets_edge, lemma_merge_all_range, lemma_pullback,
    lemma_touched_ids, pullback, renumbered, touched, touched_ids,
};
use crate::dsu_core::{
    coarser, edges_within, joins_edges, lemma_merge_all_joins, lemma_merge_all_least,
    lemma_merge_all_len, lemma_merge_respects_partition, lemma_same_partition_refl,
    lemma_same_partition_trans, merge, merge_all, same_partition, CoreError, DsuCore,
};
use crate::dtype::DTypeKind;
use crate::keys::{
    all_interned, ids_of, intern_outcome, interned, key_index, lemma_ids_in_range,
    lemma_ids_stable, lemma_interned_extends, lemma_key_index, preview_ids_outcome, KeyArray,
    KeyInterner, MAX_KEYS,
};
use crate::maps::{u32_map_entries, u32_map_entry_or_insert, u32_map_get, u32_map_len, u32_map_new, U32Map};

verus! {

/// The abstract state of a `Dsu`: the key type fixed so far, the keys in first-seen
/// order (a key's position is its id), and a labelling of the ids whose kernel is the
/// partition into components.
pub struct DsuState {
    pub key_type: Option<DTypeKind>,
    pub keys: Seq<i128>,
    pub sets: Seq<int>,
}

/// Two states with the same key type, the same keys and the same partition.
pub open spec fn equivalent(a: DsuState, b: DsuState) -> bool {
    &&& a.key_type == b.key_type
    &&& a.keys == b.keys
    &&& same_partition(a.sets, b.sets)
}

/// `sets` extended with singletons up to `n` nodes.
pub open spec fn with_singletons(sets: Seq<int>, n: nat) -> Seq<int> {
    sets + Seq::new((n - sets.len()) as nat, |i: int| sets.len() + i)
}

/// The state after the keys changed to `keys`, each new key a singleton.
pub open spec fn grown(s: DsuState, kt: Option<DTypeKind>, keys: Seq<i128>) -> DsuState {
    DsuState { key_type: kt, keys: keys, sets: with_singletons(s.sets, keys.len()) }
}

/// `v` is the smallest key of the component of id `i`.
pub open spec fn is_class_min(keys: Seq<i128>, sets: Seq<int>, i: int, v: i128) -> bool {
    &&& exists|j: int| 0 <= j < sets.len() && sets[j] == sets[i] && #[trigger] keys[j] == v
    &&& forall|j: int| 0 <= j < sets.len() && sets[j] == sets[i] ==> v <= #[trigger] keys[j]
}

/// What `union_edges(src, dst)` does to a state, and what it returns.
pub open spec fn union_outcome(s: DsuState, src: KeyArray, dst: KeyArray) -> (
    DsuState,
    Result<(), CoreError>,
) {
    if src.null_count != 0 {
        (s, Err(CoreError::NullsNotAllowed { count: src.null_count }))
    } else if dst.null_count != 0 {
        (s, Err(CoreError::NullsNotAllowed { count: dst.null_count }))
    } else {
        let (kt1, keys1, r1) = intern_outcome(s.key_type, s.keys, src);
        match r1 {
            Err(e) => (grown(s, kt1, keys1), Err(e)),
            Ok(src_ids) => {
                let (kt2, keys2, r2) = intern_outcome(kt1, keys1, dst);
                match r2 {
                    Err(e) => (grown(s, kt2, keys2), Err(e)),
                    Ok(dst_ids) => {
                        let g = grown(s, kt2, keys2);
                        if src_ids.len() != dst_ids.len() {
                            (
                                g,
                                Err(
                                    CoreError::LengthMismatch {
                                        src: src_ids.len() as usize,
                                        dst: dst_ids.len() as usize,
                                    },
                                ),
                            )
                        } else {
                            (
                                DsuState {
                                    sets: merge_all(g.sets, src_ids, dst_ids, src_ids.len()),
                                    ..g
                                },
                                Ok(()),
                            )
                        }
                    },
                }
            },
        }
    }
}

/// What `add(keys)` does to a state, and what it returns.
pub open spec fn add_outcome(s: DsuState, keys: KeyArray) -> (DsuState, Result<(), CoreError>) {
    if keys.null_count != 0 {
        (s, Err(CoreError::NullsNotAllowed { count: keys.null_count }))
    } else {
        let (kt, ks, r) = intern_outcome(s.key_type, s.keys, keys);
        (
            grown(s, kt, ks),
            match r {
                Ok(_) => Ok(()),
                Err(e) => Err(e),
            },
        )
    }
}

/// The error that `preview_union(src, dst)` returns, if any.
pub open spec fn preview_error(s: DsuState, src: KeyArray, dst: KeyArray) -> Option<CoreError> {
    if src.null_count != 0 {
        Some(CoreError::NullsNotAllowed { count: src.null_count })
    } else if dst.null_count != 0 {
        Some(CoreError::NullsNotAllowed { count: dst.null_count })
    } else if src.values@.len() != dst.values@.len() {
        Some(
            CoreError::LengthMismatch {
                src: src.values@.len() as usize,
                dst: dst.values@.len() as usize,
            },
        )
    } else {
        match preview_ids_outcome(s.key_type, s.keys, src, dst) {
            Err(e) => Some(e),
            Ok(_) => None,
        }
    }
}

/// The keys, in first-seen order, that interning `src` then `dst` would give.
pub open spec fn preview_keys(s: DsuState, src: KeyArray, dst: KeyArray) -> Seq<i128> {
    interned(interned(s.keys, src.values@), dst.values@)
}

/// The components before the edges, over all ids that the edges would have.
pub open spec fn preview_base(s: DsuState, src: KeyArray, dst: KeyArray) -> Seq<int> {
    with_singletons(s.sets, preview_keys(s, src, dst).len())
}

/// The components after the edges.
pub open spec fn preview_merged(s: DsuState, src: KeyArray, dst: KeyArray) -> Seq<int> {
    let ext = preview_keys(s, src, dst);
    merge_all(
        preview_base(s, src, dst),
        ids_of(ext, src.values@),
        ids_of(ext, dst.values@),
        src.values@.len(),
    )
}

/// The ids, ascending, of the components that the edges touch.
pub open spec fn preview_ids(s: DsuState, src: KeyArray, dst: KeyArray) -> Seq<int> {
    let ext = preview_keys(s, src, dst);
    touched_ids(
        preview_base(s, src, dst),
        ids_of(ext, src.values@),
        ids_of(ext, dst.values@),
        ext.len(),
    )
}

/// Disjoint set union over arbitrary fixed-width integer keys.
///
/// Keys are interned to a dense id space internally.
pub struct Dsu {
    interner: KeyInterner,
    core: DsuCore,
}

impl View for Dsu {
    type V = DsuState;

    closed spec fn view(&self) -> DsuState {
        DsuState {
            key_type: self.interner.fixed_type(),
            keys: self.interner.key_seq(),
            sets: self.core@,
        }
    }
}

impl Default for Dsu {
    fn default() -> (d: Self)
        ensures
            d.wf(),
            d@.key_type == None::<DTypeKind>,
            d@.keys == Seq::<i128>::empty(),
            d@.sets == Seq::<int>::empty(),
    {
        Self::new()
    }
}

impl Dsu {
    /// Every key has a node.
    pub closed spec fn wf(&self) -> bool {
        &&& self.interner.wf()
        &&& self.core.wf()
        &&& self.core@.len() == self.interner.key_seq().len()
    }

    /// The keys are distinct and the labelling names, for each id, an id of its
    /// own component that names itself.
    pub proof fn lemma_wf(&self)
        requires
            self.wf(),
        ensures
            self@.keys.no_duplicates(),
            self@.sets.len() == self@.keys.len(),
            self@.keys.len() <= MAX_KEYS,
            forall|x: int|
                0 <= x < self@.sets.len() ==> 0 <= #[trigger] self@.sets[x] < self@.sets.len()
                    && self@.sets[self@.sets[x]] == self@.sets[x],
    {
        self.core.lemma_view_canonical();
        self.interner.lemma_wf();
    }

    /// Allocate an empty DSU.
    pub fn new() -> (d: Self)
        ensures
            d.wf(),
            d@.key_type == None::<DTypeKind>,
            d@.keys == Seq::<i128>::empty(),
            d@.sets == Seq::<int>::empty(),
    {
        Dsu { interner: KeyInterner::new(), core: DsuCore::new() }
    }

    /// The key table.
    pub fn interner(&self) -> (i: &KeyInterner)
        ensures
            i.fixed_type() == self@.key_type,
            i.key_seq() == self@.keys,
    {
        &self.interner
    }

    /// The forest over the ids.
    pub fn forest(&self) -> (c: &DsuCore)
        ensures
            c@ == self@.sets,
            self.wf() ==> c.wf(),
    {
        &self.core
    }

    /// Give every interned key a node.
    fn sync_nodes(&mut self)
        requires
            old(self).interner.wf(),
            old(self).core.wf(),
            old(self).core@.len() <= old(self).interner.key_seq().len(),
        ensures
            final(self).wf(),
            final(self).interner == old(self).interner,
            final(self)@ == grown(old(self)@, old(self)@.key_type, old(self)@.keys),
    {
        proof {
            self.interner.lemma_wf();
        }
        if self.interner.len() > self.core.len() {
            self.core.grow(self.interner.len());
        } else {
            assert(with_singletons(self.core@, self.core@.len()) =~= self.core@);
        }
    }

    /// Union all edges from the `src` and `dst` key arrays.
    ///
    /// Both arrays must be non-nullable arrays of equal length and the same data type.
    /// Keys are interned as needed. The data type of the first array seen fixes the
    /// key type for this `Dsu`'s lifetime. Previously unseen keys become new
    /// singleton nodes.
    pub fn union_edges(&mut self, src: &KeyArray, dst: &KeyArray) -> (r: Result<(), CoreError>)
        requires
            old(self).wf(),
        ensures
            final(self).wf(),
            equivalent(final(self)@, union_outcome(old(self)@, *src, *dst).0),
            r == union_outcome(old(self)@, *src, *dst).1,
    {
        if src.null_count != 0 {
            proof {
                crate::dsu_core::lemma_same_partition_refl(self@.sets);
            }
            return Err(CoreError::NullsNotAllowed { count: src.null_count });
        }
        if dst.null_count != 0 {
            proof {
                crate::dsu_core::lemma_same_partition_refl(self@.sets);
            }
            return Err(CoreError::NullsNotAllowed { count: dst.null_count });
        }
        let ghost start = self@;
        proof {
            self.interner.lemma_wf();
        }
        let src_ids = match self.interner.intern_array(src) {
            Ok(ids) => ids,
            Err(e) => {
                proof {
                    lemma_interned_extends(start.keys, src.values@);
                }
                self.sync_nodes();
                proof {
                    crate::dsu_core::lemma_same_partition_refl(self@.sets);
                }
                return Err(e);
            },
        };
        let ghost mid = self@;
        proof {
            lemma_interned_extends(start.keys, src.values@);
            self.interner.lemma_wf();
        }
        let dst_ids = match self.interner.intern_array(dst) {
            Ok(ids) => ids,
            Err(e) => {
                proof {
                    lemma_interned_extends(mid.keys, dst.values@);
                }
                self.sync_nodes();
                proof {
                    crate::dsu_core::lemma_same_partition_refl(self@.sets);
                }
                return Err(e);
            },
        };
        proof {
            lemma_interned_extends(mid.keys, dst.values@);
        }
        self.sync_nodes();
        proof {
            let keys = self@.keys;
            self.interner.lemma_wf();
            lemma_ids_in_range(mid.keys, src.values@);
            lemma_ids_stable(mid.keys, keys, src.values@);
            lemma_ids_in_range(keys, dst.values@);
        }
        let r = self.core.union_edges(src_ids.as_slice(), dst_ids.as_slice());
        proof {
            let (kt1, keys1, r1) = intern_outcome(start.key_type, start.keys, *src);
            let (kt2, keys2, r2) = intern_outcome(kt1, keys1, *dst);
            assert(r1 == Ok::<Seq<u32>, CoreError>(src_ids@));
            assert(r2 == Ok::<Seq<u32>, CoreError>(dst_ids@));
            if src_ids@.len() != dst_ids@.len() {
                crate::dsu_core::lemma_same_partition_refl(self@.sets);
            }
        }
        r
    }

    /// Add all keys from `keys` as singleton nodes when they are unseen.
    ///
    /// The array must be non-nullable. Its data type must match the key type already
    /// established for this `Dsu`, if any.
    pub fn add(&mut self, keys: &KeyArray) -> (r: Result<(), CoreError>)
        requires
            old(self).wf(),
        ensures
            final(self).wf(),
            equivalent(final(self)@, add_outcome(old(self)@, *keys).0),
            r == add_outcome(old(self)@, *keys).1,
    {
        if keys.null_count != 0 {
            proof {
                crate::dsu_core::lemma_same_partition_refl(self@.sets);
            }
            return Err(CoreError::NullsNotAllowed { count: keys.null_count });
        }
        let ghost start = self@;
        proof {
            self.interner.lemma_wf();
        }
        let r = self.interner.intern_array(keys);
        proof {
            lemma_interned_extends(start.keys, keys.values@);
        }
        self.sync_nodes();
        proof {
            crate::dsu_core::lemma_same_partition_refl(self@.sets);
        }
        match r {
            Ok(_) => Ok(()),
            Err(e) => Err(e),
        }
    }

    /// The labelling of `n` ids: the components so far, then singletons.
    proof fn lemma_base(&self, n: nat)
        requires
            self.wf(),
            self.core@.len() <= n,
        ensures
            canonical(with_singletons(self.core@, n)),
            with_singletons(self.core@, n).len() == n,
    {
        self.core.lemma_view_canonical();
        let b = with_singletons(self.core@, n);
        assert forall|x: int| 0 <= x < b.len() implies 0 <= #[trigger] b[x] < b.len() && b[b[x]]
            == b[x] by {
            if x < self.core@.len() {
                assert(b[x] == self.core@[x]);
            }
        }
    }

    /// The root of `id` among `n` ids: its root so far, or itself past them.
    fn root_of(&self, id: u32, Ghost(n): Ghost<nat>) -> (r: u32)
        requires
            self.wf(),
            (id as int) < n,
            self.core@.len() <= n,
        ensures
            r as int == with_singletons(self.core@, n)[id as int],
    {
        if (id as usize) < self.core.len() {
            self.core.root(id)
        } else {
            id
        }
    }

    /// Number the roots of `ids` that `compact` does not number yet, in order.
    fn collect_roots(&self, compact: &mut U32Map, ids: &Vec<u32>, Ghost(n): Ghost<nat>)
        requires
            self.wf(),
            self.core@.len() <= n,
            n < 0x1_0000_0000,
            compact_wf(u32_map_entries(*old(compact)), with_singletons(self.core@, n)),
            forall|k: int| 0 <= k < ids@.len() ==> (#[trigger] ids@[k] as int) < n,
        ensures
            compact_wf(u32_map_entries(*final(compact)), with_singletons(self.core@, n)),
            forall|r: u32|
                #[trigger] u32_map_entries(*old(compact)).contains_key(r) ==> u32_map_entries(
                    *final(compact),
                ).contains_key(r) && u32_map_entries(*final(compact))[r] == u32_map_entries(
                    *old(compact),
                )[r],
            forall|k: int|
                0 <= k < ids@.len() ==> u32_map_entries(*final(compact)).contains_key(
                    with_singletons(self.core@, n)[#[trigger] ids@[k] as int] as u32,
                ),
            forall|r: u32|
                #[trigger] u32_map_entries(*final(compact)).contains_key(r) ==> u32_map_entries(
                    *old(compact),
                ).contains_key(r) || exists|k: int|
                    0 <= k < ids@.len() && with_singletons(self.core@, n)[#[trigger] ids@[k] as int]
                        == r,
    {
        let ghost base = with_singletons(self.core@, n);
        let ghost c0 = u32_map_entries(*compact);
        proof {
            self.lemma_base(n);
        }
        let mut k: usize = 0;
        while k < ids.len()
            invariant
                self.wf(),
                self.core@.len() <= n,
                n < 0x1_0000_0000,
                base == with_singletons(self.core@, n),
                canonical(base),
                base.len() == n,
                c0 == u32_map_entries(*old(compact)),
                k <= ids@.len(),
                forall|i: int| 0 <= i < ids@.len() ==> (#[trigger] ids@[i] as int) < n,
                compact_wf(u32_map_entries(*compact), base),
                forall|r: u32|
                    #[trigger] c0.contains_key(r) ==> u32_map_entries(*compact).contains_key(r)
                        && u32_map_entries(*compact)[r] == c0[r],
                forall|i: int|
                    0 <= i < k ==> u32_map_entries(*compact).contains_key(
                        base[#[trigger] ids@[i] as int] as u32,
                    ),
                forall|r: u32|
                    #[trigger] u32_map_entries(*compact).contains_key(r) ==> c0.contains_key(r)
                        || exists|i: int| 0 <= i < ids@.len() && base[#[trigger] ids@[i] as int] == r,
            decreases ids@.len() - k,
        {
            let ghost before = u32_map_entries(*compact);
            let next = u32_map_len(compact) as u32;
            let rt = self.root_of(ids[k], Ghost(n));
            proof {
                assert(0 <= base[ids@[k as int] as int] < n);
                if !before.contains_key(rt) {
                    lemma_compact_insert(before, base, rt);
                }
            }
            u32_map_entry_or_insert(compact, rt, next);
            proof {
                let after = u32_map_entries(*compact);
                assert forall|r: u32| #[trigger] after.contains_key(r) implies c0.contains_key(r)
                    || exists|i: int| 0 <= i < ids@.len() && base[#[trigger] ids@[i] as int] == r by {
                    if r == rt {
                        assert(base[ids@[k as int] as int] == r);
                    } else {
                        assert(before.contains_key(r));
                    }
                }
                assert forall|i: int| 0 <= i < k + 1 implies after.contains_key(
                    base[#[trigger] ids@[i] as int] as u32,
                ) by {
                    if i < k {
                        assert(before.contains_key(base[ids@[i] as int] as u32));
                    }
                }
            }
            k = k + 1;
        }
    }

    /// Number, densely, the roots of the endpoints of the edges `sids -> dids` among
    /// `n` ids: first those of `sids`, then those of `dids`.
    fn compact_endpoints(&self, src_ids: &Vec<u32>, dst_ids: &Vec<u32>, Ghost(n): Ghost<nat>) -> (compact:
        U32Map)
        requires
            self.wf(),
            self.core@.len() <= n,
            n < 0x1_0000_0000,
            src_ids@.len() == dst_ids@.len(),
            forall|k: int|
                0 <= k < src_ids@.len() ==> (#[trigger] src_ids@[k] as int) < n && (dst_ids@[k] as int)
                    < n,
        ensures
            ({
                let base = with_singletons(self.core@, n);
                let c = u32_map_entries(compact);
                &&& compact_wf(c, base)
                &&& forall|e: int|
                    0 <= e < src_ids@.len() ==> c.contains_key(
                        base[#[trigger] src_ids@[e] as int] as u32,
                    ) && c.contains_key(base[dst_ids@[e] as int] as u32)
                &&& forall|x: int|
                    0 <= x < n ==> (touched(base, src_ids@, dst_ids@, x) <==> c.contains_key(
                        #[trigger] base[x] as u32,
                    ))
            }),
    {
        let ghost base = with_singletons(self.core@, n);
        let ghost sids = src_ids@;
        let ghost dids = dst_ids@;
        proof {
            self.lemma_base(n);
        }
        let mut compact = u32_map_new();
        let ghost c0 = u32_map_entries(compact);
        proof {
            assert(c0.dom() =~= Set::<u32>::empty());
        }
        self.collect_roots(&mut compact, src_ids, Ghost(n));
        let ghost c1 = u32_map_entries(compact);
        proof {
            assert forall|k: int| 0 <= k < dids.len() implies (#[trigger] dids[k] as int) < n by {
                assert((sids[k] as int) < n);
            }
        }
        self.collect_roots(&mut compact, dst_ids, Ghost(n));
        let ghost c = u32_map_entries(compact);
        proof {
            assert forall|e: int| 0 <= e < sids.len() implies c.contains_key(
                base[#[trigger] sids[e] as int] as u32,
            ) && c.contains_key(base[dids[e] as int] as u32) by {
                assert(c1.contains_key(base[sids[e] as int] as u32));
                assert(c.contains_key(base[dids[e] as int] as u32));
            }
            assert forall|x: int| 0 <= x < n && touched(base, sids, dids, x) implies c.contains_key(
                #[trigger] base[x] as u32,
            ) by {
                let k = choose|k: int| 0 <= k < sids.len() && #[trigger] meets_edge(base, sids, dids, k, x);
                assert(c.contains_key(base[sids[k] as int] as u32));
                assert(c.contains_key(base[dids[k] as int] as u32));
            }
            assert forall|x: int| 0 <= x < n && c.contains_key(#[trigger] base[x] as u32) implies touched(
                base,
                sids,
                dids,
                x,
            ) by {
                assert(0 <= base[x] < n);
                let r = base[x] as u32;
                assert(r as int == base[x]);
                assert(c.contains_key(r));
                if c1.contains_key(r) {
                    assert(!c0.contains_key(r));
                    assert(exists|i: int| 0 <= i < sids.len() && base[#[trigger] sids[i] as int] == r);
                    let i = choose|i: int| 0 <= i < sids.len() && base[#[trigger] sids[i] as int] == r;
                    assert(meets_edge(base, sids, dids, i, x));
                } else {
                    assert(exists|i: int| 0 <= i < dids.len() && base[#[trigger] dids[i] as int] == r);
                    let i = choose|i: int| 0 <= i < dids.len() && base[#[trigger] dids[i] as int] == r;
                    assert(base[x] == base[dids[i] as int]);
                    assert(0 <= i < sids.len());
                    assert(meets_edge(base, sids, dids, i, x));
                }
            }
        }
        compact
    }

    /// A forest over the numbers of `compact`, with the edges between the numbers of
    /// the endpoints' roots joined.
    fn preview_forest(
        &self,
        compact: &U32Map,
        src_ids: &Vec<u32>,
        dst_ids: &Vec<u32>,
        Ghost(n): Ghost<nat>,
    ) -> (preview: DsuCore)
        requires
            self.wf(),
            self.core@.len() <= n,
            n < 0x1_0000_0000,
            src_ids@.len() == dst_ids@.len(),
            compact_wf(u32_map_entries(*compact), with_singletons(self.core@, n)),
            forall|e: int|
                0 <= e < src_ids@.len() ==> (#[trigger] src_ids@[e] as int) < n && (dst_ids@[e] as int)
                    < n && u32_map_entries(*compact).contains_key(
                    with_singletons(self.core@, n)[src_ids@[e] as int] as u32,
                ) && u32_map_entries(*compact).contains_key(
                    with_singletons(self.core@, n)[dst_ids@[e] as int] as u32,
                ),
        ensures
            ({
                let base = with_singletons(self.core@, n);
                let c = u32_map_entries(*compact);
                &&& preview.wf()
                &&& preview@.len() == c.len()
                &&& same_partition(
                    preview@,
                    merge_all(
                        Seq::new(c.len(), |i: int| i),
                        renumbered(base, c, src_ids@),
                        renumbered(base, c, dst_ids@),
                        src_ids@.len(),
                    ),
                )
            }),
    {
        let ghost base = with_singletons(self.core@, n);
        let ghost c = u32_map_entries(*compact);
        let ghost sids = src_ids@;
        let ghost dids = dst_ids@;
        proof {
            self.lemma_base(n);
        }
        let m = u32_map_len(compact);
        let mut preview = DsuCore::new();
        preview.grow(m);
        let ghost idm = Seq::new(c.len(), |i: int| i);
        let ghost cs = renumbered(base, c, sids);
        let ghost cd = renumbered(base, c, dids);
        proof {
            assert(preview@ =~= idm);
            lemma_same_partition_refl(idm);
        }
        let len = src_ids.len();
        let mut k: usize = 0;
        while k < len
            invariant
                self.wf(),
                len == sids.len(),
                len == dids.len(),
                sids == src_ids@,
                dids == dst_ids@,
                c == u32_map_entries(*compact),
                compact_wf(c, base),
                canonical(base),
                base == with_singletons(self.core@, n),
                base.len() == n,
                self.core@.len() <= n,
                n < 0x1_0000_0000,
                m == c.len(),
                idm == Seq::new(c.len(), |i: int| i),
                cs == renumbered(base, c, sids),
                cd == renumbered(base, c, dids),
                k <= len,
                forall|e: int|
                    0 <= e < sids.len() ==> (#[trigger] sids[e] as int) < n && (dids[e] as int) < n
                        && c.contains_key(base[sids[e] as int] as u32) && c.contains_key(
                        base[dids[e] as int] as u32,
                    ),
                preview.wf(),
                preview@.len() == m,
                same_partition(preview@, merge_all(idm, cs, cd, k as nat)),
            decreases len - k,
        {
            let ra = self.root_of(src_ids[k], Ghost(n));
            let rb = self.root_of(dst_ids[k], Ghost(n));
            proof {
                assert(0 <= base[sids[k as int] as int] < n);
                assert(0 <= base[dids[k as int] as int] < n);
                assert(ra == base[sids[k as int] as int] as u32);
                assert(rb == base[dids[k as int] as int] as u32);
            }
            let a = u32_map_get(compact, ra).unwrap();
            let b = u32_map_get(compact, rb).unwrap();
            let ghost before = preview@;
            proof {
                assert((a as int) < m && (b as int) < m);
            }
            preview.union_roots(a as usize, b as usize);
            proof {
                let q = merge_all(idm, cs, cd, k as nat);
                assert(cs[k as int] == a && cd[k as int] == b);
                lemma_merge_all_len(idm, cs, cd, k as nat);
                lemma_merge_respects_partition(before, q, a as int, b as int);
                lemma_same_partition_trans(
                    preview@,
                    merge(before, a as int, b as int),
                    merge(q, a as int, b as int),
                );
            }
            k = k + 1;
        }
        preview
    }

    /// The touched ids below `n_ids`, ascending, each with the root, in `preview`,
    /// of the number of its root.
    fn touched_groups(
        &self,
        compact: &U32Map,
        preview: &DsuCore,
        n_ids: usize,
        Ghost(sids): Ghost<Seq<u32>>,
        Ghost(dids): Ghost<Seq<u32>>,
    ) -> (r: (Vec<u32>, Vec<u32>))
        requires
            self.wf(),
            self.core@.len() <= n_ids,
            n_ids < 0x1_0000_0000,
            compact_wf(u32_map_entries(*compact), with_singletons(self.core@, n_ids as nat)),
            preview.wf(),
            preview@.len() == u32_map_entries(*compact).len(),
            forall|x: int|
                0 <= x < n_ids ==> (touched(with_singletons(self.core@, n_ids as nat), sids, dids, x)
                    <==> u32_map_entries(*compact).contains_key(
                    #[trigger] with_singletons(self.core@, n_ids as nat)[x] as u32,
                )),
        ensures
            ({
                let base = with_singletons(self.core@, n_ids as nat);
                let c = u32_map_entries(*compact);
                let tids = touched_ids(base, sids, dids, n_ids as nat);
                &&& r.0@.len() == tids.len()
                &&& r.1@.len() == tids.len()
                &&& forall|t: int| 0 <= t < tids.len() ==> #[trigger] r.0@[t] as int == tids[t]
                &&& forall|t: int|
                    0 <= t < tids.len() ==> (#[trigger] r.0@[t] as int) < n_ids && c.contains_key(
                        base[r.0@[t] as int] as u32,
                    )
                &&& forall|t: int|
                    0 <= t < tids.len() ==> #[trigger] r.1@[t] as int == preview@[c[base[r.0@[t] as int] as u32] as int]
                        && (r.1@[t] as int) < c.len()
            }),
    {
        let ghost n = n_ids as nat;
        let ghost base = with_singletons(self.core@, n);
        let ghost c = u32_map_entries(*compact);
        proof {
            self.lemma_base(n);
            preview.lemma_view_canonical();
        }
        let mut key_ids: Vec<u32> = Vec::new();
        let mut group_ids: Vec<u32> = Vec::new();
        let mut id: usize = 0;
        while id < n_ids
            invariant
                self.wf(),
                n_ids == n,
                n < 0x1_0000_0000,
                base == with_singletons(self.core@, n),
                canonical(base),
                base.len() == n,
                self.core@.len() <= n,
                c == u32_map_entries(*compact),
                compact_wf(c, base),
                preview.wf(),
                preview@.len() == c.len(),
                forall|x: int|
                    0 <= x < preview@.len() ==> 0 <= #[trigger] preview@[x] < preview@.len(),
                id <= n,
                forall|x: int|
                    0 <= x < n ==> (touched(base, sids, dids, x) <==> c.contains_key(
                        #[trigger] base[x] as u32,
                    )),
                key_ids@.len() == touched_ids(base, sids, dids, id as nat).len(),
                group_ids@.len() == key_ids@.len(),
                forall|t: int|
                    0 <= t < key_ids@.len() ==> #[trigger] key_ids@[t] as int == touched_ids(
                        base,
                        sids,
                        dids,
                        id as nat,
                    )[t],
                forall|t: int|
                    0 <= t < key_ids@.len() ==> (#[trigger] key_ids@[t] as int) < n && c.contains_key(
                        base[key_ids@[t] as int] as u32,
                    ),
                forall|t: int|
                    0 <= t < key_ids@.len() ==> #[trigger] group_ids@[t] as int == preview@[c[base[key_ids@[t] as int] as u32] as int]
                        && (group_ids@[t] as int) < c.len(),
            decreases n - id,
        {
            let rt = self.root_of(id as u32, Ghost(n));
            let ghost prev_t = touched_ids(base, sids, dids, id as nat);
            proof {
                assert(0 <= base[id as int] < n);
                assert(rt == base[id as int] as u32);
            }
            match u32_map_get(compact, rt) {
                Some(cid) => {
                    proof {
                        assert((cid as int) < c.len());
                    }
                    let g = preview.root(cid);
                    let ghost old_keys = key_ids@;
                    let ghost old_groups = group_ids@;
                    key_ids.push(id as u32);
                    group_ids.push(g);
                    proof {
                        assert forall|t: int| 0 <= t < old_keys.len() implies key_ids@[t] == old_keys[t]
                            && group_ids@[t] == old_groups[t] by {}
                        assert forall|t: int| 0 <= t < key_ids@.len() implies #[trigger] group_ids@[t] as int
                            == preview@[c[base[key_ids@[t] as int] as u32] as int]
                            && (group_ids@[t] as int) < c.len() by {
                            if t < old_keys.len() {
                                assert(old_groups[t] as int == preview@[c[base[old_keys[t] as int] as u32] as int]);
                            }
                        }
                        let last = key_ids@.len() - 1;
                        assert(key_ids@[last] as int == id);
                        assert(group_ids@[last] as int == preview@[c[base[id as int] as u32] as int]);
                        assert(touched(base, sids, dids, id as int));
                        assert(touched_ids(base, sids, dids, (id + 1) as nat) == prev_t.push(
                            id as int,
                        ));
                        assert forall|t: int| 0 <= t < key_ids@.len() implies #[trigger] key_ids@[t] as int
                            == prev_t.push(id as int)[t] by {
                            if t < prev_t.len() {
                                assert(key_ids@[t] as int == prev_t[t]);
                            }
                        }
                    }
                },
                None => {
                    proof {
                        assert(!touched(base, sids, dids, id as int));
                        assert(touched_ids(base, sids, dids, (id + 1) as nat) == prev_t);
                    }
                },
            }
            id = id + 1;
        }
        (key_ids, group_ids)
    }

    /// The keys of the components that the edges `src_ids -> dst_ids` touch, among
    /// the ids of `ext`, the keys extended with `pending`, each with the smallest key
    /// of its component after the edges.
    fn preview_touched(
        &self,
        src_ids: &Vec<u32>,
        dst_ids: &Vec<u32>,
        pending: &Vec<i128>,
        Ghost(ext): Ghost<Seq<i128>>,
    ) -> (r: (Vec<i128>, Vec<i128>))
        requires
            self.wf(),
            ext == self@.keys + pending@,
            ext.len() <= MAX_KEYS,
            src_ids@.len() == dst_ids@.len(),
            forall|k: int|
                0 <= k < src_ids@.len() ==> (#[trigger] src_ids@[k] as int) < ext.len() && (
                dst_ids@[k] as int) < ext.len(),
        ensures
            ({
                let base = with_singletons(self@.sets, ext.len());
                let tids = touched_ids(base, src_ids@, dst_ids@, ext.len());
                &&& r.0@ == tids.map_values(|id: int| ext[id])
                &&& r.1@.len() == tids.len()
                &&& forall|i: int|
                    0 <= i < tids.len() ==> is_class_min(
                        ext,
                        merge_all(base, src_ids@, dst_ids@, src_ids@.len()),
                        tids[i],
                        #[trigger] r.1@[i],
                    )
            }),
    {
        let existing_len = self.core.len();
        let ext_len = existing_len + pending.len();
        let ghost n = ext_len as nat;
        let ghost base = with_singletons(self.core@, n);
        let ghost sids = src_ids@;
        let ghost dids = dst_ids@;
        proof {
            self.lemma_base(n);
        }
        let compact = self.compact_endpoints(src_ids, dst_ids, Ghost(n));
        let ghost c = u32_map_entries(compact);
        let preview = self.preview_forest(&compact, src_ids, dst_ids, Ghost(n));
        let (key_ids, group_ids) = self.touched_groups(
            &compact,
            &preview,
            ext_len,
            Ghost(sids),
            Ghost(dids),
        );
        let ghost tids = touched_ids(base, sids, dids, n);
        proof {
            lemma_touched_ids(base, sids, dids, n);
            assert forall|t: int| 0 <= t < key_ids@.len() implies (#[trigger] key_ids@[t] as int)
                < self.interner.key_seq().len() + pending@.len() by {
                assert(key_ids@[t] as int == tids[t]);
            }
        }
        let keys_out = self.interner.decode_all_extended(pending, &key_ids);
        proof {
            assert forall|t: int| 0 <= t < tids.len() implies #[trigger] keys_out@[t] == ext[tids[t]] by {
                assert(key_ids@[t] as int == tids[t]);
            }
        }
        let labels = group_minimums(&keys_out, &group_ids, u32_map_len(&compact));
        proof {
            assert(keys_out@ =~= tids.map_values(|id: int| ext[id]));
            lemma_preview_labels(
                base,
                c,
                sids,
                dids,
                preview@,
                ext,
                key_ids@,
                group_ids@,
                keys_out@,
                labels@,
            );
        }
        (keys_out, labels)
    }

    /// The smallest key of each touched component, were the edges `src -> dst`
    /// unioned, without interning keys or changing parents and ranks.
    ///
    /// Returns the keys of the touched components, in id order, alongside their
    /// labels.
    pub fn preview_union(&self, src: &KeyArray, dst: &KeyArray) -> (r: Result<
        (Vec<i128>, Vec<i128>),
        CoreError,
    >)
        requires
            self.wf(),
        ensures
            match preview_error(self@, *src, *dst) {
                Some(e) => r == Err::<(Vec<i128>, Vec<i128>), CoreError>(e),
                None => r matches Ok((keys, labels)) && {
                    let ext = preview_keys(self@, *src, *dst);
                    let ids = preview_ids(self@, *src, *dst);
                    &&& keys@ == ids.map_values(|id: int| ext[id])
                    &&& labels@.len() == ids.len()
                    &&& forall|i: int|
                        0 <= i < ids.len() ==> is_class_min(
                            ext,
                            preview_merged(self@, *src, *dst),
                            ids[i],
                            #[trigger] labels@[i],
                        )
                },
            },
    {
        if src.null_count != 0 {
            return Err(CoreError::NullsNotAllowed { count: src.null_count });
        }
        if dst.null_count != 0 {
            return Err(CoreError::NullsNotAllowed { count: dst.null_count });
        }
        if src.values.len() != dst.values.len() {
            return Err(CoreError::LengthMismatch { src: src.values.len(), dst: dst.values.len() });
        }
        let (src_ids, dst_ids, pending) = match self.interner.preview_arrays(src, dst) {
            Ok(t) => t,
            Err(e) => return Err(e),
        };
        let ghost ext = preview_keys(self@, *src, *dst);
        proof {
            self.interner.lemma_wf();
            lemma_interned_extends(self@.keys, src.values@);
            lemma_interned_extends(interned(self@.keys, src.values@), dst.values@);
            assert(ext =~= self@.keys + pending@);
            lemma_ids_in_range(ext, src.values@);
            lemma_ids_in_range(ext, dst.values@);
        }
        let r = self.preview_touched(&src_ids, &dst_ids, &pending, Ghost(ext));
        Ok(r)
    }

    /// Return every interned key alongside its component label.
    ///
    /// Keys are returned in first-seen order. Each component's label is its
    /// smallest original key, independent of edge insertion order.
    pub fn components(&mut self) -> (r: (Vec<i128>, Vec<i128>))
        requires
            old(self).wf(),
        ensures
            final(self).wf(),
            final(self)@ == old(self)@,
            r.0@ == old(self)@.keys,
            r.1@.len() == old(self)@.keys.len(),
            forall|i: int|
                0 <= i < r.1@.len() ==> is_class_min(
                    old(self)@.keys,
                    old(self)@.sets,
                    i,
                    #[trigger] r.1@[i],
                ),
    {
        let dense_labels = self.core.labels();
        let keys = copy_keys(self.interner.keys());
        let labels = minimum_labels(&keys, &dense_labels, Ghost(self.core@));
        (keys, labels)
    }
}

/// A preview tells what a union would give: when previewing the edges `src -> dst`
/// raises no error, unioning them succeeds, interns exactly the keys that the preview
/// extended the keys with, and joins exactly the components that the preview joined.
pub proof fn lemma_preview_matches_union(s: DsuState, src: KeyArray, dst: KeyArray)
    requires
        s.keys.no_duplicates(),
        s.keys.len() <= MAX_KEYS,
        s.sets.len() == s.keys.len(),
        preview_error(s, src, dst) is None,
    ensures
        union_outcome(s, src, dst).1 == Ok::<(), CoreError>(()),
        union_outcome(s, src, dst).0.keys == preview_keys(s, src, dst),
        union_outcome(s, src, dst).0.sets == preview_merged(s, src, dst),
{
    let k1 = interned(s.keys, src.values@);
    let ext = preview_keys(s, src, dst);
    lemma_interned_extends(s.keys, src.values@);
    lemma_interned_extends(k1, dst.values@);
    if !all_interned(k1, src.values@) {
        crate::keys::lemma_not_interned_full(s.keys, src.values@);
        crate::keys::lemma_interned_noop(k1, dst.values@);
        assert(ext == k1);
        assert(false);
    }
    lemma_ids_stable(k1, ext, src.values@);
    assert(ids_of(k1, src.values@) =~= ids_of(ext, src.values@));
}

proof fn lemma_touched_ids_ascending(base: Seq<int>, sids: Seq<u32>, dids: Seq<u32>, n: nat)
    ensures
        forall|i: int, j: int|
            0 <= i < j < touched_ids(base, sids, dids, n).len() ==> touched_ids(base, sids, dids, n)[i]
                < touched_ids(base, sids, dids, n)[j],
    decreases n,
{
    if n > 0 {
        let n1 = (n - 1) as nat;
        lemma_touched_ids_ascending(base, sids, dids, n1);
        lemma_touched_ids(base, sids, dids, n1);
        let t1 = touched_ids(base, sids, dids, n1);
        let t = touched_ids(base, sids, dids, n);
        assert forall|i: int, j: int| 0 <= i < j < t.len() implies t[i] < t[j] by {
            if j < t1.len() {
                assert(t[i] == t1[i] && t[j] == t1[j]);
            } else {
                assert(t[i] == t1[i]);
                assert(t1[i] < n1);
            }
        }
    }
}

/// A preview lists exactly the components that the union touches: an id is among
/// the preview's ids if and only if, after the union, its component holds an
/// endpoint of one of the edges. The ids ascend, so each is listed once and in the
/// order of the keys, and they are ids of the keys after the union. With
/// `lemma_preview_matches_union` and `lemma_labels_canonical`, the preview's pairs
/// are the pairs `(key, label)` that `components` gives after the union for
/// exactly those ids.
pub proof fn lemma_preview_lists_touched(s: DsuState, src: KeyArray, dst: KeyArray)
    requires
        s.keys.no_duplicates(),
        s.keys.len() <= MAX_KEYS,
        s.sets.len() == s.keys.len(),
        forall|x: int| 0 <= x < s.sets.len() ==> 0 <= #[trigger] s.sets[x] < s.sets.len(),
        preview_error(s, src, dst) is None,
    ensures
        ({
            let u = union_outcome(s, src, dst).0;
            let ids = preview_ids(s, src, dst);
            let sids = ids_of(u.keys, src.values@);
            let dids = ids_of(u.keys, dst.values@);
            &&& forall|x: int|
                0 <= x < u.keys.len() ==> (ids.contains(x) <==> exists|e: int|
                    0 <= e < sids.len() && (u.sets[x] == u.sets[#[trigger] sids[e] as int]
                        || u.sets[x] == u.sets[dids[e] as int]))
            &&& forall|i: int, j: int| 0 <= i < j < ids.len() ==> ids[i] < ids[j]
            &&& forall|t: int| 0 <= t < ids.len() ==> 0 <= #[trigger] ids[t] < u.keys.len()
        }),
{
    lemma_preview_matches_union(s, src, dst);
    let u = union_outcome(s, src, dst).0;
    let ext = preview_keys(s, src, dst);
    let base = preview_base(s, src, dst);
    let sids = ids_of(ext, src.values@);
    let dids = ids_of(ext, dst.values@);
    let n = src.values@.len();
    let ids = preview_ids(s, src, dst);
    lemma_interned_extends(s.keys, src.values@);
    lemma_interned_extends(interned(s.keys, src.values@), dst.values@);
    lemma_ids_in_range(ext, src.values@);
    lemma_ids_in_range(ext, dst.values@);
    assert(base.len() == ext.len());
    assert forall|e: int| 0 <= e < n implies (#[trigger] sids[e] as int) < base.len() && (
    dids[e] as int) < base.len() by {
        assert(0 <= key_index(ext, src.values@[e]) < ext.len());
        assert(0 <= key_index(ext, dst.values@[e]) < ext.len());
    }
    assert(edges_within(base, sids, dids, n));
    assert forall|x: int| 0 <= x < base.len() implies 0 <= #[trigger] base[x] by {
        if x < s.sets.len() {
            assert(base[x] == s.sets[x]);
        }
    }
    let merged = merge_all(base, sids, dids, n);
    assert(u.sets == merged);
    lemma_merge_all_joins(base, sids, dids, n);
    lemma_merge_all_len(base, sids, dids, n);
    lemma_touched_ids(base, sids, dids, ext.len());
    lemma_touched_ids_ascending(base, sids, dids, ext.len());
    let m = Seq::new(base.len(), |y: int| if touched(base, sids, dids, y) { -1 } else { base[y] });
    assert forall|i: int, j: int|
        0 <= i < base.len() && 0 <= j < base.len() && base[i] == base[j] implies m[i] == m[j] by {
        if touched(base, sids, dids, i) {
            let k = choose|k: int| 0 <= k < sids.len() && #[trigger] meets_edge(base, sids, dids, k, i);
            assert(meets_edge(base, sids, dids, k, j));
        }
        if touched(base, sids, dids, j) {
            let k = choose|k: int| 0 <= k < sids.len() && #[trigger] meets_edge(base, sids, dids, k, j);
            assert(meets_edge(base, sids, dids, k, i));
        }
    }
    assert(coarser(m, base));
    assert forall|e: int| 0 <= e < n implies m[#[trigger] sids[e] as int] == m[dids[e] as int] by {
        assert(meets_edge(base, sids, dids, e, sids[e] as int));
        assert(meets_edge(base, sids, dids, e, dids[e] as int));
    }
    assert(joins_edges(m, sids, dids, n));
    lemma_merge_all_least(base, sids, dids, n, m);
    assert forall|x: int| 0 <= x < u.keys.len() implies (ids.contains(x) <==> exists|e: int|
        0 <= e < sids.len() && (u.sets[x] == u.sets[#[trigger] sids[e] as int] || u.sets[x]
            == u.sets[dids[e] as int])) by {
        if ids.contains(x) {
            let t = choose|t: int| 0 <= t < ids.len() && ids[t] == x;
            assert(touched(base, sids, dids, ids[t]));
            let k = choose|k: int| 0 <= k < sids.len() && #[trigger] meets_edge(base, sids, dids, k, x);
            if base[x] == base[sids[k] as int] {
                assert(merged[x] == merged[sids[k] as int]);
            } else {
                assert(merged[x] == merged[dids[k] as int]);
            }
        }
        if exists|e: int|
            0 <= e < sids.len() && (u.sets[x] == u.sets[#[trigger] sids[e] as int] || u.sets[x]
                == u.sets[dids[e] as int]) {
            let e = choose|e: int|
                0 <= e < sids.len() && (u.sets[x] == u.sets[#[trigger] sids[e] as int] || u.sets[x]
                    == u.sets[dids[e] as int]);
            assert(meets_edge(base, sids, dids, e, sids[e] as int));
            assert(meets_edge(base, sids, dids, e, dids[e] as int));
            if u.sets[x] == u.sets[sids[e] as int] {
                assert(m[x] == m[sids[e] as int]);
            } else {
                assert(m[x] == m[dids[e] as int]);
            }
            assert(touched(base, sids, dids, x));
            let t = choose|t: int| 0 <= t < ids.len() && #[trigger] ids[t] == x;
            assert(ids.contains(x));
        }
    }
}

/// A preview gives the pairs that `components` gives after the union, for exactly
/// the touched components: where `(k, l)` is what `preview_union(src, dst)` returns
/// from state `s`, and `(kk, ll)` what `components` returns from a state `after`
/// that `union_edges(src, dst)` reaches from `s`, the preview's pairs are the pairs
/// `(kk[id], ll[id])` for the ids `preview_ids`, in their order, which are exactly
/// the ids whose component after the union holds an endpoint of an edge.
pub proof fn lemma_preview_pairs(
    s: DsuState,
    src: KeyArray,
    dst: KeyArray,
    k: Seq<i128>,
    l: Seq<i128>,
    after: DsuState,
    kk: Seq<i128>,
    ll: Seq<i128>,
)
    requires
        s.keys.no_duplicates(),
        s.keys.len() <= MAX_KEYS,
        s.sets.len() == s.keys.len(),
        forall|x: int| 0 <= x < s.sets.len() ==> 0 <= #[trigger] s.sets[x] < s.sets.len(),
        preview_error(s, src, dst) is None,
        k == preview_ids(s, src, dst).map_values(|id: int| preview_keys(s, src, dst)[id]),
        l.len() == preview_ids(s, src, dst).len(),
        forall|t: int|
            0 <= t < l.len() ==> is_class_min(
                preview_keys(s, src, dst),
                preview_merged(s, src, dst),
                preview_ids(s, src, dst)[t],
                #[trigger] l[t],
            ),
        equivalent(after, union_outcome(s, src, dst).0),
        kk == after.keys,
        ll.len() == after.keys.len(),
        forall|i: int| 0 <= i < ll.len() ==> is_class_min(after.keys, after.sets, i, #[trigger] ll[i]),
    ensures
        k.len() == preview_ids(s, src, dst).len(),
        forall|t: int|
            0 <= t < k.len() ==> #[trigger] k[t] == kk[preview_ids(s, src, dst)[t]] && l[t]
                == ll[preview_ids(s, src, dst)[t]],
        forall|x: int|
            0 <= x < kk.len() ==> (preview_ids(s, src, dst).contains(x) <==> exists|e: int|
                0 <= e < src.values@.len() && (after.sets[x] == after.sets[#[trigger] ids_of(
                    kk,
                    src.values@,
                )[e] as int] || after.sets[x] == after.sets[ids_of(kk, dst.values@)[e] as int])),
{
    lemma_preview_matches_union(s, src, dst);
    lemma_preview_lists_touched(s, src, dst);
    let u = union_outcome(s, src, dst).0;
    let ids = preview_ids(s, src, dst);
    let merged = preview_merged(s, src, dst);
    let ext = preview_keys(s, src, dst);
    lemma_interned_extends(s.keys, src.values@);
    lemma_interned_extends(interned(s.keys, src.values@), dst.values@);
    lemma_ids_in_range(ext, src.values@);
    lemma_ids_in_range(ext, dst.values@);
    assert(preview_base(s, src, dst).len() == ext.len());
    lemma_merge_all_len(
        preview_base(s, src, dst),
        ids_of(ext, src.values@),
        ids_of(ext, dst.values@),
        src.values@.len(),
    );
    assert(same_partition(merged, after.sets));
    assert forall|t: int| 0 <= t < k.len() implies #[trigger] k[t] == kk[ids[t]] && l[t] == ll[ids[t]] by {
        let id = ids[t];
        assert(0 <= id < u.keys.len());
        lemma_labels_canonical(u.keys, merged, after.sets, id, l[t], ll[id]);
    }
    let sids = ids_of(kk, src.values@);
    let dids = ids_of(kk, dst.values@);
    assert forall|x: int| 0 <= x < kk.len() implies (ids.contains(x) <==> exists|e: int|
        0 <= e < src.values@.len() && (after.sets[x] == after.sets[#[trigger] sids[e] as int]
            || after.sets[x] == after.sets[dids[e] as int])) by {
        if ids.contains(x) {
            let e = choose|e: int|
                0 <= e < sids.len() && (u.sets[x] == u.sets[#[trigger] sids[e] as int] || u.sets[x]
                    == u.sets[dids[e] as int]);
            assert(kk == ext);
            assert(0 <= e < src.values@.len());
            assert(0 <= key_index(ext, src.values@[e]) < ext.len());
            assert(0 <= key_index(ext, dst.values@[e]) < ext.len());
            if u.sets[x] == u.sets[sids[e] as int] {
                assert(after.sets[x] == after.sets[sids[e] as int]);
            } else {
                assert(after.sets[x] == after.sets[dids[e] as int]);
            }
        }
        if exists|e: int|
            0 <= e < src.values@.len() && (after.sets[x] == after.sets[#[trigger] sids[e] as int]
                || after.sets[x] == after.sets[dids[e] as int]) {
            let e = choose|e: int|
                0 <= e < src.values@.len() && (after.sets[x] == after.sets[#[trigger] sids[e] as int]
                    || after.sets[x] == after.sets[dids[e] as int]);
            assert(kk == ext);
            assert(0 <= e < src.values@.len());
            assert(0 <= key_index(ext, src.values@[e]) < ext.len());
            assert(0 <= key_index(ext, dst.values@[e]) < ext.len());
            if after.sets[x] == after.sets[sids[e] as int] {
                assert(u.sets[x] == u.sets[sids[e] as int]);
            } else {
                assert(u.sets[x] == u.sets[dids[e] as int]);
            }
        }
    }
}

/// Component labels are canonical: the smallest key of a component is one value,
/// whichever labelling describes the partition. So two DSUs that reach the same
/// partition of the same keys, by whatever edges in whatever order, label every
/// key alike.
pub proof fn lemma_labels_canonical(keys: Seq<i128>, a: Seq<int>, b: Seq<int>, i: int, v: i128, w: i128)
    requires
        same_partition(a, b),
        keys.len() == a.len(),
        0 <= i < a.len(),
        is_class_min(keys, a, i, v),
        is_class_min(keys, b, i, w),
    ensures
        v == w,
{
    let jv = choose|j: int| 0 <= j < a.len() && a[j] == a[i] && #[trigger] keys[j] == v;
    let jw = choose|j: int| 0 <= j < b.len() && b[j] == b[i] && #[trigger] keys[j] == w;
    assert(b[jv] == b[i]);
    assert(a[jw] == a[i]);
    assert(w <= keys[jv]);
    assert(v <= keys[jw]);
}

/// A copy of `keys`.
pub(crate) fn copy_keys(keys: &Vec<i128>) -> (out: Vec<i128>)
    ensures
        out@ == keys@,
{
    let mut out: Vec<i128> = Vec::new();
    let mut i: usize = 0;
    while i < keys.len()
        invariant
            i <= keys@.len(),
            out@ == keys@.take(i as int),
        decreases keys@.len() - i,
    {
        out.push(keys[i]);
        i = i + 1;
        proof {
            assert(out@ =~= keys@.take(i as int));
        }
    }
    proof {
        assert(keys@.take(i as int) =~= keys@);
    }
    out
}

/// The smallest key of each node's component, where `roots` names for each node a
/// member of its component that names itself.
fn minimum_labels(keys: &Vec<i128>, roots: &Vec<u32>, Ghost(sets): Ghost<Seq<int>>) -> (labels:
    Vec<i128>)
    requires
        roots@.len() == keys@.len(),
        sets.len() == keys@.len(),
        forall|i: int| 0 <= i < roots@.len() ==> #[trigger] roots@[i] as int == sets[i],
        forall|i: int|
            0 <= i < roots@.len() ==> (#[trigger] roots@[i] as int) < roots@.len() && roots@[roots@[i] as int]
                == roots@[i],
    ensures
        labels@.len() == keys@.len(),
        forall|i: int|
            0 <= i < labels@.len() ==> is_class_min(keys@, sets, i, #[trigger] labels@[i]),
{
    let n = keys.len();
    let mut mins = copy_keys(keys);
    let mut i: usize = 0;
    while i < n
        invariant
            n == keys@.len(),
            n == roots@.len(),
            n == sets.len(),
            i <= n,
            mins@.len() == n,
            forall|k: int| 0 <= k < n ==> #[trigger] roots@[k] as int == sets[k],
            forall|k: int|
                0 <= k < n ==> (#[trigger] roots@[k] as int) < n && roots@[roots@[k] as int]
                    == roots@[k],
            forall|r: int|
                0 <= r < n && sets[r] == r ==> {
                    &&& exists|j: int| 0 <= j < n && sets[j] == r && #[trigger] keys@[j] == mins@[r]
                    &&& mins@[r] <= keys@[r]
                    &&& forall|j: int| 0 <= j < i && sets[j] == r ==> mins@[r] <= #[trigger] keys@[j]
                },
        decreases n - i,
    {
        let r = roots[i] as usize;
        if keys[i] < mins[r] {
            mins.set(r, keys[i]);
            proof {
                assert(sets[i as int] == r);
                assert(sets[r as int] == r);
            }
        }
        i = i + 1;
    }
    let mut labels: Vec<i128> = Vec::new();
    let mut i: usize = 0;
    while i < n
        invariant
            n == keys@.len(),
            n == roots@.len(),
            n == sets.len(),
            i <= n,
            mins@.len() == n,
            labels@.len() == i,
            forall|k: int| 0 <= k < n ==> #[trigger] roots@[k] as int == sets[k],
            forall|k: int|
                0 <= k < n ==> (#[trigger] roots@[k] as int) < n && roots@[roots@[k] as int]
                    == roots@[k],
            forall|r: int|
                0 <= r < n && sets[r] == r ==> {
                    &&& exists|j: int| 0 <= j < n && sets[j] == r && #[trigger] keys@[j] == mins@[r]
                    &&& forall|j: int| 0 <= j < n && sets[j] == r ==> mins@[r] <= #[trigger] keys@[j]
                },
            forall|k: int| 0 <= k < i ==> is_class_min(keys@, sets, k, #[trigger] labels@[k]),
        decreases n - i,
    {
        let r = roots[i] as usize;
        proof {
            assert(sets[r as int] == r);
        }
        labels.push(mins[r]);
        i = i + 1;
    }
    labels
}

/// After the edges, a touched id shares its component exactly with the touched ids
/// whose roots' numbers share a tree of the renumbered forest `pv`.
proof fn lemma_touched_classes(
    base: Seq<int>,
    c: Map<u32, u32>,
    sids: Seq<u32>,
    dids: Seq<u32>,
    pv: Seq<int>,
)
    requires
        canonical(base),
        compact_wf(c, base),
        base.len() < 0x1_0000_0000,
        sids.len() == dids.len(),
        forall|e: int|
            0 <= e < sids.len() ==> (#[trigger] sids[e] as int) < base.len() && (dids[e] as int)
                < base.len() && c.contains_key(base[sids[e] as int] as u32) && c.contains_key(
                base[dids[e] as int] as u32,
            ),
        pv.len() == c.len(),
        same_partition(
            pv,
            merge_all(
                Seq::new(c.len(), |i: int| i),
                renumbered(base, c, sids),
                renumbered(base, c, dids),
                sids.len(),
            ),
        ),
    ensures
        merge_all(base, sids, dids, sids.len()).len() == base.len(),
        forall|x: int, y: int|
            #![trigger merge_all(base, sids, dids, sids.len())[x], merge_all(base, sids, dids, sids.len())[y]]
            0 <= x < base.len() && 0 <= y < base.len() && c.contains_key(base[x] as u32) ==> (
            merge_all(base, sids, dids, sids.len())[x] == merge_all(base, sids, dids, sids.len())[y]
                <==> (c.contains_key(base[y] as u32) && pv[c[base[x] as u32] as int]
                == pv[c[base[y] as u32] as int])),
{
    let idm = Seq::new(c.len(), |i: int| i);
    let cs = renumbered(base, c, sids);
    let cd = renumbered(base, c, dids);
    let q = merge_all(idm, cs, cd, sids.len());
    let merged = merge_all(base, sids, dids, sids.len());
    assert forall|e: int| 0 <= e < sids.len() implies (#[trigger] cs[e] as int) < idm.len() && (
    cd[e] as int) < idm.len() by {
        assert(c.contains_key(base[sids[e] as int] as u32));
        assert(c.contains_key(base[dids[e] as int] as u32));
    }
    lemma_merge_all_range(idm, cs, cd, sids.len(), c.len() as int);
    lemma_merge_all_len(idm, cs, cd, sids.len());
    lemma_merge_all_len(base, sids, dids, sids.len());
    lemma_pullback(base, c, sids, dids, sids.len());
    let p = pullback(base, c, q);
    assert forall|x: int, y: int|
        0 <= x < base.len() && 0 <= y < base.len() && c.contains_key(base[x] as u32) implies (
        merged[x] == merged[y] <==> (c.contains_key(base[y] as u32) && pv[c[base[x] as u32] as int]
            == pv[c[base[y] as u32] as int])) by {
        let cx = c[base[x] as u32] as int;
        assert(cx < c.len());
        assert(0 <= q[cx] < c.len());
        assert(merged[x] == merged[y] <==> p[x] == p[y]);
        if c.contains_key(base[y] as u32) {
            let cy = c[base[y] as u32] as int;
            assert(cy < c.len());
            assert(pv[cx] == pv[cy] <==> q[cx] == q[cy]);
        } else {
            assert(p[y] == base[y]);
        }
    }
}

/// The labels of a preview are the smallest keys of the components after the
/// edges.
proof fn lemma_preview_labels(
    base: Seq<int>,
    c: Map<u32, u32>,
    sids: Seq<u32>,
    dids: Seq<u32>,
    pv: Seq<int>,
    ext: Seq<i128>,
    key_ids: Seq<u32>,
    group_ids: Seq<u32>,
    keys_out: Seq<i128>,
    labels: Seq<i128>,
)
    requires
        canonical(base),
        compact_wf(c, base),
        base.len() < 0x1_0000_0000,
        ext.len() == base.len(),
        sids.len() == dids.len(),
        forall|e: int|
            0 <= e < sids.len() ==> (#[trigger] sids[e] as int) < base.len() && (dids[e] as int)
                < base.len() && c.contains_key(base[sids[e] as int] as u32) && c.contains_key(
                base[dids[e] as int] as u32,
            ),
        forall|x: int|
            0 <= x < base.len() ==> (touched(base, sids, dids, x) <==> c.contains_key(
                #[trigger] base[x] as u32,
            )),
        pv.len() == c.len(),
        same_partition(
            pv,
            merge_all(
                Seq::new(c.len(), |i: int| i),
                renumbered(base, c, sids),
                renumbered(base, c, dids),
                sids.len(),
            ),
        ),
        ({
            let tids = touched_ids(base, sids, dids, base.len());
            &&& key_ids.len() == tids.len()
            &&& group_ids.len() == tids.len()
            &&& keys_out.len() == tids.len()
            &&& labels.len() == tids.len()
            &&& forall|t: int| 0 <= t < tids.len() ==> #[trigger] key_ids[t] as int == tids[t]
            &&& forall|t: int|
                0 <= t < tids.len() ==> #[trigger] group_ids[t] as int == pv[c[base[key_ids[t] as int] as u32] as int]
            &&& forall|t: int| 0 <= t < tids.len() ==> #[trigger] keys_out[t] == ext[tids[t]]
        }),
        forall|t: int| 0 <= t < keys_out.len() ==> group_has(keys_out, group_ids, group_ids[t], #[trigger] labels[t]),
        forall|t: int, u: int|
            0 <= t < keys_out.len() && 0 <= u < keys_out.len() && group_ids[u] == group_ids[t]
                ==> #[trigger] labels[t] <= #[trigger] keys_out[u],
    ensures
        forall|i: int|
            0 <= i < touched_ids(base, sids, dids, base.len()).len() ==> is_class_min(
                ext,
                merge_all(base, sids, dids, sids.len()),
                touched_ids(base, sids, dids, base.len())[i],
                #[trigger] labels[i],
            ),
{
    let n = base.len();
    let merged = merge_all(base, sids, dids, sids.len());
    let tids = touched_ids(base, sids, dids, n);
    lemma_touched_classes(base, c, sids, dids, pv);
    lemma_touched_ids(base, sids, dids, n);
    assert forall|i: int| 0 <= i < tids.len() implies is_class_min(
        ext,
        merged,
        tids[i],
        #[trigger] labels[i],
    ) by {
        let x = tids[i];
        assert(key_ids[i] as int == x);
        assert(c.contains_key(base[x] as u32));
        assert(group_has(keys_out, group_ids, group_ids[i], labels[i]));
        let t2 = choose|t2: int|
            0 <= t2 < keys_out.len() && group_ids[t2] == group_ids[i] && #[trigger] keys_out[t2]
                == labels[i];
        let y = tids[t2];
        assert(key_ids[t2] as int == y);
        assert(c.contains_key(base[y] as u32));
        assert(merged[x] == merged[y]);
        assert(keys_out[t2] == ext[y]);
        assert forall|j: int| 0 <= j < merged.len() && merged[j] == merged[x] implies labels[i]
            <= #[trigger] ext[j] by {
            assert(c.contains_key(base[j] as u32));
            let t3 = choose|t3: int| 0 <= t3 < tids.len() && #[trigger] tids[t3] == j;
            assert(key_ids[t3] as int == j);
            assert(group_ids[t3] == group_ids[i]);
            assert(keys_out[t3] == ext[j]);
        }
    }
}

/// Some key of group `g` is `v`.
pub open spec fn group_has(keys: Seq<i128>, groups: Seq<u32>, g: u32, v: i128) -> bool {
    exists|u: int| 0 <= u < keys.len() && groups[u] == g && #[trigger] keys[u] == v
}

/// The smallest key of each key's group.
fn group_minimums(keys: &Vec<i128>, groups: &Vec<u32>, n_groups: usize) -> (labels: Vec<i128>)
    requires
        keys@.len() == groups@.len(),
        forall|t: int| 0 <= t < groups@.len() ==> (#[trigger] groups@[t] as int) < n_groups,
    ensures
        labels@.len() == keys@.len(),
        forall|t: int| 0 <= t < keys@.len() ==> group_has(keys@, groups@, groups@[t], #[trigger] labels@[t]),
        forall|t: int, u: int|
            0 <= t < keys@.len() && 0 <= u < keys@.len() && groups@[u] == groups@[t] ==> #[trigger] labels@[t]
                <= #[trigger] keys@[u],
{
    let n = keys.len();
    let mut best: Vec<i128> = Vec::new();
    let mut seen: Vec<bool> = Vec::new();
    let mut g: usize = 0;
    while g < n_groups
        invariant
            g <= n_groups,
            best@.len() == g,
            seen@.len() == g,
            forall|h: int| 0 <= h < g ==> !#[trigger] seen@[h],
        decreases n_groups - g,
    {
        best.push(0);
        seen.push(false);
        g = g + 1;
    }
    let mut t: usize = 0;
    while t < n
        invariant
            n == keys@.len(),
            n == groups@.len(),
            t <= n,
            best@.len() == n_groups,
            seen@.len() == n_groups,
            forall|u: int| 0 <= u < groups@.len() ==> (#[trigger] groups@[u] as int) < n_groups,
            forall|h: int|
                0 <= h < n_groups && #[trigger] seen@[h] ==> exists|u: int|
                    0 <= u < t && groups@[u] == h && #[trigger] keys@[u] == best@[h],
            forall|u: int| 0 <= u < t ==> #[trigger] seen@[groups@[u] as int],
            forall|u: int|
                0 <= u < t ==> best@[groups@[u] as int] <= #[trigger] keys@[u],
        decreases n - t,
    {
        let h = groups[t] as usize;
        if !seen[h] || keys[t] < best[h] {
            best.set(h, keys[t]);
            seen.set(h, true);
            proof {
                assert(keys@[t as int] == best@[h as int]);
            }
        }
        t = t + 1;
    }
    let mut labels: Vec<i128> = Vec::new();
    let mut t: usize = 0;
    while t < n
        invariant
            n == keys@.len(),
            n == groups@.len(),
            t <= n,
            best@.len() == n_groups,
            seen@.len() == n_groups,
            labels@.len() == t,
            forall|u: int| 0 <= u < groups@.len() ==> (#[trigger] groups@[u] as int) < n_groups,
            forall|h: int|
                0 <= h < n_groups && #[trigger] seen@[h] ==> exists|u: int|
                    0 <= u < n && groups@[u] == h && #[trigger] keys@[u] == best@[h],
            forall|u: int| 0 <= u < n ==> #[trigger] seen@[groups@[u] as int],
            forall|u: int|
                0 <= u < n ==> best@[groups@[u] as int] <= #[trigger] keys@[u],
            forall|v: int| 0 <= v < t ==> #[trigger] labels@[v] == best@[groups@[v] as int],
            forall|v: int| 0 <= v < t ==> group_has(keys@, groups@, groups@[v], #[trigger] labels@[v]),
        decreases n - t,
    {
        let h = groups[t] as usize;
        labels.push(best[h]);
        proof {
            assert(seen@[h as int]);
            let u = choose|u: int| 0 <= u < n && groups@[u] == h && #[trigger] keys@[u] == best@[h as int];
            assert(labels@[t as int] == keys@[u]);
            assert(group_has(keys@, groups@, groups@[t as int], labels@[t as int]));
        }
        t = t + 1;
    }
    proof {
        assert forall|v: int, u: int|
            0 <= v < n && 0 <= u < n && groups@[u] == groups@[v] implies #[trigger] labels@[v]
                <= #[trigger] keys@[u] by {
            assert(best@[groups@[u] as int] <= keys@[u]);
        }
    }
    labels
}

} // verus!
