//! Key arrays and the typed key interner of the DSU.

use vstd::prelude::*;

use crate::dsu_core::CoreError;
use crate::dtype::DTypeKind;
use crate::maps::{ahash_i128_entries, ahash_i128_get, ahash_i128_insert, ahash_i128_new};

verus! {

/// The most distinct keys that can be interned: ids are `u32`.
pub const MAX_KEYS: u32 = 0xffff_ffff;

/// The data type of a key array: one of the fixed-width integer types, or another
/// type, named, that keys cannot have.
#[derive(Clone, Debug)]
pub enum KeyDataType {
    Integer(DTypeKind),
    Unsupported(String),
}

/// A column of keys: its data type, its values widened to `i128`, and how many of
/// its slots are null.
#[derive(Clone, Debug)]
pub struct KeyArray {
    pub data_type: KeyDataType,
    pub values: Vec<i128>,
    pub null_count: usize,
}

/// The key type that an array of data type `dt` fixes, given the key type `kt`
/// fixed so far, or the error that the array raises.
pub open spec fn checked_type(kt: Option<DTypeKind>, dt: KeyDataType) -> Result<
    DTypeKind,
    CoreError,
> {
    match dt {
        KeyDataType::Unsupported(name) => Err(CoreError::UnsupportedType(name)),
        KeyDataType::Integer(t) => match kt {
            Some(e) => if e == t {
                Ok(t)
            } else {
                Err(CoreError::KeyTypeMismatch { expected: e, got: t })
            },
            None => Ok(t),
        },
    }
}

/// Interning one value: it is appended when it is new and there is room for it.
pub open spec fn intern_step(keys: Seq<i128>, v: i128) -> Seq<i128> {
    if keys.contains(v) || keys.len() >= MAX_KEYS {
        keys
    } else {
        keys.push(v)
    }
}

/// The keys after interning `vals`, in order, into `keys`.
pub open spec fn interned(keys: Seq<i128>, vals: Seq<i128>) -> Seq<i128>
    decreases vals.len(),
{
    if vals.len() == 0 {
        keys
    } else {
        intern_step(interned(keys, vals.drop_last()), vals.last())
    }
}

/// Every value of `vals` is among `keys`.
pub open spec fn all_interned(keys: Seq<i128>, vals: Seq<i128>) -> bool {
    forall|i: int| 0 <= i < vals.len() ==> keys.contains(#[trigger] vals[i])
}

/// The position of `v` in `keys`.
pub open spec fn key_index(keys: Seq<i128>, v: i128) -> int {
    choose|j: int| 0 <= j < keys.len() && keys[j] == v
}

/// The ids of `vals` among `keys`.
pub open spec fn ids_of(keys: Seq<i128>, vals: Seq<i128>) -> Seq<u32> {
    Seq::new(vals.len(), |i: int| key_index(keys, vals[i]) as u32)
}

/// What interning the array `a` gives, from key type `kt` and keys `keys`: the key
/// type and keys afterwards, and the ids of the array's values or the error.
pub open spec fn intern_outcome(kt: Option<DTypeKind>, keys: Seq<i128>, a: KeyArray) -> (
    Option<DTypeKind>,
    Seq<i128>,
    Result<Seq<u32>, CoreError>,
) {
    match checked_type(kt, a.data_type) {
        Err(e) => (kt, keys, Err(e)),
        Ok(t) => {
            let k2 = interned(keys, a.values@);
            (
                Some(t),
                k2,
                if all_interned(k2, a.values@) {
                    Ok(ids_of(k2, a.values@))
                } else {
                    Err(CoreError::TooManyKeys)
                },
            )
        },
    }
}

/// The key type that an array of data type `dt` fixes, given the key type `kt`
/// fixed so far, or the error that the array raises.
pub fn type_for(kt: Option<DTypeKind>, dt: &KeyDataType) -> (r: Result<DTypeKind, CoreError>)
    ensures
        r == checked_type(kt, *dt),
{
    match dt {
        KeyDataType::Unsupported(name) => Err(CoreError::UnsupportedType(name.clone())),
        KeyDataType::Integer(t) => match kt {
            Some(e) => {
                if e != *t {
                    Err(CoreError::KeyTypeMismatch { expected: e, got: *t })
                } else {
                    Ok(*t)
                }
            },
            None => Ok(*t),
        },
    }
}

/// What previewing the edges `src -> dst` against key type `kt` and keys `keys`
/// gives: the ids of both arrays among the keys extended with the pending new keys,
/// and those pending keys; or the error.
pub open spec fn preview_ids_outcome(
    kt: Option<DTypeKind>,
    keys: Seq<i128>,
    src: KeyArray,
    dst: KeyArray,
) -> Result<(Seq<u32>, Seq<u32>, Seq<i128>), CoreError> {
    match checked_type(kt, src.data_type) {
        Err(e) => Err(e),
        Ok(t) => match checked_type(Some(t), dst.data_type) {
            Err(e) => Err(e),
            Ok(_) => {
                let ext = interned(interned(keys, src.values@), dst.values@);
                if all_interned(ext, src.values@) && all_interned(ext, dst.values@) {
                    Ok(
                        (
                            ids_of(ext, src.values@),
                            ids_of(ext, dst.values@),
                            ext.subrange(keys.len() as int, ext.len() as int),
                        ),
                    )
                } else {
                    Err(CoreError::TooManyKeys)
                }
            },
        },
    }
}

/// Interning into full keys changes nothing.
pub proof fn lemma_interned_noop(keys: Seq<i128>, vals: Seq<i128>)
    requires
        keys.len() >= MAX_KEYS,
    ensures
        interned(keys, vals) == keys,
    decreases vals.len(),
{
    if vals.len() > 0 {
        lemma_interned_noop(keys, vals.drop_last());
    }
}

/// When some value was not interned, the keys are full.
pub proof fn lemma_not_interned_full(keys: Seq<i128>, vals: Seq<i128>)
    requires
        !all_interned(interned(keys, vals), vals),
    ensures
        interned(keys, vals).len() >= MAX_KEYS,
    decreases vals.len(),
{
    let k = interned(keys, vals);
    let i = choose|i: int| 0 <= i < vals.len() && !k.contains(#[trigger] vals[i]);
    let prev = interned(keys, vals.drop_last());
    let v = vals.last();
    if i == vals.len() - 1 {
        if !prev.contains(v) && prev.len() < MAX_KEYS {
            assert(k[prev.len() as int] == v);
        }
    } else {
        assert(vals.drop_last()[i] == vals[i]);
        if prev.contains(vals[i]) {
            let j = choose|j: int| 0 <= j < prev.len() && prev[j] == vals[i];
            if !prev.contains(v) && prev.len() < MAX_KEYS {
                assert(k[j] == vals[i]);
            }
        } else {
            lemma_not_interned_full(keys, vals.drop_last());
        }
    }
}

/// Ids of interned values are ids.
pub proof fn lemma_ids_in_range(keys: Seq<i128>, vals: Seq<i128>)
    requires
        all_interned(keys, vals),
    ensures
        forall|i: int|
            0 <= i < vals.len() ==> 0 <= #[trigger] key_index(keys, vals[i]) < keys.len()
                && keys[key_index(keys, vals[i])] == vals[i],
{
    assert forall|i: int| 0 <= i < vals.len() implies 0 <= #[trigger] key_index(keys, vals[i])
        < keys.len() && keys[key_index(keys, vals[i])] == vals[i] by {
        assert(keys.contains(vals[i]));
    }
}

/// The ids of interned values do not change when more keys are appended.
pub proof fn lemma_ids_stable(keys: Seq<i128>, more: Seq<i128>, vals: Seq<i128>)
    requires
        all_interned(keys, vals),
        keys.len() <= more.len(),
        more.subrange(0, keys.len() as int) == keys,
        more.no_duplicates(),
    ensures
        forall|i: int|
            0 <= i < vals.len() ==> #[trigger] key_index(more, vals[i]) == key_index(keys, vals[i]),
{
    lemma_ids_in_range(keys, vals);
    assert forall|i: int| 0 <= i < vals.len() implies #[trigger] key_index(more, vals[i])
        == key_index(keys, vals[i]) by {
        let j = key_index(keys, vals[i]);
        assert(more[j] == keys[j]);
        lemma_key_index(more, j);
    }
}

pub proof fn lemma_key_index(keys: Seq<i128>, j: int)
    requires
        keys.no_duplicates(),
        0 <= j < keys.len(),
    ensures
        key_index(keys, keys[j]) == j,
{
    let v = keys[j];
    assert(0 <= j < keys.len() && keys[j] == v);
    let k = key_index(keys, v);
    assert(0 <= k < keys.len() && keys[k] == v);
}

/// Interning only appends: the earlier keys keep their positions.
pub proof fn lemma_interned_extends(keys: Seq<i128>, vals: Seq<i128>)
    ensures
        keys.len() <= interned(keys, vals).len(),
        interned(keys, vals).subrange(0, keys.len() as int) == keys,
        keys.len() <= MAX_KEYS ==> interned(keys, vals).len() <= MAX_KEYS,
        keys.no_duplicates() ==> interned(keys, vals).no_duplicates(),
    decreases vals.len(),
{
    if vals.len() > 0 {
        lemma_interned_extends(keys, vals.drop_last());
        let k = interned(keys, vals.drop_last());
        assert(k.push(vals.last()).subrange(0, keys.len() as int) =~= k.subrange(
            0,
            keys.len() as int,
        ));
    }
}

/// Once the keys are full, interning more values changes nothing.
proof fn lemma_interned_full(keys: Seq<i128>, vals: Seq<i128>, i: int)
    requires
        0 <= i <= vals.len(),
        interned(keys, vals.take(i)).len() >= MAX_KEYS,
    ensures
        interned(keys, vals) == interned(keys, vals.take(i)),
    decreases vals.len() - i,
{
    if i < vals.len() {
        assert(vals.take(i + 1).drop_last() =~= vals.take(i));
        lemma_interned_full(keys, vals, i + 1);
    } else {
        assert(vals.take(i) =~= vals);
    }
}

/// A table of the keys seen so far, each with its dense id, and the key type that
/// the first array fixed.
pub struct KeyInterner {
    key_type: Option<DTypeKind>,
    ids: ahash::AHashMap<i128, u32>,
    keys: Vec<i128>,
}

/// The new keys that a preview would intern after the interned ones, each with the
/// id it would get.
pub struct PendingKeys {
    ids: ahash::AHashMap<i128, u32>,
    keys: Vec<i128>,
}

impl KeyInterner {
    /// The key type fixed so far.
    pub closed spec fn fixed_type(&self) -> Option<DTypeKind> {
        self.key_type
    }

    /// The keys, indexed by id.
    pub closed spec fn key_seq(&self) -> Seq<i128> {
        self.keys@
    }

    pub closed spec fn wf(&self) -> bool {
        let m = ahash_i128_entries(self.ids);
        &&& self.keys@.no_duplicates()
        &&& self.keys@.len() <= MAX_KEYS
        &&& forall|k: i128| m.contains_key(k) <==> self.keys@.contains(k)
        &&& forall|j: int| 0 <= j < self.keys@.len() ==> m[#[trigger] self.keys@[j]] == j
    }

    pub proof fn lemma_wf(&self)
        requires
            self.wf(),
        ensures
            self.key_seq().no_duplicates(),
            self.key_seq().len() <= MAX_KEYS,
    {
    }

    pub fn new() -> (r: Self)
        ensures
            r.wf(),
            r.fixed_type() == None::<DTypeKind>,
            r.key_seq() == Seq::<i128>::empty(),
    {
        KeyInterner { key_type: None, ids: ahash_i128_new(), keys: Vec::new() }
    }

    pub fn len(&self) -> (n: usize)
        ensures
            n == self.key_seq().len(),
    {
        self.keys.len()
    }

    pub fn key_type(&self) -> (t: Option<DTypeKind>)
        ensures
            t == self.fixed_type(),
    {
        self.key_type
    }

    /// The id of `key`, if it has one.
    pub fn lookup(&self, key: i128) -> (id: Option<u32>)
        requires
            self.wf(),
        ensures
            id == (if self.key_seq().contains(key) {
                Some(key_index(self.key_seq(), key) as u32)
            } else {
                None::<u32>
            }),
    {
        let r = ahash_i128_get(&self.ids, key);
        proof {
            if let Some(id) = r {
                lemma_key_index(self.keys@, id as int);
            }
        }
        r
    }

    /// The key of `id`.
    pub fn decode(&self, id: u32) -> (key: i128)
        requires
            (id as int) < self.key_seq().len(),
        ensures
            key == self.key_seq()[id as int],
    {
        self.keys[id as usize]
    }

    /// All keys, indexed by id.
    pub fn keys(&self) -> (keys: &Vec<i128>)
        ensures
            keys@ == self.key_seq(),
    {
        &self.keys
    }

    /// Intern one value; `None` when it is new and the table is full.
    fn intern_one(&mut self, v: i128) -> (id: Option<u32>)
        requires
            old(self).wf(),
        ensures
            final(self).wf(),
            final(self).key_type == old(self).key_type,
            final(self).keys@ == intern_step(old(self).keys@, v),
            id is Some <==> final(self).keys@.contains(v),
            id matches Some(i) ==> (i as int) < final(self).keys@.len() && final(self).keys@[i as int]
                == v,
    {
        if let Some(id) = ahash_i128_get(&self.ids, v) {
            return Some(id);
        }
        if self.keys.len() >= MAX_KEYS as usize {
            return None;
        }
        let id = self.keys.len() as u32;
        let ghost prev = self.keys@;
        self.keys.push(v);
        ahash_i128_insert(&mut self.ids, v, id);
        proof {
            let m = ahash_i128_entries(self.ids);
            assert(!prev.contains(v));
            assert(self.keys@[prev.len() as int] == v);
            assert forall|j: int| 0 <= j < self.keys@.len() implies m[#[trigger] self.keys@[j]]
                == j by {
                if j < prev.len() {
                    assert(prev[j] != v);
                }
            }
            assert forall|k: i128| m.contains_key(k) <==> self.keys@.contains(k) by {
                if prev.contains(k) {
                    let j = choose|j: int| 0 <= j < prev.len() && prev[j] == k;
                    assert(self.keys@[j] == k);
                }
                if self.keys@.contains(k) && k != v {
                    let j = choose|j: int| 0 <= j < self.keys@.len() && self.keys@[j] == k;
                    assert(prev[j] == k);
                }
            }
        }
        Some(id)
    }

    /// Intern `values` in order, stopping at the first one that does not fit.
    fn intern_values(&mut self, values: &Vec<i128>) -> (r: Result<Vec<u32>, CoreError>)
        requires
            old(self).wf(),
        ensures
            final(self).wf(),
            final(self).key_type == old(self).key_type,
            final(self).keys@ == interned(old(self).keys@, values@),
            match r {
                Ok(ids) => all_interned(final(self).keys@, values@) && ids@ == ids_of(
                    final(self).keys@,
                    values@,
                ),
                Err(e) => !all_interned(final(self).keys@, values@) && e == CoreError::TooManyKeys,
            },
    {
        let ghost start = self.keys@;
        let n = values.len();
        let mut ids: Vec<u32> = Vec::new();
        let mut i: usize = 0;
        proof {
            assert(values@.take(0) =~= Seq::<i128>::empty());
        }
        while i < n
            invariant
                self.wf(),
                self.key_type == old(self).key_type,
                start == old(self).keys@,
                n == values@.len(),
                i <= n,
                self.keys@ == interned(start, values@.take(i as int)),
                ids@.len() == i,
                forall|k: int|
                    0 <= k < i ==> (#[trigger] ids@[k] as int) < self.keys@.len()
                        && self.keys@[ids@[k] as int] == values@[k],
            decreases n - i,
        {
            let ghost before = self.keys@;
            proof {
                assert(values@.take(i + 1).drop_last() =~= values@.take(i as int));
            }
            match self.intern_one(values[i]) {
                Some(id) => {
                    ids.push(id);
                    proof {
                        lemma_interned_extends(before, seq![values@[i as int]]);
                        assert forall|k: int| 0 <= k < i + 1 implies (#[trigger] ids@[k] as int)
                            < self.keys@.len() && self.keys@[ids@[k] as int] == values@[k] by {
                            if k < i {
                                assert(self.keys@.subrange(0, before.len() as int) == before);
                                assert(self.keys@[ids@[k] as int] == before[ids@[k] as int]);
                            }
                        }
                    }
                },
                None => {
                    proof {
                        let v = values@[i as int];
                        if !before.contains(v) && before.len() < MAX_KEYS {
                            assert(before.push(v)[before.len() as int] == v);
                        }
                        assert(before.len() >= MAX_KEYS);
                        lemma_interned_full(start, values@, i as int);
                        assert(!self.keys@.contains(values@[i as int]));
                    }
                    return Err(CoreError::TooManyKeys);
                },
            }
            i = i + 1;
        }
        proof {
            assert(values@.take(n as int) =~= values@);
            assert forall|k: int| 0 <= k < n implies #[trigger] ids@[k] == key_index(
                self.keys@,
                values@[k],
            ) as u32 by {
                lemma_key_index(self.keys@, ids@[k] as int);
            }
            assert(ids@ =~= ids_of(self.keys@, values@));
            assert forall|k: int| 0 <= k < n implies self.keys@.contains(#[trigger] values@[k]) by {
                assert(self.keys@[ids@[k] as int] == values@[k]);
            }
        }
        Ok(ids)
    }

    /// Check the data type of an array against the key type, fixing the key type
    /// when it is the first.
    fn check_type(&mut self, dt: &KeyDataType) -> (r: Result<DTypeKind, CoreError>)
        ensures
            r == checked_type(old(self).key_type, *dt),
            final(self).key_type == (if r is Ok {
                Some(r->Ok_0)
            } else {
                old(self).key_type
            }),
            final(self).keys == old(self).keys,
            final(self).ids == old(self).ids,
    {
        let r = type_for(self.key_type, dt);
        if let Ok(t) = r {
            self.key_type = Some(t);
        }
        r
    }

    /// Intern all values of `array`, whose data type must be the key type fixed so
    /// far, or fixes it.
    pub fn intern_array(&mut self, array: &KeyArray) -> (r: Result<Vec<u32>, CoreError>)
        requires
            old(self).wf(),
        ensures
            final(self).wf(),
            ({
                let (kt, keys, res) = intern_outcome(
                    old(self).fixed_type(),
                    old(self).key_seq(),
                    *array,
                );
                &&& final(self).fixed_type() == kt
                &&& final(self).key_seq() == keys
                &&& match r {
                    Ok(ids) => res == Ok::<Seq<u32>, CoreError>(ids@),
                    Err(e) => res == Err::<Seq<u32>, CoreError>(e),
                }
            }),
    {
        let t = self.check_type(&array.data_type);
        match t {
            Err(e) => Err(e),
            Ok(_) => self.intern_values(&array.values),
        }
    }

    /// `p` extends the keys with new, distinct keys whose ids follow.
    pub closed spec fn pending_wf(&self, p: PendingKeys) -> bool {
        let m = ahash_i128_entries(p.ids);
        let base = self.keys@;
        let pk = p.keys@;
        &&& (base + pk).no_duplicates()
        &&& base.len() + pk.len() <= MAX_KEYS
        &&& forall|k: i128| m.contains_key(k) <==> pk.contains(k)
        &&& forall|j: int| 0 <= j < pk.len() ==> m[#[trigger] pk[j]] == base.len() + j
    }

    /// The keys extended with the pending keys of `p`.
    pub closed spec fn extended(&self, p: PendingKeys) -> Seq<i128> {
        self.keys@ + p.keys@
    }

    /// The id that `v` has, or would get, beyond the keys of `p`; `None` when it is
    /// new and there is no room for it.
    fn preview_one(&self, p: &mut PendingKeys, v: i128) -> (id: Option<u32>)
        requires
            self.wf(),
            self.pending_wf(*old(p)),
        ensures
            self.pending_wf(*final(p)),
            self.extended(*final(p)) == intern_step(self.extended(*old(p)), v),
            id is Some <==> self.extended(*final(p)).contains(v),
            id matches Some(i) ==> (i as int) < self.extended(*final(p)).len() && self.extended(
                *final(p),
            )[i as int] == v,
    {
        let ghost ext0 = self.extended(*p);
        let ghost base = self.keys@;
        if let Some(id) = ahash_i128_get(&self.ids, v) {
            proof {
                assert(ext0[id as int] == v);
            }
            return Some(id);
        }
        if let Some(id) = ahash_i128_get(&p.ids, v) {
            proof {
                assert(self.pending_wf(*p));
                assert(ahash_i128_entries(p.ids).contains_key(v));
                assert(p.keys@.contains(v));
                let j = choose|j: int| 0 <= j < p.keys@.len() && p.keys@[j] == v;
                assert(ext0[base.len() + j] == v);
            }
            return Some(id);
        }
        proof {
            assert(!ahash_i128_entries(self.ids).contains_key(v));
            assert(!base.contains(v));
            assert(!ahash_i128_entries(p.ids).contains_key(v));
            assert(!p.keys@.contains(v));
            assert forall|j: int| 0 <= j < ext0.len() implies ext0[j] != v by {
                if j < base.len() {
                    assert(base[j] == ext0[j]);
                } else {
                    assert(p.keys@[j - base.len()] == ext0[j]);
                }
            }
        }
        if self.keys.len() >= MAX_KEYS as usize - p.keys.len() {
            return None;
        }
        let id = (self.keys.len() + p.keys.len()) as u32;
        let ghost prev = p.keys@;
        p.keys.push(v);
        ahash_i128_insert(&mut p.ids, v, id);
        proof {
            let m = ahash_i128_entries(p.ids);
            let ext = self.extended(*p);
            assert(ext =~= ext0.push(v));
            assert(ext[ext0.len() as int] == v);
            assert(!prev.contains(v));
            assert forall|j: int| 0 <= j < p.keys@.len() implies m[#[trigger] p.keys@[j]]
                == base.len() + j by {
                if j < prev.len() {
                    assert(prev[j] != v);
                }
            }
            assert forall|k: i128| m.contains_key(k) <==> p.keys@.contains(k) by {
                assert(p.keys@[prev.len() as int] == v);
                if prev.contains(k) {
                    let j = choose|j: int| 0 <= j < prev.len() && prev[j] == k;
                    assert(p.keys@[j] == k);
                }
                if p.keys@.contains(k) && k != v {
                    let j = choose|j: int| 0 <= j < p.keys@.len() && p.keys@[j] == k;
                    assert(prev[j] == k);
                }
            }
        }
        Some(id)
    }

    /// The ids that `values` have, or would get, beyond the keys of `p`, stopping at
    /// the first one that does not fit.
    fn preview_values(&self, p: &mut PendingKeys, values: &Vec<i128>) -> (r: Result<
        Vec<u32>,
        CoreError,
    >)
        requires
            self.wf(),
            self.pending_wf(*old(p)),
        ensures
            self.pending_wf(*final(p)),
            self.extended(*final(p)) == interned(self.extended(*old(p)), values@),
            match r {
                Ok(ids) => all_interned(self.extended(*final(p)), values@) && ids@ == ids_of(
                    self.extended(*final(p)),
                    values@,
                ),
                Err(e) => !all_interned(self.extended(*final(p)), values@) && e
                    == CoreError::TooManyKeys,
            },
    {
        let ghost start = self.extended(*p);
        let n = values.len();
        let mut ids: Vec<u32> = Vec::new();
        let mut i: usize = 0;
        proof {
            assert(values@.take(0) =~= Seq::<i128>::empty());
        }
        while i < n
            invariant
                self.wf(),
                self.pending_wf(*p),
                start == self.extended(*old(p)),
                n == values@.len(),
                i <= n,
                self.extended(*p) == interned(start, values@.take(i as int)),
                ids@.len() == i,
                forall|k: int|
                    0 <= k < i ==> (#[trigger] ids@[k] as int) < self.extended(*p).len()
                        && self.extended(*p)[ids@[k] as int] == values@[k],
            decreases n - i,
        {
            let ghost before = self.extended(*p);
            proof {
                assert(values@.take(i + 1).drop_last() =~= values@.take(i as int));
            }
            match self.preview_one(p, values[i]) {
                Some(id) => {
                    ids.push(id);
                    proof {
                        lemma_interned_extends(before, seq![values@[i as int]]);
                        assert forall|k: int| 0 <= k < i + 1 implies (#[trigger] ids@[k] as int)
                            < self.extended(*p).len() && self.extended(*p)[ids@[k] as int]
                            == values@[k] by {
                            if k < i {
                                assert(self.extended(*p).subrange(0, before.len() as int)
                                    == before);
                                assert(self.extended(*p)[ids@[k] as int]
                                    == before[ids@[k] as int]);
                            }
                        }
                    }
                },
                None => {
                    proof {
                        let v = values@[i as int];
                        if !before.contains(v) && before.len() < MAX_KEYS {
                            assert(before.push(v)[before.len() as int] == v);
                        }
                        assert(before.len() >= MAX_KEYS);
                        lemma_interned_full(start, values@, i as int);
                        assert(!self.extended(*p).contains(values@[i as int]));
                    }
                    return Err(CoreError::TooManyKeys);
                },
            }
            i = i + 1;
        }
        proof {
            let ext = self.extended(*p);
            assert(values@.take(n as int) =~= values@);
            assert(ext.no_duplicates());
            assert forall|k: int| 0 <= k < n implies #[trigger] ids@[k] == key_index(
                ext,
                values@[k],
            ) as u32 by {
                lemma_key_index(ext, ids@[k] as int);
            }
            assert(ids@ =~= ids_of(ext, values@));
            assert forall|k: int| 0 <= k < n implies ext.contains(#[trigger] values@[k]) by {
                assert(ext[ids@[k] as int] == values@[k]);
            }
        }
        Ok(ids)
    }

    /// The ids that the edges `src -> dst` would have after interning, and the new
    /// keys they would intern, without interning anything.
    pub fn preview_arrays(&self, src: &KeyArray, dst: &KeyArray) -> (r: Result<
        (Vec<u32>, Vec<u32>, Vec<i128>),
        CoreError,
    >)
        requires
            self.wf(),
        ensures
            match r {
                Ok((s, d, pending)) => preview_ids_outcome(
                    self.fixed_type(),
                    self.key_seq(),
                    *src,
                    *dst,
                ) == Ok::<(Seq<u32>, Seq<u32>, Seq<i128>), CoreError>((s@, d@, pending@)),
                Err(e) => preview_ids_outcome(self.fixed_type(), self.key_seq(), *src, *dst)
                    == Err::<(Seq<u32>, Seq<u32>, Seq<i128>), CoreError>(e),
            },
    {
        let t = match type_for(self.key_type, &src.data_type) {
            Ok(t) => t,
            Err(e) => return Err(e),
        };
        match type_for(Some(t), &dst.data_type) {
            Ok(_) => {},
            Err(e) => return Err(e),
        }
        let mut p = PendingKeys { ids: ahash_i128_new(), keys: Vec::new() };
        let ghost base = self.keys@;
        proof {
            assert(self.extended(p) =~= base);
        }
        let src_ids = match self.preview_values(&mut p, &src.values) {
            Ok(ids) => ids,
            Err(e) => {
                proof {
                    let k1 = self.extended(p);
                    lemma_not_interned_full(base, src.values@);
                    lemma_interned_noop(k1, dst.values@);
                }
                return Err(e);
            },
        };
        let ghost k1 = self.extended(p);
        let dst_ids = match self.preview_values(&mut p, &dst.values) {
            Ok(ids) => ids,
            Err(e) => {
                return Err(e);
            },
        };
        proof {
            let ext = self.extended(p);
            lemma_interned_extends(k1, dst.values@);
            lemma_ids_stable(k1, ext, src.values@);
            assert(ids_of(k1, src.values@) =~= ids_of(ext, src.values@));
            assert forall|i: int| 0 <= i < src.values@.len() implies ext.contains(
                #[trigger] src.values@[i],
            ) by {
                assert(k1.contains(src.values@[i]));
                let j = choose|j: int| 0 <= j < k1.len() && k1[j] == src.values@[i];
                assert(ext[j] == k1[j]);
            }
            assert(ext.subrange(base.len() as int, ext.len() as int) =~= p.keys@);
        }
        Ok((src_ids, dst_ids, p.keys))
    }

    /// The key of `id` beyond the pending keys `pending`.
    pub fn decode_extended(&self, pending: &Vec<i128>, id: u32) -> (key: i128)
        requires
            (id as int) < self.key_seq().len() + pending@.len(),
        ensures
            key == (self.key_seq() + pending@)[id as int],
    {
        if (id as usize) < self.keys.len() {
            self.keys[id as usize]
        } else {
            pending[id as usize - self.keys.len()]
        }
    }

    /// The keys of `ids` beyond the pending keys `pending`.
    pub fn decode_all_extended(&self, pending: &Vec<i128>, ids: &Vec<u32>) -> (keys: Vec<i128>)
        requires
            forall|t: int|
                0 <= t < ids@.len() ==> (#[trigger] ids@[t] as int) < self.key_seq().len()
                    + pending@.len(),
        ensures
            keys@.len() == ids@.len(),
            forall|t: int|
                0 <= t < ids@.len() ==> #[trigger] keys@[t] == (self.key_seq() + pending@)[ids@[t] as int],
    {
        let mut out: Vec<i128> = Vec::new();
        let mut t: usize = 0;
        while t < ids.len()
            invariant
                t <= ids@.len(),
                out@.len() == t,
                forall|u: int|
                    0 <= u < ids@.len() ==> (#[trigger] ids@[u] as int) < self.key_seq().len()
                        + pending@.len(),
                forall|u: int|
                    0 <= u < t ==> #[trigger] out@[u] == (self.key_seq() + pending@)[ids@[u] as int],
            decreases ids@.len() - t,
        {
            out.push(self.decode_extended(pending, ids[t]));
            t = t + 1;
        }
        out
    }
}

} // verus!
