//! The hash maps of `ahash` and `hashbrown` that the interners and the preview use.
//!
//! Each map type is declared to Verus as an opaque type. What a map holds is named
//! by a spec function without a body, and each method that the library calls has a
//! wrapper whose contract states, over that name, what the method does.

use vstd::prelude::*;

verus! {

/// `ahash::RandomState`, the default hasher of `ahash::AHashMap`.
#[verifier::external_type_specification]
#[verifier::external_body]
pub struct ExAHashRandomState(ahash::RandomState);

/// `ahash::AHashMap`.
#[verifier::external_type_specification]
#[verifier::external_body]
#[verifier::reject_recursive_types(K)]
#[verifier::reject_recursive_types(V)]
#[verifier::reject_recursive_types(S)]
pub struct ExAHashMap<K, V, S>(ahash::AHashMap<K, V, S>);

/// The entries of an `AHashMap<u32, u32>`.
pub uninterp spec fn ahash_u32_entries(m: ahash::AHashMap<u32, u32>) -> Map<u32, u32>;

/// `AHashMap::new`: an empty map.
#[verifier::external_body]
pub(crate) fn ahash_u32_new() -> (r: ahash::AHashMap<u32, u32>)
    ensures
        ahash_u32_entries(r) == (Map::<u32, u32>::empty()),
{
    ahash::AHashMap::new()
}

/// `AHashMap::get`: the value stored under `k`, if any.
#[verifier::external_body]
pub(crate) fn ahash_u32_get(m: &ahash::AHashMap<u32, u32>, k: u32) -> (r: Option<u32>)
    ensures
        r == (if ahash_u32_entries(*m).contains_key(k) {
            Some(ahash_u32_entries(*m)[k])
        } else {
            None
        }),
{
    m.get(&k).copied()
}

/// `AHashMap::insert`: stores `v` under `k`, replacing any earlier value.
#[verifier::external_body]
pub(crate) fn ahash_u32_insert(m: &mut ahash::AHashMap<u32, u32>, k: u32, v: u32)
    ensures
        ahash_u32_entries(*final(m)) == ahash_u32_entries(*old(m)).insert(k, v),
{
    m.insert(k, v);
}

/// The entries of an `AHashMap<i128, u32>`.
pub uninterp spec fn ahash_i128_entries(m: ahash::AHashMap<i128, u32>) -> Map<i128, u32>;

/// `AHashMap::new`: an empty map.
#[verifier::external_body]
pub(crate) fn ahash_i128_new() -> (r: ahash::AHashMap<i128, u32>)
    ensures
        ahash_i128_entries(r) == (Map::<i128, u32>::empty()),
{
    ahash::AHashMap::new()
}

/// `AHashMap::get`: the value stored under `k`, if any.
#[verifier::external_body]
pub(crate) fn ahash_i128_get(m: &ahash::AHashMap<i128, u32>, k: i128) -> (r: Option<u32>)
    ensures
        r == (if ahash_i128_entries(*m).contains_key(k) {
            Some(ahash_i128_entries(*m)[k])
        } else {
            None
        }),
{
    m.get(&k).copied()
}

/// `AHashMap::insert`: stores `v` under `k`, replacing any earlier value.
#[verifier::external_body]
pub(crate) fn ahash_i128_insert(m: &mut ahash::AHashMap<i128, u32>, k: i128, v: u32)
    ensures
        ahash_i128_entries(*final(m)) == ahash_i128_entries(*old(m)).insert(k, v),
{
    m.insert(k, v);
}

/// A `hashbrown::HashMap<u32, u32>`. Verus refuses to declare the map type itself
/// (its allocator parameter), so the map stands in a private field that Verus
/// does not see.
#[verifier::external_body]
pub struct U32Map {
    map: hashbrown::HashMap<u32, u32>,
}

/// The entries of a `U32Map`.
pub uninterp spec fn u32_map_entries(m: U32Map) -> Map<u32, u32>;

/// `hashbrown::HashMap::new`: an empty map.
#[verifier::external_body]
pub(crate) fn u32_map_new() -> (r: U32Map)
    ensures
        u32_map_entries(r) == (Map::<u32, u32>::empty()),
{
    U32Map { map: hashbrown::HashMap::new() }
}

/// `hashbrown::HashMap::len`: the number of entries.
#[verifier::external_body]
pub(crate) fn u32_map_len(m: &U32Map) -> (r: usize)
    ensures
        r == u32_map_entries(*m).len(),
{
    m.map.len()
}

/// `hashbrown::HashMap::get`: the value stored under `k`, if any.
#[verifier::external_body]
pub(crate) fn u32_map_get(m: &U32Map, k: u32) -> (r: Option<u32>)
    ensures
        r == (if u32_map_entries(*m).contains_key(k) {
            Some(u32_map_entries(*m)[k])
        } else {
            None
        }),
{
    m.map.get(&k).copied()
}

/// `hashbrown::HashMap::entry(k).or_insert(v)`: stores `v` under `k` unless `k`
/// already has a value.
#[verifier::external_body]
pub(crate) fn u32_map_entry_or_insert(m: &mut U32Map, k: u32, v: u32)
    ensures
        u32_map_entries(*final(m)) == (if u32_map_entries(*old(m)).contains_key(k) {
            u32_map_entries(*old(m))
        } else {
            u32_map_entries(*old(m)).insert(k, v)
        }),
{
    m.map.entry(k).or_insert(v);
}

} // verus!
