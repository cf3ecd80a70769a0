//! Trusted boundary to `dashmap`. The engine shares its forwarder map and
//! its name lookup with concurrent readers, so both live in `DashMap`s; Verus
//! sees them only through the entry views and the wrappers below.

use vstd::prelude::*;

verus! {

#[verifier::external_type_specification]
#[verifier::external_body]
#[verifier::reject_recursive_types(K)]
#[verifier::reject_recursive_types(V)]
#[verifier::reject_recursive_types(S)]
pub struct ExDashMap<K, V, S>(dashmap::DashMap<K, V, S>);

/// The entries held by a map from type index to type index.
pub uninterp spec fn index_map_entries(m: dashmap::DashMap<u32, u32>) -> Map<u32, u32>;

/// The entries held by a map from type name to type index.
pub uninterp spec fn name_map_entries(m: dashmap::DashMap<String, u32>) -> Map<Seq<char>, u32>;

/// Relies on dashmap::DashMap::new: a fresh map holds no entries.
#[verifier::external_body]
pub fn index_map_new() -> (r: dashmap::DashMap<u32, u32>)
    ensures
        index_map_entries(r) =~= Map::empty(),
{
    dashmap::DashMap::new()
}

/// Relies on dashmap::DashMap::insert: the map then holds `v` under `k`,
/// replacing any earlier entry for `k`.
#[verifier::external_body]
pub fn index_map_insert(m: &mut dashmap::DashMap<u32, u32>, k: u32, v: u32)
    ensures
        index_map_entries(*final(m)) == index_map_entries(*old(m)).insert(k, v),
{
    m.insert(k, v);
}

/// Relies on dashmap::DashMap::get: returns the entry under `k`, if any.
#[verifier::external_body]
pub fn index_map_get(m: &dashmap::DashMap<u32, u32>, k: u32) -> (r: Option<u32>)
    ensures
        r == (if index_map_entries(*m).dom().contains(k) {
            Some(index_map_entries(*m)[k])
        } else {
            None::<u32>
        }),
{
    m.get(&k).map(|v| *v)
}

/// Relies on dashmap::DashMap::new: a fresh map holds no entries.
#[verifier::external_body]
pub fn name_map_new() -> (r: dashmap::DashMap<String, u32>)
    ensures
        name_map_entries(r) =~= Map::empty(),
{
    dashmap::DashMap::new()
}

/// Relies on dashmap::DashMap::insert: the map then holds `v` under `k`,
/// replacing any earlier entry for `k`.
#[verifier::external_body]
pub fn name_map_insert(m: &mut dashmap::DashMap<String, u32>, k: String, v: u32)
    ensures
        name_map_entries(*final(m)) == name_map_entries(*old(m)).insert(k@, v),
{
    m.insert(k, v);
}

/// Relies on dashmap::DashMap::get: returns the entry under `k`, if any.
#[verifier::external_body]
pub fn name_map_get(m: &dashmap::DashMap<String, u32>, k: &str) -> (r: Option<u32>)
    ensures
        r == (if name_map_entries(*m).dom().contains(k@) {
            Some(name_map_entries(*m)[k@])
        } else {
            None::<u32>
        }),
{
    m.get(k).map(|v| *v)
}

} // verus!
