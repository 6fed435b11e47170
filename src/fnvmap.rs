//! The hash maps of the session index: fnv's `FnvHashMap`, a std `HashMap`
//! with the Fowler–Noll–Vo hasher, seen as a mathematical map.
use fnv::FnvHashMap;
use std::hash::Hash;
use vstd::prelude::*;
use vstd::std_specs::hash::obeys_key_model;

verus! {

#[verifier::external_type_specification]
#[verifier::external_body]
pub struct ExFnvHasher(fnv::FnvHasher);

#[verifier::external_type_specification]
#[verifier::external_body]
#[verifier::reject_recursive_types(H)]
pub struct ExBuildHasherDefault<H>(std::hash::BuildHasherDefault<H>);

/// Relies on fnv's `FnvHashMap::default`: a new map is empty.
#[verifier::external_body]
pub(crate) fn fnv_new<K, V>() -> (r: FnvHashMap<K, V>)
    ensures
        forall|k: K| !r@.contains_key(k),
{
    FnvHashMap::default()
}

/// Relies on `HashMap::insert` over fnv's deterministic hasher: the key
/// gets the value, and the value it had before comes back.
#[verifier::external_body]
pub(crate) fn fnv_insert<K: Eq + Hash, V>(m: &mut FnvHashMap<K, V>, k: K, v: V) -> (r: Option<V>)
    requires
        obeys_key_model::<K>(),
    ensures
        final(m)@ == old(m)@.insert(k, v),
        match r {
            Some(w) => old(m)@.contains_key(k) && w == old(m)@[k],
            None => !old(m)@.contains_key(k),
        },
{
    m.insert(k, v)
}

/// Relies on `HashMap::get` over fnv's deterministic hasher.
#[verifier::external_body]
pub(crate) fn fnv_get<'a, K: Eq + Hash, V>(m: &'a FnvHashMap<K, V>, k: &K) -> (r: Option<&'a V>)
    requires
        obeys_key_model::<K>(),
    ensures
        match r {
            Some(v) => m@.contains_key(*k) && m@[*k] == *v,
            None => !m@.contains_key(*k),
        },
{
    m.get(k)
}

/// Relies on `HashMap::contains_key` over fnv's deterministic hasher.
#[verifier::external_body]
pub(crate) fn fnv_contains<K: Eq + Hash, V>(m: &FnvHashMap<K, V>, k: &K) -> (r: bool)
    requires
        obeys_key_model::<K>(),
    ensures
        r == m@.contains_key(*k),
{
    m.contains_key(k)
}

/// Relies on `HashMap::clear`: the map is empty afterwards.
#[verifier::external_body]
pub(crate) fn fnv_clear<K, V>(m: &mut FnvHashMap<K, V>)
    ensures
        forall|k: K| !final(m)@.contains_key(k),
{
    m.clear()
}

} // verus!
