//! Hash maps and sets with the Fx hasher of `rustc_hash`.
//!
//! `FxHashMap` and `FxHashSet` are the standard collections with another build hasher. Their
//! contents are the views that `vstd` gives to the standard collections; the functions here
//! are the operations on them that the router uses.

use core::hash::Hash;
use rustc_hash::{FxBuildHasher, FxHashMap, FxHashSet};
use vstd::prelude::*;
use vstd::std_specs::hash::obeys_key_model;

verus! {

/// The build hasher of `FxHashMap` and `FxHashSet`.
#[verifier::external_type_specification]
#[verifier::external_body]
pub struct ExFxBuildHasher(FxBuildHasher);

/// `v` holds every member of `s` once and nothing else, in any order.
pub open spec fn lists<K>(v: Seq<K>, s: Set<K>) -> bool {
    &&& v.no_duplicates()
    &&& forall|k: K| v.contains(k) <==> #[trigger] s.contains(k)
}

/// Calls `HashMap::insert` on an `FxHashMap`: afterwards `k` maps to `v` and every other key
/// is as before.
#[verifier::external_body]
pub(crate) fn map_insert<K: Eq + Hash, V>(m: &mut FxHashMap<K, V>, k: K, v: V)
    requires
        obeys_key_model::<K>(),
    ensures
        final(m)@ == old(m)@.insert(k, v),
{
    m.insert(k, v);
}

/// Calls `HashMap::get` on an `FxHashMap`: the value that `k` maps to, or `None`.
#[verifier::external_body]
pub(crate) fn map_get<'a, K: Eq + Hash, V>(m: &'a FxHashMap<K, V>, k: &K) -> (r: Option<&'a V>)
    requires
        obeys_key_model::<K>(),
    ensures
        r == if m@.contains_key(*k) { Some(&m@[*k]) } else { None },
{
    m.get(k)
}

/// Calls `HashMap::contains_key` on an `FxHashMap`.
#[verifier::external_body]
pub(crate) fn map_contains_key<K: Eq + Hash, V>(m: &FxHashMap<K, V>, k: &K) -> (r: bool)
    requires
        obeys_key_model::<K>(),
    ensures
        r == m@.contains_key(*k),
{
    m.contains_key(k)
}

/// Calls `HashMap::keys` on an `FxHashMap` and collects the walk: every key once. The order of
/// the walk is left open.
#[verifier::external_body]
pub(crate) fn map_keys<K: Eq + Hash + Copy, V>(m: &FxHashMap<K, V>) -> (r: Vec<K>)
    requires
        obeys_key_model::<K>(),
    ensures
        lists(r@, m@.dom()),
{
    m.keys().copied().collect()
}

/// Calls `HashSet::insert` on an `FxHashSet`.
#[verifier::external_body]
pub(crate) fn set_insert<K: Eq + Hash>(s: &mut FxHashSet<K>, k: K)
    requires
        obeys_key_model::<K>(),
    ensures
        final(s)@ == old(s)@.insert(k),
{
    s.insert(k);
}

/// Calls `HashSet::contains` on an `FxHashSet`.
#[verifier::external_body]
pub(crate) fn set_contains<K: Eq + Hash>(s: &FxHashSet<K>, k: &K) -> (r: bool)
    requires
        obeys_key_model::<K>(),
    ensures
        r == s@.contains(*k),
{
    s.contains(k)
}

/// Calls `HashSet::drain` on an `FxHashSet` and collects the walk: the set is left empty and
/// every member is handed out once. The order of the walk is left open.
#[verifier::external_body]
pub(crate) fn set_drain<K: Eq + Hash>(s: &mut FxHashSet<K>) -> (r: Vec<K>)
    requires
        obeys_key_model::<K>(),
    ensures
        lists(r@, old(s)@),
        final(s)@ == Set::<K>::empty(),
{
    s.drain().collect()
}

} // verus!
