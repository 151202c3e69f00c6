//! Hash tables with a fast hash function.
use vstd::prelude::*;
use vstd::std_specs::hash::obeys_key_model;

verus! {

/// `fxhash::FxHasher`, the hash function of the tables.
#[verifier::external_type_specification]
#[verifier::external_body]
pub struct ExFxHasher(fxhash::FxHasher);

/// `std::hash::BuildHasherDefault`, which makes hashers by their default.
#[verifier::external_type_specification]
#[verifier::external_body]
#[verifier::reject_recursive_types(H)]
pub struct ExBuildHasherDefault<H>(std::hash::BuildHasherDefault<H>);

/// `HashMap::get` on an `fxhash::FxHashMap`: the entry of a key, where there
/// is one. The key's equality and hash are as a table needs them.
#[verifier::external_body]
pub(crate) fn table_get<'a, K: Eq + std::hash::Hash, V>(
    m: &'a fxhash::FxHashMap<K, V>,
    k: &K,
) -> (r: Option<&'a V>)
    requires
        obeys_key_model::<K>(),
    ensures
        match r {
            Some(v) => m@.contains_key(*k) && *v == m@[*k],
            None => !m@.contains_key(*k),
        },
{
    m.get(k)
}

/// `HashMap::remove` on an `fxhash::FxHashMap`: takes the entry of a key out.
#[verifier::external_body]
pub(crate) fn table_remove<K: Eq + std::hash::Hash, V>(
    m: &mut fxhash::FxHashMap<K, V>,
    k: &K,
) -> (r: Option<V>)
    requires
        obeys_key_model::<K>(),
    ensures
        final(m)@ == old(m)@.remove(*k),
        match r {
            Some(v) => old(m)@.contains_key(*k) && v == old(m)@[*k],
            None => !old(m)@.contains_key(*k),
        },
{
    m.remove(k)
}

/// `HashMap::insert` on an `fxhash::FxHashMap`: sets the entry of a key.
#[verifier::external_body]
pub(crate) fn table_insert<K: Eq + std::hash::Hash, V>(
    m: &mut fxhash::FxHashMap<K, V>,
    k: K,
    v: V,
)
    requires
        obeys_key_model::<K>(),
    ensures
        final(m)@ == old(m)@.insert(k, v),
{
    m.insert(k, v);
}

/// `HashMap::keys` on an `fxhash::FxHashMap`: every key once, in no order that
/// could be relied on.
#[verifier::external_body]
pub(crate) fn table_keys<V>(m: &fxhash::FxHashMap<u32, V>) -> (r: Vec<u32>)
    ensures
        r@.no_duplicates(),
        r@.to_set() == m@.dom(),
{
    m.keys().copied().collect()
}

/// `slice::sort_unstable` on 64-bit numbers: the same numbers in ascending
/// order.
#[verifier::external_body]
pub(crate) fn sort_numbers(v: &mut Vec<u64>)
    ensures
        final(v)@.to_multiset() == old(v)@.to_multiset(),
        forall|i: int, j: int| 0 <= i <= j < final(v)@.len() ==> final(v)@[i] <= final(v)@[j],
{
    v.sort_unstable();
}

} // verus!
