//! The hash tables of the store, which all hash with FNV-1a: the index from
//! content digests to identities, the table of defined names, and the set of
//! identities that a sweep has reached.

use vstd::prelude::*;
use core::hash::BuildHasherDefault;
use core::hash::Hash;
use core::hash::Hasher;
use fnv::FnvHasher;
use fnv::FnvHashMap;
use fnv::FnvHashSet;

verus! {

/// `fnv::FnvHasher`, whose inside is not looked at.
#[verifier::external_type_specification]
#[verifier::external_body]
pub struct ExFnvHasher(FnvHasher);

/// `core::hash::BuildHasherDefault`, which makes the hashers of the tables.
#[verifier::external_type_specification]
#[verifier::external_body]
#[verifier::reject_recursive_types(H)]
pub struct ExBuildHasherDefault<H>(BuildHasherDefault<H>);

/// The 64-bit FNV-1a hash of a byte string: starting from the offset basis,
/// each byte is xor-ed into the state, which is then multiplied by the FNV
/// prime modulo 2^64.
pub open spec fn fnv1a(bytes: Seq<u8>) -> u64
    decreases bytes.len(),
{
    if bytes.len() == 0 {
        0xcbf29ce484222325u64
    } else {
        let state = fnv1a(bytes.drop_last()) ^ (bytes.last() as u64);
        ((state * 0x100000001b3) % 0x1_0000_0000_0000_0000) as u64
    }
}

/// `FnvHasher::default`, `write` and `finish`: the FNV-1a hash of the bytes.
#[verifier::external_body]
pub(crate) fn fnv1a_digest(bytes: &Vec<u8>) -> (digest: u64)
    ensures
        digest == fnv1a(bytes@),
{
    let mut hasher = FnvHasher::default();
    hasher.write(bytes.as_slice());
    hasher.finish()
}

/// The types that key the tables: numbers and characters, which are equal
/// exactly when they are the same value, and whose hash is a function of the
/// value.
pub(crate) trait TableKey: Eq + Hash + Copy {

}

impl TableKey for u64 {

}

impl TableKey for char {

}

/// `HashMap::get` on a table that hashes with `FnvHasher`: the value stored
/// under the key, if there is one.
#[verifier::external_body]
pub(crate) fn table_get<'a, K: TableKey, V>(table: &'a FnvHashMap<K, V>, key: K) -> (value: Option<
    &'a V,
>)
    ensures
        value is Some <==> table@.contains_key(key),
        value is Some ==> *value->0 == table@[key],
{
    table.get(&key)
}

/// `HashMap::remove` on such a table: the value under the key is taken out
/// and handed over; what is stored under other keys stays.
#[verifier::external_body]
pub(crate) fn table_remove<K: TableKey, V>(table: &mut FnvHashMap<K, V>, key: K) -> (value: Option<
    V,
>)
    ensures
        final(table)@ == old(table)@.remove(key),
        value is Some <==> old(table)@.contains_key(key),
        value is Some ==> value->0 == old(table)@[key],
{
    table.remove(&key)
}

/// `HashMap::insert` on such a table: the value is stored under the key, in
/// place of the one that was there; what is stored under other keys stays.
#[verifier::external_body]
pub(crate) fn table_insert<K: TableKey, V>(table: &mut FnvHashMap<K, V>, key: K, value: V)
    ensures
        final(table)@ == old(table)@.insert(key, value),
{
    table.insert(key, value);
}

/// `HashMap::values` on such a table: the stored values, each at least once,
/// in no stated order.
#[verifier::external_body]
pub(crate) fn table_values<K: TableKey, V: Copy>(table: &FnvHashMap<K, V>) -> (values: Vec<V>)
    ensures
        forall|value: V| values@.contains(value) <==> table@.values().contains(value),
{
    table.values().copied().collect()
}

/// `HashSet::insert` on a set that hashes with `FnvHasher`: the key joins
/// the set.
#[verifier::external_body]
pub(crate) fn marks_insert(marks: &mut FnvHashSet<usize>, key: usize)
    ensures
        final(marks)@ == old(marks)@.insert(key),
{
    marks.insert(key);
}

/// `HashSet::contains` on such a set: whether the key is in the set.
#[verifier::external_body]
pub(crate) fn marks_contains(marks: &FnvHashSet<usize>, key: usize) -> (found: bool)
    ensures
        found == marks@.contains(key),
{
    marks.contains(&key)
}

} // verus!
