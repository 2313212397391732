//! The slab that holds the store's entries, as the rest of the library sees it:
//! a finite map from keys to entries.

use vstd::prelude::*;
use slab::Slab;
use fnv::FnvHashSet;
use crate::term::TermEntry;
use crate::tables::marks_contains;

verus! {

/// `slab::Slab`, whose inside is not looked at.
#[verifier::external_type_specification]
#[verifier::external_body]
#[verifier::reject_recursive_types(T)]
pub struct ExSlab<T>(Slab<T>);

/// The entries that a slab holds, by key: what `Slab::get` finds.
pub uninterp spec fn slab_entries(s: Slab<TermEntry>) -> Map<usize, TermEntry>;

/// `Slab::new`: a slab that holds nothing.
#[verifier::external_body]
pub(crate) fn slab_new() -> (made: Slab<TermEntry>)
    ensures
        forall|key: usize| !slab_entries(made).contains_key(key),
{
    Slab::new()
}

/// `Slab::insert`: the value is stored under a key that was vacant, and every
/// other key keeps its value. Like a push onto a vector, the call fails only
/// where the storage would outgrow the address space.
#[verifier::external_body]
pub(crate) fn slab_insert(s: &mut Slab<TermEntry>, entry: TermEntry) -> (key: usize)
    ensures
        !slab_entries(*old(s)).contains_key(key),
        slab_entries(*final(s)) == slab_entries(*old(s)).insert(key, entry),
{
    s.insert(entry)
}

/// `Slab::get`: the value under the key, if the key is occupied.
#[verifier::external_body]
pub(crate) fn slab_get(s: &Slab<TermEntry>, key: usize) -> (r: Option<TermEntry>)
    ensures
        r == (if slab_entries(*s).contains_key(key) {
            Some(slab_entries(*s)[key])
        } else {
            None
        }),
{
    s.get(key).copied()
}

/// `IndexMut` on an occupied key: the value under the key is replaced.
#[verifier::external_body]
pub(crate) fn slab_set(s: &mut Slab<TermEntry>, key: usize, entry: TermEntry)
    requires
        slab_entries(*old(s)).contains_key(key),
    ensures
        slab_entries(*final(s)) == slab_entries(*old(s)).insert(key, entry),
{
    s[key] = entry;
}

/// Whether a sweep has marked the key.
pub(crate) fn is_marked(marks: &FnvHashSet<usize>, key: usize) -> (found: bool)
    ensures
        found == marks@.contains(key),
{
    marks_contains(marks, key)
}

/// `Slab::retain`, keeping the marked keys: the entries under the other keys
/// are removed, and the kept ones stay under their keys.
#[verifier::external_body]
pub(crate) fn slab_retain(s: &mut Slab<TermEntry>, marks: &FnvHashSet<usize>)
    ensures
        slab_entries(*final(s)) == slab_entries(*old(s)).restrict(marks@),
{
    s.retain(|key, _| is_marked(marks, key));
}

} // verus!
