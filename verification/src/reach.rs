//! Which entries of a store a set of identities reaches: the entries of the
//! identities themselves, and the children of what is reached.

use vstd::prelude::*;
use crate::store::TermBase;
use crate::term::Term;

verus! {

impl TermBase {
    /// Whether `child` is a child of the entry `parent`.
    pub open spec fn is_child(&self, parent: usize, child: usize) -> bool {
        self.live(parent) && match self.term(parent) {
            Term::Ap(l, r) => child == l || child == r,
            Term::Abs(_, b) => child == b,
            _ => false,
        }
    }

    /// Whether the entry after place `i` of the chain is a child of the one
    /// at it.
    pub open spec fn is_link(&self, path: Seq<usize>, i: int) -> bool {
        self.is_child(path[i], path[i + 1])
    }

    /// A chain of entries, each a child of the one before it.
    pub open spec fn is_path(&self, path: Seq<usize>) -> bool {
        &&& path.len() > 0
        &&& self.live(path[0])
        &&& forall|i: int| 0 <= i < path.len() - 1 ==> #[trigger] self.is_link(path, i)
    }

    /// Whether a chain of entries leads from one of the seeds to `key`. A
    /// seed without an entry reaches nothing.
    pub open spec fn reachable(&self, seeds: Set<usize>, key: usize) -> bool {
        exists|path: Seq<usize>|
            #![trigger self.is_path(path)]
            self.is_path(path) && seeds.contains(path[0]) && path.last() == key
    }

    /// The identities that the seeds reach.
    pub open spec fn reached(&self, seeds: Set<usize>) -> Set<usize> {
        Set::new(|key: usize| self.reachable(seeds, key))
    }

    /// A seed that has an entry is reached.
    pub proof fn seed_reachable(&self, seeds: Set<usize>, key: usize)
        requires
            seeds.contains(key),
            self.live(key),
        ensures
            self.reachable(seeds, key),
    {
        let path = seq![key];
        assert(self.is_path(path));
        assert(path.last() == key);
    }

    /// A child of what is reached is reached.
    pub proof fn child_reachable(&self, seeds: Set<usize>, parent: usize, child: usize)
        requires
            self.wf(),
            self.reachable(seeds, parent),
            self.is_child(parent, child),
        ensures
            self.reachable(seeds, child),
    {
        let path = choose|path: Seq<usize>|
            #![trigger self.is_path(path)]
            self.is_path(path) && seeds.contains(path[0]) && path.last() == parent;
        let longer = path.push(child);
        assert forall|i: int| 0 <= i < longer.len() - 1 implies #[trigger] self.is_link(
            longer,
            i,
        ) by {
            if i < path.len() - 1 {
                assert(self.is_link(path, i));
            }
        }
        assert(longer[0] == path[0]);
        assert(self.is_path(longer));
        assert(longer.last() == child);
    }

    /// What is reached has an entry.
    pub proof fn reachable_live(&self, seeds: Set<usize>, key: usize)
        requires
            self.wf(),
            self.reachable(seeds, key),
        ensures
            self.live(key),
    {
        let path = choose|path: Seq<usize>|
            #![trigger self.is_path(path)]
            self.is_path(path) && seeds.contains(path[0]) && path.last() == key;
        if path.len() > 1 {
            let i = path.len() - 2;
            assert(self.is_link(path, i));
            self.tree_of_entry(path[i]);
        }
    }

    /// More seeds reach no less.
    pub proof fn reachable_mono(&self, seeds: Set<usize>, more: Set<usize>, key: usize)
        requires
            self.reachable(seeds, key),
            seeds.subset_of(more),
        ensures
            self.reachable(more, key),
    {
        let path = choose|path: Seq<usize>|
            #![trigger self.is_path(path)]
            self.is_path(path) && seeds.contains(path[0]) && path.last() == key;
        assert(self.is_path(path) && more.contains(path[0]) && path.last() == key);
    }

    /// What is reached in a store is reached in every store that extends it.
    pub proof fn reachable_in_extension(&self, old: &TermBase, seeds: Set<usize>, key: usize)
        requires
            self.extends(old),
            old.reachable(seeds, key),
        ensures
            self.reachable(seeds, key),
    {
        let path = choose|path: Seq<usize>|
            #![trigger old.is_path(path)]
            old.is_path(path) && seeds.contains(path[0]) && path.last() == key;
        assert forall|i: int| 0 <= i < path.len() - 1 implies #[trigger] self.is_link(path, i) by {
            assert(old.is_link(path, i));
            assert(old.live(path[i]));
        }
        assert(old.live(path[0]));
        assert(self.is_path(path));
    }

    /// What is reached from identities that the seeds reach is reached from
    /// the seeds.
    pub proof fn reachable_trans(&self, seeds: Set<usize>, mids: Set<usize>, key: usize)
        requires
            self.reachable(mids, key),
            forall|m: usize| #[trigger] mids.contains(m) && self.live(m) ==> self.reachable(seeds, m),
        ensures
            self.reachable(seeds, key),
    {
        let tail = choose|path: Seq<usize>|
            #![trigger self.is_path(path)]
            self.is_path(path) && mids.contains(path[0]) && path.last() == key;
        assert(mids.contains(tail[0]) && self.live(tail[0]));
        let head = choose|path: Seq<usize>|
            #![trigger self.is_path(path)]
            self.is_path(path) && seeds.contains(path[0]) && path.last() == tail[0];
        let whole = head + tail.subrange(1, tail.len() as int);
        assert forall|i: int| 0 <= i < whole.len() - 1 implies #[trigger] self.is_link(whole, i) by {
            if i < head.len() - 1 {
                assert(self.is_link(head, i));
            } else {
                let j = i - (head.len() - 1);
                assert(self.is_link(tail, j));
                assert(whole[i] == tail[j]);
                assert(whole[i + 1] == tail[j + 1]);
            }
        }
        assert(whole[0] == head[0]);
        assert(whole.last() == key);
        assert(self.is_path(whole));
    }

    /// A child of an entry is reached from the entry.
    pub proof fn reachable_from_parent(&self, parent: usize, child: usize)
        requires
            self.wf(),
            self.is_child(parent, child),
        ensures
            self.reachable(set![parent], child),
            self.reachable(set![parent], parent),
    {
        self.seed_reachable(set![parent], parent);
        self.child_reachable(set![parent], parent, child);
    }

    /// Whether every entry of this store that `old` has not is reached from
    /// `tops`.
    pub open spec fn adds_below(&self, old: &TermBase, tops: Set<usize>) -> bool {
        forall|key: usize| #[trigger]
            self.live(key) && !old.live(key) ==> self.reachable(tops, key)
    }

    /// Whether this store extends `old` by entries that `tops` reach, and by
    /// no others.
    pub open spec fn grows_below(&self, old: &TermBase, tops: Set<usize>) -> bool {
        &&& self.extends(old)
        &&& self.adds_below(old, tops)
    }

    /// Stores with the same entries reach the same.
    pub proof fn reachable_by_entries(&self, other: &TermBase, seeds: Set<usize>, key: usize)
        requires
            self.entries() == other.entries(),
            other.reachable(seeds, key),
        ensures
            self.reachable(seeds, key),
    {
        let path = choose|path: Seq<usize>|
            #![trigger other.is_path(path)]
            other.is_path(path) && seeds.contains(path[0]) && path.last() == key;
        assert forall|i: int| 0 <= i < path.len() - 1 implies #[trigger] self.is_link(path, i) by {
            assert(other.is_link(path, i));
        }
        assert(self.is_path(path));
    }

    /// Interning adds nothing but the entry of the identity it gives.
    pub proof fn interning_grows_below(&self, old: &TermBase, term: Term, key: usize)
        requires
            self.interns(old, term, key),
        ensures
            self.grows_below(old, set![key]),
    {
        assert forall|k: usize| #[trigger] self.live(k) && !old.live(k) implies self.reachable(
            set![key],
            k,
        ) by {
            assert(k == key);
            self.seed_reachable(set![key], key);
        }
    }

    /// Growth in two steps is growth below whatever reaches the tops of both
    /// steps.
    pub proof fn grows_below_trans(
        &self,
        mid: &TermBase,
        old: &TermBase,
        first: Set<usize>,
        second: Set<usize>,
        tops: Set<usize>,
    )
        requires
            mid.grows_below(old, first),
            self.grows_below(mid, second),
            forall|t: usize| #[trigger] first.contains(t) && self.live(t) ==> self.reachable(tops, t),
            forall|t: usize| #[trigger]
                second.contains(t) && self.live(t) ==> self.reachable(tops, t),
        ensures
            self.grows_below(old, tops),
    {
        assert forall|key: usize| #[trigger] old.live(key) implies self.live(key) && self.term(key)
            == old.term(key) && self.expr(key) == old.expr(key) by {
            assert(mid.live(key));
        }
        assert forall|key: usize| #[trigger] self.live(key) && !old.live(key) implies self.reachable(
            tops,
            key,
        ) by {
            if mid.live(key) {
                self.reachable_in_extension(mid, first, key);
                self.reachable_trans(tops, first, key);
            } else {
                self.reachable_trans(tops, second, key);
            }
        }
    }

    /// Growth goes on below new tops when one more identity is interned:
    /// each of the old tops stays a top or is a child of the new identity.
    pub proof fn grows_below_regroup(
        &self,
        mid: &TermBase,
        old: &TermBase,
        tops: Set<usize>,
        added: usize,
        regrouped: Set<usize>,
    )
        requires
            self.wf(),
            mid.grows_below(old, tops),
            self.grows_below(mid, set![added]),
            regrouped.contains(added),
            forall|t: usize| #[trigger]
                tops.contains(t) && self.live(t) ==> regrouped.contains(t) || self.is_child(
                    added,
                    t,
                ),
        ensures
            self.grows_below(old, regrouped),
    {
        assert forall|t: usize| #[trigger]
            tops.contains(t) && self.live(t) implies self.reachable(regrouped, t) by {
            if regrouped.contains(t) {
                self.seed_reachable(regrouped, t);
            } else {
                self.reachable_from_parent(added, t);
                self.reachable_mono(set![added], regrouped, t);
            }
        }
        assert forall|t: usize| #[trigger]
            set![added].contains(t) && self.live(t) implies self.reachable(regrouped, t) by {
            self.seed_reachable(regrouped, t);
        }
        self.grows_below_trans(mid, old, tops, set![added], regrouped);
    }

    /// A store that differs from another in its classifications only has
    /// grown as much as the other.
    pub proof fn grows_below_reclassified(
        &self,
        mid: &TermBase,
        old: &TermBase,
        tops: Set<usize>,
    )
        requires
            mid.grows_below(old, tops),
            self.extends(mid),
            self.entries().dom() == mid.entries().dom(),
        ensures
            self.grows_below(old, tops),
    {
        assert forall|key: usize| #[trigger] old.live(key) implies self.live(key) && self.term(key)
            == old.term(key) && self.expr(key) == old.expr(key) by {
            assert(mid.live(key));
        }
        assert forall|key: usize| #[trigger] self.live(key) && !old.live(key) implies self.reachable(
            tops,
            key,
        ) by {
            assert(mid.live(key));
            self.reachable_in_extension(mid, tops, key);
        }
    }

    /// Growth from a store is growth from any store with the same entries
    /// that it extends.
    pub proof fn grows_below_from_reclassified(
        &self,
        mid: &TermBase,
        old: &TermBase,
        tops: Set<usize>,
    )
        requires
            self.grows_below(mid, tops),
            mid.extends(old),
            mid.entries().dom() == old.entries().dom(),
        ensures
            self.grows_below(old, tops),
    {
        assert forall|key: usize| #[trigger] old.live(key) implies self.live(key) && self.term(key)
            == old.term(key) && self.expr(key) == old.expr(key) by {
            assert(mid.live(key));
        }
        assert forall|key: usize| #[trigger] self.live(key) && !old.live(key) implies self.reachable(
            tops,
            key,
        ) by {
            assert(!mid.live(key));
        }
    }
    /// Whether no classification was made or changed since `old`: every entry
    /// of `old` is as it was, and every other entry is unclassified.
    pub open spec fn leaves_classifications(&self, old: &TermBase) -> bool {
        forall|key: usize| #[trigger]
            self.live(key) ==> if old.live(key) {
                self.entries()[key] == old.entries()[key]
            } else {
                self.memo(key) is Unknown
            }
    }

    /// Interning makes and changes no classification.
    pub proof fn interning_leaves_classifications(&self, old: &TermBase, term: Term, key: usize)
        requires
            self.interns(old, term, key),
        ensures
            self.leaves_classifications(old),
    {
    }

    /// Where no classification was made or changed in either of two steps,
    /// none was in both.
    pub proof fn leaves_classifications_trans(&self, mid: &TermBase, old: &TermBase)
        requires
            self.leaves_classifications(mid),
            mid.leaves_classifications(old),
            mid.extends(old),
        ensures
            self.leaves_classifications(old),
    {
        assert forall|key: usize| #[trigger] self.live(key) implies if old.live(key) {
            self.entries()[key] == old.entries()[key]
        } else {
            self.memo(key) is Unknown
        } by {
            if old.live(key) {
                assert(mid.live(key));
            } else if mid.live(key) {
                assert(self.entries()[key] == mid.entries()[key]);
            }
        }
    }

    /// Whether the classifications of the entries of `old` are as they were,
    /// but for entries that were unclassified and that `tops` reach.
    pub open spec fn reclassifies_below(&self, old: &TermBase, tops: Set<usize>) -> bool {
        forall|key: usize| #[trigger]
            old.live(key) ==> self.memo(key) == old.memo(key) || (old.memo(key) is Unknown
                && self.reachable(tops, key))
    }

    /// Classifications made in two steps are made below whatever reaches the
    /// tops of both steps.
    pub proof fn reclassifies_below_trans(
        &self,
        mid: &TermBase,
        old: &TermBase,
        first: Set<usize>,
        second: Set<usize>,
        tops: Set<usize>,
    )
        requires
            self.extends(mid),
            mid.extends(old),
            mid.reclassifies_below(old, first),
            self.reclassifies_below(mid, second),
            forall|t: usize| #[trigger] first.contains(t) && self.live(t) ==> self.reachable(tops, t),
            forall|t: usize| #[trigger]
                second.contains(t) && self.live(t) ==> self.reachable(tops, t),
        ensures
            self.reclassifies_below(old, tops),
    {
        assert forall|key: usize| #[trigger] old.live(key) implies self.memo(key) == old.memo(key)
            || (old.memo(key) is Unknown && self.reachable(tops, key)) by {
            assert(mid.live(key));
            if self.memo(key) != old.memo(key) {
                if mid.memo(key) != old.memo(key) {
                    self.reachable_in_extension(mid, first, key);
                    self.reachable_trans(tops, first, key);
                } else {
                    self.reachable_trans(tops, second, key);
                }
            }
        }
    }
    /// Where nothing was classified since `mid`, what was classified since
    /// `old` is what was classified up to `mid`.
    pub proof fn reclassifies_below_kept(&self, mid: &TermBase, old: &TermBase, tops: Set<usize>)
        requires
            mid.reclassifies_below(old, tops),
            mid.extends(old),
            self.extends(mid),
            self.leaves_classifications(mid),
        ensures
            self.reclassifies_below(old, tops),
    {
        assert forall|key: usize| #[trigger] old.live(key) implies self.memo(key) == old.memo(key)
            || (old.memo(key) is Unknown && self.reachable(tops, key)) by {
            assert(mid.live(key));
            assert(self.live(key));
            if self.memo(key) != old.memo(key) {
                self.reachable_in_extension(mid, tops, key);
            }
        }
    }

    /// Whether every entry of this store that `old` has not is unclassified.
    pub open spec fn adds_unclassified(&self, old: &TermBase) -> bool {
        forall|key: usize| #[trigger] self.live(key) && !old.live(key) ==> self.memo(key) is Unknown
    }
}

} // verus!
