//! The collector: a sweep from a set of roots that keeps what the roots reach
//! and removes the rest.

use vstd::prelude::*;
use fnv::FnvHashSet;
use crate::arena::is_marked;
use crate::store::TermBase;
use crate::tables::marks_insert;
use crate::term::Term;

verus! {

/// The order in which a traversal hands out the identities it reaches.
#[derive(Clone, Copy, Debug, PartialEq, Eq, Structural)]
pub enum TraversalOrder {
    /// A term before its children, the function of an application before its
    /// argument.
    LeftmostOutermost,
}

impl TermBase {
    /// The seeds of a collection: the roots and the three combinators.
    pub open spec fn seeds_of(&self, roots: Seq<usize>) -> Set<usize> {
        roots.to_set().insert(self.atom_i()).insert(self.atom_k()).insert(self.atom_s())
    }
}

/// The place in `pending` of the identity that is handed out next: the
/// last one that has an entry and was not handed out yet. Below zero where
/// there is none.
pub open spec fn next_place(pending: Seq<usize>, visited: Set<usize>, store: &TermBase) -> int
    decreases pending.len(),
{
    if pending.len() == 0 {
        -1
    } else if store.live(pending.last()) && !visited.contains(pending.last()) {
        pending.len() - 1
    } else {
        next_place(pending.drop_last(), visited, store)
    }
}

/// The children of a node in the order in which they are made to wait: the
/// argument of an application below its function, which comes first.
pub open spec fn children_pushed(term: Term) -> Seq<usize> {
    match term {
        Term::Ap(l, r) => seq![r, l],
        Term::Abs(_, b) => seq![b],
        _ => Seq::empty(),
    }
}

/// What a sequence holds it still holds after a push, and it holds what was
/// pushed.
proof fn contains_after_push(s: Seq<usize>, pushed: usize, x: usize)
    ensures
        s.contains(x) ==> s.push(pushed).contains(x),
        s.push(pushed).contains(pushed),
{
    if s.contains(x) {
        let i = choose|i: int| 0 <= i < s.len() && s[i] == x;
        assert(s.push(pushed)[i] == x);
    }
    assert(s.push(pushed)[s.len() as int] == pushed);
}

/// What a sequence holds is its last element or is held without it.
proof fn contains_without_last(s: Seq<usize>, x: usize)
    requires
        s.contains(x),
    ensures
        x == s.last() || s.drop_last().contains(x),
{
    let i = choose|i: int| 0 <= i < s.len() && s[i] == x;
    if i < s.len() - 1 {
        assert(s.drop_last()[i] == x);
    }
}

/// What a collection keeps: every identity that the roots reach still has
/// its entry, unchanged; and an identity that the roots do not reach has none,
/// unless it is that of a combinator.
pub proof fn collection_keeps_the_reached_only(
    old: &TermBase,
    new: &TermBase,
    roots: Seq<usize>,
    key: usize,
)
    requires
        old.wf(),
        new.entries() == old.entries().restrict(old.reached(old.seeds_of(roots))),
    ensures
        old.reachable(roots.to_set(), key) ==> new.live(key) && new.term(key) == old.term(key)
            && new.memo(key) == old.memo(key),
        !old.reachable(roots.to_set(), key) && key != old.atom_i() && key != old.atom_k() && key
            != old.atom_s() ==> !new.live(key),
        new.live(old.atom_i()) && new.live(old.atom_k()) && new.live(old.atom_s()),
{
    let seeds = old.seeds_of(roots);
    if old.reachable(roots.to_set(), key) {
        old.reachable_mono(roots.to_set(), seeds, key);
        old.reachable_live(seeds, key);
        assert(old.reached(seeds).contains(key));
    }
    if new.live(key) {
        assert(old.reached(seeds).contains(key));
        let path = choose|path: Seq<usize>|
            #![trigger old.is_path(path)]
            old.is_path(path) && seeds.contains(path[0]) && path.last() == key;
        if roots.to_set().contains(path[0]) {
            assert(old.is_path(path) && roots.to_set().contains(path[0]) && path.last() == key);
        } else if path.len() > 1 {
            assert(old.is_link(path, 0));
        }
    }
    assert(old.live(old.atom_i()) && old.live(old.atom_k()) && old.live(old.atom_s()));
    old.seed_reachable(seeds, old.atom_i());
    old.seed_reachable(seeds, old.atom_k());
    old.seed_reachable(seeds, old.atom_s());
    assert(old.reached(seeds).contains(old.atom_i()));
    assert(old.reached(seeds).contains(old.atom_k()));
    assert(old.reached(seeds).contains(old.atom_s()));
}

/// A traversal of the terms below a set of roots, with an explicit work
/// stack. It hands out each identity that the roots reach once.
pub struct Traverser<'a> {
    tb: &'a TermBase,
    traversal_order: TraversalOrder,
    stack: Vec<usize>,
    marks: FnvHashSet<usize>,
    order: Vec<usize>,
    seeds: Ghost<Set<usize>>,
}

impl<'a> Traverser<'a> {
    /// The store that is traversed.
    pub closed spec fn store(&self) -> &TermBase {
        self.tb
    }

    /// The roots given so far.
    pub closed spec fn seeds(&self) -> Set<usize> {
        self.seeds@
    }

    /// The identities handed out so far.
    pub closed spec fn visited(&self) -> Set<usize> {
        self.marks@
    }

    /// The identities handed out so far, in the order in which they were.
    pub closed spec fn visit_order(&self) -> Seq<usize> {
        self.order@
    }

    /// The identities that wait to be looked at, the next one last.
    pub closed spec fn pending(&self) -> Seq<usize> {
        self.stack@
    }

    /// The invariant of a traversal: what was handed out is reached from the
    /// roots and stands in the visit order; what waits is reached too, as far
    /// as it has an entry; every child of what was handed out, and every root
    /// with an entry, was handed out or waits.
    pub open spec fn inv(&self) -> bool {
        &&& self.store().wf()
        &&& forall|key: usize| #[trigger]
            self.visited().contains(key) ==> self.store().reachable(self.seeds(), key)
                && self.visit_order().contains(key)
        &&& forall|i: int|
            0 <= i < self.pending().len() && self.store().live(#[trigger] self.pending()[i])
                ==> self.store().reachable(self.seeds(), self.pending()[i])
        &&& forall|parent: usize, child: usize| #[trigger]
            self.store().is_child(parent, child) && self.visited().contains(parent)
                ==> self.visited().contains(child) || self.pending().contains(child)
        &&& forall|key: usize|
            self.seeds().contains(key) && #[trigger] self.store().live(key)
                ==> self.visited().contains(key) || self.pending().contains(key)
    }

    /// A traversal from one root.
    pub fn new(tb: &'a TermBase, traversal_order: TraversalOrder, root: usize) -> (t: Traverser<'a>)
        requires
            tb.wf(),
        ensures
            t.inv(),
            t.store() == tb,
            t.seeds() == set![root],
            t.visited() == Set::<usize>::empty(),
            t.visit_order() == Seq::<usize>::empty(),
            t.pending() == seq![root],
    {
        let mut stack: Vec<usize> = Vec::new();
        stack.push(root);
        let t = Traverser {
            tb,
            traversal_order,
            stack,
            marks: FnvHashSet::default(),
            order: Vec::new(),
            seeds: Ghost(Set::empty().insert(root)),
        };
        proof {
            assert(t.pending() =~= seq![root]);
            assert(t.pending()[0] == root);
            assert forall|i: int|
                0 <= i < t.pending().len() && t.store().live(
                    #[trigger] t.pending()[i],
                ) implies t.store().reachable(t.seeds(), t.pending()[i]) by {
                tb.seed_reachable(t.seeds(), root);
            }
        }
        t
    }

    /// Makes `root` one more root of the traversal.
    pub fn add_root(&mut self, root: usize)
        requires
            old(self).inv(),
        ensures
            final(self).inv(),
            final(self).store() == old(self).store(),
            final(self).seeds() == old(self).seeds().insert(root),
            final(self).visited() == old(self).visited(),
            final(self).visit_order() == old(self).visit_order(),
            final(self).pending() == old(self).pending().push(root),
    {
        self.stack.push(root);
        proof {
            self.seeds@ = self.seeds@.insert(root);
            let seeds = self.seeds();
            assert forall|key: usize| #[trigger]
                self.visited().contains(key) implies self.store().reachable(seeds, key)
                && self.visit_order().contains(key) by {
                assert(old(self).visited().contains(key));
                self.store().reachable_mono(old(self).seeds(), seeds, key);
            }
            assert forall|i: int|
                0 <= i < self.pending().len() && self.store().live(
                    #[trigger] self.pending()[i],
                ) implies self.store().reachable(seeds, self.pending()[i]) by {
                if i < old(self).pending().len() {
                    assert(self.pending()[i] == old(self).pending()[i]);
                    assert(old(self).store().live(old(self).pending()[i]));
                    self.store().reachable_mono(old(self).seeds(), seeds, self.pending()[i]);
                } else {
                    self.store().seed_reachable(seeds, root);
                }
            }
            assert forall|parent: usize, child: usize| #[trigger]
                self.store().is_child(parent, child) && self.visited().contains(
                    parent,
                ) implies self.visited().contains(child) || self.pending().contains(child) by {
                assert(old(self).store().is_child(parent, child));
                if old(self).pending().contains(child) {
                    let i = choose|i: int|
                        0 <= i < old(self).pending().len() && old(self).pending()[i] == child;
                    assert(self.pending()[i] == child);
                }
            }
            assert forall|key: usize|
                self.seeds().contains(key) && #[trigger] self.store().live(
                    key,
                ) implies self.visited().contains(key) || self.pending().contains(key) by {
                if key == root {
                    assert(self.pending()[self.pending().len() - 1] == root);
                } else if old(self).pending().contains(key) {
                    assert(old(self).store().live(key));
                    let i = choose|i: int|
                        0 <= i < old(self).pending().len() && old(self).pending()[i] == key;
                    assert(self.pending()[i] == key);
                }
            }
        }
    }

    /// The next identity that the roots reach and that was not handed out
    /// yet, or `None` when there is none left. It is the one that waited
    /// last among those with an entry that were not handed out; what waited
    /// behind it is dropped, and its children wait in its place, the function
    /// of an application to be handed out before the argument.
    pub fn next(&mut self) -> (key: Option<usize>)
        requires
            old(self).inv(),
        ensures
            final(self).inv(),
            final(self).store() == old(self).store(),
            final(self).seeds() == old(self).seeds(),
            key is Some ==> final(self).store().live(key->0),
            key is Some ==> !old(self).visited().contains(key->0),
            key is Some ==> final(self).visited() == old(self).visited().insert(key->0),
            key is Some ==> final(self).visit_order() == old(self).visit_order().push(key->0),
            key is None ==> final(self).visited() == old(self).visited(),
            key is None ==> final(self).visit_order() == old(self).visit_order(),
            key is None ==> final(self).pending().len() == 0,
            key is Some <==> next_place(old(self).pending(), old(self).visited(), old(self).store())
                >= 0,
            key is Some ==> key->0 == old(self).pending()[next_place(
                old(self).pending(),
                old(self).visited(),
                old(self).store(),
            )],
            key is Some ==> final(self).pending() == old(self).pending().take(
                next_place(old(self).pending(), old(self).visited(), old(self).store()),
            ) + children_pushed(old(self).store().term(key->0)),
    {
        let ghost place = next_place(self.pending(), self.visited(), self.store());
        while self.stack.len() > 0
            invariant
                self.inv(),
                self.tb == old(self).tb,
                self.seeds == old(self).seeds,
                self.marks == old(self).marks,
                self.order == old(self).order,
                place == next_place(old(self).pending(), old(self).visited(), old(self).store()),
                place == next_place(self.pending(), self.visited(), self.store()),
                self.pending() == old(self).pending().take(self.pending().len() as int),
                self.pending().len() <= old(self).pending().len(),
            decreases self.stack.len(),
        {
            let ghost before = *self;
            let key = self.stack.pop().unwrap();
            let ghost rest = self.stack@;
            assert(rest =~= before.pending().drop_last());
            assert(before.pending().last() == key);
            if !is_marked(&self.marks, key) && self.tb.contains(key) {
                marks_insert(&mut self.marks, key);
                self.order.push(key);
                match self.traversal_order {
                    TraversalOrder::LeftmostOutermost => {
                        match self.tb.get(key) {
                            Term::Ap(l, r) => {
                                self.stack.push(r);
                                self.stack.push(l);
                            },
                            Term::Abs(_, body) => {
                                self.stack.push(body);
                            },
                            _ => {},
                        }
                    },
                }
                proof {
                    assert(place == before.pending().len() - 1);
                    assert(rest =~= old(self).pending().take(place));
                    assert(self.pending() =~= rest + children_pushed(self.store().term(key)));
                    self.inv_after_visit(&before, key);
                }
                return Some(key);
            }
            proof {
                assert(self.pending() =~= old(self).pending().take(self.pending().len() as int));
                self.inv_after_skip(&before);
            }
        }
        None
    }

    /// Passing over an identity that was handed out or has no entry keeps
    /// the invariant.
    proof fn inv_after_skip(&self, before: &Traverser<'a>)
        requires
            before.inv(),
            before.pending().len() > 0,
            before.visited().contains(before.pending().last()) || !before.store().live(
                before.pending().last(),
            ),
            self.store() == before.store(),
            self.seeds() == before.seeds(),
            self.visited() == before.visited(),
            self.visit_order() == before.visit_order(),
            self.pending() == before.pending().drop_last(),
        ensures
            self.inv(),
    {
        let store = self.store();
        assert forall|k: usize| #[trigger] self.visited().contains(k) implies store.reachable(
            self.seeds(),
            k,
        ) && self.visit_order().contains(k) by {
            assert(before.visited().contains(k));
        }
        assert forall|i: int|
            0 <= i < self.pending().len() && store.live(
                #[trigger] self.pending()[i],
            ) implies store.reachable(self.seeds(), self.pending()[i]) by {
            assert(self.pending()[i] == before.pending()[i]);
            assert(before.store().live(before.pending()[i]));
        }
        assert forall|parent: usize, child: usize| #[trigger]
            store.is_child(parent, child) && self.visited().contains(
                parent,
            ) implies self.visited().contains(child) || self.pending().contains(child) by {
            assert(before.store().is_child(parent, child));
            assert(before.visited().contains(parent));
            store.tree_of_entry(parent);
            if !before.visited().contains(child) {
                contains_without_last(before.pending(), child);
            }
        }
        assert forall|k: usize|
            self.seeds().contains(k) && #[trigger] store.live(k) implies self.visited().contains(k)
            || self.pending().contains(k) by {
            assert(before.store().live(k));
            if !before.visited().contains(k) {
                contains_without_last(before.pending(), k);
            }
        }
    }

    /// Handing out an identity and making its children wait keeps the
    /// invariant.
    proof fn inv_after_visit(&self, before: &Traverser<'a>, key: usize)
        requires
            before.inv(),
            before.pending().len() > 0,
            key == before.pending().last(),
            !before.visited().contains(key),
            before.store().live(key),
            self.store() == before.store(),
            self.seeds() == before.seeds(),
            self.visited() == before.visited().insert(key),
            self.visit_order() == before.visit_order().push(key),
            self.pending() == before.pending().drop_last() + children_pushed(
                before.store().term(key),
            ),
        ensures
            self.inv(),
    {
        let store = self.store();
        let seeds = self.seeds();
        let rest = before.pending().drop_last();
        let pushed = children_pushed(store.term(key));
        assert(before.pending()[before.pending().len() - 1] == key);
        assert(store.reachable(seeds, key));
        assert(store.wf());
        assert(rest.is_prefix_of(self.pending()));
        assert(forall|n: int|
            0 <= n < pushed.len() ==> self.pending()[rest.len() + n] == #[trigger] pushed[n]);
        assert(forall|child: usize| #[trigger]
            store.is_child(key, child) <==> pushed.contains(child)) by {
            assert forall|child: usize| #[trigger] store.is_child(key, child) implies pushed.contains(
                child,
            ) by {
                match store.term(key) {
                    Term::Ap(l, r) => {
                        assert(pushed[0] == r && pushed[1] == l);
                    },
                    Term::Abs(_, body) => {
                        assert(pushed[0] == body);
                    },
                    _ => {},
                }
            }
        }
        assert forall|k: usize| #[trigger] self.visited().contains(k) implies store.reachable(
            seeds,
            k,
        ) && self.visit_order().contains(k) by {
            contains_after_push(before.visit_order(), key, k);
            if k != key {
                assert(before.visited().contains(k));
            }
        }
        assert forall|i: int|
            0 <= i < self.pending().len() && store.live(
                #[trigger] self.pending()[i],
            ) implies store.reachable(seeds, self.pending()[i]) by {
            if i < rest.len() {
                assert(self.pending()[i] == before.pending()[i]);
                assert(before.store().live(before.pending()[i]));
            } else {
                assert(self.pending()[i] == pushed[i - rest.len()]);
                assert(pushed.contains(self.pending()[i]));
                store.child_reachable(seeds, key, self.pending()[i]);
            }
        }
        assert forall|parent: usize, child: usize| #[trigger]
            store.is_child(parent, child) && self.visited().contains(
                parent,
            ) implies self.visited().contains(child) || self.pending().contains(child) by {
            if parent == key {
                assert(pushed.contains(child));
                let n = choose|n: int| 0 <= n < pushed.len() && pushed[n] == child;
                assert(self.pending()[rest.len() + n] == child);
            } else {
                assert(before.store().is_child(parent, child));
                assert(before.visited().contains(parent));
                if !before.visited().contains(child) {
                    contains_without_last(before.pending(), child);
                    if child != key {
                        self.still_pending(rest, child);
                    }
                }
            }
        }
        assert forall|k: usize|
            self.seeds().contains(k) && #[trigger] store.live(k) implies self.visited().contains(k)
            || self.pending().contains(k) by {
            assert(before.store().live(k));
            if !before.visited().contains(k) {
                contains_without_last(before.pending(), k);
                if k != key {
                    self.still_pending(rest, k);
                }
            }
        }
    }

    /// What waited before the children of the visited entry were pushed
    /// still waits.
    proof fn still_pending(&self, rest: Seq<usize>, x: usize)
        requires
            rest.contains(x),
            rest.is_prefix_of(self.pending()),
        ensures
            self.pending().contains(x),
    {
        let i = choose|i: int| 0 <= i < rest.len() && rest[i] == x;
        assert(self.pending()[i] == x);
    }

    /// Ends a traversal that has nothing left to hand out: the set of the
    /// identities that the roots reach, and the same identities in the order
    /// in which they were handed out.
    pub fn finish(self) -> (done: (FnvHashSet<usize>, Vec<usize>))
        requires
            self.inv(),
            self.pending().len() == 0,
        ensures
            done.0@ == self.store().reached(self.seeds()),
            done.0@ == self.visited(),
            done.1@ == self.visit_order(),
            forall|key: usize| done.0@.contains(key) ==> done.1@.contains(key),
    {
        proof {
            let store = self.store();
            let seeds = self.seeds();
            assert forall|key: usize| store.reachable(seeds, key) implies self.visited().contains(
                key,
            ) by {
                let path = choose|path: Seq<usize>|
                    #![trigger store.is_path(path)]
                    store.is_path(path) && seeds.contains(path[0]) && path.last() == key;
                self.path_visited(path, path.len() - 1);
            }
            assert(self.visited() =~= store.reached(seeds));
        }
        (self.marks, self.order)
    }

    /// When nothing waits, every entry on a chain from a root was handed out.
    proof fn path_visited(&self, path: Seq<usize>, i: int)
        requires
            self.inv(),
            self.pending().len() == 0,
            self.store().is_path(path),
            self.seeds().contains(path[0]),
            0 <= i < path.len(),
        ensures
            self.visited().contains(path[i]),
        decreases i,
    {
        if i == 0 {
            assert(self.store().live(path[0]));
        } else {
            self.path_visited(path, i - 1);
            assert(self.store().is_link(path, i - 1));
        }
    }
}

impl TermBase {
    /// Collects from the given roots: every entry that the roots and the three
    /// combinators reach stays, under its identity and as it is; every other
    /// entry is removed, with its place in the index. A root without an entry
    /// counts for nothing. The table of names stays as it is.
    pub fn collect(&mut self, roots: &Vec<usize>)
        requires
            old(self).wf(),
        ensures
            final(self).wf(),
            final(self).entries() == old(self).entries().restrict(
                old(self).reached(old(self).seeds_of(roots@)),
            ),
            final(self).exprs() == old(self).exprs().restrict(
                old(self).reached(old(self).seeds_of(roots@)),
            ),
            final(self).bindings() == old(self).bindings(),
            final(self).atom_i() == old(self).atom_i(),
            final(self).atom_k() == old(self).atom_k(),
            final(self).atom_s() == old(self).atom_s(),
    {
        let mut sweep = Traverser::new(&*self, TraversalOrder::LeftmostOutermost, self.i_key());
        sweep.add_root(self.k_key());
        sweep.add_root(self.s_key());
        let ghost base = sweep.seeds();
        let mut i: usize = 0;
        while i < roots.len()
            invariant
                i <= roots.len(),
                sweep.inv(),
                sweep.store() == *old(self),
                sweep.seeds() == base.union(roots@.take(i as int).to_set()),
            decreases roots.len() - i,
        {
            sweep.add_root(roots[i]);
            proof {
                let now = roots@.take(i + 1);
                assert(now.drop_last() =~= roots@.take(i as int));
                assert(now.last() == roots@[i as int]);
                assert forall|key: usize| now.to_set().contains(key) <==> roots@.take(
                    i as int,
                ).to_set().contains(key) || key == roots@[i as int] by {
                    if now.contains(key) {
                        let j = choose|j: int| 0 <= j < now.len() && now[j] == key;
                        if j < i {
                            assert(roots@.take(i as int)[j] == key);
                        }
                    }
                    if roots@.take(i as int).contains(key) {
                        let j = choose|j: int| 0 <= j < i && roots@.take(i as int)[j] == key;
                        assert(now[j] == key);
                    }
                    assert(now[i as int] == roots@[i as int]);
                }
                assert(sweep.seeds() =~= base.union(now.to_set()));
            }
            i += 1;
        }
        proof {
            assert(roots@.take(i as int) =~= roots@);
            assert(sweep.seeds() =~= self.seeds_of(roots@));
        }
        let ghost live = self.entries().dom();
        loop
            invariant
                sweep.inv(),
                sweep.store() == *old(self),
                sweep.seeds() == old(self).seeds_of(roots@),
                live == old(self).entries().dom(),
                live.finite(),
            ensures
                sweep.inv(),
                sweep.store() == *old(self),
                sweep.seeds() == old(self).seeds_of(roots@),
                sweep.pending().len() == 0,
            decreases live.difference(sweep.visited()).len(),
        {
            let ghost seen = sweep.visited();
            match sweep.next() {
                Some(key) => {
                    proof {
                        assert(live.difference(sweep.visited()) =~= live.difference(seen).remove(
                            key,
                        ));
                        assert(live.difference(seen).contains(key));
                    }
                },
                None => {
                    break ;
                },
            }
        }
        let ghost seeds = sweep.seeds();
        proof {
            assert forall|key: usize| #[trigger] sweep.visited().contains(key) implies self.live(
                key,
            ) && match self.term(key) {
                Term::Ap(l, r) => sweep.visited().contains(l) && sweep.visited().contains(r),
                Term::Abs(_, b) => sweep.visited().contains(b),
                _ => true,
            } by {
                self.reachable_live(seeds, key);
                match self.term(key) {
                    Term::Ap(l, r) => {
                        assert(self.is_child(key, l));
                        assert(self.is_child(key, r));
                    },
                    Term::Abs(_, b) => {
                        assert(self.is_child(key, b));
                    },
                    _ => {},
                }
            }
            assert(self.live(self.atom_i()) && self.live(self.atom_k()) && self.live(
                self.atom_s(),
            ));
        }
        let (marks, order) = sweep.finish();
        self.retain_marked(&marks, &order);
    }

    /// Collects from the identities that the defined names are bound to.
    /// Every name stays bound to an entry.
    pub fn gc_all_but_defined(&mut self)
        requires
            old(self).wf(),
            old(self).bindings_live(),
        ensures
            final(self).wf(),
            final(self).bindings_live(),
            final(self).bindings() == old(self).bindings(),
            final(self).atom_i() == old(self).atom_i(),
            final(self).atom_k() == old(self).atom_k(),
            final(self).atom_s() == old(self).atom_s(),
            final(self).entries() == old(self).entries().restrict(
                old(self).reached(
                    old(self).bindings().values().insert(old(self).atom_i()).insert(
                        old(self).atom_k(),
                    ).insert(old(self).atom_s()),
                ),
            ),
            final(self).exprs() == old(self).exprs().restrict(
                old(self).reached(
                    old(self).bindings().values().insert(old(self).atom_i()).insert(
                        old(self).atom_k(),
                    ).insert(old(self).atom_s()),
                ),
            ),
    {
        let roots = self.bound_keys();
        proof {
            let seeds = self.seeds_of(roots@);
            assert(seeds =~= self.bindings().values().insert(self.atom_i()).insert(
                self.atom_k(),
            ).insert(self.atom_s())) by {
                assert forall|key: usize| roots@.to_set().contains(key)
                    <==> self.bindings().values().contains(key) by {
                    if self.bindings().values().contains(key) {
                        let name = choose|name: char| #[trigger]
                            self.bindings().dom().contains(name) && self.bindings()[name] == key;
                        assert(self.bindings().contains_key(name));
                    }
                }
            }
            assert forall|name: char| #[trigger]
                self.bindings().contains_key(name) implies self.reachable(
                seeds,
                self.bindings()[name],
            ) by {
                assert(self.bindings().values().contains(self.bindings()[name]));
                self.seed_reachable(seeds, self.bindings()[name]);
            }
        }
        self.collect(&roots);
    }
}

} // verus!
