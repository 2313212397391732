//! The term store: a hash-consing arena in which every term has exactly one
//! identity, with the memoized classification of each term and the table of
//! defined names.

use vstd::prelude::*;
use vstd::set_lib::lemma_set_subset_finite;
use fnv::FnvHashMap;
use fnv::FnvHashSet;
use slab::Slab;
use crate::arena::slab_entries;
use crate::arena::slab_get;
use crate::arena::slab_insert;
use crate::arena::slab_retain;
use crate::arena::slab_set;
use crate::arena::slab_new;
use crate::expr::Expr;
use crate::tables::table_get;
use crate::tables::table_insert;
use crate::tables::table_remove;
use crate::tables::table_values;
use crate::term::RewriteKey;
use crate::term::Term;
use crate::term::TermEntry;

verus! {

/// Whether a memoized classification agrees with the tree it is about.
/// `Unknown` claims nothing.
pub open spec fn memo_sound(memo: RewriteKey, e: Expr) -> bool {
    &&& memo is NormalForm ==> e.normal()
    &&& memo is CanRewrite ==> !e.normal()
}

/// The store with its table of defined names.
pub struct TermBase {
    slab: Slab<TermEntry>,
    /// From the digest of a node to the identities of the entries with that
    /// digest.
    slab_locator: FnvHashMap<u64, Vec<usize>>,
    defined: FnvHashMap<char, usize>,
    i_key: usize,
    k_key: usize,
    s_key: usize,
    /// The tree that each identity stands for.
    exprs: Ghost<Map<usize, Expr>>,
}

impl TermBase {
    /// The entries of the store, by identity.
    pub closed spec fn entries(&self) -> Map<usize, TermEntry> {
        slab_entries(self.slab)
    }

    /// The tree that each identity stands for.
    pub closed spec fn exprs(&self) -> Map<usize, Expr> {
        self.exprs@
    }

    /// The defined names, each with the identity it is bound to.
    pub closed spec fn bindings(&self) -> Map<char, usize> {
        self.defined@
    }

    /// The identity of `I`.
    pub closed spec fn atom_i(&self) -> usize {
        self.i_key
    }

    /// The identity of `K`.
    pub closed spec fn atom_k(&self) -> usize {
        self.k_key
    }

    /// The identity of `S`.
    pub closed spec fn atom_s(&self) -> usize {
        self.s_key
    }

    /// Whether the identity has an entry.
    pub open spec fn live(&self, key: usize) -> bool {
        self.entries().contains_key(key)
    }

    /// The node stored under the identity.
    pub open spec fn term(&self, key: usize) -> Term {
        self.entries()[key].term
    }

    /// The memoized classification of the identity.
    pub open spec fn memo(&self, key: usize) -> RewriteKey {
        self.entries()[key].rewrite_key
    }

    /// The tree that the identity stands for.
    pub open spec fn expr(&self, key: usize) -> Expr {
        self.exprs()[key]
    }

    /// Whether some entry holds the node.
    pub open spec fn holds(&self, term: Term) -> bool {
        exists|key: usize| #[trigger] self.live(key) && self.term(key) == term
    }

    /// Whether the entry is unclassified or its children are classified:
    /// classifications are made from the leaves up.
    pub open spec fn settled(&self, key: usize) -> bool {
        self.memo(key) is Unknown || match self.term(key) {
            Term::Ap(l, r) => !(self.memo(l) is Unknown) && !(self.memo(r) is Unknown),
            Term::Abs(_, b) => !(self.memo(b) is Unknown),
            _ => true,
        }
    }

    /// Every entry can be found from the digest of its node.
    pub closed spec fn index_complete(&self) -> bool {
        forall|key: usize| #[trigger]
            self.entries().contains_key(key) ==> {
                &&& self.slab_locator@.contains_key(self.entries()[key].term.digest())
                &&& self.slab_locator@[self.entries()[key].term.digest()]@.contains(key)
            }
    }

    /// The invariant of the entries: there are finitely many; the children of
    /// each are entries too; each identity stands for the tree that its node
    /// describes; no two identities stand for the same tree; no memoized
    /// classification is wrong, and none was made before those of the
    /// children; and the index finds every entry.
    pub open spec fn consistent(&self) -> bool {
        &&& self.entries().dom().finite()
        &&& self.exprs().dom() == self.entries().dom()
        &&& forall|key: usize| #[trigger]
            self.live(key) ==> {
                &&& self.term(key).closed_in(self.exprs())
                &&& self.expr(key) == self.term(key).denote(self.exprs())
                &&& memo_sound(self.memo(key), self.expr(key))
                &&& self.settled(key)
            }
        &&& forall|a: usize, b: usize|
            #[trigger] self.live(a) && #[trigger] self.live(b) && self.expr(a) == self.expr(b)
                ==> a == b
        &&& self.index_complete()
    }

    /// The invariant of the store: that of its entries, and the three
    /// combinators have their identities.
    pub open spec fn wf(&self) -> bool {
        &&& self.consistent()
        &&& self.live(self.atom_i()) && self.term(self.atom_i()) == Term::I
        &&& self.live(self.atom_k()) && self.term(self.atom_k()) == Term::K
        &&& self.live(self.atom_s()) && self.term(self.atom_s()) == Term::S
    }

    /// Every defined name is bound to an identity that has an entry.
    pub open spec fn bindings_live(&self) -> bool {
        forall|name: char| #[trigger]
            self.bindings().contains_key(name) ==> self.live(self.bindings()[name])
    }

    /// Whether this store has all the entries of `old`, with the same trees.
    /// Only the memoized classifications may differ.
    pub open spec fn extends(&self, old: &TermBase) -> bool {
        &&& self.atom_i() == old.atom_i()
        &&& self.atom_k() == old.atom_k()
        &&& self.atom_s() == old.atom_s()
        &&& self.bindings() == old.bindings()
        &&& forall|key: usize| #[trigger]
            old.live(key) ==> {
                &&& self.live(key)
                &&& self.term(key) == old.term(key)
                &&& self.expr(key) == old.expr(key)
            }
    }

    /// Whether this store is what interning `term` makes of `old`, with `key`
    /// the identity given. The entries of `old` are kept, and `key` stands
    /// for the tree of the node. Where `old` held the node, nothing is added;
    /// else `key` is new, and its entry is the only one added, classified
    /// `Unknown`.
    pub open spec fn interns(&self, old: &TermBase, term: Term, key: usize) -> bool {
        &&& self.extends(old)
        &&& self.live(key)
        &&& self.term(key) == term
        &&& self.expr(key) == term.denote(old.exprs())
        &&& old.holds(term) ==> self.entries() == old.entries() && self.exprs() == old.exprs()
        &&& !old.holds(term) ==> !old.live(key) && self.entries() == old.entries().insert(
            key,
            TermEntry { term, rewrite_key: RewriteKey::Unknown },
        ) && self.exprs() == old.exprs().insert(key, term.denote(old.exprs()))
    }

    /// Scans the bucket of `digest` for an entry that holds `term`.
    fn find(&self, digest: u64, term: Term) -> (found: Option<usize>)
        requires
            self.consistent(),
            digest == term.digest(),
        ensures
            found is Some <==> self.holds(term),
            found is Some ==> self.live(found->0) && self.term(found->0) == term,
    {
        match table_get(&self.slab_locator, digest) {
            None => {
                assert(!self.holds(term)) by {
                    if self.holds(term) {
                        let key = choose|key: usize| #[trigger]
                            self.live(key) && self.term(key) == term;
                        assert(self.entries().contains_key(key));
                    }
                }
                None
            },
            Some(bucket) => {
                let mut i: usize = 0;
                while i < bucket.len()
                    invariant
                        i <= bucket.len(),
                        forall|j: int|
                            0 <= j < i ==> !(#[trigger] self.live(bucket@[j]) && self.term(
                                bucket@[j],
                            ) == term),
                    decreases bucket.len() - i,
                {
                    let key = bucket[i];
                    match slab_get(&self.slab, key) {
                        Some(entry) => {
                            if entry.term == term {
                                assert(self.live(key) && self.term(key) == term);
                                return Some(key);
                            }
                        },
                        None => {},
                    }
                    i += 1;
                }
                assert(!self.holds(term)) by {
                    if self.holds(term) {
                        let key = choose|key: usize| #[trigger]
                            self.live(key) && self.term(key) == term;
                        assert(self.entries().contains_key(key));
                        let j = choose|j: int| 0 <= j < bucket@.len() && bucket@[j] == key;
                        assert(self.live(bucket@[j]));
                    }
                }
                None
            },
        }
    }

    /// Finds the entry that holds `term`, or makes one.
    fn find_or_add(&mut self, term: Term) -> (key: usize)
        requires
            old(self).consistent(),
            term.closed_in(old(self).exprs()),
        ensures
            final(self).consistent(),
            final(self).interns(old(self), term, key),
    {
        let digest = term.content_digest();
        match self.find(digest, term) {
            Some(key) => key,
            None => {
                let ghost e = term.denote(self.exprs@);
                let key = slab_insert(
                    &mut self.slab,
                    TermEntry { term, rewrite_key: RewriteKey::Unknown },
                );
                let mut bucket = match table_remove(&mut self.slab_locator, digest) {
                    Some(bucket) => bucket,
                    None => Vec::new(),
                };
                let ghost before = bucket@;
                bucket.push(key);
                table_insert(&mut self.slab_locator, digest, bucket);
                proof {
                    self.exprs@ = self.exprs@.insert(key, e);
                    assert(before.push(key)[before.len() as int] == key);
                    assert forall|k: usize| #[trigger] self.entries().contains_key(k) implies {
                        &&& self.slab_locator@.contains_key(self.entries()[k].term.digest())
                        &&& self.slab_locator@[self.entries()[k].term.digest()]@.contains(k)
                    } by {
                        if k != key {
                            assert(old(self).entries().contains_key(k));
                            let d = old(self).entries()[k].term.digest();
                            if d == digest {
                                let j = choose|j: int|
                                    0 <= j < before.len() && before[j] == k;
                                assert(before.push(key)[j] == k);
                            }
                        }
                    }
                    assert forall|k: usize| #[trigger] self.live(k) implies {
                        &&& self.term(k).closed_in(self.exprs())
                        &&& self.expr(k) == self.term(k).denote(self.exprs())
                        &&& memo_sound(self.memo(k), self.expr(k))
                        &&& self.settled(k)
                    } by {
                        if k != key {
                            assert(old(self).live(k));
                        }
                    }
                    assert forall|a: usize, b: usize|
                        #[trigger] self.live(a) && #[trigger] self.live(b) && self.expr(a)
                            == self.expr(b) implies a == b by {
                        if a != b {
                            let other = if a == key {
                                b
                            } else {
                                a
                            };
                            if a == key || b == key {
                                assert(old(self).live(other));
                                assert(old(self).expr(other) == e);
                                old(self).same_tree_same_node(other, term);
                                assert(old(self).holds(term));
                            } else {
                                assert(old(self).live(a));
                                assert(old(self).live(b));
                            }
                        }
                    }
                    assert(self.exprs().dom() =~= self.entries().dom());
                    assert forall|k: usize| #[trigger] old(self).live(k) implies self.live(k)
                        && self.term(k) == old(self).term(k) && self.expr(k) == old(self).expr(
                        k,
                    ) by {}
                }
                key
            },
        }
    }

    /// A store that holds the three combinators and nothing else, with no
    /// name defined.
    pub fn new() -> (store: TermBase)
        ensures
            store.wf(),
            store.bindings() == Map::<char, usize>::empty(),
            store.entries().dom() == set![store.atom_i(), store.atom_k(), store.atom_s()],
            store.memo(store.atom_i()) is Unknown,
            store.memo(store.atom_k()) is Unknown,
            store.memo(store.atom_s()) is Unknown,
    {
        let mut t = TermBase {
            slab: slab_new(),
            slab_locator: FnvHashMap::default(),
            defined: FnvHashMap::default(),
            i_key: 0,
            k_key: 0,
            s_key: 0,
            exprs: Ghost(Map::empty()),
        };
        assert(t.entries() =~= Map::empty());
        assert(t.consistent());
        assert(!t.holds(Term::I)); 
        let i_key = t.find_or_add(Term::I);
        assert(!t.holds(Term::K)) by {
            assert forall|key: usize| #[trigger] t.live(key) implies t.term(key) != Term::K by {}
        }
        let k_key = t.find_or_add(Term::K);
        assert(!t.holds(Term::S)) by {
            assert forall|key: usize| #[trigger] t.live(key) implies t.term(key) != Term::S by {}
        }
        let s_key = t.find_or_add(Term::S);
        t.i_key = i_key;
        t.k_key = k_key;
        t.s_key = s_key;
        assert(t.entries().dom() =~= set![i_key, k_key, s_key]);
        assert(t.live(i_key) && t.live(k_key) && t.live(s_key));
        t
    }

    /// Interns a node: the identity of the entry that holds it, which is made
    /// now if there was none. The children of the node must be entries. The
    /// entries that were there stay as they are, and a new entry is classified
    /// `Unknown`.
    pub fn intern(&mut self, term: Term) -> (key: usize)
        requires
            old(self).wf(),
            term.closed_in(old(self).exprs()),
        ensures
            final(self).wf(),
            final(self).interns(old(self), term, key),
    {
        let key = self.find_or_add(term);
        proof {
            assert(old(self).live(old(self).atom_i()));
            assert(old(self).live(old(self).atom_k()));
            assert(old(self).live(old(self).atom_s()));
        }
        key
    }

    /// Whether the identity has an entry.
    pub fn contains(&self, key: usize) -> (found: bool)
        ensures
            found == self.live(key),
    {
        slab_get(&self.slab, key).is_some()
    }

    /// The node stored under an identity that has an entry.
    pub fn get(&self, key: usize) -> (term: Term)
        requires
            self.live(key),
        ensures
            term == self.term(key),
    {
        slab_get(&self.slab, key).unwrap().term
    }

    /// The memoized classification of an identity that has an entry.
    pub fn rewrite_key(&self, key: usize) -> (memo: RewriteKey)
        requires
            self.live(key),
        ensures
            memo == self.memo(key),
    {
        slab_get(&self.slab, key).unwrap().rewrite_key
    }

    /// Records a classification that is right for the identity's tree, once
    /// the children of the entry are classified. The node of the entry and all
    /// other entries stay as they are.
    pub(crate) fn set_rewrite_key(&mut self, key: usize, memo: RewriteKey)
        requires
            old(self).wf(),
            old(self).live(key),
            memo_sound(memo, old(self).expr(key)),
            !(memo is Unknown),
            match old(self).term(key) {
                Term::Ap(l, r) => !(old(self).memo(l) is Unknown) && !(old(self).memo(r) is Unknown),
                Term::Abs(_, b) => !(old(self).memo(b) is Unknown),
                _ => true,
            },
        ensures
            final(self).wf(),
            final(self).extends(old(self)),
            final(self).exprs() == old(self).exprs(),
            final(self).entries() == old(self).entries().insert(
                key,
                (TermEntry { term: old(self).term(key), rewrite_key: memo }),
            ),
    {
        let term = self.get(key);
        slab_set(&mut self.slab, key, TermEntry { term, rewrite_key: memo });
        proof {
            assert(self.entries().dom() =~= old(self).entries().dom());
            assert forall|k: usize| #[trigger] self.entries().contains_key(k) implies {
                &&& self.slab_locator@.contains_key(self.entries()[k].term.digest())
                &&& self.slab_locator@[self.entries()[k].term.digest()]@.contains(k)
            } by {
                assert(old(self).entries().contains_key(k));
            }
            assert forall|k: usize| #[trigger] self.live(k) implies {
                &&& self.term(k).closed_in(self.exprs())
                &&& self.expr(k) == self.term(k).denote(self.exprs())
                &&& memo_sound(self.memo(k), self.expr(k))
                &&& self.settled(k)
            } by {
                assert(old(self).live(k));
            }
            assert forall|a: usize, b: usize|
                #[trigger] self.live(a) && #[trigger] self.live(b) && self.expr(a) == self.expr(
                    b,
                ) implies a == b by {
                assert(old(self).live(a) && old(self).live(b));
            }
            assert(self.live(self.atom_i()) && self.live(self.atom_k()) && self.live(
                self.atom_s(),
            ));
        }
    }

    /// The identity of `I`.
    pub fn i_key(&self) -> (key: usize)
        ensures
            key == self.atom_i(),
    {
        self.i_key
    }

    /// The identity of `K`.
    pub fn k_key(&self) -> (key: usize)
        ensures
            key == self.atom_k(),
    {
        self.k_key
    }

    /// The identity of `S`.
    pub fn s_key(&self) -> (key: usize)
        ensures
            key == self.atom_s(),
    {
        self.s_key
    }

    /// Binds a name to an identity, in place of what the name was bound to.
    /// The entries stay as they are.
    pub fn define(&mut self, varname: char, key: usize)
        ensures
            final(self).bindings() == old(self).bindings().insert(varname, key),
            final(self).entries() == old(self).entries(),
            final(self).exprs() == old(self).exprs(),
            final(self).atom_i() == old(self).atom_i(),
            final(self).atom_k() == old(self).atom_k(),
            final(self).atom_s() == old(self).atom_s(),
            old(self).wf() ==> final(self).wf(),
    {
        table_insert(&mut self.defined, varname, key);
        proof {
            if old(self).wf() {
                assert forall|k: usize| #[trigger] self.live(k) implies {
                    &&& self.term(k).closed_in(self.exprs())
                    &&& self.expr(k) == self.term(k).denote(self.exprs())
                    &&& memo_sound(self.memo(k), self.expr(k))
                    &&& self.settled(k)
                } by {
                    assert(old(self).live(k));
                }
                assert forall|a: usize, b: usize|
                    #[trigger] self.live(a) && #[trigger] self.live(b) && self.expr(a)
                        == self.expr(b) implies a == b by {
                    assert(old(self).live(a) && old(self).live(b));
                }
                assert(self.index_complete());
                assert(self.consistent());
            }
        }
    }

    /// The identity that a name is bound to, if it is defined.
    pub fn lookup(&self, varname: char) -> (key: Option<usize>)
        ensures
            key is Some <==> self.bindings().contains_key(varname),
            key is Some ==> key->0 == self.bindings()[varname],
    {
        match table_get(&self.defined, varname) {
            Some(key) => Some(*key),
            None => None,
        }
    }

    /// The identities that the defined names are bound to, in no stated order.
    pub fn bound_keys(&self) -> (keys: Vec<usize>)
        ensures
            forall|key: usize|
                keys@.contains(key) <==> exists|name: char| #[trigger]
                    self.bindings().contains_key(name) && self.bindings()[name] == key,
    {
        let keys = table_values(&self.defined);
        proof {
            assert forall|key: usize| keys@.contains(key) <==> exists|name: char| #[trigger]
                self.bindings().contains_key(name) && self.bindings()[name] == key by {
                if self.defined@.values().contains(key) {
                    let name = choose|name: char| #[trigger]
                        self.defined@.dom().contains(name) && self.defined@[name] == key;
                    assert(self.bindings().contains_key(name));
                }
                if exists|name: char| #[trigger]
                    self.bindings().contains_key(name) && self.bindings()[name] == key {
                    let name = choose|name: char| #[trigger]
                        self.bindings().contains_key(name) && self.bindings()[name] == key;
                    assert(self.defined@.dom().contains(name));
                    assert(self.defined@.values().contains(key));
                }
            }
        }
        keys
    }

    /// Whether the set holds identities with entries only, the children of
    /// each of them, and the three combinators.
    pub open spec fn closed_marks(&self, marks: Set<usize>) -> bool {
        &&& marks.contains(self.atom_i())
        &&& marks.contains(self.atom_k())
        &&& marks.contains(self.atom_s())
        &&& forall|key: usize| #[trigger]
            marks.contains(key) ==> self.live(key) && match self.term(key) {
                Term::Ap(l, r) => marks.contains(l) && marks.contains(r),
                Term::Abs(_, b) => marks.contains(b),
                _ => true,
            }
    }

    /// Removes every entry whose identity is not marked, with its place in
    /// the index. `order` lists the marked identities. The marked entries
    /// stay as they are, under their identities.
    pub(crate) fn retain_marked(&mut self, marks: &FnvHashSet<usize>, order: &Vec<usize>)
        requires
            old(self).wf(),
            old(self).closed_marks(marks@),
            forall|key: usize| marks@.contains(key) ==> order@.contains(key),
        ensures
            final(self).wf(),
            final(self).entries() == old(self).entries().restrict(marks@),
            final(self).exprs() == old(self).exprs().restrict(marks@),
            final(self).bindings() == old(self).bindings(),
            final(self).atom_i() == old(self).atom_i(),
            final(self).atom_k() == old(self).atom_k(),
            final(self).atom_s() == old(self).atom_s(),
    {
        slab_retain(&mut self.slab, marks);
        self.slab_locator = FnvHashMap::default();
        proof {
            self.exprs@ = self.exprs@.restrict(marks@);
            lemma_set_subset_finite(old(self).entries().dom(), self.entries().dom());
            assert(self.exprs().dom() =~= self.entries().dom());
            assert forall|k: usize| #[trigger] self.live(k) implies {
                &&& self.term(k).closed_in(self.exprs())
                &&& self.expr(k) == self.term(k).denote(self.exprs())
                &&& memo_sound(self.memo(k), self.expr(k))
                &&& self.settled(k)
            } by {
                assert(old(self).live(k));
                assert(marks@.contains(k));
            }
            assert forall|a: usize, b: usize|
                #[trigger] self.live(a) && #[trigger] self.live(b) && self.expr(a) == self.expr(
                    b,
                ) implies a == b by {
                assert(old(self).live(a) && old(self).live(b));
            }
        }
        let mut i: usize = 0;
        while i < order.len()
            invariant
                i <= order.len(),
                self.entries() == old(self).entries().restrict(marks@),
                self.exprs() == old(self).exprs().restrict(marks@),
                self.defined == old(self).defined,
                self.i_key == old(self).i_key,
                self.k_key == old(self).k_key,
                self.s_key == old(self).s_key,
                forall|j: int|
                    0 <= j < i && self.entries().contains_key(#[trigger] order@[j]) ==> {
                        &&& self.slab_locator@.contains_key(
                            self.entries()[order@[j]].term.digest(),
                        )
                        &&& self.slab_locator@[self.entries()[order@[j]].term.digest()]@.contains(
                            order@[j],
                        )
                    },
            decreases order.len() - i,
        {
            let key = order[i];
            match slab_get(&self.slab, key) {
                Some(entry) => {
                    let digest = entry.term.content_digest();
                    let ghost index = self.slab_locator@;
                    let mut bucket = match table_remove(&mut self.slab_locator, digest) {
                        Some(bucket) => bucket,
                        None => Vec::new(),
                    };
                    let ghost before = bucket@;
                    bucket.push(key);
                    table_insert(&mut self.slab_locator, digest, bucket);
                    proof {
                        assert(before.push(key)[before.len() as int] == key);
                        assert forall|j: int|
                            0 <= j < i + 1 && self.entries().contains_key(
                                #[trigger] order@[j],
                            ) implies {
                            &&& self.slab_locator@.contains_key(
                                self.entries()[order@[j]].term.digest(),
                            )
                            &&& self.slab_locator@[self.entries()[order@[j]].term.digest()]@.contains(
                            order@[j])
                        } by {
                            let d = self.entries()[order@[j]].term.digest();
                            if j < i && d == digest {
                                assert(index[d]@.contains(order@[j]));
                                let n = choose|n: int|
                                    0 <= n < before.len() && before[n] == order@[j];
                                assert(before.push(key)[n] == order@[j]);
                            }
                        }
                    }
                },
                None => {},
            }
            i += 1;
        }
        proof {
            assert forall|k: usize| #[trigger] self.entries().contains_key(k) implies {
                &&& self.slab_locator@.contains_key(self.entries()[k].term.digest())
                &&& self.slab_locator@[self.entries()[k].term.digest()]@.contains(k)
            } by {
                assert(marks@.contains(k));
                let j = choose|j: int| 0 <= j < order@.len() && order@[j] == k;
                assert(self.entries().contains_key(order@[j]));
            }
            assert(self.live(self.atom_i()) && self.live(self.atom_k()) && self.live(
                self.atom_s(),
            ));
        }
    }

    /// No two entries hold the same node.
    pub proof fn one_identity_per_node(&self, a: usize, b: usize)
        requires
            self.consistent(),
            self.live(a),
            self.live(b),
            self.term(a) == self.term(b),
        ensures
            a == b,
    {
    }

    /// Interning a node again gives the identity that it was given before,
    /// and adds nothing to the store.
    pub proof fn intern_is_idempotent(
        start: &TermBase,
        once: &TermBase,
        twice: &TermBase,
        term: Term,
        first: usize,
        second: usize,
    )
        requires
            once.wf(),
            once.interns(start, term, first),
            twice.interns(once, term, second),
        ensures
            second == first,
            twice.entries() == once.entries(),
            twice.exprs() == once.exprs(),
    {
        assert(once.holds(term));
        assert(once.live(second));
        once.one_identity_per_node(first, second);
    }

    /// An entry whose tree is that of a node over the store's trees holds
    /// that very node.
    pub proof fn same_tree_same_node(&self, key: usize, term: Term)
        requires
            self.consistent(),
            self.live(key),
            term.closed_in(self.exprs()),
            self.expr(key) == term.denote(self.exprs()),
        ensures
            self.term(key) == term,
    {
        let stored = self.term(key);
        assert(self.expr(key) == stored.denote(self.exprs()));
        match term {
            Term::Ap(l, r) => {
                let (sl, sr) = (stored->Ap_0, stored->Ap_1);
                assert(self.live(l) && self.live(r) && self.live(sl) && self.live(sr));
            },
            Term::Abs(v, b) => {
                let sb = stored->Abs_1;
                assert(self.live(b) && self.live(sb));
            },
            _ => {},
        }
    }
}

} // verus!
