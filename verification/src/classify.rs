//! The classifier: whether a rule applies at the root of a stored term, and
//! the memoized answer to whether the term is in normal form.

use vstd::prelude::*;
use vstd::set_lib::lemma_set_subset_finite;
use crate::store::TermBase;
use crate::term::RewriteKey;
use crate::term::Term;
use crate::term::TermEntry;

verus! {

impl TermBase {
    /// The identities that are not classified yet.
    pub open spec fn unknowns(&self) -> Set<usize> {
        Set::new(|key: usize| self.live(key) && self.memo(key) is Unknown)
    }

    /// Whether this store has the entries of `old` and no others, with the
    /// same nodes and trees. Only the memoized classifications may differ.
    pub open spec fn same_terms(&self, old: &TermBase) -> bool {
        &&& self.extends(old)
        &&& self.exprs() == old.exprs()
        &&& self.entries().dom() == old.entries().dom()
    }

    /// The tree of an entry has the shape of its node, over the trees of the
    /// node's children; and a combinator is found under its identity only.
    pub proof fn tree_of_entry(&self, key: usize)
        requires
            self.wf(),
            self.live(key),
        ensures
            self.expr(key) == self.term(key).denote(self.exprs()),
            self.term(key) matches Term::Ap(l, r) ==> self.live(l) && self.live(r),
            self.term(key) matches Term::Abs(_, b) ==> self.live(b),
            self.expr(key) is I <==> key == self.atom_i(),
            self.expr(key) is K <==> key == self.atom_k(),
            self.expr(key) is S <==> key == self.atom_s(),
            self.expr(key).atomic() <==> self.term(key).is_atom(),
            self.expr(key) is Ap <==> self.term(key) is Ap,
            self.expr(key) is Abs <==> self.term(key) is Abs,
    {
        assert(self.live(self.atom_i()) && self.live(self.atom_k()) && self.live(self.atom_s()));
    }

    /// Every entry on a chain that begins at a classified entry is classified.
    proof fn classified_along(&self, path: Seq<usize>, i: int)
        requires
            self.wf(),
            self.is_path(path),
            !(self.memo(path[0]) is Unknown),
            0 <= i < path.len(),
        ensures
            self.live(path[i]),
            !(self.memo(path[i]) is Unknown),
        decreases i,
    {
        if i > 0 {
            self.classified_along(path, i - 1);
            assert(self.is_link(path, i - 1));
            self.tree_of_entry(path[i - 1]);
            assert(self.settled(path[i - 1]));
        }
    }

    /// Classifications are made from the leaves up: every entry that a
    /// classified entry reaches is classified, and rightly so.
    pub proof fn classified_reaches_classified(&self, key: usize, inner: usize)
        requires
            self.wf(),
            self.live(key),
            !(self.memo(key) is Unknown),
            self.reachable(set![key], inner),
        ensures
            self.live(inner),
            self.memo(inner) is NormalForm <==> self.expr(inner).normal(),
            self.memo(inner) is CanRewrite <==> !self.expr(inner).normal(),
    {
        let path = choose|path: Seq<usize>|
            #![trigger self.is_path(path)]
            self.is_path(path) && set![key].contains(path[0]) && path.last() == inner;
        self.classified_along(path, path.len() - 1);
    }

    /// Every entry on a chain that begins at a term in normal form holds a
    /// term in normal form.
    proof fn normal_along(&self, path: Seq<usize>, i: int)
        requires
            self.wf(),
            self.is_path(path),
            self.expr(path[0]).normal(),
            0 <= i < path.len(),
        ensures
            self.live(path[i]),
            self.expr(path[i]).normal(),
        decreases i,
    {
        if i > 0 {
            self.normal_along(path, i - 1);
            assert(self.is_link(path, i - 1));
            self.tree_of_entry(path[i - 1]);
        }
    }

    /// Below a term in normal form no rule applies: every entry that the
    /// term reaches holds a term in normal form, at whose root no rule
    /// applies.
    pub proof fn normal_form_reaches_no_redex(&self, key: usize, inner: usize)
        requires
            self.wf(),
            self.live(key),
            self.expr(key).normal(),
            self.reachable(set![key], inner),
        ensures
            self.live(inner),
            self.expr(inner).normal(),
            !self.expr(inner).root_redex(),
    {
        let path = choose|path: Seq<usize>|
            #![trigger self.is_path(path)]
            self.is_path(path) && set![key].contains(path[0]) && path.last() == inner;
        self.normal_along(path, path.len() - 1);
    }

    /// Whether one of the rules applies at the root of the term.
    pub fn root_can_rewrite(&self, key: usize) -> (redex: bool)
        requires
            self.wf(),
            self.live(key),
        ensures
            redex == self.expr(key).root_redex(),
    {
        proof {
            self.tree_of_entry(key);
        }
        match self.get(key) {
            Term::Abs(_, a) => {
                proof {
                    self.tree_of_entry(a);
                }
                match self.get(a) {
                    Term::Abs(_, _) => false,
                    _ => true,
                }
            },
            Term::Ap(l, _) => {
                proof {
                    self.tree_of_entry(l);
                }
                if l == self.i_key() {
                    return true;
                }
                match self.get(l) {
                    Term::Ap(ll, _) => {
                        proof {
                            self.tree_of_entry(ll);
                        }
                        if ll == self.k_key() {
                            return true;
                        }
                        match self.get(ll) {
                            Term::Ap(lll, _) => {
                                proof {
                                    self.tree_of_entry(lll);
                                }
                                lll == self.s_key()
                            },
                            _ => false,
                        }
                    },
                    _ => false,
                }
            },
            _ => false,
        }
    }

    /// Recording a classification takes the identity out of the unclassified
    /// ones, of which there are finitely many.
    proof fn unknowns_shrink(&self, old: &TermBase, key: usize, memo: RewriteKey)
        requires
            old.wf(),
            old.live(key),
            old.memo(key) is Unknown,
            !(memo is Unknown),
            self.entries() == old.entries().insert(
                key,
                (TermEntry { term: old.term(key), rewrite_key: memo }),
            ),
        ensures
            old.unknowns().finite(),
            self.unknowns().finite(),
            self.unknowns().len() < old.unknowns().len(),
            self.unknowns() == old.unknowns().remove(key),
    {
        lemma_set_subset_finite(old.entries().dom(), old.unknowns());
        assert(self.unknowns() =~= old.unknowns().remove(key));
        assert(old.unknowns().contains(key));
    }

    /// Classifies the term and everything below it that is not classified
    /// yet, children before parents, with a work stack in place of recursion.
    /// The entries keep their nodes; classifications that were known stay,
    /// and nothing is classified but what the term reaches, all of which is
    /// classified once the term is.
    pub fn assure_rewrite_key_known(&mut self, key: usize)
        requires
            old(self).wf(),
            old(self).live(key),
        ensures
            final(self).wf(),
            final(self).same_terms(old(self)),
            final(self).reclassifies_below(old(self), set![key]),
            !(final(self).memo(key) is Unknown),
    {
        if self.rewrite_key(key) != RewriteKey::Unknown {
            return ;
        }
        let mut stack: Vec<usize> = Vec::new();
        stack.push(key);
        proof {
            lemma_set_subset_finite(self.entries().dom(), self.unknowns());
            self.seed_reachable(set![key], key);
        }
        while stack.len() > 0
            invariant
                self.wf(),
                old(self).wf(),
                self.same_terms(old(self)),
                old(self).live(key),
                self.unknowns().finite(),
                stack@.len() > 0 ==> stack@[0] == key,
                stack@.len() == 0 ==> !(self.memo(key) is Unknown),
                forall|i: int| 0 <= i < stack@.len() ==> self.live(#[trigger] stack@[i]),
                forall|i: int| 0 <= i < stack@.len() ==> self.memo(#[trigger] stack@[i]) is Unknown,
                forall|i: int, j: int|
                    0 <= i < j < stack@.len() ==> self.expr(#[trigger] stack@[i]).height()
                        > self.expr(#[trigger] stack@[j]).height(),
                forall|i: int|
                    0 <= i < stack@.len() ==> old(self).reachable(set![key], #[trigger] stack@[i]),
                forall|k: usize| #[trigger]
                    old(self).live(k) ==> self.memo(k) == old(self).memo(k) || (old(self).memo(
                        k,
                    ) is Unknown && old(self).reachable(set![key], k)),
            decreases
                    self.unknowns().len(),
                    (if stack@.len() > 0 {
                        self.expr(stack@[stack@.len() - 1]).height()
                    } else {
                        0
                    }),
        {
            let top = stack[stack.len() - 1];
            let ghost before = *self;
            let ghost height = self.expr(top).height();
            proof {
                assert(self.live(top));
                self.tree_of_entry(top);
            }
            // The child to classify first, or the classification of `top`.
            let mut child: Option<usize> = None;
            let mut normal = true;
            match self.get(top) {
                Term::Ap(l, r) => {
                    let left = self.rewrite_key(l);
                    let right = self.rewrite_key(r);
                    if left == RewriteKey::Unknown {
                        child = Some(l);
                    } else if right == RewriteKey::Unknown {
                        child = Some(r);
                    } else {
                        normal = left == RewriteKey::NormalForm && right == RewriteKey::NormalForm
                            && !self.root_can_rewrite(top);
                    }
                },
                Term::Abs(_, body) => {
                    let inner = self.rewrite_key(body);
                    if inner == RewriteKey::Unknown {
                        child = Some(body);
                    } else {
                        normal = !self.root_can_rewrite(top) && inner == RewriteKey::NormalForm;
                    }
                },
                _ => {},
            }
            match child {
                Some(c) => {
                    assert(self.expr(c).height() < height);
                    let ghost below = stack@;
                    stack.push(c);
                    proof {
                        assert(old(self).live(top));
                        assert(old(self).is_child(top, c));
                        assert(old(self).reachable(set![key], below[below.len() - 1]));
                        old(self).child_reachable(set![key], top, c);
                        assert forall|i: int| 0 <= i < stack@.len() implies old(self).reachable(
                            set![key],
                            #[trigger] stack@[i],
                        ) by {
                            if i < below.len() {
                                assert(old(self).reachable(set![key], below[i]));
                            }
                        }
                        assert forall|i: int| 0 <= i < stack@.len() implies self.live(
                            #[trigger] stack@[i],
                        ) && self.memo(stack@[i]) is Unknown by {
                            if i < below.len() {
                                assert(self.live(below[i]));
                            }
                        }
                        assert forall|i: int, j: int| 0 <= i < j < stack@.len() implies self.expr(
                            #[trigger] stack@[i],
                        ).height() > self.expr(#[trigger] stack@[j]).height() by {
                            let last = below.len() - 1;
                            if j == below.len() && i < last {
                                assert(self.expr(below[i]).height() > self.expr(
                                    below[last],
                                ).height());
                            }
                        }
                    }
                },
                None => {
                    assert(normal == self.expr(top).normal());
                    let memo = if normal {
                        RewriteKey::NormalForm
                    } else {
                        RewriteKey::CanRewrite
                    };
                    self.set_rewrite_key(top, memo);
                    let ghost above = stack@;
                    stack.pop();
                    proof {
                        assert(old(self).reachable(set![key], above[above.len() - 1]));
                        assert forall|k: usize| #[trigger] old(self).live(k) implies self.memo(k)
                            == old(self).memo(k) || (old(self).memo(k) is Unknown && old(
                            self,
                        ).reachable(set![key], k)) by {
                            assert(before.live(k));
                            if k == top && !(old(self).memo(k) is Unknown) {
                                assert(before.memo(k) == old(self).memo(k));
                            }
                        }
                        assert forall|i: int| 0 <= i < stack@.len() implies old(self).reachable(
                            set![key],
                            #[trigger] stack@[i],
                        ) by {
                            assert(old(self).reachable(set![key], above[i]));
                        }
                        self.unknowns_shrink(&before, top, memo);
                        assert forall|i: int| 0 <= i < stack@.len() implies self.live(
                            #[trigger] stack@[i],
                        ) && self.memo(stack@[i]) is Unknown by {
                            assert(before.live(above[i]));
                            assert(before.expr(above[i]).height() > before.expr(
                                above[above.len() - 1],
                            ).height());
                        }
                        assert forall|i: int, j: int| 0 <= i < j < stack@.len() implies self.expr(
                            #[trigger] stack@[i],
                        ).height() > self.expr(#[trigger] stack@[j]).height() by {
                            assert(before.expr(above[i]).height() > before.expr(
                                above[j],
                            ).height());
                        }
                    }
                },
            }
        }
        proof {
            assert forall|k: usize| #[trigger] old(self).live(k) implies self.memo(k) == old(
                self,
            ).memo(k) || (old(self).memo(k) is Unknown && self.reachable(set![key], k)) by {
                if self.memo(k) != old(self).memo(k) {
                    self.reachable_in_extension(old(self), set![key], k);
                }
            }
        }
    }

    /// Whether the term is in normal form or can still be rewritten. The
    /// answer is computed once and memoized.
    pub fn classify(&mut self, key: usize) -> (class: RewriteKey)
        requires
            old(self).wf(),
            old(self).live(key),
        ensures
            final(self).wf(),
            final(self).same_terms(old(self)),
            class == final(self).memo(key),
            class is NormalForm <==> old(self).expr(key).normal(),
            class is CanRewrite <==> !old(self).expr(key).normal(),
            final(self).reclassifies_below(old(self), set![key]),
    {
        self.assure_rewrite_key_known(key);
        proof {
            assert(self.live(key));
        }
        self.rewrite_key(key)
    }

    /// Whether the term is in normal form.
    pub fn normal_form(&mut self, key: usize) -> (normal: bool)
        requires
            old(self).wf(),
            old(self).live(key),
        ensures
            final(self).wf(),
            final(self).same_terms(old(self)),
            normal == old(self).expr(key).normal(),
            final(self).reclassifies_below(old(self), set![key]),
            !(final(self).memo(key) is Unknown),
    {
        self.classify(key) == RewriteKey::NormalForm
    }
}

} // verus!
