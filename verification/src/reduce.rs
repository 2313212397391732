//! The reduction engine: the rules at the root of a stored term, one step of
//! outermost-leftmost reduction, and the driver that steps up to a bound.

use vstd::prelude::*;
use crate::expr::Expr;
use crate::expr::ap;
use crate::expr::abs;
use crate::expr::step_fixes_normal_forms_only;
use crate::store::TermBase;
use crate::term::Term;

verus! {

/// One level of the way from a term down to the subterm that is rewritten:
/// which child the way takes, and what stays beside it.
#[derive(Clone, Copy, Debug, PartialEq, Eq, Structural)]
pub enum Frame {
    /// Into the function of an application with this argument.
    Function(usize),
    /// Into the argument of an application of this function.
    Argument(usize),
    /// Into the body of an abstraction of this variable.
    Body(char),
}

/// What became of a run of the driver.
#[derive(Clone, Copy, Debug, PartialEq, Eq, Structural)]
pub enum Outcome {
    /// The last term of the trace is in normal form.
    NormalForm,
    /// The bound on the number of steps was reached, and the last term of
    /// the trace is not in normal form.
    BoundExhausted,
}

/// A run of the driver: the term it started from and the result of each
/// step, in order, and how the run ended.
#[derive(Debug)]
pub struct Reduction {
    pub trace: Vec<usize>,
    pub outcome: Outcome,
}

impl Reduction {
    /// Whether this is the run of the driver from the tree `start` with the
    /// bound `bound`, over the identities of `store`: the trace begins with
    /// `start` and each further term is one step from the one before it; the
    /// driver stepped as long as the term was not in normal form and fewer
    /// than `bound` steps were taken; and it reports whether the last term is
    /// in normal form.
    pub open spec fn runs(&self, store: &TermBase, start: Expr, bound: nat) -> bool {
        let taken = self.trace@.len() - 1;
        &&& 0 <= taken <= bound
        &&& forall|i: int|
            0 <= i <= taken ==> store.live(#[trigger] self.trace@[i]) && store.expr(self.trace@[i])
                == start.steps(i as nat)
        &&& forall|i: int| 0 <= i < taken ==> !(#[trigger] start.steps(i as nat)).normal()
        &&& taken < bound ==> start.steps(taken as nat).normal()
        &&& self.outcome is NormalForm <==> start.steps(taken as nat).normal()
    }
}

/// A run is a run over every store that extends the one it was made over.
pub proof fn run_in_extension(
    run: &Reduction,
    store: &TermBase,
    later: &TermBase,
    start: Expr,
    bound: nat,
)
    requires
        run.runs(store, start, bound),
        later.extends(store),
    ensures
        run.runs(later, start, bound),
{
    assert forall|i: int| 0 <= i <= run.trace@.len() - 1 implies later.live(
        #[trigger] run.trace@[i],
    ) && later.expr(run.trace@[i]) == start.steps(i as nat) by {
        assert(store.live(run.trace@[i]));
    }
}

/// The driver is deterministic: two runs from the same tree with the same
/// bound, over one store, have the same trace and the same outcome.
pub proof fn runs_agree(
    first: &Reduction,
    second: &Reduction,
    store: &TermBase,
    start: Expr,
    bound: nat,
)
    requires
        store.wf(),
        first.runs(store, start, bound),
        second.runs(store, start, bound),
    ensures
        first.trace@ == second.trace@,
        first.outcome == second.outcome,
{
    let a = first.trace@.len() - 1;
    let b = second.trace@.len() - 1;
    if a < b {
        assert(!start.steps(a as nat).normal());
    }
    if b < a {
        assert(!start.steps(b as nat).normal());
    }
    assert forall|i: int| 0 <= i <= a implies first.trace@[i] == second.trace@[i] by {
        assert(store.live(first.trace@[i]));
        assert(store.live(second.trace@[i]));
    }
    assert(first.trace@ =~= second.trace@);
}

/// Running the driver again gives the same run: where a second run from the
/// same tree with the same bound is made over a store that extends the store
/// of the first, the two have the same trace and the same outcome.
pub proof fn repeated_runs_agree(
    first: &Reduction,
    after_first: &TermBase,
    second: &Reduction,
    after_second: &TermBase,
    start: Expr,
    bound: nat,
)
    requires
        after_second.wf(),
        after_second.extends(after_first),
        first.runs(after_first, start, bound),
        second.runs(after_second, start, bound),
    ensures
        first.trace@ == second.trace@,
        first.outcome == second.outcome,
{
    run_in_extension(first, after_first, after_second, start, bound);
    runs_agree(first, second, after_second, start, bound);
}

impl Frame {
    /// The tree with `inner` in the place that the frame leaves open.
    pub open spec fn fill(self, exprs: Map<usize, Expr>, inner: Expr) -> Expr {
        match self {
            Frame::Function(a) => ap(inner, exprs[a]),
            Frame::Argument(f) => ap(exprs[f], inner),
            Frame::Body(v) => abs(v, inner),
        }
    }

    /// Whether the identity that the frame names has a tree in `exprs`.
    pub open spec fn closed_in(self, exprs: Map<usize, Expr>) -> bool {
        match self {
            Frame::Function(a) => exprs.contains_key(a),
            Frame::Argument(f) => exprs.contains_key(f),
            Frame::Body(_) => true,
        }
    }
}

/// The tree with `inner` at the end of the way that the frames describe,
/// outermost frame first.
pub open spec fn plug(frames: Seq<Frame>, exprs: Map<usize, Expr>, inner: Expr) -> Expr
    decreases frames.len(),
{
    if frames.len() == 0 {
        inner
    } else {
        plug(frames.drop_last(), exprs, frames.last().fill(exprs, inner))
    }
}

impl TermBase {
    /// A store that extends one that extends `old` extends `old`.
    pub proof fn extends_trans(&self, mid: &TermBase, old: &TermBase)
        requires
            self.extends(mid),
            mid.extends(old),
        ensures
            self.extends(old),
    {
        assert forall|key: usize| #[trigger] old.live(key) implies self.live(key) && self.term(key)
            == old.term(key) && self.expr(key) == old.expr(key) by {
            assert(mid.live(key));
        }
    }

    /// Interns the application of `f` to `a`.
    fn intern_ap(&mut self, f: usize, a: usize) -> (key: usize)
        requires
            old(self).wf(),
            old(self).live(f),
            old(self).live(a),
        ensures
            final(self).wf(),
            final(self).grows_below(old(self), set![key]),
            final(self).leaves_classifications(old(self)),
            final(self).live(key),
            final(self).term(key) == Term::Ap(f, a),
            final(self).expr(key) == ap(old(self).expr(f), old(self).expr(a)),
    {
        let key = self.intern(Term::Ap(f, a));
        proof {
            self.interning_grows_below(old(self), Term::Ap(f, a), key);
            self.interning_leaves_classifications(old(self), Term::Ap(f, a), key);
        }
        key
    }

    /// Interns the abstraction of `v` over `body`.
    fn intern_abs(&mut self, v: char, body: usize) -> (key: usize)
        requires
            old(self).wf(),
            old(self).live(body),
        ensures
            final(self).wf(),
            final(self).grows_below(old(self), set![key]),
            final(self).leaves_classifications(old(self)),
            final(self).live(key),
            final(self).term(key) == Term::Abs(v, body),
            final(self).expr(key) == abs(v, old(self).expr(body)),
    {
        let key = self.intern(Term::Abs(v, body));
        proof {
            self.interning_grows_below(old(self), Term::Abs(v, body), key);
            self.interning_leaves_classifications(old(self), Term::Abs(v, body), key);
        }
        key
    }

    /// Applies the rule that matches at the root of the term and gives the
    /// identity of the result, which is interned; the term's own identity
    /// where no rule matches. No entry is changed, and the entries that are
    /// added are those that the result needs, unclassified.
    pub fn root_rewrite(&mut self, key: usize) -> (result: usize)
        requires
            old(self).wf(),
            old(self).live(key),
        ensures
            final(self).wf(),
            final(self).grows_below(old(self), set![result]),
            final(self).leaves_classifications(old(self)),
            final(self).live(result),
            final(self).expr(result) == old(self).expr(key).rewrite_root(),
            !old(self).expr(key).root_redex() ==> result == key,
    {
        proof {
            self.tree_of_entry(key);
        }
        match self.get(key) {
            Term::Abs(v, a) => {
                proof {
                    self.tree_of_entry(a);
                }
                match self.get(a) {
                    Term::Abs(_, _) => key,
                    Term::Ap(al, ar) => {
                        let s = self.s_key();
                        let ghost s0 = *self;
                        let new_left = self.intern_abs(v, al);
                        let ghost s1 = *self;
                        assert(self.live(ar));
                        let new_right = self.intern_abs(v, ar);
                        let ghost s2 = *self;
                        proof {
                            s2.grows_below_regroup(
                                &s1,
                                &s0,
                                set![new_left],
                                new_right,
                                set![new_left, new_right],
                            );
                            s2.leaves_classifications_trans(&s1, &s0);
                            assert(s1.live(new_left));
                            assert(s0.live(s));
                            s0.tree_of_entry(s);
                        }
                        let inner = self.intern_ap(s, new_left);
                        let ghost s3 = *self;
                        proof {
                            s3.grows_below_regroup(
                                &s2,
                                &s0,
                                set![new_left, new_right],
                                inner,
                                set![inner, new_right],
                            );
                            s3.leaves_classifications_trans(&s2, &s0);
                            assert(s2.live(new_right));
                        }
                        let outer = self.intern_ap(inner, new_right);
                        proof {
                            self.grows_below_regroup(
                                &s3,
                                &s0,
                                set![inner, new_right],
                                outer,
                                set![outer],
                            );
                            self.leaves_classifications_trans(&s3, &s0);
                        }
                        outer
                    },
                    Term::Var(x) => {
                        if v == x {
                            proof {
                                self.tree_of_entry(self.atom_i());
                            }
                            self.i_key()
                        } else {
                            let k = self.k_key();
                            proof {
                                self.tree_of_entry(k);
                            }
                            self.intern_ap(k, a)
                        }
                    },
                    _ => {
                        let k = self.k_key();
                        proof {
                            self.tree_of_entry(k);
                        }
                        self.intern_ap(k, a)
                    },
                }
            },
            Term::Ap(l, r) => {
                proof {
                    self.tree_of_entry(l);
                }
                if l == self.i_key() {
                    return r;
                }
                match self.get(l) {
                    Term::Ap(ll, lr) => {
                        proof {
                            self.tree_of_entry(ll);
                        }
                        if ll == self.k_key() {
                            return lr;
                        }
                        match self.get(ll) {
                            Term::Ap(lll, llr) => {
                                proof {
                                    self.tree_of_entry(lll);
                                }
                                if lll == self.s_key() {
                                    let ghost s0 = *self;
                                    let left = self.intern_ap(llr, r);
                                    let ghost s1 = *self;
                                    assert(self.live(lr) && self.live(r));
                                    let right = self.intern_ap(lr, r);
                                    let ghost s2 = *self;
                                    proof {
                                        s2.grows_below_regroup(
                                            &s1,
                                            &s0,
                                            set![left],
                                            right,
                                            set![left, right],
                                        );
                                        s2.leaves_classifications_trans(&s1, &s0);
                                        assert(s1.live(left));
                                    }
                                    let whole = self.intern_ap(left, right);
                                    proof {
                                        self.grows_below_regroup(
                                            &s2,
                                            &s0,
                                            set![left, right],
                                            whole,
                                            set![whole],
                                        );
                                        self.leaves_classifications_trans(&s2, &s0);
                                    }
                                    whole
                                } else {
                                    key
                                }
                            },
                            _ => key,
                        }
                    },
                    _ => key,
                }
            },
            _ => key,
        }
    }

    /// One step of outermost-leftmost reduction. A term in normal form is
    /// returned as it is. Else the rule at the root is applied where one
    /// matches; where none does, the step is taken in the function of an
    /// application if that is not in normal form, else in its argument, and
    /// in the body of an abstraction. The way down is kept on a work stack,
    /// and the terms along it are interned anew around the result. The store
    /// gains the entries that the result needs, unclassified; the term and
    /// what it reaches are classified, and nothing else is.
    pub fn step(&mut self, key: usize) -> (result: usize)
        requires
            old(self).wf(),
            old(self).live(key),
        ensures
            final(self).wf(),
            final(self).grows_below(old(self), set![result]),
            final(self).adds_unclassified(old(self)),
            final(self).reclassifies_below(old(self), set![key]),
            !(final(self).memo(key) is Unknown),
            final(self).live(result),
            final(self).expr(result) == old(self).expr(key).step(),
            result == key <==> old(self).expr(key).normal(),
    {
        proof {
            step_fixes_normal_forms_only(self.expr(key));
        }
        if self.normal_form(key) {
            assert(self.grows_below(old(self), set![key])) by {
                assert forall|k: usize| #[trigger] self.live(k) implies old(self).live(k) by {}
            }
            return key;
        }
        let ghost goal = old(self).expr(key).step();
        let ghost exprs = self.exprs();
        let mut frames: Vec<Frame> = Vec::new();
        let mut cur = key;
        proof {
            self.seed_reachable(set![key], key);
        }
        loop
            invariant
                self.wf(),
                self.same_terms(old(self)),
                self.reclassifies_below(old(self), set![key]),
                !(self.memo(key) is Unknown),
                old(self).live(key),
                self.reachable(set![key], cur),
                self.exprs() == exprs,
                self.live(cur),
                !self.expr(cur).normal(),
                forall|i: int| 0 <= i < frames@.len() ==> (#[trigger] frames@[i]).closed_in(exprs),
                plug(frames@, exprs, self.expr(cur).step()) == goal,
            ensures
                self.wf(),
                self.same_terms(old(self)),
                self.reclassifies_below(old(self), set![key]),
                !(self.memo(key) is Unknown),
                self.exprs() == exprs,
                self.live(cur),
                self.expr(cur).root_redex(),
                !self.expr(cur).normal(),
                forall|i: int| 0 <= i < frames@.len() ==> (#[trigger] frames@[i]).closed_in(exprs),
                plug(frames@, exprs, self.expr(cur).step()) == goal,
            decreases self.expr(cur).height(),
        {
            if self.root_can_rewrite(cur) {
                break ;
            }
            proof {
                self.tree_of_entry(cur);
            }
            let ghost here = self.expr(cur);
            let ghost before = frames@;
            let ghost at = cur;
            let ghost reached = *self;
            match self.get(cur) {
                Term::Ap(l, r) => {
                    proof {
                        self.child_reachable(set![key], cur, l);
                    }
                    let left_normal = self.normal_form(l);
                    proof {
                        assert(reached.live(key));
                        assert forall|t: usize| #[trigger] set![key].contains(t) && self.live(
                            t,
                        ) implies self.reachable(set![key], t) by {
                            self.seed_reachable(set![key], t);
                        }
                        assert forall|t: usize| #[trigger] set![l].contains(t) && self.live(
                            t,
                        ) implies self.reachable(set![key], t) by {
                            self.reachable_in_extension(&reached, set![key], l);
                        }
                        self.reclassifies_below_trans(
                            &reached,
                            old(self),
                            set![key],
                            set![l],
                            set![key],
                        );
                    }
                    if left_normal {
                        frames.push(Frame::Argument(l));
                        cur = r;
                    } else {
                        frames.push(Frame::Function(r));
                        cur = l;
                    }
                },
                Term::Abs(v, body) => {
                    frames.push(Frame::Body(v));
                    cur = body;
                },
                _ => {
                    // Not reached: an atom is in normal form.
                    return key;
                },
            }
            proof {
                self.reachable_in_extension(&reached, set![key], at);
                assert(self.is_child(at, cur));
                self.child_reachable(set![key], at, cur);
                assert(frames@.drop_last() =~= before);
                assert(frames@.last().fill(exprs, self.expr(cur).step()) == here.step());
                assert forall|i: int| 0 <= i < frames@.len() implies (
                #[trigger] frames@[i]).closed_in(exprs) by {
                    if i < before.len() {
                        assert(before[i].closed_in(exprs));
                    }
                }
            }
        }
        let ghost found = *self;
        let mut result = self.root_rewrite(cur);
        while frames.len() > 0
            invariant
                self.wf(),
                self.grows_below(&found, set![result]),
                self.leaves_classifications(&found),
                found.reclassifies_below(old(self), set![key]),
                found.live(key),
                !(found.memo(key) is Unknown),
                self.live(result),
                forall|i: int| 0 <= i < frames@.len() ==> (#[trigger] frames@[i]).closed_in(exprs),
                found.wf(),
                found.exprs() == exprs,
                found.same_terms(old(self)),
                plug(frames@, exprs, self.expr(result)) == goal,
            decreases frames@.len(),
        {
            let ghost before = *self;
            let ghost above = frames@;
            let frame = frames.pop().unwrap();
            proof {
                assert(above.drop_last() =~= frames@);
                assert(above.last() == frame);
                assert(above[above.len() - 1].closed_in(exprs));
                match frame {
                    Frame::Function(a) => {
                        assert(found.live(a));
                    },
                    Frame::Argument(f) => {
                        assert(found.live(f));
                    },
                    Frame::Body(_) => {},
                }
            }
            let ghost below = result;
            result = match frame {
                Frame::Function(a) => self.intern_ap(result, a),
                Frame::Argument(f) => self.intern_ap(f, result),
                Frame::Body(v) => self.intern_abs(v, result),
            };
            proof {
                self.grows_below_regroup(&before, &found, set![below], result, set![result]);
                self.leaves_classifications_trans(&before, &found);
                assert forall|i: int| 0 <= i < frames@.len() implies (
                #[trigger] frames@[i]).closed_in(exprs) by {
                    assert(above[i].closed_in(exprs));
                }
            }
        }
        proof {
            self.grows_below_from_reclassified(&found, old(self), set![result]);
            self.reclassifies_below_kept(&found, old(self), set![key]);
            assert(self.live(key));
            assert forall|k: usize| #[trigger] self.live(k) && !old(self).live(k) implies self.memo(
                k,
            ) is Unknown by {
                assert(!found.live(k));
            }
        }
        result
    }

    /// What holds of a run in progress: the store has grown by what the
    /// terms of the trace need, each term of the trace is one step from the
    /// one before it, and all but the last are classified, as not in normal
    /// form.
    spec fn run_so_far(&self, old: &TermBase, trace: Seq<usize>, start: Expr) -> bool {
        &&& self.wf()
        &&& trace.len() > 0
        &&& self.grows_below(old, trace.to_set())
        &&& self.reclassifies_below(old, trace.to_set())
        &&& forall|i: int|
            0 <= i < trace.len() ==> self.live(#[trigger] trace[i]) && self.expr(trace[i])
                == start.steps(i as nat)
        &&& forall|i: int| 0 <= i < trace.len() - 1 ==> !(#[trigger] start.steps(i as nat)).normal()
        &&& forall|i: int| 0 <= i < trace.len() - 1 ==> !(self.memo(#[trigger] trace[i]) is Unknown)
    }

    /// Classifying the last term of the trace keeps the run in progress.
    proof fn run_checked(&self, before: &TermBase, old: &TermBase, trace: Seq<usize>, start: Expr)
        requires
            before.run_so_far(old, trace, start),
            self.wf(),
            self.same_terms(before),
            self.reclassifies_below(before, set![trace.last()]),
            !(self.memo(trace.last()) is Unknown),
        ensures
            self.run_so_far(old, trace, start),
            forall|i: int| 0 <= i < trace.len() ==> !(self.memo(#[trigger] trace[i]) is Unknown),
    {
        let tops = trace.to_set();
        let last = trace.last();
        assert(trace[trace.len() - 1] == last);
        assert forall|i: int| 0 <= i < trace.len() implies self.live(#[trigger] trace[i])
            && self.expr(trace[i]) == start.steps(i as nat) && !(self.memo(trace[i]) is Unknown) by {
            assert(before.live(trace[i]));
        }
        assert forall|t: usize| #[trigger] tops.contains(t) && self.live(t) implies self.reachable(
            tops,
            t,
        ) by {
            self.seed_reachable(tops, t);
        }
        assert forall|t: usize| #[trigger] set![last].contains(t) && self.live(
            t,
        ) implies self.reachable(tops, t) by {
            self.seed_reachable(tops, t);
        }
        self.reclassifies_below_trans(before, old, tops, set![last], tops);
        self.grows_below_reclassified(before, old, tops);
    }

    /// A step from the last term of the trace carries the run on.
    proof fn run_stepped(
        &self,
        checked: &TermBase,
        old: &TermBase,
        trace: Seq<usize>,
        start: Expr,
        next: usize,
    )
        requires
            checked.run_so_far(old, trace, start),
            !(checked.memo(trace.last()) is Unknown),
            !start.steps((trace.len() - 1) as nat).normal(),
            self.wf(),
            self.grows_below(checked, set![next]),
            self.reclassifies_below(checked, set![trace.last()]),
            self.live(next),
            self.expr(next) == checked.expr(trace.last()).step(),
        ensures
            self.run_so_far(old, trace.push(next), start),
    {
        let longer = trace.push(next);
        let last = trace.last();
        assert(trace[trace.len() - 1] == last);
        assert(longer.to_set() =~= trace.to_set().insert(next)) by {
            assert forall|x: usize| longer.to_set().contains(x) <==> trace.to_set().insert(
                next,
            ).contains(x) by {
                if trace.contains(x) {
                    let i = choose|i: int| 0 <= i < trace.len() && trace[i] == x;
                    assert(longer[i] == x);
                }
                if longer.contains(x) {
                    let i = choose|i: int| 0 <= i < longer.len() && longer[i] == x;
                    if i < trace.len() {
                        assert(trace[i] == x);
                    }
                }
                assert(longer[trace.len() as int] == next);
            }
        }
        assert forall|t: usize| #[trigger] trace.to_set().contains(t) && self.live(
            t,
        ) implies self.reachable(longer.to_set(), t) by {
            self.seed_reachable(longer.to_set(), t);
        }
        assert forall|t: usize| #[trigger] set![last].contains(t) && self.live(
            t,
        ) implies self.reachable(longer.to_set(), t) by {
            self.seed_reachable(longer.to_set(), t);
        }
        self.reclassifies_below_trans(checked, old, trace.to_set(), set![last], longer.to_set());
        self.grows_below_regroup(checked, old, trace.to_set(), next, longer.to_set());
        assert forall|i: int| 0 <= i < longer.len() implies self.live(#[trigger] longer[i])
            && self.expr(longer[i]) == start.steps(i as nat) by {
            if i < trace.len() {
                assert(checked.live(trace[i]));
            }
        }
        assert forall|i: int| 0 <= i < longer.len() - 1 implies !(self.memo(
            #[trigger] longer[i],
        ) is Unknown) by {
            assert(checked.live(trace[i]));
            if i < trace.len() - 1 {
                assert(!(checked.memo(trace[i]) is Unknown));
            }
        }
    }

    /// Steps from the term until it is in normal form or `step_bound` steps
    /// are taken, and records the term and the result of each step. The bound
    /// is the only safeguard: reduction need not end. The store gains the
    /// entries that the terms of the trace need; these terms and what they
    /// reach are classified, and nothing else is.
    pub fn normalize(&mut self, key: usize, step_bound: usize) -> (run: Reduction)
        requires
            old(self).wf(),
            old(self).live(key),
        ensures
            final(self).wf(),
            final(self).grows_below(old(self), run.trace@.to_set()),
            final(self).reclassifies_below(old(self), run.trace@.to_set()),
            forall|i: int|
                0 <= i < run.trace@.len() ==> !(final(self).memo(#[trigger] run.trace@[i])
                    is Unknown),
            run.runs(final(self), old(self).expr(key), step_bound as nat),
    {
        let ghost start = self.expr(key);
        let mut trace: Vec<usize> = Vec::new();
        trace.push(key);
        let mut k = key;
        let mut taken: usize = 0;
        proof {
            assert(trace@[0] == key);
            assert(self.grows_below(old(self), trace@.to_set()));
            assert(self.reclassifies_below(old(self), trace@.to_set()));
        }
        loop
            invariant
                self.run_so_far(old(self), trace@, start),
                start == old(self).expr(key),
                taken <= step_bound,
                trace@.len() == taken + 1,
                trace@.last() == k,
            decreases step_bound - taken,
        {
            let ghost before = *self;
            assert(self.live(trace@[taken as int]));
            assert(self.expr(trace@[taken as int]) == start.steps(taken as nat));
            let normal = self.normal_form(k);
            proof {
                self.run_checked(&before, old(self), trace@, start);
            }
            if normal {
                return Reduction { trace, outcome: Outcome::NormalForm };
            }
            if taken >= step_bound {
                return Reduction { trace, outcome: Outcome::BoundExhausted };
            }
            let ghost checked = *self;
            let ghost so_far = trace@;
            k = self.step(k);
            trace.push(k);
            taken += 1;
            proof {
                self.run_stepped(&checked, old(self), so_far, start, k);
            }
        }
    }
}

} // verus!
