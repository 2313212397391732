//! Terms as finite trees, and the reduction rules stated on them. This is the
//! model that the store is held to: every identity of a store stands for one
//! such tree.

use vstd::prelude::*;

verus! {

/// A term of the calculus, written out in full.
pub enum Expr {
    I,
    K,
    S,
    Var(char),
    Ap(Box<Expr>, Box<Expr>),
    Abs(char, Box<Expr>),
}

/// The application of `f` to `a`.
pub open spec fn ap(f: Expr, a: Expr) -> Expr {
    Expr::Ap(Box::new(f), Box::new(a))
}

/// The abstraction of `v` over `body`.
pub open spec fn abs(v: char, body: Expr) -> Expr {
    Expr::Abs(v, Box::new(body))
}

impl Expr {
    /// A combinator or a variable.
    pub open spec fn atomic(self) -> bool {
        self is I || self is K || self is S || self is Var
    }

    /// One more than the longest chain of children below the root.
    pub open spec fn height(self) -> nat
        decreases self,
    {
        match self {
            Expr::Ap(l, r) => 1 + if l.height() >= r.height() {
                l.height()
            } else {
                r.height()
            },
            Expr::Abs(_, b) => 1 + b.height(),
            _ => 0,
        }
    }

    /// `I x`.
    pub open spec fn i_redex(self) -> bool {
        self matches Expr::Ap(l, _) && *l is I
    }

    /// `K a y`.
    pub open spec fn k_redex(self) -> bool {
        self matches Expr::Ap(l, _) && *l matches Expr::Ap(ll, _) && *ll is K
    }

    /// `S a b z`.
    pub open spec fn s_redex(self) -> bool {
        self matches Expr::Ap(l, _) && *l matches Expr::Ap(ll, _) && *ll matches Expr::Ap(lll, _)
            && *lll is S
    }

    /// An abstraction whose body is an atom or an application.
    pub open spec fn bracket_redex(self) -> bool {
        self matches Expr::Abs(_, b) && (b.atomic() || *b is Ap)
    }

    /// Whether one of the rules applies at the root.
    pub open spec fn root_redex(self) -> bool {
        self.i_redex() || self.k_redex() || self.s_redex() || self.bracket_redex()
    }

    /// What the rule that applies at the root makes of the term; the term
    /// itself where none applies.
    pub open spec fn rewrite_root(self) -> Expr {
        match self {
            Expr::Ap(l, r) => match *l {
                Expr::I => *r,
                Expr::Ap(ll, lr) => match *ll {
                    Expr::K => *lr,
                    Expr::Ap(lll, llr) => if *lll is S {
                        ap(ap(*llr, *r), ap(*lr, *r))
                    } else {
                        self
                    },
                    _ => self,
                },
                _ => self,
            },
            Expr::Abs(v, b) => match *b {
                Expr::Ap(a, c) => ap(ap(Expr::S, abs(v, *a)), abs(v, *c)),
                Expr::Abs(_, _) => self,
                Expr::Var(x) => if x == v {
                    Expr::I
                } else {
                    ap(Expr::K, *b)
                },
                _ => ap(Expr::K, *b),
            },
            _ => self,
        }
    }

    /// A term is in normal form when no rule applies at its root and its
    /// children are in normal form.
    pub open spec fn normal(self) -> bool
        decreases self,
    {
        match self {
            Expr::Ap(l, r) => l.normal() && r.normal() && !self.root_redex(),
            Expr::Abs(_, b) => !self.root_redex() && b.normal(),
            _ => true,
        }
    }

    /// One step of outermost-leftmost reduction: the rule at the root where
    /// one applies, else a step in the first child that is not in normal form.
    /// A normal form is left as it is.
    pub open spec fn step(self) -> Expr
        decreases self,
    {
        if self.normal() {
            self
        } else if self.root_redex() {
            self.rewrite_root()
        } else {
            match self {
                Expr::Ap(l, r) => if !l.normal() {
                    ap(l.step(), *r)
                } else {
                    ap(*l, r.step())
                },
                Expr::Abs(v, b) => abs(v, b.step()),
                _ => self,
            }
        }
    }

    /// The term after `n` steps.
    pub open spec fn steps(self, n: nat) -> Expr
        decreases n,
    {
        if n == 0 {
            self
        } else {
            self.steps((n - 1) as nat).step()
        }
    }
}

/// The `I` rule: `I x` rewrites to `x`, and that is the step taken.
pub proof fn i_rule(x: Expr)
    ensures
        ap(Expr::I, x).root_redex(),
        ap(Expr::I, x).rewrite_root() == x,
        ap(Expr::I, x).step() == x,
{
}

/// The `K` rule: `K x y` rewrites to `x`, and that is the step taken.
pub proof fn k_rule(x: Expr, y: Expr)
    ensures
        ap(ap(Expr::K, x), y).root_redex(),
        ap(ap(Expr::K, x), y).rewrite_root() == x,
        ap(ap(Expr::K, x), y).step() == x,
{
}

/// The `S` rule: `S x y z` rewrites to `x z (y z)`, and that is the step
/// taken.
pub proof fn s_rule(x: Expr, y: Expr, z: Expr)
    ensures
        ap(ap(ap(Expr::S, x), y), z).root_redex(),
        ap(ap(ap(Expr::S, x), y), z).rewrite_root() == ap(ap(x, z), ap(y, z)),
        ap(ap(ap(Expr::S, x), y), z).step() == ap(ap(x, z), ap(y, z)),
{
}

/// Abstraction of a variable over itself gives `I`.
pub proof fn bracket_same_variable(v: char)
    ensures
        abs(v, Expr::Var(v)).root_redex(),
        abs(v, Expr::Var(v)).rewrite_root() == Expr::I,
        abs(v, Expr::Var(v)).step() == Expr::I,
{
}

/// Abstraction over any other atom gives `K` applied to the atom.
pub proof fn bracket_other_atom(v: char, atom: Expr)
    requires
        atom.atomic(),
        atom != Expr::Var(v),
    ensures
        abs(v, atom).root_redex(),
        abs(v, atom).rewrite_root() == ap(Expr::K, atom),
        abs(v, atom).step() == ap(Expr::K, atom),
{
}

/// Abstraction over an application gives `S` applied to the abstractions
/// over its two parts.
pub proof fn bracket_application(v: char, a: Expr, b: Expr)
    ensures
        abs(v, ap(a, b)).root_redex(),
        abs(v, ap(a, b)).rewrite_root() == ap(ap(Expr::S, abs(v, a)), abs(v, b)),
        abs(v, ap(a, b)).step() == ap(ap(Expr::S, abs(v, a)), abs(v, b)),
{
}

/// No rule applies at the root of an abstraction over an abstraction: the
/// step is taken in the body.
pub proof fn bracket_nested(v: char, w: char, body: Expr)
    ensures
        !abs(v, abs(w, body)).root_redex(),
        !abs(v, abs(w, body)).normal(),
        abs(v, abs(w, body)).step() == abs(v, abs(w, body).step()),
{
    no_abstraction_is_normal(abs(w, body));
    assert(!abs(v, abs(w, body)).normal());
}

/// An abstraction is never in normal form: at the end of a chain of binders
/// stands a body at which a bracket rule applies.
pub proof fn no_abstraction_is_normal(e: Expr)
    requires
        e is Abs,
    ensures
        !e.normal(),
    decreases e,
{
    match e {
        Expr::Abs(_, b) => {
            if *b is Abs {
                no_abstraction_is_normal(*b);
            }
        },
        _ => {},
    }
}

/// Whether `inner` occurs in `e`, as `e` itself or below it.
pub open spec fn occurs_in(inner: Expr, e: Expr) -> bool
    decreases e,
{
    inner == e || match e {
        Expr::Ap(l, r) => occurs_in(inner, *l) || occurs_in(inner, *r),
        Expr::Abs(_, b) => occurs_in(inner, *b),
        _ => false,
    }
}

/// In a normal form no rule applies anywhere: not at the root of the term
/// and not at the root of anything that occurs in it.
pub proof fn normal_form_has_no_redex(e: Expr, inner: Expr)
    requires
        e.normal(),
        occurs_in(inner, e),
    ensures
        !inner.root_redex(),
        inner.normal(),
    decreases e,
{
    if inner != e {
        match e {
            Expr::Ap(l, r) => {
                if occurs_in(inner, *l) {
                    normal_form_has_no_redex(*l, inner);
                } else {
                    normal_form_has_no_redex(*r, inner);
                }
            },
            Expr::Abs(_, b) => {
                normal_form_has_no_redex(*b, inner);
            },
            _ => {},
        }
    }
}

/// A rule that applies at the root changes the term.
pub proof fn rewrite_changes(e: Expr)
    requires
        e.root_redex(),
    ensures
        e.rewrite_root() != e,
{
    match e {
        Expr::Ap(l, r) => {
            match *l {
                Expr::I => {
                    assert(r.height() < e.height());
                },
                Expr::Ap(ll, lr) => {
                    match *ll {
                        Expr::K => {
                            assert(lr.height() < l.height());
                            assert(l.height() < e.height());
                        },
                        Expr::Ap(lll, llr) => {
                            assert(llr.height() < ll.height());
                        },
                        _ => {},
                    }
                },
                _ => {},
            }
        },
        _ => {},
    }
}

/// A step leaves a term as it is exactly when the term is in normal form.
pub proof fn step_fixes_normal_forms_only(e: Expr)
    ensures
        e.step() == e <==> e.normal(),
    decreases e,
{
    if !e.normal() {
        if e.root_redex() {
            rewrite_changes(e);
        } else {
            match e {
                Expr::Ap(l, r) => {
                    step_fixes_normal_forms_only(*l);
                    step_fixes_normal_forms_only(*r);
                },
                Expr::Abs(_, b) => {
                    step_fixes_normal_forms_only(*b);
                },
                _ => {},
            }
        }
    }
}

/// Once a normal form is reached, further steps change nothing.
pub proof fn steps_stay_at_normal_form(e: Expr, n: nat, more: nat)
    requires
        e.steps(n).normal(),
    ensures
        e.steps(n + more) == e.steps(n),
    decreases more,
{
    if more > 0 {
        steps_stay_at_normal_form(e, n, (more - 1) as nat);
    }
}

} // verus!
