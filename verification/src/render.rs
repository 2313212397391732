//! The text of a term: applications by juxtaposition, an argument in
//! parentheses unless it is an atom, and the binders of nested abstractions
//! in one pair of brackets.

use vstd::prelude::*;
use crate::expr::Expr;
use crate::store::TermBase;
use crate::term::Term;

verus! {

/// The number of nodes of a tree.
pub open spec fn size(e: Expr) -> nat
    decreases e,
{
    match e {
        Expr::Ap(l, r) => 1 + size(*l) + size(*r),
        Expr::Abs(_, b) => 1 + size(*b),
        _ => 1,
    }
}

/// The text of a tree.
pub open spec fn show(e: Expr) -> Seq<char>
    decreases e, 1nat,
{
    match e {
        Expr::I => seq!['I'],
        Expr::K => seq!['K'],
        Expr::S => seq!['S'],
        Expr::Var(c) => seq![c],
        Expr::Ap(l, r) => show(*l) + wrapped(*r),
        Expr::Abs(v, b) => seq!['[', v] + binders(*b),
    }
}

/// The text of a tree where it stands as an argument or a body: in
/// parentheses unless it is an atom.
pub open spec fn wrapped(e: Expr) -> Seq<char>
    decreases e, 2nat,
{
    if e.atomic() {
        show(e)
    } else {
        seq!['('] + show(e) + seq![')']
    }
}

/// What follows the first binder of an abstraction whose body is `e`: the
/// further binders, the closing bracket, and the text of what they bind.
pub open spec fn binders(e: Expr) -> Seq<char>
    decreases e, 3nat,
{
    match e {
        Expr::Abs(v, b) => seq![v] + binders(*b),
        _ => seq![']'] + wrapped(e),
    }
}

/// A piece of work of the renderer.
#[derive(Clone, Copy, Debug, PartialEq, Eq, Structural)]
pub enum Job {
    /// Write the text of the term.
    Show(usize),
    /// Write the text of the term as an argument or a body.
    Wrap(usize),
    /// Write the character.
    Emit(char),
}

impl Job {
    /// The text that the job stands for.
    pub open spec fn text(self, exprs: Map<usize, Expr>) -> Seq<char> {
        match self {
            Job::Show(key) => show(exprs[key]),
            Job::Wrap(key) => wrapped(exprs[key]),
            Job::Emit(c) => seq![c],
        }
    }

    /// A bound on the work that the job stands for.
    pub open spec fn weight(self, exprs: Map<usize, Expr>) -> nat {
        match self {
            Job::Show(key) => 3 * size(exprs[key]),
            Job::Wrap(key) => 3 * size(exprs[key]) + 2,
            Job::Emit(_) => 1,
        }
    }

    /// Whether the identity that the job names has a tree in `exprs`.
    pub open spec fn closed_in(self, exprs: Map<usize, Expr>) -> bool {
        match self {
            Job::Show(key) => exprs.contains_key(key),
            Job::Wrap(key) => exprs.contains_key(key),
            Job::Emit(_) => true,
        }
    }
}

/// The text that a stack of jobs stands for, the last job first.
pub open spec fn jobs_text(jobs: Seq<Job>, exprs: Map<usize, Expr>) -> Seq<char>
    decreases jobs.len(),
{
    if jobs.len() == 0 {
        Seq::empty()
    } else {
        jobs.last().text(exprs) + jobs_text(jobs.drop_last(), exprs)
    }
}

/// A bound on the work that a stack of jobs stands for.
pub open spec fn jobs_weight(jobs: Seq<Job>, exprs: Map<usize, Expr>) -> nat
    decreases jobs.len(),
{
    if jobs.len() == 0 {
        0
    } else {
        jobs.last().weight(exprs) + jobs_weight(jobs.drop_last(), exprs)
    }
}

/// A pushed job comes first in the text and adds its weight.
proof fn pushed(jobs: Seq<Job>, job: Job, exprs: Map<usize, Expr>)
    ensures
        jobs_text(jobs.push(job), exprs) == job.text(exprs) + jobs_text(jobs, exprs),
        jobs_weight(jobs.push(job), exprs) == job.weight(exprs) + jobs_weight(jobs, exprs),
{
    assert(jobs.push(job).drop_last() =~= jobs);
    assert(jobs.push(job).last() == job);
}

/// `String::from_iter` on the characters: the string that they spell.
#[verifier::external_body]
fn string_of(chars: &Vec<char>) -> (text: String)
    ensures
        text@ == chars@,
{
    chars.iter().collect()
}

impl TermBase {
    /// The text of a term.
    pub fn render(&self, key: usize) -> (text: String)
        requires
            self.wf(),
            self.live(key),
        ensures
            text@ == show(self.expr(key)),
    {
        let chars = self.term_text(key);
        string_of(&chars)
    }

    /// The text of a term where it stands as an argument or a body: in
    /// parentheses unless the term is an atom.
    pub fn wrapped_text(&self, key: usize) -> (text: Vec<char>)
        requires
            self.wf(),
            self.live(key),
        ensures
            text@ == wrapped(self.expr(key)),
    {
        proof {
            self.tree_of_entry(key);
        }
        if self.get(key).atomic() {
            self.term_text(key)
        } else {
            let mut text: Vec<char> = Vec::new();
            text.push('(');
            let mut inner = self.term_text(key);
            text.append(&mut inner);
            text.push(')');
            assert(text@ =~= wrapped(self.expr(key)));
            text
        }
    }

    /// The text of a term, as a sequence of characters. The term is walked
    /// with a work stack in place of recursion.
    pub fn term_text(&self, key: usize) -> (text: Vec<char>)
        requires
            self.wf(),
            self.live(key),
        ensures
            text@ == show(self.expr(key)),
    {
        let ghost exprs = self.exprs();
        let mut out: Vec<char> = Vec::new();
        let mut jobs: Vec<Job> = Vec::new();
        jobs.push(Job::Show(key));
        proof {
            pushed(Seq::empty(), Job::Show(key), exprs);
            assert(jobs@ =~= Seq::<Job>::empty().push(Job::Show(key)));
            assert(out@ + jobs_text(jobs@, exprs) =~= show(self.expr(key)));
        }
        while jobs.len() > 0
            invariant
                self.wf(),
                exprs == self.exprs(),
                forall|i: int| 0 <= i < jobs@.len() ==> (#[trigger] jobs@[i]).closed_in(exprs),
                out@ + jobs_text(jobs@, exprs) == show(self.expr(key)),
            decreases jobs_weight(jobs@, exprs),
        {
            let ghost above = jobs@;
            let ghost written = out@;
            let job = jobs.pop().unwrap();
            let ghost rest = jobs@;
            proof {
                assert(rest =~= above.drop_last());
                assert(above.last() == job);
                assert(above[above.len() - 1].closed_in(exprs));
                assert forall|i: int| 0 <= i < rest.len() implies (#[trigger] rest[i]).closed_in(
                    exprs,
                ) by {
                    assert(above[i].closed_in(exprs));
                }
            }
            match job {
                Job::Emit(c) => {
                    out.push(c);
                    assert(out@ + jobs_text(rest, exprs) =~= written + (seq![c] + jobs_text(
                        rest,
                        exprs,
                    )));
                },
                Job::Wrap(k) => {
                    assert(self.live(k));
                    proof {
                        self.tree_of_entry(k);
                    }
                    if self.get(k).atomic() {
                        jobs.push(Job::Show(k));
                        proof {
                            pushed(rest, Job::Show(k), exprs);
                        }
                    } else {
                        out.push('(');
                        jobs.push(Job::Emit(')'));
                        jobs.push(Job::Show(k));
                        proof {
                            pushed(rest, Job::Emit(')'), exprs);
                            pushed(rest.push(Job::Emit(')')), Job::Show(k), exprs);
                            assert(out@ + jobs_text(jobs@, exprs) =~= written + (wrapped(
                                exprs[k],
                            ) + jobs_text(rest, exprs)));
                        }
                    }
                },
                Job::Show(k) => {
                    assert(self.live(k));
                    proof {
                        self.tree_of_entry(k);
                    }
                    match self.get(k) {
                        Term::I => {
                            out.push('I');
                            assert(out@ + jobs_text(rest, exprs) =~= written + (show(exprs[k])
                                + jobs_text(rest, exprs)));
                        },
                        Term::K => {
                            out.push('K');
                            assert(out@ + jobs_text(rest, exprs) =~= written + (show(exprs[k])
                                + jobs_text(rest, exprs)));
                        },
                        Term::S => {
                            out.push('S');
                            assert(out@ + jobs_text(rest, exprs) =~= written + (show(exprs[k])
                                + jobs_text(rest, exprs)));
                        },
                        Term::Var(c) => {
                            out.push(c);
                            assert(out@ + jobs_text(rest, exprs) =~= written + (show(exprs[k])
                                + jobs_text(rest, exprs)));
                        },
                        Term::Ap(l, r) => {
                            jobs.push(Job::Wrap(r));
                            jobs.push(Job::Show(l));
                            proof {
                                pushed(rest, Job::Wrap(r), exprs);
                                pushed(rest.push(Job::Wrap(r)), Job::Show(l), exprs);
                                assert(out@ + jobs_text(jobs@, exprs) =~= written + (show(
                                    exprs[k],
                                ) + jobs_text(rest, exprs)));
                            }
                        },
                        Term::Abs(v, body) => {
                            out.push('[');
                            out.push(v);
                            let mut cur = body;
                            loop
                                invariant_except_break
                                    out@ + binders(exprs[cur]) == written + show(exprs[k]),
                                invariant
                                    self.wf(),
                                    exprs == self.exprs(),
                                    self.live(cur),
                                    size(exprs[cur]) < size(exprs[k]),
                                ensures
                                    self.live(cur),
                                    size(exprs[cur]) < size(exprs[k]),
                                    out@ + wrapped(exprs[cur]) == written + show(exprs[k]),
                                decreases size(exprs[cur]),
                            {
                                proof {
                                    self.tree_of_entry(cur);
                                }
                                let ghost so_far = out@;
                                match self.get(cur) {
                                    Term::Abs(w, inner) => {
                                        out.push(w);
                                        assert(out@ + binders(exprs[inner]) =~= so_far + binders(
                                            exprs[cur],
                                        ));
                                        cur = inner;
                                    },
                                    _ => {
                                        out.push(']');
                                        assert(out@ + wrapped(exprs[cur]) =~= so_far + binders(
                                            exprs[cur],
                                        ));
                                        break ;
                                    },
                                }
                            }
                            jobs.push(Job::Wrap(cur));
                            proof {
                                pushed(rest, Job::Wrap(cur), exprs);
                                assert(out@ + jobs_text(jobs@, exprs) =~= (written + show(
                                    exprs[k],
                                )) + jobs_text(rest, exprs));
                                assert((written + show(exprs[k])) + jobs_text(rest, exprs)
                                    =~= written + (show(exprs[k]) + jobs_text(rest, exprs)));
                            }
                        },
                    }
                },
            }
            proof {
                assert forall|i: int| 0 <= i < jobs@.len() implies (#[trigger] jobs@[i]).closed_in(
                    exprs,
                ) by {
                    if i < rest.len() {
                        assert(rest[i].closed_in(exprs));
                    }
                }
            }
        }
        assert(out@ + jobs_text(jobs@, exprs) =~= out@);
        out
    }
}

} // verus!
