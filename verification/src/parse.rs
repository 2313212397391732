//! The parser of the surface syntax: the grammar as a function on bytes, and
//! a parser that interns what it reads and is held to that function.
//!
//! An abstraction binds the one term that follows its names: `[x] a b` is
//! `([x] a) b`, and the body of an abstraction over an application stands in
//! parentheses, as the renderer writes it.

use vstd::prelude::*;
use crate::expr::Expr;
use crate::expr::ap;
use crate::expr::abs;
use crate::store::TermBase;
use crate::term::Term;

verus! {

/// A space, which separates and means nothing.
pub const SPACE: u8 = 32;

/// `(`
pub const OPEN_PAREN: u8 = 40;

/// `)`
pub const CLOSE_PAREN: u8 = 41;

/// `[`, which opens a list of names.
pub const OPEN_BRACKET: u8 = 91;

/// `]`, which closes a list of names.
pub const CLOSE_BRACKET: u8 = 93;

/// `I`, the combinator.
pub const LETTER_I: u8 = 73;

/// `K`, the combinator.
pub const LETTER_K: u8 = 75;

/// `S`, the combinator.
pub const LETTER_S: u8 = 83;

/// Why a text is no term.
#[derive(Clone, Copy, Debug, PartialEq, Eq, Structural)]
pub enum ParseErrorKind {
    /// The text ends inside a parenthesis.
    UnclosedParen,
    /// A `)` that closes nothing.
    UnmatchedParen,
    /// The text ends inside a list of names.
    UnclosedBracket,
    /// A `]` that closes nothing.
    UnmatchedBracket,
    /// A combinator, parenthesis or `[` in a list of names.
    ReservedName,
    /// A name in a list of names that is defined already.
    BoundName,
    /// A list of names that holds no name.
    NoNames,
    /// A term is expected and none stands there: the text or a parenthesis
    /// is empty, or an abstraction has no body.
    MissingTerm,
}

/// A failure of the parser: what is wrong, and the offset of the byte at
/// which it is; the length of the text where the text ends too early.
#[derive(Clone, Copy, Debug, PartialEq, Eq, Structural)]
pub struct ParseError {
    pub at: usize,
    pub kind: ParseErrorKind,
}

/// What the grammar makes of a text from some offset: a tree and the offset
/// at which it ends, or the offset and kind of a failure.
pub type Parsed = Result<(Expr, int), (int, ParseErrorKind)>;

/// The term that a single byte stands for: a combinator, what the byte is
/// defined as, or else a free variable.
pub open spec fn leaf(c: u8, bound: Map<char, Expr>) -> Expr {
    if c == LETTER_S {
        Expr::S
    } else if c == LETTER_K {
        Expr::K
    } else if c == LETTER_I {
        Expr::I
    } else if bound.contains_key(c as char) {
        bound[c as char]
    } else {
        Expr::Var(c as char)
    }
}

/// Juxtaposition: `t` applied to by what stands before it, if anything does.
pub open spec fn join(acc: Option<Expr>, t: Expr) -> Expr {
    match acc {
        Some(f) => ap(f, t),
        None => t,
    }
}

/// The abstraction of the names over the body, the first name outermost.
pub open spec fn bind(names: Seq<char>, body: Expr) -> Expr
    decreases names.len(),
{
    if names.len() == 0 {
        body
    } else {
        bind(names.drop_last(), abs(names.last(), body))
    }
}

/// The names of a list from `at` to its `]`, after those in `names`, and the
/// offset behind the `]`. Spaces are passed over. A name may not be a
/// combinator, a parenthesis or `[`, nor be defined.
pub open spec fn parse_names(src: Seq<u8>, at: int, bound: Map<char, Expr>, names: Seq<char>)
    -> Result<(Seq<char>, int), (int, ParseErrorKind)>
    decreases src.len() - at,
{
    if at < 0 || at >= src.len() {
        Err((src.len() as int, ParseErrorKind::UnclosedBracket))
    } else {
        let c = src[at];
        if c == SPACE {
            parse_names(src, at + 1, bound, names)
        } else if c == CLOSE_BRACKET {
            if names.len() == 0 {
                Err((at, ParseErrorKind::NoNames))
            } else {
                Ok((names, at + 1))
            }
        } else if c == OPEN_PAREN || c == CLOSE_PAREN || c == OPEN_BRACKET || c == LETTER_S || c
            == LETTER_K || c == LETTER_I {
            Err((at, ParseErrorKind::ReservedName))
        } else if bound.contains_key(c as char) {
            Err((at, ParseErrorKind::BoundName))
        } else {
            parse_names(src, at + 1, bound, names.push(c as char))
        }
    }
}

/// The grammar of a term: a combinator, a name, an expression in
/// parentheses, or a list of names in brackets before the term that they are
/// abstracted over. Spaces before the term are passed over. The offset given
/// with a tree is the one behind the term.
pub open spec fn parse_term(src: Seq<u8>, at: int, bound: Map<char, Expr>) -> Parsed
    decreases src.len() - at, 0nat,
{
    if at < 0 || at >= src.len() {
        Err((src.len() as int, ParseErrorKind::MissingTerm))
    } else {
        let c = src[at];
        if c == SPACE {
            parse_term(src, at + 1, bound)
        } else if c == CLOSE_PAREN {
            Err((at, ParseErrorKind::MissingTerm))
        } else if c == CLOSE_BRACKET {
            Err((at, ParseErrorKind::UnmatchedBracket))
        } else if c == OPEN_PAREN {
            match parse_expr(src, at + 1, None, true, bound) {
                Ok((t, close)) => Ok((t, close + 1)),
                Err(e) => Err(e),
            }
        } else if c == OPEN_BRACKET {
            match parse_names(src, at + 1, bound, Seq::empty()) {
                Ok((names, next)) => if at < next <= src.len() {
                    match parse_term(src, next, bound) {
                        Ok((body, end)) => Ok((bind(names, body), end)),
                        Err(e) => Err(e),
                    }
                } else {
                    Err((at, ParseErrorKind::UnclosedBracket))
                },
                Err(e) => Err(e),
            }
        } else {
            Ok((leaf(c, bound), at + 1))
        }
    }
}

/// The grammar of an expression: a row of terms, applied from the left.
/// Spaces are passed over. `acc` is the application of the terms read so
/// far, and `nested` says whether a parenthesis is open. The offset given
/// with a tree is the end of the text, or that of the `)` that ends the
/// expression.
pub open spec fn parse_expr(
    src: Seq<u8>,
    at: int,
    acc: Option<Expr>,
    nested: bool,
    bound: Map<char, Expr>,
) -> Parsed
    decreases src.len() - at, 1nat,
{
    if at < 0 || at >= src.len() {
        if nested {
            Err((src.len() as int, ParseErrorKind::UnclosedParen))
        } else {
            match acc {
                Some(t) => Ok((t, src.len() as int)),
                None => Err((src.len() as int, ParseErrorKind::MissingTerm)),
            }
        }
    } else {
        let c = src[at];
        if c == SPACE {
            parse_expr(src, at + 1, acc, nested, bound)
        } else if c == CLOSE_PAREN {
            if !nested {
                Err((at, ParseErrorKind::UnmatchedParen))
            } else {
                match acc {
                    Some(t) => Ok((t, at)),
                    None => Err((at, ParseErrorKind::MissingTerm)),
                }
            }
        } else {
            match parse_term(src, at, bound) {
                Ok((t, end)) => if at < end <= src.len() {
                    parse_expr(src, end, Some(join(acc, t)), nested, bound)
                } else {
                    Err((at, ParseErrorKind::MissingTerm))
                },
                Err(e) => Err(e),
            }
        }
    }
}

/// The tree that a whole text stands for, or why it stands for none.
pub open spec fn parse_text(src: Seq<u8>, bound: Map<char, Expr>) -> Result<
    Expr,
    (int, ParseErrorKind),
> {
    match parse_expr(src, 0, None, false, bound) {
        Ok((tree, _)) => Ok(tree),
        Err(e) => Err(e),
    }
}

/// Whether the parser's result is what the grammar gives: an identity that
/// stands for the tree, with the parser at the offset where the tree ends, or
/// the same failure.
pub open spec fn agrees(result: Result<usize, ParseError>, at: usize, tb: &TermBase, parsed: Parsed)
    -> bool {
    match parsed {
        Ok((tree, end)) => result is Ok && tb.live(result->Ok_0) && tb.expr(result->Ok_0) == tree
            && at == end,
        Err((pos, kind)) => result is Err && result->Err_0.at == pos && result->Err_0.kind
            == kind,
    }
}

impl TermBase {
    /// The tree of what each defined name is bound to.
    pub open spec fn bound_exprs(&self) -> Map<char, Expr> {
        Map::new(
            |name: char| self.bindings().contains_key(name),
            |name: char| self.expr(self.bindings()[name]),
        )
    }

    /// A store that extends one whose names are bound to entries binds the
    /// names to the same trees.
    pub proof fn bound_exprs_kept(&self, old: &TermBase)
        requires
            self.extends(old),
            old.bindings_live(),
        ensures
            self.bindings_live(),
            self.bound_exprs() == old.bound_exprs(),
    {
        assert forall|name: char| #[trigger] self.bindings().contains_key(name) implies self.live(
            self.bindings()[name],
        ) && self.expr(self.bindings()[name]) == old.expr(old.bindings()[name]) by {
            assert(old.bindings().contains_key(name));
            assert(old.live(old.bindings()[name]));
        }
        assert(self.bound_exprs() =~= old.bound_exprs());
    }
}

/// A parser over a text, with the offset of the next byte to read.
pub struct Parser<'b> {
    src: &'b [u8],
    at: usize,
}

impl<'b> Parser<'b> {
    /// The text.
    pub closed spec fn text(&self) -> Seq<u8> {
        self.src@
    }

    /// The offset of the next byte to read.
    pub closed spec fn offset(&self) -> int {
        self.at as int
    }

    /// Parses a text as a term and interns it. A name that is defined stands
    /// for what it is bound to, any other for a free variable. The store
    /// keeps its entries as they are, and gains those that the term needs,
    /// unclassified; what a failed attempt interned stays in it.
    pub fn parse(tb: &mut TermBase, src: &'b [u8]) -> (result: Result<usize, ParseError>)
        requires
            old(tb).wf(),
            old(tb).bindings_live(),
        ensures
            final(tb).wf(),
            final(tb).bindings_live(),
            final(tb).extends(old(tb)),
            final(tb).leaves_classifications(old(tb)),
            result is Ok ==> final(tb).grows_below(old(tb), set![result->Ok_0]),
            match parse_text(src@, old(tb).bound_exprs()) {
                Ok(tree) => result is Ok && final(tb).live(result->Ok_0) && final(tb).expr(
                    result->Ok_0,
                ) == tree,
                Err((pos, kind)) => result is Err && result->Err_0.at == pos
                    && result->Err_0.kind == kind,
            },
    {
        let mut parser = Parser { src, at: 0 };
        parser.read_expr(tb, false)
    }

    /// Joins a term to what stands before it.
    fn juxtapose(tb: &mut TermBase, o: &mut Option<usize>, n: usize)
        requires
            old(tb).wf(),
            old(tb).live(n),
            *old(o) is Some ==> old(tb).live(old(o)->0),
        ensures
            final(tb).wf(),
            final(tb).grows_below(old(tb), set![final(o)->0]),
            final(tb).leaves_classifications(old(tb)),
            *final(o) is Some,
            final(tb).live(final(o)->0),
            final(tb).expr(final(o)->0) == join(
                match *old(o) {
                    Some(prev) => Some(old(tb).expr(prev)),
                    None => None,
                },
                old(tb).expr(n),
            ),
            *old(o) is None ==> final(o)->0 == n,
            *old(o) is Some ==> final(tb).term(final(o)->0) == Term::Ap(old(o)->0, n),
    {
        let x = match *o {
            Some(prev) => {
                let key = tb.intern(Term::Ap(prev, n));
                proof {
                    tb.interning_grows_below(old(tb), Term::Ap(prev, n), key);
                    tb.interning_leaves_classifications(old(tb), Term::Ap(prev, n), key);
                }
                key
            },
            None => n,
        };
        *o = Some(x);
    }

    /// Interns the term that a byte stands for.
    fn leaf_term(tb: &mut TermBase, c: u8) -> (key: usize)
        requires
            old(tb).wf(),
            old(tb).bindings_live(),
        ensures
            final(tb).wf(),
            final(tb).grows_below(old(tb), set![key]),
            final(tb).leaves_classifications(old(tb)),
            final(tb).live(key),
            final(tb).expr(key) == leaf(c, old(tb).bound_exprs()),
    {
        if c == LETTER_S {
            proof {
                tb.tree_of_entry(tb.atom_s());
            }
            tb.s_key()
        } else if c == LETTER_K {
            proof {
                tb.tree_of_entry(tb.atom_k());
            }
            tb.k_key()
        } else if c == LETTER_I {
            proof {
                tb.tree_of_entry(tb.atom_i());
            }
            tb.i_key()
        } else {
            match tb.lookup(c as char) {
                Some(key) => {
                    assert(tb.bindings().contains_key(c as char));
                    key
                },
                None => {
                    let key = tb.intern(Term::Var(c as char));
                    proof {
                        tb.interning_grows_below(old(tb), Term::Var(c as char), key);
                        tb.interning_leaves_classifications(
                            old(tb),
                            Term::Var(c as char),
                            key,
                        );
                    }
                    key
                },
            }
        }
    }

    /// Reads a list of names up to its `]`.
    fn read_names(&mut self, tb: &TermBase) -> (result: Result<Vec<char>, ParseError>)
        requires
            old(self).offset() <= old(self).text().len(),
        ensures
            final(self).text() == old(self).text(),
            match parse_names(
                old(self).text(),
                old(self).offset(),
                tb.bound_exprs(),
                Seq::empty(),
            ) {
                Ok((names, next)) => result is Ok && result->Ok_0@ == names
                    && final(self).offset() == next
                    && old(self).offset() < next <= old(self).text().len(),
                Err((pos, kind)) => result is Err && result->Err_0.at == pos
                    && result->Err_0.kind == kind,
            },
    {
        let ghost bound = tb.bound_exprs();
        let ghost goal = parse_names(self.text(), self.offset(), bound, Seq::empty());
        let mut names: Vec<char> = Vec::new();
        while self.at < self.src.len()
            invariant
                self.src == old(self).src,
                old(self).at <= self.at <= self.src@.len(),
                bound == tb.bound_exprs(),
                goal == parse_names(old(self).text(), old(self).offset(), bound, Seq::empty()),
                parse_names(self.text(), self.offset(), bound, names@) == goal,
            decreases self.src@.len() - self.at,
        {
            let c = self.src[self.at];
            if c == SPACE {
                self.at += 1;
            } else if c == CLOSE_BRACKET {
                if names.len() == 0 {
                    return Err(ParseError { at: self.at, kind: ParseErrorKind::NoNames });
                }
                self.at += 1;
                return Ok(names);
            } else if c == OPEN_PAREN || c == CLOSE_PAREN || c == OPEN_BRACKET || c == LETTER_S
                || c == LETTER_K || c == LETTER_I {
                return Err(ParseError { at: self.at, kind: ParseErrorKind::ReservedName });
            } else if tb.lookup(c as char).is_some() {
                return Err(ParseError { at: self.at, kind: ParseErrorKind::BoundName });
            } else {
                names.push(c as char);
                self.at += 1;
            }
        }
        Err(ParseError { at: self.at, kind: ParseErrorKind::UnclosedBracket })
    }

    /// Interns the abstraction of the names over the body.
    fn bind_names(tb: &mut TermBase, names: &Vec<char>, body: usize) -> (key: usize)
        requires
            old(tb).wf(),
            old(tb).live(body),
        ensures
            final(tb).wf(),
            final(tb).grows_below(old(tb), set![key]),
            final(tb).leaves_classifications(old(tb)),
            final(tb).reachable(set![key], body),
            final(tb).live(key),
            final(tb).expr(key) == bind(names@, old(tb).expr(body)),
    {
        let mut x = body;
        let mut i = names.len();
        proof {
            assert(names@.take(i as int) =~= names@);
            tb.seed_reachable(set![x], body);
        }
        while i > 0
            invariant
                i <= names.len(),
                tb.wf(),
                tb.grows_below(old(tb), set![x]),
                tb.leaves_classifications(old(tb)),
                tb.reachable(set![x], body),
                tb.live(x),
                bind(names@.take(i as int), tb.expr(x)) == bind(names@, old(tb).expr(body)),
            decreases i,
        {
            let ghost before = *tb;
            let ghost below = x;
            i -= 1;
            x = tb.intern(Term::Abs(names[i], x));
            proof {
                tb.interning_grows_below(&before, Term::Abs(names@[i as int], below), x);
                tb.interning_leaves_classifications(
                    &before,
                    Term::Abs(names@[i as int], below),
                    x,
                );
                tb.leaves_classifications_trans(&before, old(tb));
                tb.grows_below_regroup(&before, old(tb), set![below], x, set![x]);
                tb.reachable_in_extension(&before, set![below], body);
                tb.reachable_from_parent(x, below);
                assert forall|m: usize| #[trigger] set![below].contains(m) && tb.live(
                    m,
                ) implies tb.reachable(set![x], m) by {}
                tb.reachable_trans(set![x], set![below], body);
                let upto = names@.take(i + 1);
                assert(upto.drop_last() =~= names@.take(i as int));
                assert(upto.last() == names@[i as int]);
            }
        }
        x
    }

    /// Reads one term, with the spaces before it.
    fn read_term(&mut self, tb: &mut TermBase) -> (result: Result<usize, ParseError>)
        requires
            old(self).offset() <= old(self).text().len(),
            old(tb).wf(),
            old(tb).bindings_live(),
        ensures
            final(self).text() == old(self).text(),
            final(tb).wf(),
            final(tb).bindings_live(),
            final(tb).extends(old(tb)),
            final(tb).leaves_classifications(old(tb)),
            result is Ok ==> final(tb).grows_below(old(tb), set![result->Ok_0]),
            agrees(
                result,
                final(self).at,
                final(tb),
                parse_term(old(self).text(), old(self).offset(), old(tb).bound_exprs()),
            ),
            result is Ok ==> old(self).offset() < final(self).offset() <= old(self).text().len(),
        decreases old(self).text().len() - old(self).offset(), 0nat,
    {
        let ghost bound = tb.bound_exprs();
        let ghost goal = parse_term(self.text(), self.offset(), bound);
        while self.at < self.src.len() && self.src[self.at] == SPACE
            invariant
                self.src == old(self).src,
                old(self).at <= self.at <= self.src@.len(),
                parse_term(self.text(), self.offset(), bound) == goal,
            decreases self.src@.len() - self.at,
        {
            self.at += 1;
        }
        if self.at >= self.src.len() {
            return Err(ParseError { at: self.at, kind: ParseErrorKind::MissingTerm });
        }
        let ghost before = *tb;
        let c = self.src[self.at];
        if c == CLOSE_PAREN {
            Err(ParseError { at: self.at, kind: ParseErrorKind::MissingTerm })
        } else if c == CLOSE_BRACKET {
            Err(ParseError { at: self.at, kind: ParseErrorKind::UnmatchedBracket })
        } else if c == OPEN_PAREN {
            self.at += 1;
            match self.read_expr(tb, true) {
                Err(e) => Err(e),
                Ok(x) => {
                    self.at += 1;
                    Ok(x)
                },
            }
        } else if c == OPEN_BRACKET {
            self.at += 1;
            let names = match self.read_names(tb) {
                Err(e) => {
                    return Err(e);
                },
                Ok(names) => names,
            };
            let body = match self.read_term(tb) {
                Err(e) => {
                    return Err(e);
                },
                Ok(body) => body,
            };
            let ghost inner = *tb;
            let x = Self::bind_names(tb, &names, body);
            proof {
                tb.leaves_classifications_trans(&inner, &before);
                assert forall|t: usize| #[trigger] set![body].contains(t) && tb.live(
                    t,
                ) implies tb.reachable(set![x], t) by {}
                assert forall|t: usize| #[trigger] set![x].contains(t) && tb.live(
                    t,
                ) implies tb.reachable(set![x], t) by {
                    tb.seed_reachable(set![x], x);
                }
                tb.grows_below_trans(&inner, &before, set![body], set![x], set![x]);
                tb.bound_exprs_kept(&before);
            }
            Ok(x)
        } else {
            let n = Self::leaf_term(tb, c);
            self.at += 1;
            proof {
                tb.bound_exprs_kept(&before);
            }
            Ok(n)
        }
    }

    /// Reads an expression: to the end of the text, or to the `)` that ends
    /// it where a parenthesis is open.
    fn read_expr(&mut self, tb: &mut TermBase, nested: bool) -> (result: Result<usize, ParseError>)
        requires
            old(self).offset() <= old(self).text().len(),
            old(tb).wf(),
            old(tb).bindings_live(),
        ensures
            final(self).text() == old(self).text(),
            final(tb).wf(),
            final(tb).bindings_live(),
            final(tb).extends(old(tb)),
            final(tb).leaves_classifications(old(tb)),
            result is Ok ==> final(tb).grows_below(old(tb), set![result->Ok_0]),
            agrees(
                result,
                final(self).at,
                final(tb),
                parse_expr(
                    old(self).text(),
                    old(self).offset(),
                    None,
                    nested,
                    old(tb).bound_exprs(),
                ),
            ),
            result is Ok ==> old(self).offset() <= final(self).offset() <= old(self).text().len(),
            result is Ok && nested ==> final(self).offset() < old(self).text().len(),
        decreases old(self).text().len() - old(self).offset(), 1nat,
    {
        let ghost bound = tb.bound_exprs();
        let ghost goal = parse_expr(self.text(), self.offset(), None, nested, bound);
        let mut o: Option<usize> = None;
        loop
            invariant
                self.src == old(self).src,
                old(self).at <= self.at <= self.src@.len(),
                tb.wf(),
                tb.bindings_live(),
                tb.extends(old(tb)),
                tb.leaves_classifications(old(tb)),
                bound == tb.bound_exprs(),
                bound == old(tb).bound_exprs(),
                goal == parse_expr(old(self).text(), old(self).offset(), None, nested, bound),
                o is Some ==> tb.live(o->0),
                o is Some ==> tb.grows_below(old(tb), set![o->0]),
                o is None ==> tb.entries().dom() == old(tb).entries().dom(),
                parse_expr(
                    self.text(),
                    self.offset(),
                    match o {
                        Some(prev) => Some(tb.expr(prev)),
                        None => None,
                    },
                    nested,
                    bound,
                ) == goal,
            decreases self.src@.len() - self.at,
        {
            if self.at >= self.src.len() {
                if nested {
                    return Err(ParseError { at: self.at, kind: ParseErrorKind::UnclosedParen });
                }
                return match o {
                    Some(key) => Ok(key),
                    None => Err(ParseError { at: self.at, kind: ParseErrorKind::MissingTerm }),
                };
            }
            let ghost before = *tb;
            let c = self.src[self.at];
            if c == SPACE {
                self.at += 1;
            } else if c == CLOSE_PAREN {
                if !nested {
                    return Err(ParseError { at: self.at, kind: ParseErrorKind::UnmatchedParen });
                }
                return match o {
                    Some(key) => Ok(key),
                    None => Err(ParseError { at: self.at, kind: ParseErrorKind::MissingTerm }),
                };
            } else {
                match self.read_term(tb) {
                    Err(e) => {
                        proof {
                            tb.extends_trans(&before, old(tb));
                            tb.leaves_classifications_trans(&before, old(tb));
                        }
                        return Err(e);
                    },
                    Ok(x) => {
                        let ghost inner = *tb;
                        let ghost prev = o;
                        assert(o is Some ==> tb.live(o->0) && tb.expr(o->0) == before.expr(o->0))
                            by {
                            if o is Some {
                                assert(before.live(o->0));
                            }
                        }
                        Self::juxtapose(tb, &mut o, x);
                        proof {
                            inner.leaves_classifications_trans(&before, old(tb));
                            inner.extends_trans(&before, old(tb));
                            tb.leaves_classifications_trans(&inner, old(tb));
                            tb.extends_trans(&inner, &before);
                            tb.extends_trans(&before, old(tb));
                            tb.bound_exprs_kept(&before);
                            if prev is Some {
                                inner.grows_below_regroup(
                                    &before,
                                    old(tb),
                                    set![prev->0],
                                    x,
                                    set![prev->0, x],
                                );
                                tb.grows_below_regroup(
                                    &inner,
                                    old(tb),
                                    set![prev->0, x],
                                    o->0,
                                    set![o->0],
                                );
                            } else {
                                inner.grows_below_from_reclassified(&before, old(tb), set![x]);
                                tb.grows_below_regroup(&inner, old(tb), set![x], x, set![x]);
                            }
                        }
                    },
                }
            }
        }
    }
}

} // verus!
