//! The stored representation of a term: one node whose children are named by
//! their store identities.

use vstd::prelude::*;
use crate::expr::Expr;
use crate::expr::ap;
use crate::expr::abs;
use crate::tables::fnv1a;
use crate::tables::fnv1a_digest;

verus! {

/// The eight bytes of a number, lowest first.
pub open spec fn le_bytes(value: u64) -> Seq<u8> {
    seq![
        (value % 256) as u8,
        (value / 0x100 % 256) as u8,
        (value / 0x1_0000 % 256) as u8,
        (value / 0x100_0000 % 256) as u8,
        (value / 0x1_0000_0000 % 256) as u8,
        (value / 0x100_0000_0000 % 256) as u8,
        (value / 0x1_0000_0000_0000 % 256) as u8,
        (value / 0x100_0000_0000_0000 % 256) as u8,
    ]
}

fn push_le_bytes(bytes: &mut Vec<u8>, value: u64)
    ensures
        final(bytes)@ == old(bytes)@ + le_bytes(value),
{
    bytes.push((value % 256) as u8);
    bytes.push((value / 0x100 % 256) as u8);
    bytes.push((value / 0x1_0000 % 256) as u8);
    bytes.push((value / 0x100_0000 % 256) as u8);
    bytes.push((value / 0x1_0000_0000 % 256) as u8);
    bytes.push((value / 0x100_0000_0000 % 256) as u8);
    bytes.push((value / 0x1_0000_0000_0000 % 256) as u8);
    bytes.push((value / 0x100_0000_0000_0000 % 256) as u8);
    assert(bytes@ =~= old(bytes)@ + le_bytes(value));
}

/// What is known about whether a stored term can still be rewritten.
#[derive(Clone, Copy, Debug, PartialEq, Eq, Structural)]
pub enum RewriteKey {
    NormalForm,
    CanRewrite,
    Unknown,
}

/// One node of a term. `Ap` and `Abs` name their children by identity.
#[derive(Clone, Copy, Debug, PartialEq, Eq, Structural)]
pub enum Term {
    I,
    K,
    S,
    Var(char),
    Ap(usize, usize),
    Abs(char, usize),
}

/// A store entry: a node and the memoized classification of the term below it.
#[derive(Clone, Copy, Debug, PartialEq, Eq, Structural)]
pub struct TermEntry {
    pub term: Term,
    pub rewrite_key: RewriteKey,
}

impl Term {
    /// The combinators and the variables have no children.
    pub open spec fn is_atom(self) -> bool {
        self is I || self is K || self is S || self is Var
    }

    pub fn atomic(&self) -> (b: bool)
        ensures
            b == self.is_atom(),
    {
        match self {
            Term::I | Term::K | Term::S | Term::Var(_) => true,
            Term::Ap(_, _) | Term::Abs(_, _) => false,
        }
    }

    /// Whether every child of the node has a tree in `exprs`.
    pub open spec fn closed_in(self, exprs: Map<usize, Expr>) -> bool {
        match self {
            Term::Ap(l, r) => exprs.contains_key(l) && exprs.contains_key(r),
            Term::Abs(_, b) => exprs.contains_key(b),
            _ => true,
        }
    }

    /// The tree that the node stands for, where `exprs` gives the trees of
    /// its children.
    pub open spec fn denote(self, exprs: Map<usize, Expr>) -> Expr {
        match self {
            Term::I => Expr::I,
            Term::K => Expr::K,
            Term::S => Expr::S,
            Term::Var(c) => Expr::Var(c),
            Term::Ap(l, r) => ap(exprs[l], exprs[r]),
            Term::Abs(v, b) => abs(v, exprs[b]),
        }
    }

    /// The variant's number and the two fields of the node, as numbers.
    pub open spec fn fields(self) -> (u8, u64, u64) {
        match self {
            Term::I => (0, 0, 0),
            Term::K => (1, 0, 0),
            Term::S => (2, 0, 0),
            Term::Var(c) => (3, c as u64, 0),
            Term::Ap(l, r) => (4, l as u64, r as u64),
            Term::Abs(v, b) => (5, v as u64, b as u64),
        }
    }

    /// The bytes that are hashed for the node: the variant's number, then
    /// each field lowest byte first.
    pub open spec fn encoding(self) -> Seq<u8> {
        seq![self.fields().0] + le_bytes(self.fields().1) + le_bytes(self.fields().2)
    }

    /// The content digest of the node: the FNV-1a hash of its encoding.
    pub open spec fn digest(self) -> u64 {
        fnv1a(self.encoding())
    }

    /// Computes the content digest of the node.
    pub fn content_digest(&self) -> (d: u64)
        ensures
            d == self.digest(),
    {
        let (tag, a, b): (u8, u64, u64) = match *self {
            Term::I => (0, 0, 0),
            Term::K => (1, 0, 0),
            Term::S => (2, 0, 0),
            Term::Var(c) => (3, c as u64, 0),
            Term::Ap(l, r) => (4, l as u64, r as u64),
            Term::Abs(v, b) => (5, v as u64, b as u64),
        };
        let mut bytes: Vec<u8> = Vec::new();
        bytes.push(tag);
        push_le_bytes(&mut bytes, a);
        push_le_bytes(&mut bytes, b);
        assert(bytes@ =~= self.encoding());
        fnv1a_digest(&bytes)
    }
}

} // verus!
