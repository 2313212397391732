//! Positions in a term: the branches taken from the root, in order.

use vstd::prelude::*;

verus! {

/// The way from the root of a term to one of its subterms.
#[derive(Clone, Debug)]
pub struct Position(pub Vec<u8>);

impl Position {
    /// The branches of the way, the first one taken first.
    pub open spec fn branches(&self) -> Seq<u8> {
        self.0@
    }

    /// The position of the root.
    pub fn new() -> (p: Position)
        ensures
            p.branches() == Seq::<u8>::empty(),
    {
        Position(Vec::new())
    }

    /// Goes one branch further down.
    pub fn push_branch(&mut self, b: u8)
        ensures
            final(self).branches() == old(self).branches().push(b),
    {
        self.0.push(b);
    }

    /// Leaves the position as it is, whatever the branch.
    pub fn pop_branch(&mut self, b: u8)
        ensures
            final(self).branches() == old(self).branches(),
    {
    }
}

} // verus!
