//! The multiplicity of a candidate bridge: zero, one or two parallel bridges.

use vstd::prelude::*;

verus! {

use vstd::pervasive::unreached;

/// How many parallel bridges are currently placed on one candidate edge.
#[derive(Debug, Copy, Clone, PartialEq, Eq, Structural)]
pub enum NumEdges {
    Zero,
    One,
    Two,
}

impl NumEdges {
    /// The multiplicity as a mathematical count.
    pub open spec fn val(self) -> nat {
        match self {
            NumEdges::Zero => 0,
            NumEdges::One => 1,
            NumEdges::Two => 2,
        }
    }

    /// The multiplicity corresponding to a count of placed bridges.
    pub open spec fn from_count(n: nat) -> NumEdges
        recommends
            n <= 2,
    {
        if n == 0 {
            NumEdges::Zero
        } else if n == 1 {
            NumEdges::One
        } else {
            NumEdges::Two
        }
    }

    /// One more bridge on the edge.  Raising a multiplicity past two is a
    /// programming error and is ruled out by the precondition.
    pub fn increment(&mut self)
        requires
            old(self).val() < 2,
        ensures
            final(self).val() == old(self).val() + 1,
    {
        *self = match *self {
            NumEdges::Zero => NumEdges::One,
            NumEdges::One => NumEdges::Two,
            NumEdges::Two => unreached(),
        };
    }

    /// One bridge fewer on the edge.  Lowering a multiplicity below zero is a
    /// programming error and is ruled out by the precondition.
    pub fn decrement(&mut self)
        requires
            old(self).val() > 0,
        ensures
            final(self).val() == old(self).val() - 1,
    {
        *self = match *self {
            NumEdges::Zero => unreached(),
            NumEdges::One => NumEdges::Zero,
            NumEdges::Two => NumEdges::One,
        };
    }

    /// The multiplicity as an executable count.
    pub fn value(self) -> (r: u8)
        ensures
            r == self.val(),
    {
        match self {
            NumEdges::Zero => 0,
            NumEdges::One => 1,
            NumEdges::Two => 2,
        }
    }
}

} // verus!
