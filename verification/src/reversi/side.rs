use vstd::prelude::*;

verus! {

/// One of the two players. Every disk on the board belongs to a side.
#[derive(Debug, Clone, Copy, PartialEq, Eq, Hash, Structural)]
pub enum Side {
    Dark,
    White,
}

impl Side {
    /// The opposing side, as a mathematical function.
    pub open spec fn spec_rev(self) -> Side {
        match self {
            Side::White => Side::Dark,
            Side::Dark => Side::White,
        }
    }

    /// The opposing side: Dark and White swap.
    pub fn rev(&self) -> (r: Side)
        ensures
            r == self.spec_rev(),
    {
        match self {
            Side::White => Side::Dark,
            Side::Dark => Side::White,
        }
    }

    /// The display name of the side.
    pub fn name(&self) -> (r: &'static str)
        ensures
            *self is Dark ==> r@ == "Dark"@,
            *self is White ==> r@ == "White"@,
    {
        match self {
            Side::Dark => "Dark",
            Side::White => "White",
        }
    }
}

/// Reversing a side twice yields the side itself.
pub proof fn lemma_rev_involutive(s: Side)
    ensures
        s.spec_rev().spec_rev() == s,
{
}

} // verus!
