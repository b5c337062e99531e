use vstd::prelude::*;

verus! {

/// A 1-indexed board coordinate `(row, column)`. The same type also serves
/// as a directional offset for the eight scan directions.
#[derive(Debug, Clone, Copy, PartialEq, Eq, Hash, Structural)]
pub struct Position(pub isize, pub isize);

impl Position {
    /// Componentwise vector addition.
    pub fn add(self, rhs: Position) -> (r: Position)
        requires
            isize::MIN <= self.0 + rhs.0 <= isize::MAX,
            isize::MIN <= self.1 + rhs.1 <= isize::MAX,
        ensures
            r.0 == self.0 + rhs.0,
            r.1 == self.1 + rhs.1,
    {
        Position(self.0 + rhs.0, self.1 + rhs.1)
    }
}

} // verus!
