use vstd::prelude::*;

verus! {

/// A pair of disk counts: `.0` is White's count, `.1` is Dark's.
#[derive(Debug, Clone, Copy, PartialEq, Eq, Hash, Structural)]
pub struct Score(pub isize, pub isize);

impl Score {
    /// Componentwise addition of two score pairs.
    pub fn add(self, rhs: Score) -> (r: Score)
        requires
            isize::MIN <= self.0 + rhs.0 <= isize::MAX,
            isize::MIN <= self.1 + rhs.1 <= isize::MAX,
        ensures
            r.0 == self.0 + rhs.0,
            r.1 == self.1 + rhs.1,
    {
        Score(self.0 + rhs.0, self.1 + rhs.1)
    }
}

} // verus!
