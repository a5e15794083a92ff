use vstd::prelude::*;

verus! {

/// How far ahead the move search looks: the current piece only, or the
/// current piece and then the queued one.
#[derive(Clone, Copy, PartialEq, Eq, Structural, Hash, Debug)]
pub enum BranchingMode {
    Current,
    CurrentAndNext,
}

impl BranchingMode {
    /// Switches to the other mode.
    pub fn toggle(&mut self)
        ensures
            *final(self) == match *old(self) {
                BranchingMode::Current => BranchingMode::CurrentAndNext,
                BranchingMode::CurrentAndNext => BranchingMode::Current,
            },
    {
        *self = match self {
            BranchingMode::Current => BranchingMode::CurrentAndNext,
            BranchingMode::CurrentAndNext => BranchingMode::Current,
        };
    }
}

impl Default for BranchingMode {
    fn default() -> (r: BranchingMode)
        ensures
            r == BranchingMode::Current,
    {
        BranchingMode::Current
    }
}

} // verus!
