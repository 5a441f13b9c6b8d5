use vstd::prelude::*;

verus! {

/// Whether a search looks for the largest or the smallest score.
#[derive(Clone, Copy, Debug, PartialEq, Eq, Structural, PartialOrd, Ord)]
pub enum Goal {
    Max,
    Min,
}

} // verus!
