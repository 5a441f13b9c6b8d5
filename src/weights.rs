use vstd::prelude::*;

verus! {

/// Whether sums are read raw or weighted by effort.
#[derive(Clone, Copy, Debug, PartialEq, Eq, Structural, PartialOrd, Ord)]
pub enum Weight {
    Effort,
    Raw,
}

} // verus!
