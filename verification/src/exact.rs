//! Failure of an exact conversion.
use vstd::prelude::*;

verus! {

/// A value that has no exact representation: infinite, not a number, or an interval wider
/// than a point.
#[derive(Copy, Clone, Eq, Ord, PartialEq, PartialOrd, Hash, Debug)]
pub struct NotExact;

} // verus!
