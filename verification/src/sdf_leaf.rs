//! Leaves of a signed distance function tree that carry no geometry of their own, and the
//! wrapper that makes a leaf shape a node.
use vstd::prelude::*;

verus! {

/// The shape that contains no point of the `N`-dimensional space.
#[derive(Debug)]
pub struct SdfEmpty<const N: usize>;

/// The shape that contains every point of the `N`-dimensional space.
#[derive(Debug)]
pub struct SdfFull<const N: usize>;

/// A leaf of a distance function tree in `N` dimensions, wrapping the shape `inner`.
#[derive(Debug)]
pub struct SdfLeaf<const N: usize, T> {
    inner: T,
}

impl<const N: usize, T> SdfLeaf<N, T> {
    pub closed spec fn spec_inner(&self) -> T {
        self.inner
    }

    pub fn new(inner: T) -> (r: Self)
        ensures
            r.spec_inner() == inner,
    {
        SdfLeaf { inner }
    }

    /// The wrapped shape.
    pub fn inner(&self) -> (r: &T)
        ensures
            *r == self.spec_inner(),
    {
        &self.inner
    }
}

} // verus!
