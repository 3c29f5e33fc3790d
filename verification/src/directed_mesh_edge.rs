use vstd::prelude::*;
use crate::mesh_edge::{MeshEdge, spec_min, spec_max};

verus! {

/// An edge from one mesh vertex to another.
#[derive(Copy, Clone, Eq, Ord, PartialOrd, PartialEq, Hash, Debug)]
pub struct DirectedMeshEdge {
    vertices: [usize; 2],
}

impl View for DirectedMeshEdge {
    type V = (usize, usize);

    closed spec fn view(&self) -> (usize, usize) {
        (self.vertices[0], self.vertices[1])
    }
}

impl DirectedMeshEdge {
    /// The edge from `v1` to `v2`.
    pub fn new(v1: usize, v2: usize) -> (r: Self)
        ensures
            r@ == (v1, v2),
    {
        DirectedMeshEdge { vertices: [v1, v2] }
    }

    pub fn vertices(&self) -> (r: [usize; 2])
        ensures
            r@ == seq![self@.0, self@.1],
    {
        self.vertices
    }

    pub fn v1(&self) -> (r: usize)
        ensures
            r == self@.0,
    {
        self.vertices[0]
    }

    pub fn v2(&self) -> (r: usize)
        ensures
            r == self@.1,
    {
        self.vertices[1]
    }

    /// The same edge, walked the other way.
    pub fn inverted(self) -> (r: DirectedMeshEdge)
        ensures
            r@ == (self@.1, self@.0),
    {
        Self::new(self.vertices[1], self.vertices[0])
    }

    /// The undirected edge under this one.
    pub fn edge(&self) -> (r: MeshEdge)
        ensures
            r@ == (spec_min(self@.0, self@.1), spec_max(self@.0, self@.1)),
    {
        MeshEdge::new(self.vertices[0], self.vertices[1])
    }
}

impl From<[usize; 2]> for DirectedMeshEdge {
    fn from(vertices: [usize; 2]) -> (r: Self)
        ensures
            r@ == (vertices[0], vertices[1]),
    {
        DirectedMeshEdge { vertices }
    }
}

impl vstd::std_specs::convert::FromSpecImpl<[usize; 2]> for DirectedMeshEdge {
    open spec fn obeys_from_spec() -> bool {
        true
    }

    closed spec fn from_spec(v: [usize; 2]) -> Self {
        DirectedMeshEdge { vertices: v }
    }
}

} // verus!
