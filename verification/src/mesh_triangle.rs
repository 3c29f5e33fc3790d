use vstd::prelude::*;
use crate::mesh_edge::{MeshEdge, spec_min, spec_max};
use crate::directed_mesh_edge::DirectedMeshEdge;

verus! {

/// A triangle given by three vertex indices, in winding order.
#[derive(Copy, Clone, Ord, PartialOrd, Eq, PartialEq, Hash, Debug)]
pub struct MeshTriangle {
    vertices: [usize; 3],
}

/// The three vertices turned so that the first smallest one leads, keeping the winding.
pub open spec fn canonical_rotation(v1: usize, v2: usize, v3: usize) -> (usize, usize, usize) {
    if v1 <= v2 && v1 <= v3 {
        (v1, v2, v3)
    } else if v2 <= v3 {
        (v2, v3, v1)
    } else {
        (v3, v1, v2)
    }
}

impl View for MeshTriangle {
    type V = (usize, usize, usize);

    closed spec fn view(&self) -> (usize, usize, usize) {
        (self.vertices[0], self.vertices[1], self.vertices[2])
    }
}

impl MeshTriangle {
    /// The triangle `v1, v2, v3`, rotated so that its smallest vertex comes first.
    pub fn new(v1: usize, v2: usize, v3: usize) -> (r: Self)
        ensures
            r@ == canonical_rotation(v1, v2, v3),
    {
        let vertices = if v1 <= v2 && v1 <= v3 {
            [v1, v2, v3]
        } else if v2 <= v3 {
            [v2, v3, v1]
        } else {
            [v3, v1, v2]
        };
        MeshTriangle { vertices }
    }

    /// Reverses the winding by swapping the last two vertices.
    pub fn invert(&mut self)
        ensures
            final(self)@ == (old(self)@.0, old(self)@.2, old(self)@.1),
    {
        let a = self.vertices[1];
        let b = self.vertices[2];
        self.vertices[1] = b;
        self.vertices[2] = a;
    }

    pub fn vertices(&self) -> (r: [usize; 3])
        ensures
            r@ == seq![self@.0, self@.1, self@.2],
    {
        self.vertices
    }

    /// Mutable access to the three vertices; whatever is written through it becomes the
    /// triangle.
    pub fn vertices_mut(&mut self) -> (r: &mut [usize; 3])
        ensures
            r@ == seq![old(self)@.0, old(self)@.1, old(self)@.2],
            final(self)@ == (final(r)[0], final(r)[1], final(r)[2]),
    {
        &mut self.vertices
    }

    /// The three edges in winding order: `v0 -> v1`, `v1 -> v2`, `v2 -> v0`.
    pub fn ordered_edges(&self) -> (r: [DirectedMeshEdge; 3])
        ensures
            r[0]@ == (self@.0, self@.1),
            r[1]@ == (self@.1, self@.2),
            r[2]@ == (self@.2, self@.0),
    {
        [
            DirectedMeshEdge::new(self.vertices[0], self.vertices[1]),
            DirectedMeshEdge::new(self.vertices[1], self.vertices[2]),
            DirectedMeshEdge::new(self.vertices[2], self.vertices[0]),
        ]
    }

    /// The three undirected edges, in winding order.
    pub fn edges(&self) -> (r: [MeshEdge; 3])
        ensures
            r[0]@ == (spec_min(self@.0, self@.1), spec_max(self@.0, self@.1)),
            r[1]@ == (spec_min(self@.1, self@.2), spec_max(self@.1, self@.2)),
            r[2]@ == (spec_min(self@.2, self@.0), spec_max(self@.2, self@.0)),
    {
        [
            MeshEdge::new(self.vertices[0], self.vertices[1]),
            MeshEdge::new(self.vertices[1], self.vertices[2]),
            MeshEdge::new(self.vertices[2], self.vertices[0]),
        ]
    }
}

impl From<[usize; 3]> for MeshTriangle {
    fn from(vertices: [usize; 3]) -> (r: Self)
        ensures
            r@ == (vertices[0], vertices[1], vertices[2]),
    {
        MeshTriangle { vertices }
    }
}

impl vstd::std_specs::convert::FromSpecImpl<[usize; 3]> for MeshTriangle {
    open spec fn obeys_from_spec() -> bool {
        true
    }

    closed spec fn from_spec(v: [usize; 3]) -> Self {
        MeshTriangle { vertices: v }
    }
}

} // verus!
