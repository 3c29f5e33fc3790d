use vstd::prelude::*;
use crate::mesh_triangle::MeshTriangle;

verus! {

/// A triangle mesh: vertex positions of any type `V` and triangles over their indices.
#[derive(Clone, Debug, PartialEq)]
pub struct Mesh<V> {
    vertices: Vec<V>,
    triangles: Vec<MeshTriangle>,
}

impl<V> Mesh<V> {
    pub closed spec fn spec_vertices(&self) -> Seq<V> {
        self.vertices@
    }

    pub closed spec fn spec_triangles(&self) -> Seq<MeshTriangle> {
        self.triangles@
    }

    /// A mesh holds no more vertices or triangles than a `usize` counts.
    pub proof fn lemma_sizes(&self)
        ensures
            self.spec_vertices().len() <= usize::MAX,
            self.spec_triangles().len() <= usize::MAX,
    {
        assert(self.vertices.len() == self.vertices@.len());
        assert(self.triangles.len() == self.triangles@.len());
    }

    pub fn new(vertices: Vec<V>, triangles: Vec<MeshTriangle>) -> (r: Self)
        ensures
            r.spec_vertices() == vertices@,
            r.spec_triangles() == triangles@,
    {
        Mesh { vertices, triangles }
    }

    pub fn vertices(&self) -> (r: &[V])
        ensures
            r@ == self.spec_vertices(),
    {
        self.vertices.as_slice()
    }

    pub fn triangles(&self) -> (r: &[MeshTriangle])
        ensures
            r@ == self.spec_triangles(),
    {
        self.triangles.as_slice()
    }
}

} // verus!
