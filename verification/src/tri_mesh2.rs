//! A planar triangle mesh: positions of type `V` and triangles over their indices.
use vstd::prelude::*;
use crate::mesh_triangle::MeshTriangle;

verus! {

pub struct TriMesh2<V> {
    vertices: Vec<V>,
    tris: Vec<MeshTriangle>,
}

impl<V> TriMesh2<V> {
    pub closed spec fn spec_vertices(&self) -> Seq<V> {
        self.vertices@
    }

    pub closed spec fn spec_tris(&self) -> Seq<MeshTriangle> {
        self.tris@
    }

    pub fn new(vertices: Vec<V>, tris: Vec<MeshTriangle>) -> (r: Self)
        ensures
            r.spec_vertices() == vertices@,
            r.spec_tris() == tris@,
    {
        TriMesh2 { vertices, tris }
    }

    pub fn vertices(&self) -> (r: &[V])
        ensures
            r@ == self.spec_vertices(),
    {
        self.vertices.as_slice()
    }

    pub fn tris(&self) -> (r: &[MeshTriangle])
        ensures
            r@ == self.spec_tris(),
    {
        self.tris.as_slice()
    }
}

} // verus!
