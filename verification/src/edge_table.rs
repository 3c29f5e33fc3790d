//! For each directed side of a triangle mesh, the triangle it belongs to and the vertex
//! across from it.
use vstd::prelude::*;
use std::collections::HashMap;
use crate::directed_mesh_edge::DirectedMeshEdge;
use crate::mesh::Mesh;
use crate::mesh_edge::MeshEdge;
use crate::mesh_triangle::MeshTriangle;
use crate::half_edge_mesh::{
    dedge_key, edge_key, last_side, lemma_dedge_key_injective, tri_corner, tri_dedge,
};

verus! {

/// One side's view of its triangle: which triangle, and the vertex across from the side.
#[derive(Copy, Clone, Debug, PartialEq, Eq, Structural)]
pub struct HalfWing {
    triangle: usize,
    vertex: usize,
}

impl View for HalfWing {
    type V = (usize, usize);

    closed spec fn view(&self) -> (usize, usize) {
        (self.triangle, self.vertex)
    }
}

impl HalfWing {
    /// The index of the triangle.
    pub fn triangle(&self) -> (r: usize)
        ensures
            r == self@.0,
    {
        self.triangle
    }

    /// The vertex of the triangle across from the side.
    pub fn vertex(&self) -> (r: usize)
        ensures
            r == self@.1,
    {
        self.vertex
    }
}

/// What side `k` of the triangles sees: triangle `k / 3` and the corner across from it.
pub open spec fn side_wing(tris: Seq<MeshTriangle>, k: int) -> (usize, usize) {
    ((k / 3) as usize, tri_corner(tris, 3 * (k / 3) + (k % 3 + 2) % 3))
}

/// The directed sides of a mesh, each with the triangle it bounds and its opposite vertex.
pub struct EdgeTable {
    table: HashMap<u128, HalfWing>,
}

impl EdgeTable {
    /// The wing recorded for each directed side.
    pub closed spec fn wings(&self) -> Map<(usize, usize), (usize, usize)> {
        Map::new(
            |d: (usize, usize)| self.table@.contains_key(dedge_key(d)),
            |d: (usize, usize)| self.table@[dedge_key(d)]@,
        )
    }

    /// Records every side of every triangle; where a directed side occurs more than once,
    /// the last occurrence wins.
    pub fn new<V>(mesh: &Mesh<V>) -> (r: Self)
        ensures
            forall|d: (usize, usize)|
                #[trigger] r.wings().contains_key(d) <==> last_side(
                    mesh.spec_triangles(),
                    d,
                    3 * mesh.spec_triangles().len() as int,
                ) >= 0,
            forall|d: (usize, usize)|
                #[trigger] r.wings().contains_key(d) ==> r.wings()[d] == side_wing(
                    mesh.spec_triangles(),
                    last_side(mesh.spec_triangles(), d, 3 * mesh.spec_triangles().len() as int),
                ),
    {
        let tris = mesh.triangles();
        let ghost ts = mesh.spec_triangles();
        let mut table: HashMap<u128, HalfWing> = HashMap::new();
        let mut t: usize = 0;
        while t < tris.len()
            invariant
                tris@ == ts,
                t <= tris.len(),
                forall|key: u128| table@.contains_key(key) ==> exists|d: (usize, usize)| dedge_key(d) == key,
                forall|d: (usize, usize)|
                    (#[trigger] table@.contains_key(dedge_key(d))) == (last_side(ts, d, 3 * t) >= 0),
                forall|d: (usize, usize)|
                    table@.contains_key(dedge_key(d)) ==> #[trigger] table@[dedge_key(d)]@ == side_wing(
                        ts,
                        last_side(ts, d, 3 * t),
                    ),
            decreases tris.len() - t,
        {
            let vs = tris[t].vertices();
            let mut side: usize = 0;
            while side < 3
                invariant
                    tris@ == ts,
                    t < tris.len(),
                    vs@ == seq![ts[t as int]@.0, ts[t as int]@.1, ts[t as int]@.2],
                    side <= 3,
                    forall|key: u128| table@.contains_key(key) ==> exists|d: (usize, usize)| dedge_key(d) == key,
                    forall|d: (usize, usize)|
                        (#[trigger] table@.contains_key(dedge_key(d))) == (last_side(ts, d, 3 * t + side) >= 0),
                    forall|d: (usize, usize)|
                        table@.contains_key(dedge_key(d)) ==> #[trigger] table@[dedge_key(d)]@ == side_wing(
                            ts,
                            last_side(ts, d, 3 * t + side),
                        ),
                decreases 3 - side,
            {
                let ghost k = 3 * t + side;
                proof {
                    assert(k / 3 == t);
                    assert(k % 3 == side);
                }
                let v1 = vs[side];
                let v2 = vs[(side + 1) % 3];
                let v3 = vs[(side + 2) % 3];
                let e = DirectedMeshEdge::new(v1, v2);
                proof {
                    assert(e@ == tri_dedge(ts, k));
                    assert(v3 == tri_corner(ts, 3 * (k / 3) + (k % 3 + 2) % 3));
                }
                table.insert(edge_key(e), HalfWing { triangle: t, vertex: v3 });
                proof {
                    assert forall|d: (usize, usize)| (#[trigger] table@.contains_key(dedge_key(d)))
                        == (last_side(ts, d, k + 1) >= 0) by {
                        lemma_dedge_key_injective(d, e@);
                    }
                    assert forall|d: (usize, usize)| table@.contains_key(dedge_key(d)) implies #[trigger] table@[dedge_key(
                        d,
                    )]@ == side_wing(ts, last_side(ts, d, k + 1)) by {
                        lemma_dedge_key_injective(d, e@);
                    }
                }
                side = side + 1;
            }
            t = t + 1;
        }
        let r = EdgeTable { table };
        proof {
            assert forall|d: (usize, usize)| #[trigger] r.wings().contains_key(d) implies r.wings()[d]
                == side_wing(ts, last_side(ts, d, 3 * ts.len() as int)) by {
                assert(table@.contains_key(dedge_key(d)));
            }
        }
        r
    }

    /// Whether `edge` is a side of the mesh.
    pub fn has_side(&self, edge: DirectedMeshEdge) -> (r: bool)
        ensures
            r == self.wings().contains_key(edge@),
    {
        self.table.contains_key(&edge_key(edge))
    }

    /// The wing of a directed side, which must be a side of the mesh.
    pub fn half_wing(&self, edge: DirectedMeshEdge) -> (r: &HalfWing)
        requires
            self.wings().contains_key(edge@),
        ensures
            r@ == self.wings()[edge@],
    {
        self.table.get(&edge_key(edge)).unwrap()
    }

    /// The wings on both sides of a directed edge: the edge's own, then its reverse's.
    pub fn directed_wing(&self, edge: DirectedMeshEdge) -> (r: [&HalfWing; 2])
        requires
            self.wings().contains_key(edge@),
            self.wings().contains_key((edge@.1, edge@.0)),
        ensures
            r[0]@ == self.wings()[edge@],
            r[1]@ == self.wings()[(edge@.1, edge@.0)],
    {
        let wing1 = self.half_wing(edge);
        let wing2 = self.half_wing(edge.inverted());
        [wing1, wing2]
    }

    /// The wings on both sides of an undirected edge, from its smaller vertex to its larger
    /// one first.
    pub fn wing(&self, edge: MeshEdge) -> (r: [&HalfWing; 2])
        requires
            self.wings().contains_key(edge@),
            self.wings().contains_key((edge@.1, edge@.0)),
        ensures
            r[0]@ == self.wings()[edge@],
            r[1]@ == self.wings()[(edge@.1, edge@.0)],
    {
        self.directed_wing(DirectedMeshEdge::new(edge.v1(), edge.v2()))
    }
}

} // verus!
