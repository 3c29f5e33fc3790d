//! Triangles whose corners are midpoints of pairs of cube lattice points.
use vstd::prelude::*;
use crate::mesh::Mesh;
use crate::mesh_triangle::{MeshTriangle, canonical_rotation};
use crate::transvoxel::cube_vertex::CubeVertex;

verus! {

/// The corners of a cut triangle: each is the midpoint of the two lattice points in the pair.
pub type TriPairs = ((CubeVertex, CubeVertex), (CubeVertex, CubeVertex), (CubeVertex, CubeVertex));

/// A triangle whose corners lie halfway between pairs of lattice points.
#[derive(Copy, Clone, Debug)]
pub struct CubeTri([(CubeVertex, CubeVertex); 3]);

/// A list of such triangles.
#[derive(Clone, Debug)]
pub struct CubeTriMesh(Vec<CubeTri>);

impl View for CubeTri {
    type V = TriPairs;

    closed spec fn view(&self) -> TriPairs {
        (self.0[0], self.0[1], self.0[2])
    }
}

/// The sum of a pair of lattice points: twice their midpoint.
pub open spec fn pair_sum(p: (CubeVertex, CubeVertex)) -> CubeVertex {
    CubeVertex {
        x: (p.0.x + p.1.x) as u8,
        y: (p.0.y + p.1.y) as u8,
        z: (p.0.z + p.1.z) as u8,
    }
}

/// The coordinates of a pair can be added without overflow.
pub open spec fn pair_fits(p: (CubeVertex, CubeVertex)) -> bool {
    p.0.x + p.1.x <= u8::MAX && p.0.y + p.1.y <= u8::MAX && p.0.z + p.1.z <= u8::MAX
}

impl CubeTri {
    pub fn new(vs: [(CubeVertex, CubeVertex); 3]) -> (r: Self)
        ensures
            r@ == (vs[0], vs[1], vs[2]),
    {
        CubeTri(vs)
    }

    pub fn vertices(&self) -> (r: &[(CubeVertex, CubeVertex); 3])
        ensures
            r[0] == self@.0 && r[1] == self@.1 && r[2] == self@.2,
    {
        &self.0
    }
}

impl View for CubeTriMesh {
    type V = Seq<TriPairs>;

    closed spec fn view(&self) -> Seq<TriPairs> {
        self.0@.map_values(|t: CubeTri| t@)
    }
}

impl CubeTriMesh {
    pub fn new(tris: Vec<CubeTri>) -> (r: Self)
        ensures
            r@ == tris@.map_values(|t: CubeTri| t@),
    {
        CubeTriMesh(tris)
    }

    pub fn triangles(&self) -> (r: &[CubeTri])
        ensures
            r@.map_values(|t: CubeTri| t@) == self@,
    {
        self.0.as_slice()
    }

    /// The triangles as a mesh with three fresh vertices each, every vertex being the sum of
    /// its pair (twice the midpoint, so that it stays on the integer lattice).
    pub fn into_mesh(&self) -> (r: Mesh<CubeVertex>)
        requires
            3 * self@.len() <= usize::MAX,
            forall|i: int|
                0 <= i < self@.len() ==> pair_fits(#[trigger] self@[i].0) && pair_fits(self@[i].1)
                    && pair_fits(self@[i].2),
        ensures
            r.spec_vertices().len() == 3 * self@.len(),
            forall|j: int| 0 <= j < 3 * self@.len() ==> #[trigger] r.spec_vertices()[j] == corner_sum(self@, j),
            r.spec_triangles().len() == self@.len(),
            forall|i: int|
                0 <= i < self@.len() ==> #[trigger] r.spec_triangles()[i]@ == canonical_rotation(
                    (3 * i) as usize,
                    (3 * i + 1) as usize,
                    (3 * i + 2) as usize,
                ),
    {
        let mut vertices: Vec<CubeVertex> = Vec::new();
        let mut tris: Vec<MeshTriangle> = Vec::new();
        let mut i: usize = 0;
        while i < self.0.len()
            invariant
                i <= self.0.len(),
                3 * self@.len() <= usize::MAX,
                self@ == self.0@.map_values(|t: CubeTri| t@),
                forall|k: int|
                    0 <= k < self@.len() ==> pair_fits(#[trigger] self@[k].0) && pair_fits(self@[k].1)
                        && pair_fits(self@[k].2),
                vertices.len() == 3 * i,
                tris.len() == i,
                forall|j: int| 0 <= j < 3 * i ==> #[trigger] vertices@[j] == corner_sum(self@, j),
                forall|k: int|
                    0 <= k < i ==> #[trigger] tris@[k]@ == canonical_rotation(
                        (3 * k) as usize,
                        (3 * k + 1) as usize,
                        (3 * k + 2) as usize,
                    ),
            decreases self.0.len() - i,
        {
            let t = self.0[i];
            proof {
                assert(self@[i as int] == t@);
                let _ = pair_fits(self@[i as int].0);
            }
            let index = vertices.len();
            let ps = t.vertices();
            vertices.push(ps[0].0.add(ps[0].1));
            vertices.push(ps[1].0.add(ps[1].1));
            vertices.push(ps[2].0.add(ps[2].1));
            tris.push(MeshTriangle::new(index, index + 1, index + 2));
            proof {
                let b = 3 * i as int;
                assert(b / 3 == i && b % 3 == 0);
                assert((b + 1) / 3 == i && (b + 1) % 3 == 1);
                assert((b + 2) / 3 == i && (b + 2) % 3 == 2);
                assert(vertices@[b] == corner_sum(self@, b));
                assert(vertices@[b + 1] == corner_sum(self@, b + 1));
                assert(vertices@[b + 2] == corner_sum(self@, b + 2));
            }
            i = i + 1;
        }
        Mesh::new(vertices, tris)
    }
}

/// Vertex `j` of the mesh of `tris`: corner `j % 3` of triangle `j / 3`, as a pair sum.
pub open spec fn corner_sum(tris: Seq<TriPairs>, j: int) -> CubeVertex {
    let t = tris[j / 3];
    if j % 3 == 0 {
        pair_sum(t.0)
    } else if j % 3 == 1 {
        pair_sum(t.1)
    } else {
        pair_sum(t.2)
    }
}


/// `b` holds the same three points as `a`, in some order.
pub open spec fn same_points(a: (CubeVertex, CubeVertex, CubeVertex), b: (CubeVertex, CubeVertex, CubeVertex)) -> bool {
    ||| b == (a.0, a.1, a.2)
    ||| b == (a.0, a.2, a.1)
    ||| b == (a.1, a.0, a.2)
    ||| b == (a.1, a.2, a.0)
    ||| b == (a.2, a.0, a.1)
    ||| b == (a.2, a.1, a.0)
}

/// The points a triangle meets (twice its corners).
pub open spec fn tri_points(t: TriPairs) -> (CubeVertex, CubeVertex, CubeVertex) {
    (pair_sum(t.0), pair_sum(t.1), pair_sum(t.2))
}

fn same_points_exec(a: (CubeVertex, CubeVertex, CubeVertex), b: (CubeVertex, CubeVertex, CubeVertex)) -> (r: bool)
    ensures
        r == same_points(a, b),
{
    (b.0 == a.0 && b.1 == a.1 && b.2 == a.2) || (b.0 == a.0 && b.1 == a.2 && b.2 == a.1) || (b.0 == a.1
        && b.1 == a.0 && b.2 == a.2) || (b.0 == a.1 && b.1 == a.2 && b.2 == a.0) || (b.0 == a.2 && b.1
        == a.0 && b.2 == a.1) || (b.0 == a.2 && b.1 == a.1 && b.2 == a.0)
}

impl CubeTriMesh {
    /// Whether two of the triangles meet the same three points.
    pub fn repeats_points(&self) -> (r: bool)
        requires
            forall|i: int|
                0 <= i < self@.len() ==> pair_fits(#[trigger] self@[i].0) && pair_fits(self@[i].1)
                    && pair_fits(self@[i].2),
        ensures
            r == exists|i: int, j: int|
                0 <= i < j < self@.len() && same_points(tri_points(#[trigger] self@[i]), tri_points(
                    #[trigger] self@[j],
                )),
    {
        let n = self.0.len();
        let mut i: usize = 0;
        while i < n
            invariant
                n == self@.len(),
                i <= n,
                self@ == self.0@.map_values(|t: CubeTri| t@),
                forall|k: int|
                    0 <= k < self@.len() ==> pair_fits(#[trigger] self@[k].0) && pair_fits(self@[k].1)
                        && pair_fits(self@[k].2),
                forall|a: int, b: int|
                    0 <= a < i && a < b < n ==> !same_points(tri_points(#[trigger] self@[a]), tri_points(
                        #[trigger] self@[b],
                    )),
            decreases n - i,
        {
            proof {
                assert(self@[i as int] == self.0@[i as int]@);
                let _ = pair_fits(self@[i as int].0);
            }
            let ti = self.0[i].points();
            let mut j: usize = i + 1;
            while j < n
                invariant
                    n == self@.len(),
                    i < n,
                    i + 1 <= j <= n,
                    self@ == self.0@.map_values(|t: CubeTri| t@),
                    forall|k: int|
                        0 <= k < self@.len() ==> pair_fits(#[trigger] self@[k].0) && pair_fits(self@[k].1)
                            && pair_fits(self@[k].2),
                    ti == tri_points(self@[i as int]),
                    forall|b: int| i < b < j ==> !same_points(ti, tri_points(#[trigger] self@[b])),
                decreases n - j,
            {
                proof {
                    assert(self@[j as int] == self.0@[j as int]@);
                    let _ = pair_fits(self@[j as int].0);
                }
                let tj = self.0[j].points();
                if same_points_exec(ti, tj) {
                    assert(same_points(tri_points(self@[i as int]), tri_points(self@[j as int])));
                    return true;
                }
                j = j + 1;
            }
            i = i + 1;
        }
        false
    }
}

impl CubeTri {
    /// The points the triangle meets: the sums of its pairs.
    fn points(&self) -> (r: (CubeVertex, CubeVertex, CubeVertex))
        requires
            pair_fits(self@.0) && pair_fits(self@.1) && pair_fits(self@.2),
        ensures
            r == tri_points(self@),
    {
        (self.0[0].0.add(self.0[0].1), self.0[1].0.add(self.0[1].1), self.0[2].0.add(self.0[2].1))
    }
}

} // verus!
