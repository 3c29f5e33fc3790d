//! What the surface extraction knows of one cube: its marked faces and edges and which
//! lattice points lie inside the shape.
use vstd::prelude::*;
use crate::transvoxel::cube_edge::CubeEdgeSet;
use crate::transvoxel::cube_face::CubeFaceSet;
use crate::transvoxel::cube_tetr::{
    CubeTetr, CubeTetrMesh, TetrCorners, cut_answer, cut_question, cut_triangles, divided_tetrs,
};
use crate::transvoxel::cube_triangle::{CubeTri, CubeTriMesh, TriPairs};
use crate::transvoxel::cube_vertex::{CubeVertex, CubeVertexSet, oriented};

verus! {

pub struct CubeInput {
    faces: CubeFaceSet,
    edges: CubeEdgeSet,
    vertices: CubeVertexSet,
}

/// The corners of `t`, in order, that lie inside (`inside == true`) or outside the shape.
pub open spec fn corners_where(t: TetrCorners, s: CubeVertexSet, inside: bool) -> Seq<CubeVertex> {
    let pick = |v: CubeVertex|
        if s.contains(v) == inside {
            seq![v]
        } else {
            Seq::<CubeVertex>::empty()
        };
    pick(t.0) + pick(t.1) + pick(t.2) + pick(t.3)
}

/// The cut of every tetrahedron among the first `n`, each wound by its answer.
pub open spec fn cube_cut(ts: Seq<TetrCorners>, s: CubeVertexSet, answers: Seq<bool>, n: int) -> Seq<
    TriPairs,
>
    decreases n,
{
    if n <= 0 {
        Seq::empty()
    } else {
        cube_cut(ts, s, answers, n - 1) + cut_triangles(
            corners_where(ts[n - 1], s, true),
            corners_where(ts[n - 1], s, false),
            answers[n - 1],
        )
    }
}

/// The answer to the cut question of each tetrahedron of `ts`, in order.
pub open spec fn cut_answers(ts: Seq<TetrCorners>, s: CubeVertexSet) -> Seq<bool> {
    Seq::new(
        ts.len(),
        |k: int| cut_answer(corners_where(ts[k], s, true), corners_where(ts[k], s, false)),
    )
}

impl CubeInput {
    pub closed spec fn spec_faces(&self) -> CubeFaceSet {
        self.faces
    }

    pub closed spec fn spec_edges(&self) -> CubeEdgeSet {
        self.edges
    }

    pub closed spec fn spec_vertices(&self) -> CubeVertexSet {
        self.vertices
    }

    /// The tetrahedra the cube is divided into for its marked faces and edges.
    pub open spec fn spec_tetrs(&self) -> Seq<TetrCorners> {
        divided_tetrs(self.spec_faces(), self.spec_edges())
    }

    pub fn new(faces: CubeFaceSet, edges: CubeEdgeSet, vertices: CubeVertexSet) -> (r: Self)
        ensures
            r.spec_faces() == faces,
            r.spec_edges() == edges,
            r.spec_vertices() == vertices,
    {
        CubeInput { faces, edges, vertices }
    }

    /// The corners of `t` inside the shape and those outside, each in order.
    pub fn split_corners(&self, t: &CubeTetr) -> (r: (Vec<CubeVertex>, Vec<CubeVertex>))
        ensures
            r.0@ == corners_where(t@, self.spec_vertices(), true),
            r.1@ == corners_where(t@, self.spec_vertices(), false),
    {
        let vs = t.vertices();
        let mut inside: Vec<CubeVertex> = Vec::new();
        let mut outside: Vec<CubeVertex> = Vec::new();
        let mut k: usize = 0;
        while k < 4
            invariant
                k <= 4,
                vs@ == seq![t@.0, t@.1, t@.2, t@.3],
                inside@ == corners_where_upto(vs@, self.spec_vertices(), true, k as int),
                outside@ == corners_where_upto(vs@, self.spec_vertices(), false, k as int),
            decreases 4 - k,
        {
            let v = vs[k];
            if self.vertices.holds(v) {
                inside.push(v);
            } else {
                outside.push(v);
            }
            proof {
                assert(inside@ =~= corners_where_upto(vs@, self.spec_vertices(), true, k + 1));
                assert(outside@ =~= corners_where_upto(vs@, self.spec_vertices(), false, k + 1));
            }
            k = k + 1;
        }
        proof {
            reveal_with_fuel(corners_where_upto, 5);
            assert(corners_where_upto(vs@, self.spec_vertices(), true, 4) =~= corners_where(
                t@,
                self.spec_vertices(),
                true,
            ));
            assert(corners_where_upto(vs@, self.spec_vertices(), false, 4) =~= corners_where(
                t@,
                self.spec_vertices(),
                false,
            ));
        }
        (inside, outside)
    }

    /// For each tetrahedron of the divided cube, in order, the question whose answer decides
    /// how it is cut, if any.
    pub fn cut_questions(&self) -> (r: Vec<Option<([CubeVertex; 3], CubeVertex)>>)
        ensures
            r.len() == self.spec_tetrs().len(),
            forall|k: int|
                0 <= k < r.len() ==> match #[trigger] r[k] {
                    Some((t, p)) => cut_question(
                        corners_where(self.spec_tetrs()[k], self.spec_vertices(), true),
                        corners_where(self.spec_tetrs()[k], self.spec_vertices(), false),
                    ) == Some(((t[0], t[1], t[2]), p)),
                    None => cut_question(
                        corners_where(self.spec_tetrs()[k], self.spec_vertices(), true),
                        corners_where(self.spec_tetrs()[k], self.spec_vertices(), false),
                    ) is None,
                },
    {
        let mesh = CubeTetrMesh::divided_cube(&self.faces, &self.edges);
        let tetrs = mesh.tetrs();
        let mut r: Vec<Option<([CubeVertex; 3], CubeVertex)>> = Vec::new();
        let mut k: usize = 0;
        while k < tetrs.len()
            invariant
                k <= tetrs.len(),
                tetrs@.map_values(|t: CubeTetr| t@) == self.spec_tetrs(),
                r.len() == k,
                forall|j: int|
                    0 <= j < k ==> match #[trigger] r[j] {
                        Some((t, p)) => cut_question(
                            corners_where(self.spec_tetrs()[j], self.spec_vertices(), true),
                            corners_where(self.spec_tetrs()[j], self.spec_vertices(), false),
                        ) == Some(((t[0], t[1], t[2]), p)),
                        None => cut_question(
                            corners_where(self.spec_tetrs()[j], self.spec_vertices(), true),
                            corners_where(self.spec_tetrs()[j], self.spec_vertices(), false),
                        ) is None,
                    },
            decreases tetrs.len() - k,
        {
            proof {
                assert(self.spec_tetrs()[k as int] == tetrs@[k as int]@);
            }
            let (inside, outside) = self.split_corners(&tetrs[k]);
            r.push(CubeTetr::cut_question(inside.as_slice(), outside.as_slice()));
            k = k + 1;
        }
        r
    }

    /// The surface through the cube: the cut of each tetrahedron of the divided cube, facing
    /// the lattice points outside the shape.
    pub fn as_mesh(&self) -> (r: CubeTriMesh)
        ensures
            r@ == cube_cut(
                self.spec_tetrs(),
                self.spec_vertices(),
                cut_answers(self.spec_tetrs(), self.spec_vertices()),
                self.spec_tetrs().len() as int,
            ),
    {
        let questions = self.cut_questions();
        let mut answers: Vec<bool> = Vec::new();
        let mut k: usize = 0;
        while k < questions.len()
            invariant
                k <= questions.len(),
                questions.len() == self.spec_tetrs().len(),
                answers.len() == k,
                forall|j: int|
                    0 <= j < questions.len() ==> match #[trigger] questions[j] {
                        Some((t, p)) => cut_question(
                            corners_where(self.spec_tetrs()[j], self.spec_vertices(), true),
                            corners_where(self.spec_tetrs()[j], self.spec_vertices(), false),
                        ) == Some(((t[0], t[1], t[2]), p)),
                        None => cut_question(
                            corners_where(self.spec_tetrs()[j], self.spec_vertices(), true),
                            corners_where(self.spec_tetrs()[j], self.spec_vertices(), false),
                        ) is None,
                    },
                forall|j: int|
                    0 <= j < k ==> #[trigger] answers@[j] == cut_answers(
                        self.spec_tetrs(),
                        self.spec_vertices(),
                    )[j],
            decreases questions.len() - k,
        {
            let a = match questions[k] {
                Some((t, p)) => oriented(t, p),
                None => false,
            };
            proof {
                let j = k as int;
                assert(match questions[j] {
                    Some((t, p)) => cut_question(
                        corners_where(self.spec_tetrs()[j], self.spec_vertices(), true),
                        corners_where(self.spec_tetrs()[j], self.spec_vertices(), false),
                    ) == Some(((t[0], t[1], t[2]), p)),
                    None => cut_question(
                        corners_where(self.spec_tetrs()[j], self.spec_vertices(), true),
                        corners_where(self.spec_tetrs()[j], self.spec_vertices(), false),
                    ) is None,
                });
            }
            answers.push(a);
            k = k + 1;
        }
        assert(answers@ =~= cut_answers(self.spec_tetrs(), self.spec_vertices()));
        self.as_mesh_answered(answers.as_slice())
    }

    /// The surface through the cube: the cut of each tetrahedron of the divided cube, wound
    /// by `answers[k]`, the answer to the `k`th of [`Self::cut_questions`] (ignored where
    /// there is none).
    pub fn as_mesh_answered(&self, answers: &[bool]) -> (r: CubeTriMesh)
        requires
            answers.len() == self.spec_tetrs().len(),
        ensures
            r@ == cube_cut(self.spec_tetrs(), self.spec_vertices(), answers@, answers.len() as int),
    {
        let mesh = CubeTetrMesh::divided_cube(&self.faces, &self.edges);
        let tetrs = mesh.tetrs();
        let mut tris: Vec<CubeTri> = Vec::new();
        let mut k: usize = 0;
        while k < tetrs.len()
            invariant
                k <= tetrs.len(),
                tetrs@.map_values(|t: CubeTetr| t@) == self.spec_tetrs(),
                answers.len() == tetrs.len(),
                tris@.map_values(|t: CubeTri| t@) == cube_cut(
                    self.spec_tetrs(),
                    self.spec_vertices(),
                    answers@,
                    k as int,
                ),
            decreases tetrs.len() - k,
        {
            proof {
                assert(self.spec_tetrs()[k as int] == tetrs@[k as int]@);
            }
            let (inside, outside) = self.split_corners(&tetrs[k]);
            let cut = tetrs[k].as_mesh_wound(inside.as_slice(), outside.as_slice(), answers[k]);
            let pieces = cut.triangles();
            let ghost before = tris@.map_values(|t: CubeTri| t@);
            let mut j: usize = 0;
            while j < pieces.len()
                invariant
                    j <= pieces.len(),
                    tris@.map_values(|t: CubeTri| t@) == before + pieces@.map_values(|t: CubeTri| t@).take(
                        j as int,
                    ),
                decreases pieces.len() - j,
            {
                let ghost prev = tris@;
                tris.push(pieces[j]);
                proof {
                    assert(tris@.map_values(|t: CubeTri| t@) =~= prev.map_values(|t: CubeTri| t@).push(
                        pieces@[j as int]@,
                    ));
                    assert(tris@.map_values(|t: CubeTri| t@) =~= before + pieces@.map_values(
                        |t: CubeTri| t@,
                    ).take(j + 1));
                }
                j = j + 1;
            }
            proof {
                assert(pieces@.map_values(|t: CubeTri| t@).take(pieces.len() as int) =~= pieces@.map_values(
                    |t: CubeTri| t@,
                ));
            }
            k = k + 1;
        }
        CubeTriMesh::new(tris)
    }
}

/// The corners among the first `k` of `vs` that lie inside (or outside) the shape.
pub open spec fn corners_where_upto(vs: Seq<CubeVertex>, s: CubeVertexSet, inside: bool, k: int) -> Seq<
    CubeVertex,
>
    decreases k,
{
    if k <= 0 {
        Seq::empty()
    } else if s.contains(vs[k - 1]) == inside {
        corners_where_upto(vs, s, inside, k - 1).push(vs[k - 1])
    } else {
        corners_where_upto(vs, s, inside, k - 1)
    }
}

} // verus!
