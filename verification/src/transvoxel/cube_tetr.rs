use vstd::prelude::*;
use crate::transvoxel::cube_vertex::{
    CubeVertex, CubeVertexSet, with_coord, coord, on_lattice, cube_center, oriented,
};
use crate::transvoxel::cube_face::{CubeFace, CubeFaceSet, face_at, face_center_of, face_sample};
use crate::transvoxel::cube_edge::{CubeEdgeSet, edge_vertex};
use crate::transvoxel::cube_triangle::{CubeTri, CubeTriMesh, TriPairs};

verus! {

/// A tetrahedron with corners on the lattice of a cube.
#[derive(Debug)]
pub struct CubeTetr {
    vertices: [CubeVertex; 4],
}

/// The four corners of a tetrahedron.
pub type TetrCorners = (CubeVertex, CubeVertex, CubeVertex, CubeVertex);

/// Six times the signed volume of the tetrahedron `t`: the determinant of the three edge
/// vectors leaving its first corner.
pub open spec fn det6(t: TetrCorners) -> int {
    let (v0, v1, v2, v3) = t;
    let ax = v1.x - v0.x;
    let ay = v1.y - v0.y;
    let az = v1.z - v0.z;
    let bx = v2.x - v0.x;
    let by = v2.y - v0.y;
    let bz = v2.z - v0.z;
    let cx = v3.x - v0.x;
    let cy = v3.y - v0.y;
    let cz = v3.z - v0.z;
    (ay * bz - az * by) * cx + (az * bx - ax * bz) * cy + (ax * by - ay * bx) * cz
}

pub open spec fn abs(x: int) -> int {
    if x < 0 { -x } else { x }
}

/// Six times the total unsigned volume of a sequence of tetrahedra.
pub open spec fn total_volume6(ts: Seq<TetrCorners>) -> int
    decreases ts.len(),
{
    if ts.len() == 0 {
        0
    } else {
        total_volume6(ts.drop_last()) + abs(det6(ts.last()))
    }
}

pub proof fn lemma_total_volume6_append(a: Seq<TetrCorners>, b: Seq<TetrCorners>)
    ensures
        total_volume6(a + b) == total_volume6(a) + total_volume6(b),
    decreases b.len(),
{
    if b.len() == 0 {
        assert(a + b =~= a);
    } else {
        lemma_total_volume6_append(a, b.drop_last());
        assert((a + b).drop_last() =~= a + b.drop_last());
    }
}

pub proof fn lemma_total_volume6_nonneg(a: Seq<TetrCorners>)
    ensures
        total_volume6(a) >= 0,
    decreases a.len(),
{
    if a.len() > 0 {
        lemma_total_volume6_nonneg(a.drop_last());
    }
}

impl View for CubeTetr {
    type V = TetrCorners;

    closed spec fn view(&self) -> TetrCorners {
        (self.vertices[0], self.vertices[1], self.vertices[2], self.vertices[3])
    }
}

impl CubeTetr {
    pub fn new(vs: [CubeVertex; 4]) -> (r: Self)
        ensures
            r@ == (vs[0], vs[1], vs[2], vs[3]),
    {
        CubeTetr { vertices: vs }
    }

    pub fn vertices(&self) -> (r: &[CubeVertex; 4])
        ensures
            r@ == seq![self@.0, self@.1, self@.2, self@.3],
    {
        &self.vertices
    }

    /// Six times the signed volume.
    pub fn signed_volume6(&self) -> (r: isize)
        ensures
            r == det6(self@),
            -99488250 <= r <= 99488250,
    {
        let v0 = self.vertices[0];
        let v1 = self.vertices[1];
        let v2 = self.vertices[2];
        let v3 = self.vertices[3];
        let ax = v1.x as isize - v0.x as isize;
        let ay = v1.y as isize - v0.y as isize;
        let az = v1.z as isize - v0.z as isize;
        let bx = v2.x as isize - v0.x as isize;
        let by = v2.y as isize - v0.y as isize;
        let bz = v2.z as isize - v0.z as isize;
        let cx = v3.x as isize - v0.x as isize;
        let cy = v3.y as isize - v0.y as isize;
        let cz = v3.z as isize - v0.z as isize;
        assert(-255 <= ax <= 255 && -255 <= ay <= 255 && -255 <= az <= 255);
        assert(-255 <= bx <= 255 && -255 <= by <= 255 && -255 <= bz <= 255);
        assert(-255 <= cx <= 255 && -255 <= cy <= 255 && -255 <= cz <= 255);
        assert(-65025 <= ay * bz <= 65025 && -65025 <= az * by <= 65025) by (nonlinear_arith)
            requires
                -255 <= ay <= 255,
                -255 <= az <= 255,
                -255 <= by <= 255,
                -255 <= bz <= 255,
        ;
        assert(-65025 <= az * bx <= 65025 && -65025 <= ax * bz <= 65025) by (nonlinear_arith)
            requires
                -255 <= ax <= 255,
                -255 <= az <= 255,
                -255 <= bx <= 255,
                -255 <= bz <= 255,
        ;
        assert(-65025 <= ax * by <= 65025 && -65025 <= ay * bx <= 65025) by (nonlinear_arith)
            requires
                -255 <= ax <= 255,
                -255 <= ay <= 255,
                -255 <= bx <= 255,
                -255 <= by <= 255,
        ;
        let p = ay * bz - az * by;
        let q = az * bx - ax * bz;
        let s = ax * by - ay * bx;
        assert(-33162750 <= p * cx <= 33162750) by (nonlinear_arith)
            requires
                -130050 <= p <= 130050,
                -255 <= cx <= 255,
        ;
        assert(-33162750 <= q * cy <= 33162750) by (nonlinear_arith)
            requires
                -130050 <= q <= 130050,
                -255 <= cy <= 255,
        ;
        assert(-33162750 <= s * cz <= 33162750) by (nonlinear_arith)
            requires
                -130050 <= s <= 130050,
                -255 <= cz <= 255,
        ;
        p * cx + q * cy + s * cz
    }
}


/// The corners of a sequence of tetrahedra.
pub open spec fn corners_of(s: Seq<CubeTetr>) -> Seq<TetrCorners> {
    s.map_values(|t: CubeTetr| t@)
}

/// `v` with coordinate `a2` set to `u` and then coordinate `a3` set to `w`.
pub open spec fn at2(v: CubeVertex, a2: int, u: u8, a3: int, w: u8) -> CubeVertex {
    with_coord(with_coord(v, a2, u), a3, w)
}

pub open spec fn center_point() -> CubeVertex {
    CubeVertex { x: 1, y: 1, z: 1 }
}

/// The tetrahedron on the unit square `(y0, z0)` of a subdivided face, in the plane of
/// axes `a2` and `a3`.
pub open spec fn split_tetr(f: (u8, bool), a2: int, a3: int, y0: u8, z0: u8) -> TetrCorners {
    let fc = face_center_of(f);
    (
        center_point(),
        at2(fc, a2, y0, a3, z0),
        at2(fc, a2, (y0 + 1) as u8, a3, z0),
        at2(fc, a2, (y0 + 1) as u8, a3, (z0 + 1) as u8),
    )
}

/// The four tetrahedra that a subdivided face contributes for one order of its axes.
pub open spec fn split_tetrs(f: (u8, bool), a2: int, a3: int) -> Seq<TetrCorners> {
    seq![
        split_tetr(f, a2, a3, 0, 0),
        split_tetr(f, a2, a3, 0, 1),
        split_tetr(f, a2, a3, 1, 0),
        split_tetr(f, a2, a3, 1, 1),
    ]
}

/// The tetrahedra that a face without subdivision contributes for one order of its axes:
/// the fan from the cube center over the face half below its diagonal, split at the edge
/// midpoints `m12` and `m23` where those are sampled.
pub open spec fn unsplit_tetrs(f: (u8, bool), a2: int, a3: int, m12: bool, m23: bool) -> Seq<
    TetrCorners,
> {
    let fc = face_center_of(f);
    let c = center_point();
    let corner1 = at2(fc, a2, 0, a3, 0);
    let midpoint12 = at2(fc, a2, 1, a3, 0);
    let corner2 = at2(fc, a2, 2, a3, 0);
    let midpoint23 = at2(fc, a2, 2, a3, 1);
    let corner3 = at2(fc, a2, 2, a3, 2);
    if !m12 && !m23 {
        seq![(c, corner1, corner2, corner3)]
    } else if m12 && !m23 {
        seq![(c, corner1, midpoint12, corner3), (c, midpoint12, corner2, corner3)]
    } else if !m12 && m23 {
        seq![(c, corner1, corner2, midpoint23), (c, corner1, midpoint23, corner3)]
    } else {
        seq![
            (c, corner1, midpoint12, corner3),
            (c, midpoint12, midpoint23, corner3),
            (c, midpoint12, corner2, midpoint23),
        ]
    }
}

/// Lattice points that the neighbours of a cube force it to sample: centers and edge
/// midpoints of subdivided faces, and midpoints of subdivided edges.
pub open spec fn sampled(faces: CubeFaceSet, edges: CubeEdgeSet, v: CubeVertex) -> bool {
    (exists|f: (u8, bool)| faces.contains(f) && face_sample(f, v)) || (exists|
        e: (u8, bool, bool),
    | edges.contains(e) && edge_vertex(e, 1) == v)
}

/// What face `f` contributes for the axis order `a2`, `a3`.
pub open spec fn face_group(
    f: (u8, bool),
    a2: int,
    a3: int,
    faces: CubeFaceSet,
    edges: CubeEdgeSet,
) -> Seq<TetrCorners> {
    if faces.contains(f) {
        split_tetrs(f, a2, a3)
    } else {
        let fc = face_center_of(f);
        unsplit_tetrs(
            f,
            a2,
            a3,
            sampled(faces, edges, at2(fc, a2, 1, a3, 0)),
            sampled(faces, edges, at2(fc, a2, 2, a3, 1)),
        )
    }
}

/// What face `f` contributes: both orders of its other axes, cyclic order first.
pub open spec fn face_tetrs(f: (u8, bool), faces: CubeFaceSet, edges: CubeEdgeSet) -> Seq<
    TetrCorners,
> {
    face_group(f, (f.0 + 1) % 3, (f.0 + 2) % 3, faces, edges) + face_group(
        f,
        (f.0 + 2) % 3,
        (f.0 + 1) % 3,
        faces,
        edges,
    )
}

/// What the first `n` faces, in the order of [`CubeFace::all`], contribute.
pub open spec fn faces_prefix(faces: CubeFaceSet, edges: CubeEdgeSet, n: int) -> Seq<TetrCorners>
    decreases n,
{
    if n <= 0 {
        Seq::empty()
    } else {
        faces_prefix(faces, edges, n - 1) + face_tetrs(face_at(n - 1), faces, edges)
    }
}

/// The corner reached from the origin by setting axes `p[0]`, `p[1]`, `p[2]` in turn to 2.
pub open spec fn walk_corner(p: (int, int, int), k: int) -> CubeVertex {
    let o = CubeVertex { x: 0, y: 0, z: 0 };
    if k == 0 {
        o
    } else if k == 1 {
        with_coord(o, p.0, 2)
    } else if k == 2 {
        with_coord(with_coord(o, p.0, 2), p.1, 2)
    } else {
        with_coord(with_coord(with_coord(o, p.0, 2), p.1, 2), p.2, 2)
    }
}

/// The `j`-th permutation of the axes in lexicographic order.
pub open spec fn permutation_at(j: int) -> (int, int, int) {
    if j == 0 {
        (0, 1, 2)
    } else if j == 1 {
        (0, 2, 1)
    } else if j == 2 {
        (1, 0, 2)
    } else if j == 3 {
        (1, 2, 0)
    } else if j == 4 {
        (2, 0, 1)
    } else {
        (2, 1, 0)
    }
}

/// The tetrahedron along the corner walk of permutation `j`.
pub open spec fn basic_tetr(j: int) -> TetrCorners {
    let p = permutation_at(j);
    (walk_corner(p, 0), walk_corner(p, 1), walk_corner(p, 2), walk_corner(p, 3))
}

/// The six tetrahedra around the main diagonal of the cube.
pub open spec fn basic_tetrs() -> Seq<TetrCorners> {
    Seq::new(6, |j: int| basic_tetr(j))
}

/// The tetrahedralization of a cube whose neighbours are subdivided across the faces
/// `faces` and the edges `edges`.
pub open spec fn divided_tetrs(faces: CubeFaceSet, edges: CubeEdgeSet) -> Seq<TetrCorners> {
    if (forall|f: (u8, bool)| !faces.contains(f)) && (forall|e: (u8, bool, bool)|
        !edges.contains(e)) {
        basic_tetrs()
    } else {
        faces_prefix(faces, edges, 6)
    }
}

/// A set of tetrahedra filling (part of) a cube.
pub struct CubeTetrMesh {
    tetrs: Vec<CubeTetr>,
}

impl View for CubeTetrMesh {
    type V = Seq<TetrCorners>;

    closed spec fn view(&self) -> Seq<TetrCorners> {
        corners_of(self.tetrs@)
    }
}

proof fn lemma_push_corners(s: Seq<CubeTetr>, t: CubeTetr)
    ensures
        corners_of(s.push(t)) == corners_of(s).push(t@),
{
    assert(corners_of(s.push(t)) =~= corners_of(s).push(t@));
}

fn push_tetr(tetrs: &mut Vec<CubeTetr>, v0: CubeVertex, v1: CubeVertex, v2: CubeVertex, v3: CubeVertex)
    ensures
        corners_of(final(tetrs)@) == corners_of(old(tetrs)@).push((v0, v1, v2, v3)),
{
    let t = CubeTetr::new([v0, v1, v2, v3]);
    proof {
        lemma_push_corners(tetrs@, t);
    }
    tetrs.push(t);
}

/// Appends what `face` contributes for the axis order `a2`, `a3`.
fn push_face_group(
    tetrs: &mut Vec<CubeTetr>,
    face: CubeFace,
    a2: u8,
    a3: u8,
    split: bool,
    mask: &CubeVertexSet,
    center: CubeVertex,
)
    requires
        face@.0 < 3,
        a2 < 3,
        a3 < 3,
        center == center_point(),
    ensures
        corners_of(final(tetrs)@) == corners_of(old(tetrs)@) + (if split {
            split_tetrs(face@, a2 as int, a3 as int)
        } else {
            let fc = face_center_of(face@);
            unsplit_tetrs(
                face@,
                a2 as int,
                a3 as int,
                mask.contains(at2(fc, a2 as int, 1, a3 as int, 0)),
                mask.contains(at2(fc, a2 as int, 2, a3 as int, 1)),
            )
        }),
{
    let fc = face.face_center();
    let ghost start = corners_of(tetrs@);
    let ghost f = face@;
    if split {
        let mut y0: u8 = 0;
        while y0 < 2
            invariant
                y0 <= 2,
                a2 < 3,
                a3 < 3,
                fc == face_center_of(f),
                center == center_point(),
                corners_of(tetrs@) == start + split_tetrs(f, a2 as int, a3 as int).take(2 * y0),
            decreases 2 - y0,
        {
            let mut z0: u8 = 0;
            while z0 < 2
                invariant
                    y0 < 2,
                    z0 <= 2,
                    a2 < 3,
                    a3 < 3,
                    fc == face_center_of(f),
                    center == center_point(),
                    corners_of(tetrs@) == start + split_tetrs(f, a2 as int, a3 as int).take(
                        2 * y0 + z0,
                    ),
                decreases 2 - z0,
            {
                let mut v1 = fc;
                v1.set(a2 as usize, y0);
                v1.set(a3 as usize, z0);
                let mut v2 = fc;
                v2.set(a2 as usize, y0 + 1);
                v2.set(a3 as usize, z0);
                let mut v3 = fc;
                v3.set(a2 as usize, y0 + 1);
                v3.set(a3 as usize, z0 + 1);
                push_tetr(tetrs, center, v1, v2, v3);
                assert(split_tetrs(f, a2 as int, a3 as int).take(2 * y0 + z0 + 1) =~= split_tetrs(
                    f,
                    a2 as int,
                    a3 as int,
                ).take(2 * y0 + z0).push(split_tetr(f, a2 as int, a3 as int, y0, z0)));
                z0 = z0 + 1;
            }
            y0 = y0 + 1;
        }
        assert(split_tetrs(f, a2 as int, a3 as int).take(4) =~= split_tetrs(
            f,
            a2 as int,
            a3 as int,
        ));
    } else {
        let mut corner1 = fc;
        corner1.set(a2 as usize, 0);
        corner1.set(a3 as usize, 0);
        let mut midpoint12 = fc;
        midpoint12.set(a2 as usize, 1);
        midpoint12.set(a3 as usize, 0);
        let mut corner2 = fc;
        corner2.set(a2 as usize, 2);
        corner2.set(a3 as usize, 0);
        let mut midpoint23 = fc;
        midpoint23.set(a2 as usize, 2);
        midpoint23.set(a3 as usize, 1);
        let mut corner3 = fc;
        corner3.set(a2 as usize, 2);
        corner3.set(a3 as usize, 2);
        let m12 = mask.get(midpoint12);
        let m23 = mask.get(midpoint23);
        if !m12 && !m23 {
            push_tetr(tetrs, center, corner1, corner2, corner3);
        } else if m12 && !m23 {
            push_tetr(tetrs, center, corner1, midpoint12, corner3);
            push_tetr(tetrs, center, midpoint12, corner2, corner3);
        } else if !m12 && m23 {
            push_tetr(tetrs, center, corner1, corner2, midpoint23);
            push_tetr(tetrs, center, corner1, midpoint23, corner3);
        } else {
            push_tetr(tetrs, center, corner1, midpoint12, corner3);
            push_tetr(tetrs, center, midpoint12, midpoint23, corner3);
            push_tetr(tetrs, center, midpoint12, corner2, midpoint23);
        }
        let ghost u = unsplit_tetrs(f, a2 as int, a3 as int, m12, m23);
        assert(corners_of(tetrs@) =~= start + u);
    }
}

impl CubeTetrMesh {
    pub fn new(tetrs: Vec<CubeTetr>) -> (r: Self)
        ensures
            r@ == corners_of(tetrs@),
    {
        CubeTetrMesh { tetrs }
    }

    pub fn tetrs(&self) -> (r: &[CubeTetr])
        ensures
            corners_of(r@) == self@,
    {
        self.tetrs.as_slice()
    }

    /// The six tetrahedra around the main diagonal from the origin corner to the far corner.
    pub fn basic_cube() -> (r: Self)
        ensures
            r@ == basic_tetrs(),
    {
        let perms: [[usize; 3]; 6] = [[0, 1, 2], [0, 2, 1], [1, 0, 2], [1, 2, 0], [2, 0, 1], [2, 1, 0]];
        let mut tetrs: Vec<CubeTetr> = Vec::new();
        let mut j: usize = 0;
        while j < 6
            invariant
                j <= 6,
                perms@ == seq![
                    [0usize, 1, 2],
                    [0usize, 2, 1],
                    [1usize, 0, 2],
                    [1usize, 2, 0],
                    [2usize, 0, 1],
                    [2usize, 1, 0],
                ],
                corners_of(tetrs@) == basic_tetrs().take(j as int),
            decreases 6 - j,
        {
            let p = perms[j];
            let ghost pp = permutation_at(j as int);
            assert(p[0] == pp.0 && p[1] == pp.1 && p[2] == pp.2);
            let mut v = CubeVertex::new(0, 0, 0);
            let w0 = v;
            v.set(p[0], 2);
            let w1 = v;
            v.set(p[1], 2);
            let w2 = v;
            v.set(p[2], 2);
            let w3 = v;
            push_tetr(&mut tetrs, w0, w1, w2, w3);
            assert(basic_tetrs().take(j + 1) =~= basic_tetrs().take(j as int).push(
                basic_tetr(j as int),
            ));
            j = j + 1;
        }
        assert(basic_tetrs().take(6) =~= basic_tetrs());
        CubeTetrMesh { tetrs }
    }

    /// Six times the total volume.
    pub fn volume6(&self) -> (r: usize)
        requires
            total_volume6(self@) <= usize::MAX,
        ensures
            r == total_volume6(self@),
    {
        let mut total: usize = 0;
        let mut i: usize = 0;
        while i < self.tetrs.len()
            invariant
                i <= self.tetrs.len(),
                total_volume6(self@) <= usize::MAX,
                total == total_volume6(self@.take(i as int)),
            decreases self.tetrs.len() - i,
        {
            let v = self.tetrs[i].signed_volume6();
            proof {
                assert(self@.take(i + 1).drop_last() =~= self@.take(i as int));
                assert(self@[i as int] == self.tetrs@[i as int]@);
                lemma_total_volume6_append(self@.take(i + 1), self@.skip(i + 1));
                assert(self@.take(i + 1) + self@.skip(i + 1) =~= self@);
                lemma_total_volume6_nonneg(self@.skip(i + 1));
            }
            let a: usize = if v < 0 { (-v) as usize } else { v as usize };
            total = total + a;
            i = i + 1;
        }
        assert(self@.take(self.tetrs.len() as int) =~= self@);
        total
    }

    /// The tetrahedralization of a cube whose neighbours are subdivided across the faces
    /// `faces` and the edges `edges`. The pieces always fill the whole cube.
    pub fn divided_cube(faces: &CubeFaceSet, edges: &CubeEdgeSet) -> (r: CubeTetrMesh)
        ensures
            r@ == divided_tetrs(*faces, *edges),
            total_volume6(r@) == 48,
    {
        proof {
            lemma_divided_cube_volume(*faces, *edges);
        }
        if faces.is_empty() && edges.is_empty() {
            return CubeTetrMesh::basic_cube();
        }
        let mut tetrs: Vec<CubeTetr> = Vec::new();
        let mut mask = CubeVertexSet::new();
        faces.add_samples_to(&mut mask);
        edges.add_samples_to(&mut mask);
        let center = cube_center();
        let all = CubeFace::all();
        let mut j: usize = 0;
        while j < 6
            invariant
                j <= 6,
                center == center_point(),
                forall|k: int| 0 <= k < 6 ==> #[trigger] all[k]@ == face_at(k),
                forall|v: CubeVertex| mask.contains(v) == sampled(*faces, *edges, v),
                corners_of(tetrs@) == faces_prefix(*faces, *edges, j as int),
            decreases 6 - j,
        {
            let face = all[j];
            let split = faces.get(face);
            let orders = face.other_axes_orders();
            let ghost f = face@;
            let ghost before = corners_of(tetrs@);
            let ghost fc = face_center_of(f);
            let ghost b1 = (f.0 + 1) % 3;
            let ghost b2 = (f.0 + 2) % 3;
            push_face_group(&mut tetrs, face, orders[0][0], orders[0][1], split, &mask, center);
            let ghost mid = corners_of(tetrs@);
            push_face_group(&mut tetrs, face, orders[1][0], orders[1][1], split, &mask, center);
            proof {
                assert(f == face_at(j as int));
                assert(split == faces.contains(f));
                assert(mask.contains(at2(fc, b1, 1, b2, 0)) == sampled(*faces, *edges, at2(fc, b1, 1, b2, 0)));
                assert(mask.contains(at2(fc, b1, 2, b2, 1)) == sampled(*faces, *edges, at2(fc, b1, 2, b2, 1)));
                assert(mask.contains(at2(fc, b2, 1, b1, 0)) == sampled(*faces, *edges, at2(fc, b2, 1, b1, 0)));
                assert(mask.contains(at2(fc, b2, 2, b1, 1)) == sampled(*faces, *edges, at2(fc, b2, 2, b1, 1)));
                assert(mid == before + face_group(f, b1, b2, *faces, *edges));
                assert(corners_of(tetrs@) == mid + face_group(f, b2, b1, *faces, *edges));
                assert(faces_prefix(*faces, *edges, j + 1) == faces_prefix(*faces, *edges, j as int)
                    + face_tetrs(f, *faces, *edges));
                assert(corners_of(tetrs@) =~= faces_prefix(*faces, *edges, j + 1));
            }
            j = j + 1;
        }
        CubeTetrMesh { tetrs }
    }
}


/// `a2` and `a3` are the two axes other than `axis`, in either order.
pub open spec fn other_axes_of(axis: int, a2: int, a3: int) -> bool {
    ||| a2 == (axis + 1) % 3 && a3 == (axis + 2) % 3
    ||| a2 == (axis + 2) % 3 && a3 == (axis + 1) % 3
}

proof fn lemma_volume_small(s: Seq<TetrCorners>)
    requires
        1 <= s.len() <= 4,
    ensures
        s.len() == 1 ==> total_volume6(s) == abs(det6(s[0])),
        s.len() == 2 ==> total_volume6(s) == abs(det6(s[0])) + abs(det6(s[1])),
        s.len() == 3 ==> total_volume6(s) == abs(det6(s[0])) + abs(det6(s[1])) + abs(det6(s[2])),
        s.len() == 4 ==> total_volume6(s) == abs(det6(s[0])) + abs(det6(s[1])) + abs(det6(s[2]))
            + abs(det6(s[3])),
    decreases s.len(),
{
    assert(total_volume6(s) == total_volume6(s.drop_last()) + abs(det6(s.last())));
    if s.len() == 1 {
        assert(s.drop_last().len() == 0);
    } else {
        lemma_volume_small(s.drop_last());
    }
}

/// Twice the signed area of the triangle `(u1, w1)`, `(u2, w2)`, `(u3, w3)`.
pub open spec fn cross2(u1: u8, w1: u8, u2: u8, w2: u8, u3: u8, w3: u8) -> int {
    (u2 - u1) * (w3 - w1) - (w2 - w1) * (u3 - u1)
}

/// A tetrahedron from the cube center over a triangle in a face has height 1, so its
/// volume is the area of that triangle, read in the face's own two coordinates.
proof fn lemma_face_det(f: (u8, bool), a2: int, a3: int, u1: u8, w1: u8, u2: u8, w2: u8, u3: u8, w3: u8)
    requires
        f.0 < 3,
        other_axes_of(f.0 as int, a2, a3),
    ensures
        abs(det6((center_point(), at2(face_center_of(f), a2, u1, a3, w1), at2(face_center_of(f), a2, u2, a3, w2), at2(face_center_of(f), a2, u3, a3, w3))))
            == abs(cross2(u1, w1, u2, w2, u3, w3)),
{
    let t = (center_point(), at2(face_center_of(f), a2, u1, a3, w1), at2(face_center_of(f), a2, u2, a3, w2), at2(face_center_of(f), a2, u3, a3, w3));
    if f.0 == 0 && a2 == 1 && f.1 == false {
        assert(abs(det6(t)) == abs(cross2(u1, w1, u2, w2, u3, w3))) by (nonlinear_arith)
            requires
                f.0 == 0,
                f.1 == false,
                a2 == 1,
                a3 == 2,
                t == (center_point(), at2(face_center_of(f), a2, u1, a3, w1), at2(face_center_of(f), a2, u2, a3, w2), at2(face_center_of(f), a2, u3, a3, w3)),
        ;
    }
    if f.0 == 0 && a2 == 1 && f.1 == true {
        assert(abs(det6(t)) == abs(cross2(u1, w1, u2, w2, u3, w3))) by (nonlinear_arith)
            requires
                f.0 == 0,
                f.1 == true,
                a2 == 1,
                a3 == 2,
                t == (center_point(), at2(face_center_of(f), a2, u1, a3, w1), at2(face_center_of(f), a2, u2, a3, w2), at2(face_center_of(f), a2, u3, a3, w3)),
        ;
    }
    if f.0 == 0 && a2 == 2 && f.1 == false {
        assert(abs(det6(t)) == abs(cross2(u1, w1, u2, w2, u3, w3))) by (nonlinear_arith)
            requires
                f.0 == 0,
                f.1 == false,
                a2 == 2,
                a3 == 1,
                t == (center_point(), at2(face_center_of(f), a2, u1, a3, w1), at2(face_center_of(f), a2, u2, a3, w2), at2(face_center_of(f), a2, u3, a3, w3)),
        ;
    }
    if f.0 == 0 && a2 == 2 && f.1 == true {
        assert(abs(det6(t)) == abs(cross2(u1, w1, u2, w2, u3, w3))) by (nonlinear_arith)
            requires
                f.0 == 0,
                f.1 == true,
                a2 == 2,
                a3 == 1,
                t == (center_point(), at2(face_center_of(f), a2, u1, a3, w1), at2(face_center_of(f), a2, u2, a3, w2), at2(face_center_of(f), a2, u3, a3, w3)),
        ;
    }
    if f.0 == 1 && a2 == 2 && f.1 == false {
        assert(abs(det6(t)) == abs(cross2(u1, w1, u2, w2, u3, w3))) by (nonlinear_arith)
            requires
                f.0 == 1,
                f.1 == false,
                a2 == 2,
                a3 == 0,
                t == (center_point(), at2(face_center_of(f), a2, u1, a3, w1), at2(face_center_of(f), a2, u2, a3, w2), at2(face_center_of(f), a2, u3, a3, w3)),
        ;
    }
    if f.0 == 1 && a2 == 2 && f.1 == true {
        assert(abs(det6(t)) == abs(cross2(u1, w1, u2, w2, u3, w3))) by (nonlinear_arith)
            requires
                f.0 == 1,
                f.1 == true,
                a2 == 2,
                a3 == 0,
                t == (center_point(), at2(face_center_of(f), a2, u1, a3, w1), at2(face_center_of(f), a2, u2, a3, w2), at2(face_center_of(f), a2, u3, a3, w3)),
        ;
    }
    if f.0 == 1 && a2 == 0 && f.1 == false {
        assert(abs(det6(t)) == abs(cross2(u1, w1, u2, w2, u3, w3))) by (nonlinear_arith)
            requires
                f.0 == 1,
                f.1 == false,
                a2 == 0,
                a3 == 2,
                t == (center_point(), at2(face_center_of(f), a2, u1, a3, w1), at2(face_center_of(f), a2, u2, a3, w2), at2(face_center_of(f), a2, u3, a3, w3)),
        ;
    }
    if f.0 == 1 && a2 == 0 && f.1 == true {
        assert(abs(det6(t)) == abs(cross2(u1, w1, u2, w2, u3, w3))) by (nonlinear_arith)
            requires
                f.0 == 1,
                f.1 == true,
                a2 == 0,
                a3 == 2,
                t == (center_point(), at2(face_center_of(f), a2, u1, a3, w1), at2(face_center_of(f), a2, u2, a3, w2), at2(face_center_of(f), a2, u3, a3, w3)),
        ;
    }
    if f.0 == 2 && a2 == 0 && f.1 == false {
        assert(abs(det6(t)) == abs(cross2(u1, w1, u2, w2, u3, w3))) by (nonlinear_arith)
            requires
                f.0 == 2,
                f.1 == false,
                a2 == 0,
                a3 == 1,
                t == (center_point(), at2(face_center_of(f), a2, u1, a3, w1), at2(face_center_of(f), a2, u2, a3, w2), at2(face_center_of(f), a2, u3, a3, w3)),
        ;
    }
    if f.0 == 2 && a2 == 0 && f.1 == true {
        assert(abs(det6(t)) == abs(cross2(u1, w1, u2, w2, u3, w3))) by (nonlinear_arith)
            requires
                f.0 == 2,
                f.1 == true,
                a2 == 0,
                a3 == 1,
                t == (center_point(), at2(face_center_of(f), a2, u1, a3, w1), at2(face_center_of(f), a2, u2, a3, w2), at2(face_center_of(f), a2, u3, a3, w3)),
        ;
    }
    if f.0 == 2 && a2 == 1 && f.1 == false {
        assert(abs(det6(t)) == abs(cross2(u1, w1, u2, w2, u3, w3))) by (nonlinear_arith)
            requires
                f.0 == 2,
                f.1 == false,
                a2 == 1,
                a3 == 0,
                t == (center_point(), at2(face_center_of(f), a2, u1, a3, w1), at2(face_center_of(f), a2, u2, a3, w2), at2(face_center_of(f), a2, u3, a3, w3)),
        ;
    }
    if f.0 == 2 && a2 == 1 && f.1 == true {
        assert(abs(det6(t)) == abs(cross2(u1, w1, u2, w2, u3, w3))) by (nonlinear_arith)
            requires
                f.0 == 2,
                f.1 == true,
                a2 == 1,
                a3 == 0,
                t == (center_point(), at2(face_center_of(f), a2, u1, a3, w1), at2(face_center_of(f), a2, u2, a3, w2), at2(face_center_of(f), a2, u3, a3, w3)),
        ;
    }
}

proof fn lemma_split_volume(f: (u8, bool), a2: int, a3: int)
    requires
        f.0 < 3,
        other_axes_of(f.0 as int, a2, a3),
    ensures
        total_volume6(split_tetrs(f, a2, a3)) == 4,
{
    lemma_volume_small(split_tetrs(f, a2, a3));
    lemma_face_det(f, a2, a3, 0, 0, 1, 0, 1, 1);
    lemma_face_det(f, a2, a3, 0, 1, 1, 1, 1, 2);
    lemma_face_det(f, a2, a3, 1, 0, 2, 0, 2, 1);
    lemma_face_det(f, a2, a3, 1, 1, 2, 1, 2, 2);
    assert(cross2(0, 0, 1, 0, 1, 1) == 1) by (nonlinear_arith);
    assert(cross2(0, 1, 1, 1, 1, 2) == 1) by (nonlinear_arith);
    assert(cross2(1, 0, 2, 0, 2, 1) == 1) by (nonlinear_arith);
    assert(cross2(1, 1, 2, 1, 2, 2) == 1) by (nonlinear_arith);
}

proof fn lemma_unsplit_volume(f: (u8, bool), a2: int, a3: int, m12: bool, m23: bool)
    requires
        f.0 < 3,
        other_axes_of(f.0 as int, a2, a3),
    ensures
        total_volume6(unsplit_tetrs(f, a2, a3, m12, m23)) == 4,
{
    lemma_volume_small(unsplit_tetrs(f, a2, a3, m12, m23));
    // corner1 (0, 0), midpoint12 (1, 0), corner2 (2, 0), midpoint23 (2, 1), corner3 (2, 2)
    lemma_face_det(f, a2, a3, 0, 0, 2, 0, 2, 2);
    lemma_face_det(f, a2, a3, 0, 0, 1, 0, 2, 2);
    lemma_face_det(f, a2, a3, 1, 0, 2, 0, 2, 2);
    lemma_face_det(f, a2, a3, 0, 0, 2, 0, 2, 1);
    lemma_face_det(f, a2, a3, 0, 0, 2, 1, 2, 2);
    lemma_face_det(f, a2, a3, 1, 0, 2, 1, 2, 2);
    lemma_face_det(f, a2, a3, 1, 0, 2, 0, 2, 1);
    assert(cross2(0, 0, 2, 0, 2, 2) == 4) by (nonlinear_arith);
    assert(cross2(0, 0, 1, 0, 2, 2) == 2) by (nonlinear_arith);
    assert(cross2(1, 0, 2, 0, 2, 2) == 2) by (nonlinear_arith);
    assert(cross2(0, 0, 2, 0, 2, 1) == 2) by (nonlinear_arith);
    assert(cross2(0, 0, 2, 1, 2, 2) == 2) by (nonlinear_arith);
    assert(cross2(1, 0, 2, 1, 2, 2) == 1) by (nonlinear_arith);
    assert(cross2(1, 0, 2, 0, 2, 1) == 1) by (nonlinear_arith);
}

proof fn lemma_face_group_volume(f: (u8, bool), a2: int, a3: int, faces: CubeFaceSet, edges: CubeEdgeSet)
    requires
        f.0 < 3,
        other_axes_of(f.0 as int, a2, a3),
    ensures
        total_volume6(face_group(f, a2, a3, faces, edges)) == 4,
{
    if faces.contains(f) {
        lemma_split_volume(f, a2, a3);
    } else {
        let fc = face_center_of(f);
        lemma_unsplit_volume(
            f,
            a2,
            a3,
            sampled(faces, edges, at2(fc, a2, 1, a3, 0)),
            sampled(faces, edges, at2(fc, a2, 2, a3, 1)),
        );
    }
}

proof fn lemma_faces_prefix_volume(faces: CubeFaceSet, edges: CubeEdgeSet, n: int)
    requires
        0 <= n <= 6,
    ensures
        total_volume6(faces_prefix(faces, edges, n)) == 8 * n,
    decreases n,
{
    if n > 0 {
        let f = face_at(n - 1);
        lemma_faces_prefix_volume(faces, edges, n - 1);
        lemma_face_group_volume(f, (f.0 + 1) % 3, (f.0 + 2) % 3, faces, edges);
        lemma_face_group_volume(f, (f.0 + 2) % 3, (f.0 + 1) % 3, faces, edges);
        lemma_total_volume6_append(
            face_group(f, (f.0 + 1) % 3, (f.0 + 2) % 3, faces, edges),
            face_group(f, (f.0 + 2) % 3, (f.0 + 1) % 3, faces, edges),
        );
        lemma_total_volume6_append(faces_prefix(faces, edges, n - 1), face_tetrs(f, faces, edges));
    }
}

proof fn lemma_basic_volume()
    ensures
        total_volume6(basic_tetrs()) == 48,
{
    let b = basic_tetrs();
    lemma_volume_small(b.take(4));
    lemma_total_volume6_append(b.take(4), b.skip(4));
    assert(b.take(4) + b.skip(4) =~= b);
    lemma_volume_small(b.skip(4));
    assert(abs(det6(basic_tetr(0))) == 8) by (nonlinear_arith);
    assert(abs(det6(basic_tetr(1))) == 8) by (nonlinear_arith);
    assert(abs(det6(basic_tetr(2))) == 8) by (nonlinear_arith);
    assert(abs(det6(basic_tetr(3))) == 8) by (nonlinear_arith);
    assert(abs(det6(basic_tetr(4))) == 8) by (nonlinear_arith);
    assert(abs(det6(basic_tetr(5))) == 8) by (nonlinear_arith);
}

/// However the neighbours of a cube are subdivided, the tetrahedra of
/// [`CubeTetrMesh::divided_cube`] fill exactly the cube: their volumes add up to the volume
/// of the 2x2x2 lattice cube (six times 8).
pub proof fn lemma_divided_cube_volume(faces: CubeFaceSet, edges: CubeEdgeSet)
    ensures
        total_volume6(divided_tetrs(faces, edges)) == 48,
{
    if (forall|f: (u8, bool)| !faces.contains(f)) && (forall|e: (u8, bool, bool)|
        !edges.contains(e)) {
        lemma_basic_volume();
    } else {
        lemma_faces_prefix_volume(faces, edges, 6);
    }
}


/// The question that decides how a tetrahedron with `inside` corners inside the shape and
/// `outside` corners outside is cut: a triangle of corners and a further corner, to be asked
/// whether the corner lies on the outer side of the triangle's plane. There is none when
/// all corners are on one side.
pub open spec fn cut_question(inside: Seq<CubeVertex>, outside: Seq<CubeVertex>) -> Option<
    ((CubeVertex, CubeVertex, CubeVertex), CubeVertex),
> {
    if inside.len() == 1 && outside.len() == 3 {
        Some(((outside[0], outside[1], outside[2]), inside[0]))
    } else if inside.len() == 2 && outside.len() == 2 {
        Some(((inside[0], inside[1], outside[1]), outside[0]))
    } else if inside.len() == 3 && outside.len() == 1 {
        Some(((inside[0], inside[1], inside[2]), outside[0]))
    } else {
        None
    }
}

/// The answer to [`cut_question`]: whether its point lies on the outer side of its triangle
/// (`false` where there is no question).
pub open spec fn cut_answer(inside: Seq<CubeVertex>, outside: Seq<CubeVertex>) -> bool {
    match cut_question(inside, outside) {
        Some((t, p)) => det6((t.0, t.1, t.2, p)) > 0,
        None => false,
    }
}

/// The triangles that separate the `inside` corners of a tetrahedron from the `outside`
/// ones, each corner halfway along an edge from inside to outside, wound by the answer
/// `oriented` to [`cut_question`].
pub open spec fn cut_triangles(
    inside: Seq<CubeVertex>,
    outside: Seq<CubeVertex>,
    oriented: bool,
) -> Seq<TriPairs> {
    if inside.len() == 1 && outside.len() == 3 {
        let i1 = inside[0];
        let (o1, o2) = if oriented {
            (outside[1], outside[0])
        } else {
            (outside[0], outside[1])
        };
        seq![((i1, o1), (i1, o2), (i1, outside[2]))]
    } else if inside.len() == 2 && outside.len() == 2 {
        let (i1, i2) = (inside[0], inside[1]);
        let (o1, o2) = if oriented {
            (outside[1], outside[0])
        } else {
            (outside[0], outside[1])
        };
        seq![((i1, o1), (i1, o2), (i2, o2)), ((i1, o1), (i2, o2), (i2, o1))]
    } else if inside.len() == 3 && outside.len() == 1 {
        let o1 = outside[0];
        let (i1, i2) = if !oriented {
            (inside[1], inside[0])
        } else {
            (inside[0], inside[1])
        };
        seq![((o1, i1), (o1, i2), (o1, inside[2]))]
    } else {
        Seq::empty()
    }
}

impl CubeTetr {
    /// The question that decides the cut, as [`cut_question`] gives it.
    pub fn cut_question(inside: &[CubeVertex], outside: &[CubeVertex]) -> (r: Option<
        ([CubeVertex; 3], CubeVertex),
    >)
        ensures
            match r {
                Some((t, p)) => cut_question(inside@, outside@) == Some(((t[0], t[1], t[2]), p)),
                None => cut_question(inside@, outside@) is None,
            },
    {
        if inside.len() == 1 && outside.len() == 3 {
            Some(([outside[0], outside[1], outside[2]], inside[0]))
        } else if inside.len() == 2 && outside.len() == 2 {
            Some(([inside[0], inside[1], outside[1]], outside[0]))
        } else if inside.len() == 3 && outside.len() == 1 {
            Some(([inside[0], inside[1], inside[2]], outside[0]))
        } else {
            None
        }
    }

    /// The triangles separating the `inside` corners from the `outside` ones, wound so that
    /// they face the outside corners.
    pub fn as_mesh(&self, inside: &[CubeVertex], outside: &[CubeVertex]) -> (r: CubeTriMesh)
        requires
            inside.len() + outside.len() == 4,
        ensures
            r@ == cut_triangles(inside@, outside@, cut_answer(inside@, outside@)),
    {
        let answer = match Self::cut_question(inside, outside) {
            Some((t, p)) => oriented(t, p),
            None => false,
        };
        self.as_mesh_wound(inside, outside, answer)
    }

    /// The triangles separating the `inside` corners from the `outside` ones, wound by the
    /// answer `oriented` to the cut question.
    pub fn as_mesh_wound(&self, inside: &[CubeVertex], outside: &[CubeVertex], oriented: bool) -> (r: CubeTriMesh)
        requires
            inside.len() + outside.len() == 4,
        ensures
            r@ == cut_triangles(inside@, outside@, oriented),
    {
        let mut triangles: Vec<CubeTri> = Vec::new();
        if inside.len() == 1 {
            let i1 = inside[0];
            let (o1, o2) = if oriented {
                (outside[1], outside[0])
            } else {
                (outside[0], outside[1])
            };
            triangles.push(CubeTri::new([(i1, o1), (i1, o2), (i1, outside[2])]));
        } else if inside.len() == 2 {
            let i1 = inside[0];
            let i2 = inside[1];
            let (o1, o2) = if oriented {
                (outside[1], outside[0])
            } else {
                (outside[0], outside[1])
            };
            triangles.push(CubeTri::new([(i1, o1), (i1, o2), (i2, o2)]));
            triangles.push(CubeTri::new([(i1, o1), (i2, o2), (i2, o1)]));
        } else if inside.len() == 3 {
            let o1 = outside[0];
            let (i1, i2) = if !oriented {
                (inside[1], inside[0])
            } else {
                (inside[0], inside[1])
            };
            triangles.push(CubeTri::new([(o1, i1), (o1, i2), (o1, inside[2])]));
        }
        let r = CubeTriMesh::new(triangles);
        assert(r@ =~= cut_triangles(inside@, outside@, oriented));
        r
    }
}


/// The four faces of tetrahedron `t`, as the corner triples in lexicographic order of corner
/// positions, each corner doubled into a pair.
pub open spec fn tetr_faces(t: TetrCorners) -> Seq<TriPairs> {
    let (a, b, c, d) = t;
    seq![
        ((a, a), (b, b), (c, c)),
        ((a, a), (b, b), (d, d)),
        ((a, a), (c, c), (d, d)),
        ((b, b), (c, c), (d, d)),
    ]
}

/// The faces of the first `n` tetrahedra, in order.
pub open spec fn all_tetr_faces(ts: Seq<TetrCorners>, n: int) -> Seq<TriPairs>
    decreases n,
{
    if n <= 0 {
        Seq::empty()
    } else {
        all_tetr_faces(ts, n - 1) + tetr_faces(ts[n - 1])
    }
}

impl CubeTetrMesh {
    /// Every face of every tetrahedron, as triangles on the lattice points themselves.
    pub fn as_debug_tri_mesh(&self) -> (r: CubeTriMesh)
        ensures
            r@ == all_tetr_faces(self@, self@.len() as int),
    {
        let mut tris: Vec<CubeTri> = Vec::new();
        let mut i: usize = 0;
        while i < self.tetrs.len()
            invariant
                i <= self.tetrs.len(),
                self@ == corners_of(self.tetrs@),
                tris@.map_values(|t: CubeTri| t@) == all_tetr_faces(self@, i as int),
            decreases self.tetrs.len() - i,
        {
            let vs = self.tetrs[i].vertices();
            let (a, b, c, d) = (vs[0], vs[1], vs[2], vs[3]);
            let ghost before = tris@.map_values(|t: CubeTri| t@);
            tris.push(CubeTri::new([(a, a), (b, b), (c, c)]));
            tris.push(CubeTri::new([(a, a), (b, b), (d, d)]));
            tris.push(CubeTri::new([(a, a), (c, c), (d, d)]));
            tris.push(CubeTri::new([(b, b), (c, c), (d, d)]));
            proof {
                assert(self@[i as int] == self.tetrs@[i as int]@);
                assert(tris@.map_values(|t: CubeTri| t@) =~= before + tetr_faces(self@[i as int]));
            }
            i = i + 1;
        }
        CubeTriMesh::new(tris)
    }
}

} // verus!
