use vstd::prelude::*;
use crate::transvoxel::cube_vertex::{CubeVertex, CubeVertexSet, with_coord, on_lattice};

verus! {

/// One of the six faces of a cube: the face on side `side` of axis `axis`.
#[derive(Copy, Clone, Debug)]
pub struct CubeFace {
    axis: u8,
    side: bool,
}

impl View for CubeFace {
    type V = (u8, bool);

    closed spec fn view(&self) -> (u8, bool) {
        (self.axis, self.side)
    }
}

/// The `j`-th face in the order of [`CubeFace::all`].
pub open spec fn face_at(j: int) -> (u8, bool) {
    ((j / 2) as u8, j % 2 == 1)
}

/// Position of a face in the flat table of a [`CubeFaceSet`].
pub open spec fn face_index(f: (u8, bool)) -> int {
    2 * f.0 + (if f.1 { 1int } else { 0int })
}

pub open spec fn side_coord(side: bool) -> u8 {
    if side { 2 } else { 0 }
}

/// The center of face `f`.
pub open spec fn face_center_of(f: (u8, bool)) -> CubeVertex {
    with_coord(CubeVertex { x: 1, y: 1, z: 1 }, f.0 as int, side_coord(f.1))
}

/// The midpoint of the edge of face `f` on side `side2` of axis `axis2`.
pub open spec fn face_midpoint(f: (u8, bool), axis2: int, side2: bool) -> CubeVertex {
    with_coord(face_center_of(f), axis2, side_coord(side2))
}

/// The `k`-th midpoint in the order of [`CubeFace::midpoints`]: the other axes in
/// increasing order, low side first.
pub open spec fn midpoint_at(f: (u8, bool), k: int) -> CubeVertex {
    let axis2 = if k < 2 {
        if f.0 == 0 { 1int } else { 0int }
    } else {
        if f.0 == 2 { 1int } else { 2int }
    };
    face_midpoint(f, axis2, k % 2 == 1)
}

impl CubeFace {
    pub fn new(axis: u8, side: bool) -> (r: Self)
        ensures
            r@ == (axis, side),
    {
        CubeFace { axis, side }
    }

    /// The six faces: axis slowest, low side first.
    pub fn all() -> (r: [CubeFace; 6])
        ensures
            forall|j: int| 0 <= j < 6 ==> #[trigger] r[j]@ == face_at(j),
    {
        let r = [
            CubeFace { axis: 0, side: false },
            CubeFace { axis: 0, side: true },
            CubeFace { axis: 1, side: false },
            CubeFace { axis: 1, side: true },
            CubeFace { axis: 2, side: false },
            CubeFace { axis: 2, side: true },
        ];
        assert forall|j: int| 0 <= j < 6 implies #[trigger] r[j]@ == face_at(j) by {
            assert(j == 0 || j == 1 || j == 2 || j == 3 || j == 4 || j == 5);
        }
        r
    }

    pub fn axis(&self) -> (r: u8)
        ensures
            r == self@.0,
    {
        self.axis
    }

    pub fn side(&self) -> (r: bool)
        ensures
            r == self@.1,
    {
        self.side
    }

    /// The lattice point at the center of the face.
    pub fn face_center(&self) -> (r: CubeVertex)
        requires
            self@.0 < 3,
        ensures
            r == face_center_of(self@),
    {
        let mut result = CubeVertex::splat(1);
        result.set(self.axis as usize, if self.side { 2 } else { 0 });
        result
    }

    /// The midpoints of the four edges of the face.
    pub fn midpoints(&self) -> (r: [CubeVertex; 4])
        requires
            self@.0 < 3,
        ensures
            forall|k: int| 0 <= k < 4 ==> #[trigger] r[k] == midpoint_at(self@, k),
    {
        let (a, b): (usize, usize) = if self.axis == 0 {
            (1, 2)
        } else if self.axis == 1 {
            (0, 2)
        } else {
            (0, 1)
        };
        let c = self.face_center();
        let mut m0 = c;
        m0.set(a, 0);
        let mut m1 = c;
        m1.set(a, 2);
        let mut m2 = c;
        m2.set(b, 0);
        let mut m3 = c;
        m3.set(b, 2);
        let r = [m0, m1, m2, m3];
        assert forall|k: int| 0 <= k < 4 implies #[trigger] r[k] == midpoint_at(self@, k) by {
            assert(k == 0 || k == 1 || k == 2 || k == 3);
        }
        r
    }

    /// The two other axes, in cyclic order after `axis`.
    pub fn other_axes(&self) -> (r: [u8; 2])
        requires
            self@.0 + 2 <= u8::MAX,
        ensures
            r[0] == (self@.0 + 1) % 3,
            r[1] == (self@.0 + 2) % 3,
    {
        [(self.axis + 1) % 3, (self.axis + 2) % 3]
    }

    /// The two orders of the other axes: cyclic first, then swapped.
    pub fn other_axes_orders(&self) -> (r: [[u8; 2]; 2])
        requires
            self@.0 + 2 <= u8::MAX,
        ensures
            r[0][0] == (self@.0 + 1) % 3,
            r[0][1] == (self@.0 + 2) % 3,
            r[1][0] == (self@.0 + 2) % 3,
            r[1][1] == (self@.0 + 1) % 3,
    {
        let a = self.other_axes();
        let a1 = a[0];
        let a2 = a[1];
        [[a1, a2], [a2, a1]]
    }
}

/// A subset of the six faces of a cube.
#[derive(Copy, Clone, Eq, Ord, PartialOrd, PartialEq, Hash, Debug)]
pub struct CubeFaceSet {
    flags: [bool; 6],
}

impl CubeFaceSet {
    /// Whether face `f` (a view of a [`CubeFace`]) belongs to the set.
    pub closed spec fn contains(&self, f: (u8, bool)) -> bool {
        f.0 < 3 && self.flags[face_index(f)]
    }

    /// The empty set.
    pub fn new() -> (r: Self)
        ensures
            forall|f: (u8, bool)| !r.contains(f),
    {
        CubeFaceSet { flags: [false; 6] }
    }

    pub fn get(&self, face: CubeFace) -> (r: bool)
        requires
            face@.0 < 3,
        ensures
            r == self.contains(face@),
    {
        let i = 2 * (face.axis as usize) + (if face.side { 1 } else { 0 });
        self.flags[i]
    }

    pub fn set(&mut self, face: CubeFace, value: bool)
        requires
            face@.0 < 3,
        ensures
            forall|f: (u8, bool)|
                final(self).contains(f) == (if f == face@ { value } else { old(self).contains(f) }),
    {
        let i = 2 * (face.axis as usize) + (if face.side { 1 } else { 0 });
        self.flags[i] = value;
        assert forall|f: (u8, bool)| f.0 < 3 && f != face@ implies face_index(f) != i by {}
    }

    /// Whether no face belongs to the set.
    pub fn is_empty(&self) -> (r: bool)
        ensures
            r == (forall|f: (u8, bool)| !self.contains(f)),
    {
        let mut i: usize = 0;
        while i < 6
            invariant
                i <= 6,
                forall|j: int| 0 <= j < i ==> !self.flags[j],
            decreases 6 - i,
        {
            if self.flags[i] {
                assert(face_index(face_at(i as int)) == i);
                assert(self.contains(face_at(i as int)));
                return false;
            }
            i = i + 1;
        }
        true
    }

    /// Adds to `mask` the center and the four edge midpoints of every face in the set.
    pub fn add_samples_to(&self, mask: &mut CubeVertexSet)
        ensures
            forall|v: CubeVertex|
                final(mask).contains(v) == (old(mask).contains(v) || exists|f: (u8, bool)|
                    self.contains(f) && face_sample(f, v)),
    {
        let faces = CubeFace::all();
        let mut j: usize = 0;
        while j < 6
            invariant
                j <= 6,
                forall|k: int| 0 <= k < 6 ==> #[trigger] faces[k]@ == face_at(k),
                forall|v: CubeVertex|
                    mask.contains(v) == (old(mask).contains(v) || exists|k: int|
                        0 <= k < j && self.contains(face_at(k)) && face_sample(face_at(k), v)),
            decreases 6 - j,
        {
            let face = faces[j];
            if self.get(face) {
                let c = face.face_center();
                let ms = face.midpoints();
                let ghost before = *mask;
                mask.set(c, true);
                mask.set(ms[0], true);
                mask.set(ms[1], true);
                mask.set(ms[2], true);
                mask.set(ms[3], true);
                assert forall|v: CubeVertex|
                    mask.contains(v) == (before.contains(v) || face_sample(face@, v)) by {}
            }
            j = j + 1;
        }
        assert forall|v: CubeVertex|
            mask.contains(v) == (old(mask).contains(v) || exists|f: (u8, bool)|
                self.contains(f) && face_sample(f, v)) by {
            if exists|f: (u8, bool)| self.contains(f) && face_sample(f, v) {
                let f = choose|f: (u8, bool)| self.contains(f) && face_sample(f, v);
                let k = face_index(f);
                assert(face_at(k) == f);
            }
        }
    }
}

/// `v` is the center or one of the four edge midpoints of face `f`.
pub open spec fn face_sample(f: (u8, bool), v: CubeVertex) -> bool {
    v == face_center_of(f) || v == midpoint_at(f, 0) || v == midpoint_at(f, 1) || v
        == midpoint_at(f, 2) || v == midpoint_at(f, 3)
}

} // verus!
