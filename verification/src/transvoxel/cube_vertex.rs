use vstd::prelude::*;
use crate::transvoxel::cube_tetr::{CubeTetr, det6};

verus! {

/// A point of the 3x3x3 lattice that subdivides a cube: each coordinate is 0 (low side),
/// 1 (middle) or 2 (high side). Sums of two such points are used for edge midpoints.
#[derive(Copy, Clone, Eq, PartialEq, Structural, Ord, PartialOrd, Hash, Debug)]
pub struct CubeVertex {
    pub x: u8,
    pub y: u8,
    pub z: u8,
}

/// Coordinate `axis` (0, 1 or 2) of `v`.
pub open spec fn coord(v: CubeVertex, axis: int) -> u8 {
    if axis == 0 {
        v.x
    } else if axis == 1 {
        v.y
    } else {
        v.z
    }
}

/// `v` with coordinate `axis` replaced by `value`.
pub open spec fn with_coord(v: CubeVertex, axis: int, value: u8) -> CubeVertex {
    if axis == 0 {
        CubeVertex { x: value, ..v }
    } else if axis == 1 {
        CubeVertex { y: value, ..v }
    } else {
        CubeVertex { z: value, ..v }
    }
}

/// All coordinates are lattice coordinates (at most 2).
pub open spec fn on_lattice(v: CubeVertex) -> bool {
    v.x <= 2 && v.y <= 2 && v.z <= 2
}

impl CubeVertex {
    pub fn new(x: u8, y: u8, z: u8) -> (r: Self)
        ensures
            r == (CubeVertex { x, y, z }),
    {
        CubeVertex { x, y, z }
    }

    pub fn splat(v: u8) -> (r: Self)
        ensures
            r == (CubeVertex { x: v, y: v, z: v }),
    {
        CubeVertex { x: v, y: v, z: v }
    }

    pub fn x(&self) -> (r: u8)
        ensures
            r == self.x,
    {
        self.x
    }

    pub fn y(&self) -> (r: u8)
        ensures
            r == self.y,
    {
        self.y
    }

    pub fn z(&self) -> (r: u8)
        ensures
            r == self.z,
    {
        self.z
    }

    /// Coordinate number `axis`.
    pub fn get(&self, axis: usize) -> (r: u8)
        requires
            axis < 3,
        ensures
            r == coord(*self, axis as int),
    {
        if axis == 0 {
            self.x
        } else if axis == 1 {
            self.y
        } else {
            self.z
        }
    }

    /// Replaces coordinate number `axis`.
    pub fn set(&mut self, axis: usize, value: u8)
        requires
            axis < 3,
        ensures
            *final(self) == with_coord(*old(self), axis as int, value),
    {
        if axis == 0 {
            self.x = value;
        } else if axis == 1 {
            self.y = value;
        } else {
            self.z = value;
        }
    }

    /// Coordinate-wise sum.
    pub fn add(self, other: CubeVertex) -> (r: CubeVertex)
        requires
            self.x + other.x <= u8::MAX,
            self.y + other.y <= u8::MAX,
            self.z + other.z <= u8::MAX,
        ensures
            r == (CubeVertex { x: (self.x + other.x) as u8, y: (self.y + other.y) as u8, z: (self.z + other.z) as u8 }),
    {
        CubeVertex { x: self.x + other.x, y: self.y + other.y, z: self.z + other.z }
    }
}

/// Position of a lattice point in the flat table of a [`CubeVertexSet`].
pub open spec fn lattice_index(v: CubeVertex) -> int {
    9 * v.x + 3 * v.y + v.z
}

/// A subset of the 27 lattice points of a cube.
#[derive(Copy, Clone, Debug, Eq, PartialEq, Ord, PartialOrd, Hash)]
pub struct CubeVertexSet {
    flags: [bool; 27],
}

impl CubeVertexSet {
    /// Whether `v` belongs to the set.
    pub closed spec fn contains(&self, v: CubeVertex) -> bool {
        on_lattice(v) && self.flags[lattice_index(v)]
    }

    /// The empty set.
    pub fn new() -> (r: Self)
        ensures
            forall|v: CubeVertex| !r.contains(v),
    {
        CubeVertexSet { flags: [false; 27] }
    }

    /// The set of all 27 lattice points.
    pub fn all() -> (r: Self)
        ensures
            forall|v: CubeVertex| r.contains(v) == on_lattice(v),
    {
        CubeVertexSet { flags: [true; 27] }
    }

    /// The eight corners of the cube.
    pub fn corners() -> (r: Self)
        ensures
            forall|v: CubeVertex|
                r.contains(v) == (on_lattice(v) && v.x != 1 && v.y != 1 && v.z != 1),
    {
        let mut result = Self::new();
        let corners = cube_corners();
        let mut i: usize = 0;
        while i < 8
            invariant
                i <= 8,
                forall|j: int| 0 <= j < 8 ==> #[trigger] corners[j] == corner_at(j),
                forall|v: CubeVertex|
                    result.contains(v) == (exists|j: int| 0 <= j < i && corner_at(j) == v),
            decreases 8 - i,
        {
            proof {
                lemma_corner_at_on_lattice(i as int);
            }
            result.insert(corners[i]);
            i = i + 1;
        }
        assert forall|v: CubeVertex|
            result.contains(v) == (on_lattice(v) && v.x != 1 && v.y != 1 && v.z != 1) by {
            if on_lattice(v) && v.x != 1 && v.y != 1 && v.z != 1 {
                let j = 4 * (v.x / 2) + 2 * (v.y / 2) + (v.z / 2);
                assert(corner_at(j) == v);
            }
            if exists|j: int| 0 <= j < 8 && corner_at(j) == v {
                let j = choose|j: int| 0 <= j < 8 && corner_at(j) == v;
                lemma_corner_at_on_lattice(j);
            }
        }
        result
    }

    /// Whether `v` belongs to the set.
    pub fn get(&self, v: CubeVertex) -> (r: bool)
        requires
            on_lattice(v),
        ensures
            r == self.contains(v),
    {
        let i = 9 * (v.x as usize) + 3 * (v.y as usize) + (v.z as usize);
        self.flags[i]
    }

    /// Whether `v` belongs to the set; a point off the lattice never does.
    pub fn holds(&self, v: CubeVertex) -> (r: bool)
        ensures
            r == self.contains(v),
    {
        if v.x <= 2 && v.y <= 2 && v.z <= 2 {
            self.get(v)
        } else {
            false
        }
    }

    /// Adds or removes `v`.
    pub fn set(&mut self, v: CubeVertex, value: bool)
        requires
            on_lattice(v),
        ensures
            forall|w: CubeVertex|
                final(self).contains(w) == (if w == v { value } else { old(self).contains(w) }),
    {
        let i = 9 * (v.x as usize) + 3 * (v.y as usize) + (v.z as usize);
        self.flags[i] = value;
        assert forall|w: CubeVertex| on_lattice(w) && w != v implies lattice_index(w) != i by {}
    }

    /// Adds `v`.
    pub fn insert(&mut self, v: CubeVertex)
        requires
            on_lattice(v),
        ensures
            forall|w: CubeVertex| final(self).contains(w) == (w == v || old(self).contains(w)),
    {
        self.set(v, true);
    }

    /// Whether the two sets have the same members.
    pub fn same_as(&self, other: &CubeVertexSet) -> (r: bool)
        ensures
            r == (forall|v: CubeVertex| self.contains(v) == other.contains(v)),
    {
        let mut i: usize = 0;
        while i < 27
            invariant
                i <= 27,
                forall|j: int| 0 <= j < i ==> self.flags[j] == other.flags[j],
            decreases 27 - i,
        {
            if self.flags[i] != other.flags[i] {
                let ghost v = lattice_point(i as int);
                assert(lattice_index(v) == i);
                assert(self.contains(v) != other.contains(v));
                return false;
            }
            i = i + 1;
        }
        assert forall|v: CubeVertex| self.contains(v) == other.contains(v) by {
            if on_lattice(v) {
                assert(0 <= lattice_index(v) < 27);
            }
        }
        true
    }
}

/// The lattice point stored at position `i` of the flat table.
pub open spec fn lattice_point(i: int) -> CubeVertex {
    CubeVertex { x: (i / 9) as u8, y: ((i / 3) % 3) as u8, z: (i % 3) as u8 }
}

/// The `j`-th corner in the order of [`cube_corners`].
pub open spec fn corner_at(j: int) -> CubeVertex {
    CubeVertex { x: (2 * (j / 4)) as u8, y: (2 * ((j / 2) % 2)) as u8, z: (2 * (j % 2)) as u8 }
}

proof fn lemma_corner_at_on_lattice(j: int)
    requires
        0 <= j < 8,
    ensures
        on_lattice(corner_at(j)),
        corner_at(j).x != 1 && corner_at(j).y != 1 && corner_at(j).z != 1,
{
}

/// Whether `other` lies on the outer side of the plane through `tri`, the side its normal
/// (by the right-hand rule) points to. Lattice points make the test exact.
pub fn oriented(tri: [CubeVertex; 3], other: CubeVertex) -> (r: bool)
    ensures
        r == (det6((tri[0], tri[1], tri[2], other)) > 0),
{
    CubeTetr::new([tri[0], tri[1], tri[2], other]).signed_volume6() > 0
}

/// The center of the cube.
pub fn cube_center() -> (r: CubeVertex)
    ensures
        r == (CubeVertex { x: 1, y: 1, z: 1 }),
{
    CubeVertex::splat(1)
}

/// The eight corners, `x` slowest and `z` fastest.
pub fn cube_corners() -> (r: [CubeVertex; 8])
    ensures
        forall|j: int| 0 <= j < 8 ==> #[trigger] r[j] == corner_at(j),
{
    let r = [
        CubeVertex::new(0, 0, 0),
        CubeVertex::new(0, 0, 2),
        CubeVertex::new(0, 2, 0),
        CubeVertex::new(0, 2, 2),
        CubeVertex::new(2, 0, 0),
        CubeVertex::new(2, 0, 2),
        CubeVertex::new(2, 2, 0),
        CubeVertex::new(2, 2, 2),
    ];
    assert forall|j: int| 0 <= j < 8 implies #[trigger] r[j] == corner_at(j) by {
        assert(j == 0 || j == 1 || j == 2 || j == 3 || j == 4 || j == 5 || j == 6 || j == 7);
    }
    r
}

/// All 27 lattice points, `x` slowest and `z` fastest.
pub fn cube_points() -> (r: Vec<CubeVertex>)
    ensures
        r.len() == 27,
        forall|i: int| 0 <= i < 27 ==> #[trigger] r[i] == lattice_point(i),
{
    let mut r: Vec<CubeVertex> = Vec::new();
    let mut x: u8 = 0;
    while x < 3
        invariant
            x <= 3,
            r.len() == 9 * x,
            forall|i: int| 0 <= i < r.len() ==> #[trigger] r[i] == lattice_point(i),
        decreases 3 - x,
    {
        let mut y: u8 = 0;
        while y < 3
            invariant
                x < 3,
                y <= 3,
                r.len() == 9 * x + 3 * y,
                forall|i: int| 0 <= i < r.len() ==> #[trigger] r[i] == lattice_point(i),
            decreases 3 - y,
        {
            let mut z: u8 = 0;
            while z < 3
                invariant
                    x < 3,
                    y < 3,
                    z <= 3,
                    r.len() == 9 * x + 3 * y + z,
                    forall|i: int| 0 <= i < r.len() ==> #[trigger] r[i] == lattice_point(i),
                decreases 3 - z,
            {
                let ghost i = r.len() as int;
                r.push(CubeVertex::new(x, y, z));
                assert(r[i] == lattice_point(i));
                z = z + 1;
            }
            y = y + 1;
        }
        x = x + 1;
    }
    r
}

} // verus!
