use vstd::prelude::*;
use crate::transvoxel::cube_vertex::{CubeVertex, CubeVertexSet, with_coord, on_lattice};

verus! {

/// One of the twelve edges of a cube: the edge parallel to `axis` on the sides `side1` of
/// axis `axis + 1` and `side2` of axis `axis + 2` (axes counted modulo 3).
#[derive(Debug, Clone, Copy)]
pub struct CubeEdge {
    axis: u8,
    side1: bool,
    side2: bool,
}

impl View for CubeEdge {
    type V = (u8, bool, bool);

    closed spec fn view(&self) -> (u8, bool, bool) {
        (self.axis, self.side1, self.side2)
    }
}

/// The `j`-th edge in the order of [`CubeEdge::all`].
pub open spec fn edge_at(j: int) -> (u8, bool, bool) {
    ((j / 4) as u8, (j / 2) % 2 == 1, j % 2 == 1)
}

/// Position of an edge in the flat table of a [`CubeEdgeSet`].
pub open spec fn edge_index(e: (u8, bool, bool)) -> int {
    4 * e.0 + (if e.1 { 2int } else { 0int }) + (if e.2 { 1int } else { 0int })
}

pub open spec fn side_coord(side: bool) -> u8 {
    if side { 2 } else { 0 }
}

/// The lattice point at parameter `t` along edge `e`.
pub open spec fn edge_vertex(e: (u8, bool, bool), t: u8) -> CubeVertex {
    with_coord(
        with_coord(
            with_coord(CubeVertex { x: 0, y: 0, z: 0 }, e.0 as int, t),
            (e.0 + 1) % 3,
            side_coord(e.1),
        ),
        (e.0 + 2) % 3,
        side_coord(e.2),
    )
}

impl CubeEdge {
    #[verifier::type_invariant]
    closed spec fn valid(self) -> bool {
        self.axis < 3
    }

    /// The twelve edges: axis slowest, then `side1`, then `side2`.
    pub fn all() -> (r: [CubeEdge; 12])
        ensures
            forall|j: int| 0 <= j < 12 ==> #[trigger] r[j]@ == edge_at(j),
    {
        let r = [
            CubeEdge { axis: 0, side1: false, side2: false },
            CubeEdge { axis: 0, side1: false, side2: true },
            CubeEdge { axis: 0, side1: true, side2: false },
            CubeEdge { axis: 0, side1: true, side2: true },
            CubeEdge { axis: 1, side1: false, side2: false },
            CubeEdge { axis: 1, side1: false, side2: true },
            CubeEdge { axis: 1, side1: true, side2: false },
            CubeEdge { axis: 1, side1: true, side2: true },
            CubeEdge { axis: 2, side1: false, side2: false },
            CubeEdge { axis: 2, side1: false, side2: true },
            CubeEdge { axis: 2, side1: true, side2: false },
            CubeEdge { axis: 2, side1: true, side2: true },
        ];
        assert forall|j: int| 0 <= j < 12 implies #[trigger] r[j]@ == edge_at(j) by {
            assert(j == 0 || j == 1 || j == 2 || j == 3 || j == 4 || j == 5 || j == 6 || j == 7
                || j == 8 || j == 9 || j == 10 || j == 11);
        }
        r
    }

    pub fn axis(&self) -> (r: u8)
        ensures
            r == self@.0,
            r < 3,
    {
        proof {
            use_type_invariant(self);
        }
        self.axis
    }

    /// The first axis across the edge, `axis + 1` modulo 3.
    pub fn axis1(&self) -> (r: u8)
        ensures
            r == (self@.0 + 1) % 3,
            r < 3,
    {
        proof {
            use_type_invariant(self);
        }
        (self.axis + 1) % 3
    }

    /// The second axis across the edge, `axis + 2` modulo 3.
    pub fn axis2(&self) -> (r: u8)
        ensures
            r == (self@.0 + 2) % 3,
            r < 3,
    {
        proof {
            use_type_invariant(self);
        }
        (self.axis + 2) % 3
    }

    pub fn side1(&self) -> (r: bool)
        ensures
            r == self@.1,
    {
        self.side1
    }

    pub fn side2(&self) -> (r: bool)
        ensures
            r == self@.2,
    {
        self.side2
    }

    /// The lattice point at parameter `t` (0, 1 or 2) along the edge.
    pub fn vertex(&self, t: u8) -> (r: CubeVertex)
        ensures
            r == edge_vertex(self@, t),
            self@.0 < 3,
    {
        proof {
            use_type_invariant(self);
        }
        let mut result = CubeVertex::splat(0);
        result.set(self.axis as usize, t);
        let s1: u8 = if self.side1 { 2 } else { 0 };
        let s2: u8 = if self.side2 { 2 } else { 0 };
        result.set(self.axis1() as usize, s1);
        result.set(self.axis2() as usize, s2);
        result
    }
}

/// A subset of the twelve edges of a cube.
#[derive(Debug, Eq, Ord, PartialEq, PartialOrd)]
pub struct CubeEdgeSet {
    flags: [bool; 12],
}

impl CubeEdgeSet {
    /// Whether the edge `e` (a view of a [`CubeEdge`]) belongs to the set.
    pub closed spec fn contains(&self, e: (u8, bool, bool)) -> bool {
        e.0 < 3 && self.flags[edge_index(e)]
    }

    /// The empty set.
    pub fn new() -> (r: Self)
        ensures
            forall|e: (u8, bool, bool)| !r.contains(e),
    {
        CubeEdgeSet { flags: [false; 12] }
    }

    pub fn get(&self, edge: CubeEdge) -> (r: bool)
        ensures
            r == self.contains(edge@),
    {
        let a = edge.axis() as usize;
        let i = 4 * a + (if edge.side1 { 2 } else { 0 }) + (if edge.side2 { 1 } else { 0 });
        self.flags[i]
    }

    pub fn set(&mut self, edge: CubeEdge, value: bool)
        ensures
            forall|e: (u8, bool, bool)|
                final(self).contains(e) == (if e == edge@ { value } else { old(self).contains(e) }),
    {
        let a = edge.axis() as usize;
        let i = 4 * a + (if edge.side1 { 2 } else { 0 }) + (if edge.side2 { 1 } else { 0 });
        self.flags[i] = value;
        assert forall|e: (u8, bool, bool)| e.0 < 3 && e != edge@ implies edge_index(e) != i by {}
    }

    /// Whether no edge belongs to the set.
    pub fn is_empty(&self) -> (r: bool)
        ensures
            r == (forall|e: (u8, bool, bool)| !self.contains(e)),
    {
        let mut i: usize = 0;
        while i < 12
            invariant
                i <= 12,
                forall|j: int| 0 <= j < i ==> !self.flags[j],
            decreases 12 - i,
        {
            if self.flags[i] {
                assert(edge_index(edge_at(i as int)) == i);
                assert(self.contains(edge_at(i as int)));
                return false;
            }
            i = i + 1;
        }
        true
    }

    /// Adds to `mask` the midpoint of every edge in the set.
    pub fn add_samples_to(&self, mask: &mut CubeVertexSet)
        ensures
            forall|v: CubeVertex|
                final(mask).contains(v) == (old(mask).contains(v) || exists|e: (u8, bool, bool)|
                    self.contains(e) && edge_vertex(e, 1) == v),
    {
        let edges = CubeEdge::all();
        let mut j: usize = 0;
        while j < 12
            invariant
                j <= 12,
                forall|k: int| 0 <= k < 12 ==> #[trigger] edges[k]@ == edge_at(k),
                forall|v: CubeVertex|
                    mask.contains(v) == (old(mask).contains(v) || exists|k: int|
                        0 <= k < j && self.contains(edge_at(k)) && edge_vertex(edge_at(k), 1) == v),
            decreases 12 - j,
        {
            let edge = edges[j];
            if self.get(edge) {
                let v = edge.vertex(1);
                proof {
                    lemma_edge_vertex_on_lattice(edge@, 1);
                }
                mask.set(v, true);
            }
            j = j + 1;
        }
        assert forall|v: CubeVertex|
            mask.contains(v) == (old(mask).contains(v) || exists|e: (u8, bool, bool)|
                self.contains(e) && edge_vertex(e, 1) == v) by {
            if exists|e: (u8, bool, bool)| self.contains(e) && edge_vertex(e, 1) == v {
                let e = choose|e: (u8, bool, bool)| self.contains(e) && edge_vertex(e, 1) == v;
                let k = edge_index(e);
                assert(edge_at(k) == e);
            }
        }
    }
}

pub proof fn lemma_edge_vertex_on_lattice(e: (u8, bool, bool), t: u8)
    requires
        e.0 < 3,
        t <= 2,
    ensures
        on_lattice(edge_vertex(e, t)),
{
}

} // verus!
