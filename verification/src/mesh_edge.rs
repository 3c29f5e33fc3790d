use vstd::prelude::*;

verus! {

/// An undirected edge between two mesh vertices, stored with the smaller index first
/// when built by [`MeshEdge::new`].
#[derive(Copy, Clone, Eq, Ord, PartialOrd, PartialEq, Hash, Debug)]
pub struct MeshEdge {
    vertices: [usize; 2],
}

impl View for MeshEdge {
    type V = (usize, usize);

    closed spec fn view(&self) -> (usize, usize) {
        (self.vertices[0], self.vertices[1])
    }
}

pub open spec fn spec_min(a: usize, b: usize) -> usize {
    if a <= b { a } else { b }
}

pub open spec fn spec_max(a: usize, b: usize) -> usize {
    if a <= b { b } else { a }
}

impl MeshEdge {
    /// The edge between `v1` and `v2`, as [`MeshEdge::new`] builds it.
    pub closed spec fn spec_new(v1: usize, v2: usize) -> MeshEdge {
        MeshEdge { vertices: if v1 <= v2 { [v1, v2] } else { [v2, v1] } }
    }

    /// The edge between `v1` and `v2` holds the smaller index first.
    pub broadcast proof fn lemma_spec_new(v1: usize, v2: usize)
        ensures
            (#[trigger] MeshEdge::spec_new(v1, v2))@ == (spec_min(v1, v2), spec_max(v1, v2)),
    {
    }

    /// The edge between `v1` and `v2`, whatever their order.
    pub fn new(v1: usize, v2: usize) -> (r: Self)
        ensures
            r@ == (spec_min(v1, v2), spec_max(v1, v2)),
            r == MeshEdge::spec_new(v1, v2),
    {
        let vs = if v1 <= v2 { [v1, v2] } else { [v2, v1] };
        MeshEdge { vertices: vs }
    }

    pub fn v1(&self) -> (r: usize)
        ensures
            r == self@.0,
    {
        self.vertices[0]
    }

    pub fn v2(&self) -> (r: usize)
        ensures
            r == self@.1,
    {
        self.vertices[1]
    }

    pub fn vertices(&self) -> (r: [usize; 2])
        ensures
            r@ == seq![self@.0, self@.1],
    {
        self.vertices
    }

    /// Whether the two edges have an endpoint in common.
    pub fn shares_vertex(&self, other: &MeshEdge) -> (r: bool)
        ensures
            r == (self@.0 == other@.0 || self@.0 == other@.1 || self@.1 == other@.0 || self@.1
                == other@.1),
    {
        let mut i: usize = 0;
        while i < 2
            invariant
                i <= 2,
                forall|a: int, b: int|
                    0 <= a < i && 0 <= b < 2 ==> self.vertices[a] != other.vertices[b],
            decreases 2 - i,
        {
            let mut j: usize = 0;
            while j < 2
                invariant
                    i < 2,
                    j <= 2,
                    forall|a: int, b: int|
                        0 <= a < i && 0 <= b < 2 ==> self.vertices[a] != other.vertices[b],
                    forall|b: int| 0 <= b < j ==> self.vertices[i as int] != other.vertices[b],
                decreases 2 - j,
            {
                if self.vertices[i] == other.vertices[j] {
                    return true;
                }
                j = j + 1;
            }
            i = i + 1;
        }
        false
    }
}

impl From<[usize; 2]> for MeshEdge {
    fn from(vertices: [usize; 2]) -> (r: Self)
        ensures
            r@ == (vertices[0], vertices[1]),
    {
        MeshEdge { vertices }
    }
}

impl vstd::std_specs::convert::FromSpecImpl<[usize; 2]> for MeshEdge {
    open spec fn obeys_from_spec() -> bool {
        true
    }

    closed spec fn from_spec(v: [usize; 2]) -> Self {
        MeshEdge { vertices: v }
    }
}

} // verus!
