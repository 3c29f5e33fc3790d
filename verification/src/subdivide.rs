//! The combinatorial half of mesh subdivision: numbering the midpoints of the edges chosen
//! for division, and cutting every triangle along its divided edges.
use vstd::prelude::*;
use std::collections::HashMap;
use crate::directed_mesh_edge::DirectedMeshEdge;
use crate::mesh_edge::{MeshEdge, spec_min, spec_max};
use crate::mesh_triangle::{MeshTriangle, canonical_rotation};
use crate::half_edge_mesh::{dedge_key, lemma_dedge_key_injective};
use crate::tiling::{among, has_side, side_count, tiles, lemma_rotation_sides};

verus! {

/// The undirected edge under a directed one.
pub open spec fn undirected(d: (usize, usize)) -> (usize, usize) {
    (spec_min(d.0, d.1), spec_max(d.0, d.1))
}

/// The last of the first `n` edges of `edges` over the undirected edge `u`, or -1.
pub open spec fn last_over(edges: Seq<DirectedMeshEdge>, u: (usize, usize), n: int) -> int
    decreases n,
{
    if n <= 0 {
        -1
    } else if undirected(edges[n - 1]@) == u {
        n - 1
    } else {
        last_over(edges, u, n - 1)
    }
}

proof fn lemma_last_over_bounds(edges: Seq<DirectedMeshEdge>, u: (usize, usize), n: int)
    requires
        n >= 0,
    ensures
        -1 <= last_over(edges, u, n) < n,
    decreases n,
{
    if n > 0 {
        lemma_last_over_bounds(edges, u, n - 1);
    }
}

/// The new vertex placed on each divided edge.
pub struct EdgeSplits {
    table: HashMap<u128, usize>,
}

impl EdgeSplits {
    /// The new vertex of each divided edge, by its undirected vertex pair.
    pub closed spec fn splits(&self) -> Map<(usize, usize), usize> {
        Map::new(
            |u: (usize, usize)| self.table@.contains_key(dedge_key(u)),
            |u: (usize, usize)| self.table@[dedge_key(u)],
        )
    }

    /// Numbers the edges to divide: the `i`th gets new vertex `first_vertex + i`; an edge
    /// listed twice keeps the number of its last listing.
    pub fn new(edges: &[DirectedMeshEdge], first_vertex: usize) -> (r: Self)
        requires
            first_vertex + edges.len() <= usize::MAX,
        ensures
            forall|u: (usize, usize)|
                #[trigger] r.splits().contains_key(u) <==> last_over(edges@, u, edges.len() as int) >= 0,
            forall|u: (usize, usize)|
                #[trigger] r.splits().contains_key(u) ==> r.splits()[u] == first_vertex + last_over(
                    edges@,
                    u,
                    edges.len() as int,
                ),
    {
        let mut table: HashMap<u128, usize> = HashMap::new();
        let mut i: usize = 0;
        while i < edges.len()
            invariant
                i <= edges.len(),
                first_vertex + edges.len() <= usize::MAX,
                forall|u: (usize, usize)|
                    (#[trigger] table@.contains_key(dedge_key(u))) == (last_over(edges@, u, i as int) >= 0),
                forall|u: (usize, usize)|
                    table@.contains_key(dedge_key(u)) ==> #[trigger] table@[dedge_key(u)] == first_vertex
                        + last_over(edges@, u, i as int),
            decreases edges.len() - i,
        {
            let e = edges[i].edge();
            table.insert(edge_split_key(e), first_vertex + i);
            proof {
                assert forall|u: (usize, usize)|
                    (#[trigger] table@.contains_key(dedge_key(u))) == (last_over(edges@, u, i + 1) >= 0) by {
                    lemma_dedge_key_injective(u, e@);
                    lemma_last_over_bounds(edges@, u, i as int);
                }
                assert forall|u: (usize, usize)| table@.contains_key(dedge_key(u)) implies #[trigger] table@[dedge_key(
                    u,
                )] == first_vertex + last_over(edges@, u, i + 1) by {
                    lemma_dedge_key_injective(u, e@);
                }
            }
            i = i + 1;
        }
        EdgeSplits { table }
    }

    /// The new vertex on `edge`, if it is divided.
    pub fn get(&self, edge: MeshEdge) -> (r: Option<usize>)
        ensures
            r == (if self.splits().contains_key(edge@) {
                Some(self.splits()[edge@])
            } else {
                None
            }),
    {
        match self.table.get(&edge_split_key(edge)) {
            Some(v) => Some(*v),
            None => None,
        }
    }
}

/// The key under which an undirected edge is looked up.
fn edge_split_key(e: MeshEdge) -> (r: u128)
    ensures
        r == dedge_key(e@),
{
    let a = e.v1() as u128;
    let b = e.v2() as u128;
    assert(a * 0x1_0000_0000_0000_0000 + b < 0x1_0000_0000_0000_0000_0000_0000_0000_0000) by (nonlinear_arith)
        requires
            a < 0x1_0000_0000_0000_0000,
            b < 0x1_0000_0000_0000_0000,
    ;
    a * 0x1_0000_0000_0000_0000 + b
}

/// The pieces triangle `(a, b, c)` is cut into, given the new vertices on its sides `ab`,
/// `bc` and `ca`: unchanged when no side is divided; two, three or four triangles when one,
/// two or three are, keeping the winding and each starting at its smallest vertex.
pub open spec fn split_pieces(
    t: (usize, usize, usize),
    d: (Option<usize>, Option<usize>, Option<usize>),
) -> Seq<(usize, usize, usize)> {
    let (a, b, c) = t;
    match d {
        (None, None, None) => seq![t],
        (Some(m), None, None) => seq![canonical_rotation(a, m, c), canonical_rotation(m, b, c)],
        (None, Some(m), None) => seq![canonical_rotation(b, m, a), canonical_rotation(m, c, a)],
        (None, None, Some(m)) => seq![canonical_rotation(c, m, b), canonical_rotation(m, a, b)],
        (Some(x), Some(y), None) => seq![
            canonical_rotation(x, b, y),
            canonical_rotation(a, x, y),
            canonical_rotation(c, a, y),
        ],
        (None, Some(x), Some(y)) => seq![
            canonical_rotation(x, c, y),
            canonical_rotation(b, x, y),
            canonical_rotation(a, b, y),
        ],
        (Some(x), None, Some(y)) => seq![
            canonical_rotation(y, a, x),
            canonical_rotation(c, y, x),
            canonical_rotation(b, c, x),
        ],
        (Some(x), Some(y), Some(z)) => seq![
            canonical_rotation(x, b, y),
            canonical_rotation(y, c, z),
            canonical_rotation(z, a, x),
            canonical_rotation(x, y, z),
        ],
    }
}

/// The side from `p` to `q`, as one side or, when `o` holds a new vertex on it, as two halves.
pub open spec fn halves(p: usize, q: usize, o: Option<usize>) -> Seq<(usize, usize)> {
    match o {
        Some(m) => seq![(p, m), (m, q)],
        None => seq![(p, q)],
    }
}

/// The boundary of triangle `t` after its sides are divided as `d` says, in winding order.
pub open spec fn split_boundary(t: (usize, usize, usize), d: (Option<usize>, Option<usize>, Option<usize>)) -> Seq<
    (usize, usize),
> {
    halves(t.0, t.1, d.0) + halves(t.1, t.2, d.1) + halves(t.2, t.0, d.2)
}

/// `o`, when it holds a vertex, holds one that is none of `a`, `b` and `c`.
pub open spec fn fresh(o: Option<usize>, a: usize, b: usize, c: usize) -> bool {
    o matches Some(m) ==> m != a && m != b && m != c
}

/// The corners of `t` and the new vertices of its sides are all different.
pub open spec fn distinct_split(t: (usize, usize, usize), d: (Option<usize>, Option<usize>, Option<usize>)) -> bool {
    let (a, b, c) = t;
    &&& a != b && b != c && c != a
    &&& fresh(d.0, a, b, c) && fresh(d.1, a, b, c) && fresh(d.2, a, b, c)
    &&& (d.0 matches Some(x) ==> d.1 != Some(x) && d.2 != Some(x))
    &&& (d.1 matches Some(y) ==> d.2 != Some(y))
}

/// The pieces of a cut triangle tile it: every side of the divided triangle, halves included,
/// belongs to exactly one piece with the triangle's winding, and the pieces meet each other
/// along inner sides taken once in each direction. So no piece is lost, doubled or turned.
pub proof fn lemma_split_tiles(t: (usize, usize, usize), d: (Option<usize>, Option<usize>, Option<usize>))
    requires
        distinct_split(t, d),
    ensures
        tiles(split_pieces(t, d), split_boundary(t, d)),
{
    broadcast use lemma_rotation_sides;

    reveal_with_fuel(side_count, 5);
    reveal_with_fuel(among, 7);
    let ps = split_pieces(t, d);
    let bd = split_boundary(t, d);
    assert forall|k: int| 0 <= k < bd.len() implies side_count(ps, #[trigger] bd[k]) == 1 && side_count(
        ps,
        (bd[k].1, bd[k].0),
    ) == 0 by {
    }
    assert forall|j: int, s: (usize, usize)| 0 <= j < ps.len() && #[trigger] has_side(ps[j], s) implies side_count(
        ps,
        s,
    ) == 1 && (among(bd, s) || side_count(ps, (s.1, s.0)) == 1) by {
    }
}

/// The new vertices on the three sides of triangle `t`.
pub open spec fn side_splits(splits: Map<(usize, usize), usize>, t: (usize, usize, usize)) -> (
    Option<usize>,
    Option<usize>,
    Option<usize>,
) {
    let look = |u: (usize, usize)|
        if splits.contains_key(u) {
            Some(splits[u])
        } else {
            None
        };
    (look(undirected((t.0, t.1))), look(undirected((t.1, t.2))), look(undirected((t.2, t.0))))
}

/// The pieces of the first `n` triangles, in order.
pub open spec fn split_all(
    tris: Seq<MeshTriangle>,
    splits: Map<(usize, usize), usize>,
    n: int,
) -> Seq<(usize, usize, usize)>
    decreases n,
{
    if n <= 0 {
        Seq::empty()
    } else {
        split_all(tris, splits, n - 1) + split_pieces(tris[n - 1]@, side_splits(splits, tris[n - 1]@))
    }
}

/// Cuts every triangle along its divided sides, in order.
pub fn split_triangles(triangles: &[MeshTriangle], splits: &EdgeSplits) -> (r: Vec<MeshTriangle>)
    ensures
        r@.map_values(|t: MeshTriangle| t@) == split_all(triangles@, splits.splits(), triangles.len() as int),
{
    let mut out: Vec<MeshTriangle> = Vec::new();
    let mut i: usize = 0;
    while i < triangles.len()
        invariant
            i <= triangles.len(),
            out@.map_values(|t: MeshTriangle| t@) == split_all(triangles@, splits.splits(), i as int),
        decreases triangles.len() - i,
    {
        let tri = triangles[i];
        let es = tri.edges();
        let d0 = splits.get(es[0]);
        let d1 = splits.get(es[1]);
        let d2 = splits.get(es[2]);
        let vs = tri.vertices();
        let a = vs[0];
        let b = vs[1];
        let c = vs[2];
        let ghost before = out@.map_values(|t: MeshTriangle| t@);
        match (d0, d1, d2) {
            (None, None, None) => {
                out.push(tri);
            },
            (Some(m), None, None) => {
                out.push(MeshTriangle::new(a, m, c));
                out.push(MeshTriangle::new(m, b, c));
            },
            (None, Some(m), None) => {
                out.push(MeshTriangle::new(b, m, a));
                out.push(MeshTriangle::new(m, c, a));
            },
            (None, None, Some(m)) => {
                out.push(MeshTriangle::new(c, m, b));
                out.push(MeshTriangle::new(m, a, b));
            },
            (Some(x), Some(y), None) => {
                out.push(MeshTriangle::new(x, b, y));
                out.push(MeshTriangle::new(a, x, y));
                out.push(MeshTriangle::new(c, a, y));
            },
            (None, Some(x), Some(y)) => {
                out.push(MeshTriangle::new(x, c, y));
                out.push(MeshTriangle::new(b, x, y));
                out.push(MeshTriangle::new(a, b, y));
            },
            (Some(x), None, Some(y)) => {
                out.push(MeshTriangle::new(y, a, x));
                out.push(MeshTriangle::new(c, y, x));
                out.push(MeshTriangle::new(b, c, x));
            },
            (Some(x), Some(y), Some(z)) => {
                out.push(MeshTriangle::new(x, b, y));
                out.push(MeshTriangle::new(y, c, z));
                out.push(MeshTriangle::new(z, a, x));
                out.push(MeshTriangle::new(x, y, z));
            },
        }
        proof {
            assert(side_splits(splits.splits(), tri@) == (d0, d1, d2));
            assert(out@.map_values(|t: MeshTriangle| t@) =~= before + split_pieces(tri@, (d0, d1, d2)));
        }
        i = i + 1;
    }
    out
}

} // verus!
