//! The combinatorial side of overlaying two planar edge meshes: splitting each edge at the
//! points where it crosses the other mesh, and choosing which split edges make up the
//! union, difference or intersection.
use vstd::prelude::*;
use crate::directed_mesh_edge::DirectedMeshEdge;

verus! {

/// The two ends of each edge.
pub open spec fn edge_ends(s: Seq<DirectedMeshEdge>) -> Seq<(usize, usize)> {
    s.map_values(|e: DirectedMeshEdge| e@)
}

/// The items of each list.
pub open spec fn cut_lists(s: Seq<Vec<usize>>) -> Seq<Seq<usize>> {
    s.map_values(|c: Vec<usize>| c@)
}

/// The edges between consecutive points of `path`.
pub open spec fn walk_edges(path: Seq<usize>) -> Seq<(usize, usize)> {
    Seq::new((path.len() - 1) as nat, |j: int| (path[j], path[j + 1]))
}

/// The edges of the first `n` edges after splitting: edge `i` runs from `ends[i].0` through
/// the points `cuts[i]`, in order, to `ends[i].1`.
pub open spec fn chain_edges(ends: Seq<(usize, usize)>, cuts: Seq<Seq<usize>>, n: int) -> Seq<(usize, usize)>
    decreases n,
{
    if n <= 0 {
        Seq::empty()
    } else {
        chain_edges(ends, cuts, n - 1) + walk_edges(
            seq![ends[n - 1].0] + cuts[n - 1] + seq![ends[n - 1].1],
        )
    }
}

proof fn lemma_ends_push(s: Seq<DirectedMeshEdge>, e: DirectedMeshEdge)
    ensures
        edge_ends(s.push(e)) == edge_ends(s).push(e@),
{
    assert(edge_ends(s.push(e)) =~= edge_ends(s).push(e@));
}

proof fn lemma_walk_step(path: Seq<usize>, j: int)
    requires
        0 <= j,
        j + 2 <= path.len(),
    ensures
        walk_edges(path.take(j + 2)) == walk_edges(path.take(j + 1)).push((path[j], path[j + 1])),
{
    assert(walk_edges(path.take(j + 2)) =~= walk_edges(path.take(j + 1)).push((path[j], path[j + 1])));
}

/// Splitting edge `n - 1` appends a path to what the earlier edges gave: it runs from the
/// edge's start through each of its cut points, in order, to its end, one piece per gap.
pub proof fn lemma_split_path(ends: Seq<(usize, usize)>, cuts: Seq<Seq<usize>>, n: int)
    requires
        0 < n <= ends.len(),
        n <= cuts.len(),
    ensures
        ({
            let before = chain_edges(ends, cuts, n - 1);
            let all = chain_edges(ends, cuts, n);
            let p = all.subrange(before.len() as int, all.len() as int);
            let cs = cuts[n - 1];
            &&& before.len() <= all.len()
            &&& all.subrange(0, before.len() as int) == before
            &&& p.len() == cs.len() + 1
            &&& p[0].0 == ends[n - 1].0
            &&& p[cs.len() as int].1 == ends[n - 1].1
            &&& forall|j: int| 0 <= j < cs.len() ==> #[trigger] p[j].1 == cs[j] && p[j + 1].0 == cs[j]
        }),
{
    let before = chain_edges(ends, cuts, n - 1);
    let all = chain_edges(ends, cuts, n);
    let path = seq![ends[n - 1].0] + cuts[n - 1] + seq![ends[n - 1].1];
    let w = walk_edges(path);
    assert(all == before + w);
    assert(all.subrange(0, before.len() as int) =~= before);
    assert(all.subrange(before.len() as int, all.len() as int) =~= w);
    assert forall|j: int| 0 <= j < cuts[n - 1].len() implies #[trigger] w[j].1 == cuts[n - 1][j] && w[j + 1].0
        == cuts[n - 1][j] by {
        assert(path[j + 1] == cuts[n - 1][j]);
    }
}

/// Splits each edge, from `ends[i].0` to `ends[i].1`, at the points `cuts[i]`, given in order
/// along the edge.
pub fn split_edges(ends: &[(usize, usize)], cuts: &[Vec<usize>]) -> (r: Vec<DirectedMeshEdge>)
    requires
        ends.len() == cuts.len(),
    ensures
        edge_ends(r@) == chain_edges(ends@, cut_lists(cuts@), ends.len() as int),
{
    let mut out: Vec<DirectedMeshEdge> = Vec::new();
    let mut i: usize = 0;
    while i < ends.len()
        invariant
            ends.len() == cuts.len(),
            i <= ends.len(),
            edge_ends(out@) == chain_edges(ends@, cut_lists(cuts@), i as int),
        decreases ends.len() - i,
    {
        let (a, b) = ends[i];
        let cs = &cuts[i];
        let ghost path = seq![a] + cs@ + seq![b];
        let ghost start = edge_ends(out@);
        proof {
            assert(cut_lists(cuts@)[i as int] == cs@);
            assert(walk_edges(path.take(1)) =~= Seq::<(usize, usize)>::empty());
            assert(start =~= start + walk_edges(path.take(1)));
        }
        let mut prev = a;
        let mut j: usize = 0;
        while j < cs.len()
            invariant
                j <= cs.len(),
                path == seq![a] + cs@ + seq![b],
                prev == path[j as int],
                edge_ends(out@) == start + walk_edges(path.take(j + 1)),
            decreases cs.len() - j,
        {
            let ghost old_out = out@;
            let e = DirectedMeshEdge::new(prev, cs[j]);
            out.push(e);
            proof {
                lemma_ends_push(old_out, e);
                lemma_walk_step(path, j as int);
            }
            prev = cs[j];
            j = j + 1;
        }
        let ghost old_out = out@;
        let e = DirectedMeshEdge::new(prev, b);
        out.push(e);
        proof {
            lemma_ends_push(old_out, e);
            lemma_walk_step(path, cs.len() as int);
            assert(path.take(cs.len() + 2) =~= path);
        }
        i = i + 1;
    }
    out
}

/// Where a vertex of the overlay comes from: a vertex of one of the two meshes, lying inside
/// the other mesh or not, or a crossing of an edge of each, where the second edge crosses the
/// first from right to left or not.
#[derive(Clone, Copy, Debug)]
pub enum VertexKind {
    Mesh { mesh: usize, interior: bool },
    Intersect { cross: bool },
}

/// Whether a split edge of mesh `mesh` (0 or 1) belongs to the result that wants edges of that
/// mesh inside the other (`want_interior`) or outside it: decided by its first end that is a
/// mesh vertex, or, between two crossings, by the crossing direction for that mesh.
pub open spec fn keeps(kinds: Seq<VertexKind>, e: (usize, usize), mesh: int, want_interior: bool) -> bool {
    match (kinds[e.0 as int], kinds[e.1 as int]) {
        (VertexKind::Mesh { interior, .. }, _) => interior == want_interior,
        (_, VertexKind::Mesh { interior, .. }) => interior == want_interior,
        (VertexKind::Intersect { cross: c1 }, VertexKind::Intersect { cross: c2 }) => want_interior != (if mesh
            == 0 {
            c1
        } else {
            c2
        }),
    }
}

/// The kept edges among the first `n`, each turned around when `invert` holds.
pub open spec fn kept_upto(
    kinds: Seq<VertexKind>,
    edges: Seq<(usize, usize)>,
    mesh: int,
    want_interior: bool,
    invert: bool,
    n: int,
) -> Seq<(usize, usize)>
    decreases n,
{
    if n <= 0 {
        Seq::empty()
    } else {
        let rest = kept_upto(kinds, edges, mesh, want_interior, invert, n - 1);
        let e = edges[n - 1];
        if keeps(kinds, e, mesh, want_interior) {
            rest.push(if invert { (e.1, e.0) } else { e })
        } else {
            rest
        }
    }
}

/// The edges a result keeps from a sequence are those it keeps from each part: the choice is
/// made edge by edge and the order is kept.
pub proof fn lemma_kept_concat(
    kinds: Seq<VertexKind>,
    s1: Seq<(usize, usize)>,
    s2: Seq<(usize, usize)>,
    mesh: int,
    want_interior: bool,
    invert: bool,
)
    ensures
        kept_upto(kinds, s1 + s2, mesh, want_interior, invert, (s1.len() + s2.len()) as int) == kept_upto(
            kinds,
            s1,
            mesh,
            want_interior,
            invert,
            s1.len() as int,
        ) + kept_upto(kinds, s2, mesh, want_interior, invert, s2.len() as int),
    decreases s2.len(),
{
    if s2.len() == 0 {
        assert(s1 + s2 =~= s1);
        lemma_kept_prefix(kinds, s1, s2, mesh, want_interior, invert, s1.len() as int);
    } else {
        let s2p = s2.drop_last();
        lemma_kept_concat(kinds, s1, s2p, mesh, want_interior, invert);
        assert((s1 + s2).take((s1.len() + s2p.len()) as int) =~= s1 + s2p);
        lemma_kept_prefix(kinds, s1 + s2p, seq![s2.last()], mesh, want_interior, invert, (s1.len() + s2p.len()) as int);
        assert(s1 + s2p + seq![s2.last()] =~= s1 + s2);
        lemma_kept_prefix(kinds, s2p, seq![s2.last()], mesh, want_interior, invert, s2p.len() as int);
        assert(s2p + seq![s2.last()] =~= s2);
        assert((s1 + s2)[s1.len() + s2.len() - 1] == s2[s2.len() - 1]);
    }
}

proof fn lemma_kept_prefix(
    kinds: Seq<VertexKind>,
    s: Seq<(usize, usize)>,
    more: Seq<(usize, usize)>,
    mesh: int,
    want_interior: bool,
    invert: bool,
    n: int,
)
    requires
        0 <= n <= s.len(),
    ensures
        kept_upto(kinds, s + more, mesh, want_interior, invert, n) == kept_upto(kinds, s, mesh, want_interior, invert, n),
    decreases n,
{
    if n > 0 {
        lemma_kept_prefix(kinds, s, more, mesh, want_interior, invert, n - 1);
        assert((s + more)[n - 1] == s[n - 1]);
    }
}

/// Which single edge a result keeps. An edge with an end at a vertex of the meshes is kept
/// exactly when that vertex lies inside the other mesh as wanted, whichever end it is (the
/// first end decides when both are); an edge between two crossings is kept when the crossing
/// at its start enters (for the first mesh) or the one at its end leaves (for the second) the
/// other mesh the wanted way. A kept edge is turned around when `invert` holds.
pub proof fn lemma_kept_edge(kinds: Seq<VertexKind>, e: (usize, usize), mesh: int, want_interior: bool, invert: bool)
    requires
        0 <= mesh <= 1,
        e.0 < kinds.len(),
        e.1 < kinds.len(),
    ensures
        ({
            let r = kept_upto(kinds, seq![e], mesh, want_interior, invert, 1);
            &&& r.len() <= 1
            &&& r.len() == 1 ==> r[0] == (if invert {
                (e.1, e.0)
            } else {
                e
            })
            &&& kinds[e.0 as int] matches VertexKind::Mesh { interior, .. } ==> (r.len() == 1 <==> interior
                == want_interior)
            &&& kinds[e.0 as int] is Intersect ==> (kinds[e.1 as int] matches VertexKind::Mesh { interior, .. }
                ==> (r.len() == 1 <==> interior == want_interior))
            &&& kinds[e.0 as int] matches VertexKind::Intersect { cross: c1 } ==> (
            kinds[e.1 as int] matches VertexKind::Intersect { cross: c2 } ==> (r.len() == 1 <==> (if mesh == 0 {
                c1
            } else {
                c2
            }) != want_interior))
        }),
{
    reveal_with_fuel(kept_upto, 2);
}

/// The split edges of mesh `mesh` (0 or 1) that a result keeps, turned around when `invert`
/// holds.
pub fn kept_edges(
    kinds: &[VertexKind],
    edges: &[DirectedMeshEdge],
    mesh: usize,
    want_interior: bool,
    invert: bool,
) -> (r: Vec<DirectedMeshEdge>)
    requires
        mesh <= 1,
        forall|i: int|
            0 <= i < edges.len() ==> (#[trigger] edges@[i])@.0 < kinds.len() && edges@[i]@.1 < kinds.len(),
    ensures
        edge_ends(r@) == kept_upto(kinds@, edge_ends(edges@), mesh as int, want_interior, invert, edges.len() as int),
{
    let ghost es = edge_ends(edges@);
    let mut out: Vec<DirectedMeshEdge> = Vec::new();
    let mut i: usize = 0;
    while i < edges.len()
        invariant
            es == edge_ends(edges@),
            forall|q: int|
                0 <= q < edges.len() ==> (#[trigger] edges@[q])@.0 < kinds.len() && edges@[q]@.1 < kinds.len(),
            i <= edges.len(),
            edge_ends(out@) == kept_upto(kinds@, es, mesh as int, want_interior, invert, i as int),
        decreases edges.len() - i,
    {
        let e = edges[i];
        proof {
            assert(es[i as int] == e@);
        }
        let keep = match (kinds[e.v1()], kinds[e.v2()]) {
            (VertexKind::Mesh { interior, .. }, _) => interior == want_interior,
            (_, VertexKind::Mesh { interior, .. }) => interior == want_interior,
            (VertexKind::Intersect { cross: c1 }, VertexKind::Intersect { cross: c2 }) => want_interior != (if mesh
                == 0 {
                c1
            } else {
                c2
            }),
        };
        if keep {
            let ghost old_out = out@;
            let pushed = if invert {
                e.inverted()
            } else {
                e
            };
            out.push(pushed);
            proof {
                lemma_ends_push(old_out, pushed);
            }
        }
        i = i + 1;
    }
    out
}

} // verus!
