//! Cutting a planar edge mesh along a path: the vertices below the cut stay, renumbered in
//! order, the path's points follow them, each edge that crosses the cut is cut at a new point,
//! and the cut points are stitched together along the cut.
use vstd::prelude::*;
use crate::directed_mesh_edge::DirectedMeshEdge;

verus! {

/// The two ends of each edge.
pub open spec fn edge_views(s: Seq<DirectedMeshEdge>) -> Seq<(usize, usize)> {
    s.map_values(|e: DirectedMeshEdge| e@)
}

proof fn lemma_views_push(s: Seq<DirectedMeshEdge>, e: DirectedMeshEdge)
    ensures
        edge_views(s.push(e)) == edge_views(s).push(e@),
{
    assert(edge_views(s.push(e)) =~= edge_views(s).push(e@));
}

/// The edges along a path of `n + 1` points numbered from `first`.
pub open spec fn path_edges(first: int, n: int) -> Seq<(usize, usize)> {
    Seq::new(n as nat, |q: int| ((first + q) as usize, (first + q + 1) as usize))
}

/// The edges from each point of `firsts` to the point at the same place in `seconds`.
pub open spec fn stitch_edges(firsts: Seq<usize>, seconds: Seq<usize>) -> Seq<(usize, usize)> {
    Seq::new(firsts.len(), |j: int| (firsts[j], seconds[j]))
}

/// Vertex `v` is a vertex of the mesh and lies below the cut.
pub open spec fn is_below(below: Seq<bool>, v: usize) -> bool {
    (v as int) < below.len() && below[v as int]
}

/// The number of vertices before `i` that lie below the cut: the new index of vertex `i`
/// when it stays.
pub open spec fn rank(below: Seq<bool>, i: int) -> nat
    decreases i,
{
    if i <= 0 {
        0
    } else {
        rank(below, i - 1) + if below[i - 1] { 1nat } else { 0nat }
    }
}

/// The vertices below the cut among the first `n`, in order.
pub open spec fn kept_upto(below: Seq<bool>, n: int) -> Seq<usize>
    decreases n,
{
    if n <= 0 {
        Seq::empty()
    } else if below[n - 1] {
        kept_upto(below, n - 1).push((n - 1) as usize)
    } else {
        kept_upto(below, n - 1)
    }
}

/// Walking the first `k` edges, with new points numbered from `base`: the edges kept or cut,
/// the new points on edges leaving the kept side, those on edges entering it, and the
/// indices of the edges that cross.
pub open spec fn cut_fold(below: Seq<bool>, base: int, edges: Seq<(usize, usize)>, k: int) -> (
    Seq<(usize, usize)>,
    Seq<usize>,
    Seq<usize>,
    Seq<usize>,
)
    decreases k,
{
    if k <= 0 {
        (Seq::empty(), Seq::empty(), Seq::empty(), Seq::empty())
    } else {
        let (out, ups, downs, crossings) = cut_fold(below, base, edges, k - 1);
        let e = edges[k - 1];
        let nvi = (base + crossings.len()) as usize;
        if is_below(below, e.0) && !is_below(below, e.1) {
            (out.push((rank(below, e.0 as int) as usize, nvi)), ups.push(nvi), downs, crossings.push((k - 1) as usize))
        } else if !is_below(below, e.0) && is_below(below, e.1) {
            (out.push((nvi, rank(below, e.1 as int) as usize)), ups, downs.push(nvi), crossings.push((k - 1) as usize))
        } else if is_below(below, e.0) && is_below(below, e.1) {
            (out.push(e), ups, downs, crossings)
        } else {
            (out, ups, downs, crossings)
        }
    }
}

/// The edges of the cut mesh: the path, from its first point to its last; the edges walked in
/// order; then the stitches, from the path's last point and each point leaving the kept side
/// to, in turn, each point entering it and the path's first point.
pub open spec fn cut_spec(below: Seq<bool>, path_len: int, edges: Seq<(usize, usize)>) -> Seq<(usize, usize)> {
    let kn = rank(below, below.len() as int) as int;
    let (out, ups, downs, _) = cut_fold(below, kn + path_len, edges, edges.len() as int);
    let firsts = seq![(kn + path_len - 1) as usize] + ups;
    let seconds = downs + seq![kn as usize];
    path_edges(kn, path_len - 1) + out + stitch_edges(firsts, seconds)
}

/// The result of a cut: the vertices that stay, by their old index; the edges that cross the
/// cut, by their index, in the order their new points are numbered (after the stayed
/// vertices and the path's points); and the edges of the cut mesh.
pub struct CutEdges {
    pub kept: Vec<usize>,
    pub crossings: Vec<usize>,
    pub edges: Vec<DirectedMeshEdge>,
}

/// As many edges leave the kept side as enter it, so the cut points pair up.
pub open spec fn cut_balanced(below: Seq<bool>, edges: Seq<(usize, usize)>) -> bool {
    let (_, ups, downs, _) = cut_fold(below, 0, edges, edges.len() as int);
    ups.len() == downs.len()
}

proof fn lemma_fold_counts(below: Seq<bool>, b1: int, b2: int, edges: Seq<(usize, usize)>, k: int)
    requires
        k >= 0,
    ensures
        cut_fold(below, b1, edges, k).1.len() == cut_fold(below, b2, edges, k).1.len(),
        cut_fold(below, b1, edges, k).2.len() == cut_fold(below, b2, edges, k).2.len(),
        cut_fold(below, b1, edges, k).3.len() == cut_fold(below, b2, edges, k).3.len(),
        cut_fold(below, b1, edges, k).3.len() <= k,
        cut_fold(below, b1, edges, k).0.len() <= k,
    decreases k,
{
    if k > 0 {
        lemma_fold_counts(below, b1, b2, edges, k - 1);
    }
}

proof fn lemma_rank_bound(below: Seq<bool>, i: int)
    requires
        0 <= i <= below.len(),
    ensures
        rank(below, i) <= i,
        forall|j: int| 0 <= j <= i ==> #[trigger] rank(below, j) <= rank(below, i),
    decreases i,
{
    if i > 0 {
        lemma_rank_bound(below, i - 1);
    }
}

/// Edge `e` enters the kept side: its end lies below the cut and its start does not.
pub open spec fn enters(below: Seq<bool>, e: (usize, usize)) -> bool {
    !is_below(below, e.0) && is_below(below, e.1)
}

/// Edge `e` leaves the kept side: its start lies below the cut and its end does not.
pub open spec fn leaves(below: Seq<bool>, e: (usize, usize)) -> bool {
    is_below(below, e.0) && !is_below(below, e.1)
}

/// How many of the first `k` edges cross the cut, one way or the other.
pub open spec fn crossing_count(below: Seq<bool>, edges: Seq<(usize, usize)>, k: int) -> nat
    decreases k,
{
    if k <= 0 {
        0
    } else {
        crossing_count(below, edges, k - 1) + if enters(below, edges[k - 1]) || leaves(below, edges[k - 1]) {
            1nat
        } else {
            0nat
        }
    }
}

/// How many of the first `k` edges enter the kept side.
pub open spec fn enter_count(below: Seq<bool>, edges: Seq<(usize, usize)>, k: int) -> nat
    decreases k,
{
    if k <= 0 {
        0
    } else {
        enter_count(below, edges, k - 1) + if enters(below, edges[k - 1]) {
            1nat
        } else {
            0nat
        }
    }
}

/// `v` is the point where edge `q` of `edges` crosses the cut, points being numbered from
/// `base` in the order the crossing edges come.
pub open spec fn crossing_point(below: Seq<bool>, edges: Seq<(usize, usize)>, base: int, q: int, v: usize) -> bool {
    0 <= q < edges.len() && v == base + crossing_count(below, edges, q)
}

/// `v` is the point of an edge that enters the kept side.
pub open spec fn entering_point(below: Seq<bool>, edges: Seq<(usize, usize)>, base: int, v: usize) -> bool {
    exists|q: int| #[trigger] crossing_point(below, edges, base, q, v) && enters(below, edges[q])
}

/// `v` is the point of an edge that leaves the kept side.
pub open spec fn leaving_point(below: Seq<bool>, edges: Seq<(usize, usize)>, base: int, v: usize) -> bool {
    exists|q: int| #[trigger] crossing_point(below, edges, base, q, v) && leaves(below, edges[q])
}

proof fn lemma_crossing_count_mono(below: Seq<bool>, edges: Seq<(usize, usize)>, q: int, k: int)
    requires
        0 <= q <= k,
    ensures
        crossing_count(below, edges, q) <= crossing_count(below, edges, k),
    decreases k,
{
    if q < k {
        lemma_crossing_count_mono(below, edges, q, k - 1);
    }
}

/// The points the walk records, in the order it makes them, are increasing points of
/// entering (resp. leaving) edges, one per such edge.
proof fn lemma_fold_points(below: Seq<bool>, base: int, edges: Seq<(usize, usize)>, k: int)
    requires
        0 <= k <= edges.len(),
        0 <= base,
        base + edges.len() <= usize::MAX,
    ensures
        ({
            let (o, u, dn, c) = cut_fold(below, base, edges, k);
            &&& c.len() == crossing_count(below, edges, k)
            &&& dn.len() == enter_count(below, edges, k)
            &&& forall|j: int, j2: int| 0 <= j < j2 < dn.len() ==> dn[j] < dn[j2]
            &&& forall|j: int, j2: int| 0 <= j < j2 < u.len() ==> u[j] < u[j2]
            &&& forall|j: int|
                0 <= j < dn.len() ==> dn[j] < base + c.len() && entering_point(below, edges, base, #[trigger] dn[j])
            &&& forall|j: int|
                0 <= j < u.len() ==> u[j] < base + c.len() && leaving_point(below, edges, base, #[trigger] u[j])
        }),
    decreases k,
{
    if k > 0 {
        lemma_fold_points(below, base, edges, k - 1);
        lemma_fold_counts(below, base, base, edges, k - 1);
        let (o, u, dn, c) = cut_fold(below, base, edges, k - 1);
        let e = edges[k - 1];
        let nvi = (base + c.len()) as usize;
        let (o2, u2, dn2, c2) = cut_fold(below, base, edges, k);
        assert forall|j: int| 0 <= j < dn2.len() implies dn2[j] < base + c2.len() && entering_point(
            below,
            edges,
            base,
            #[trigger] dn2[j],
        ) by {
            if j < dn.len() {
                assert(dn2[j] == dn[j]);
                let q = choose|q: int| #[trigger] crossing_point(below, edges, base, q, dn[j]) && enters(below, edges[q]);
                assert(crossing_point(below, edges, base, q, dn2[j]));
            } else {
                assert(crossing_point(below, edges, base, k - 1, dn2[j]));
            }
        }
        assert forall|j: int| 0 <= j < u2.len() implies u2[j] < base + c2.len() && leaving_point(
            below,
            edges,
            base,
            #[trigger] u2[j],
        ) by {
            if j < u.len() {
                assert(u2[j] == u[j]);
                let q = choose|q: int| #[trigger] crossing_point(below, edges, base, q, u[j]) && leaves(below, edges[q]);
                assert(crossing_point(below, edges, base, q, u2[j]));
            } else {
                assert(crossing_point(below, edges, base, k - 1, u2[j]));
            }
        }
    }
}

/// The stitches of a cut follow the cut. The last edges of the result are the stitches, one
/// more than there are entering edges: the first starts at the path's last point and the
/// last ends at its first point; the others join the points where edges leave the kept side
/// to those where edges enter it, each list taken in the order its edges come, so that
/// both the starts and the ends of the stitches increase.
#[verifier::rlimit(50)]
pub proof fn lemma_cut_stitches(below: Seq<bool>, path_len: int, edges: Seq<(usize, usize)>)
    requires
        path_len >= 1,
        below.len() + path_len + edges.len() < usize::MAX,
        cut_balanced(below, edges),
    ensures
        ({
            let r = cut_spec(below, path_len, edges);
            let kn = rank(below, below.len() as int) as int;
            let base = kn + path_len;
            let d = enter_count(below, edges, edges.len() as int) as int;
            let st = r.len() - (d + 1);
            let sts = r.subrange(st, r.len() as int);
            &&& st >= 0
            &&& sts.len() == d + 1
            &&& sts[0].0 == base - 1
            &&& sts[d].1 == kn
            &&& forall|j: int, j2: int| 0 <= j < j2 < d ==> #[trigger] sts[j].1 < #[trigger] sts[j2].1
            &&& forall|j: int, j2: int| 1 <= j < j2 <= d ==> #[trigger] sts[j].0 < #[trigger] sts[j2].0
            &&& forall|j: int| 0 <= j < d ==> entering_point(below, edges, base, #[trigger] sts[j].1)
            &&& forall|j: int| 1 <= j <= d ==> leaving_point(below, edges, base, #[trigger] sts[j].0)
        }),
{
    let r = cut_spec(below, path_len, edges);
    let kn = rank(below, below.len() as int) as int;
    let base = kn + path_len;
    let n = edges.len() as int;
    lemma_rank_bound(below, below.len() as int);
    lemma_fold_points(below, base, edges, n);
    lemma_fold_counts(below, base, 0, edges, n);
    let (out, ups, downs, c) = cut_fold(below, base, edges, n);
    let firsts = seq![(kn + path_len - 1) as usize] + ups;
    let seconds = downs + seq![kn as usize];
    let sts = stitch_edges(firsts, seconds);
    let d = downs.len() as int;
    let head = path_edges(kn, path_len - 1) + out;
    assert(r == head + sts);
    let st = r.len() - (d + 1);
    assert(st == head.len());
    assert(r.subrange(st, r.len() as int) =~= sts);
    assert forall|j: int, j2: int| 0 <= j < j2 < d implies #[trigger] sts[j].1 < #[trigger] sts[j2].1 by {
    }
    assert forall|j: int, j2: int| 1 <= j < j2 <= d implies #[trigger] sts[j].0 < #[trigger] sts[j2].0 by {
        assert(firsts[j] == ups[j - 1]);
        assert(firsts[j2] == ups[j2 - 1]);
    }
    assert forall|j: int| 0 <= j < d implies entering_point(below, edges, base, #[trigger] sts[j].1) by {
        assert(seconds[j] == downs[j]);
    }
    assert forall|j: int| 1 <= j <= d implies leaving_point(below, edges, base, #[trigger] sts[j].0) by {
        assert(firsts[j] == ups[j - 1]);
    }
}

/// Cuts the edge mesh whose vertex `i` lies below the cut when `below[i]` holds, along a path
/// of `path_len` points from the cut's start to its end. Edge ends beyond `below` count as
/// not below; an edge with one end below must have its other end in the mesh.
pub fn cut_edges(below: &[bool], path_len: usize, edges: &[DirectedMeshEdge]) -> (r: CutEdges)
    requires
        path_len >= 1,
        forall|i: int|
            0 <= i < edges.len() ==> (is_below(below@, (#[trigger] edges@[i])@.0) ==> edges@[i]@.1 < below.len()) && (
            is_below(below@, edges@[i]@.1) ==> edges@[i]@.0 < below.len()),
        below.len() + path_len + edges.len() < usize::MAX,
        cut_balanced(below@, edge_views(edges@)),
    ensures
        edge_views(r.edges@) == cut_spec(
            below@,
            path_len as int,
            edge_views(edges@),
        ),
        r.kept@ == kept_upto(below@, below.len() as int),
        r.crossings@ == cut_fold(
            below@,
            rank(below@, below.len() as int) + path_len,
            edge_views(edges@),
            edges.len() as int,
        ).3,
        forall|i: int|
            0 <= i < edges.len() ==> (r.crossings@.contains(i as usize) <==> is_below(below@, edges@[i]@.0)
                != is_below(below@, edges@[i]@.1)),
{
    let ghost es = edge_views(edges@);
    let n = below.len();
    let mut place: Vec<usize> = Vec::new();
    let mut kept: Vec<usize> = Vec::new();
    let mut i: usize = 0;
    while i < n
        invariant
            n == below.len(),
            i <= n,
            place.len() == i,
            forall|j: int| 0 <= j < i ==> #[trigger] place@[j] == rank(below@, j),
            kept.len() == rank(below@, i as int),
            kept@ == kept_upto(below@, i as int),
            rank(below@, i as int) <= i,
        decreases n - i,
    {
        place.push(kept.len());
        if below[i] {
            kept.push(i);
        }
        i = i + 1;
    }
    let kn = kept.len();
    let base = kn + path_len;
    proof {
        lemma_rank_bound(below@, n as int);
    }
    let mut out: Vec<DirectedMeshEdge> = Vec::new();
    let mut j: usize = 0;
    while j + 1 < path_len
        invariant
            kn == rank(below@, n as int),
            kn <= n,
            n == below.len(),
            base == kn + path_len,
            base + edges.len() < usize::MAX,
            j < path_len,
            out.len() == j,
            edge_views(out@) == path_edges(kn as int, j as int),
        decreases path_len - j,
    {
        let ghost old_out = out@;
        let ne = DirectedMeshEdge::new(kn + j, kn + j + 1);
        out.push(ne);
        proof {
            lemma_views_push(old_out, ne);
        }
        j = j + 1;
        assert(edge_views(out@) =~= path_edges(kn as int, j as int));
    }
    let ghost path_part = edge_views(out@);
    assert(out.len() == path_part.len());
    let mut ups: Vec<usize> = Vec::new();
    let mut downs: Vec<usize> = Vec::new();
    let mut crossings: Vec<usize> = Vec::new();
    ups.push(base - 1);
    let mut k: usize = 0;
    while k < edges.len()
        invariant
            es == edge_views(edges@),
            n == below.len(),
            place.len() == n,
            forall|q: int| 0 <= q < n ==> #[trigger] place@[q] == rank(below@, q),
            kn == rank(below@, n as int),
            base == kn + path_len,
            base + edges.len() < usize::MAX,
            k <= edges.len(),
            ({
                let (o, u, d, c) = cut_fold(below@, base as int, es, k as int);
                &&& out.len() == path_part.len() + o.len()
                &&& edge_views(out@) == path_part + o
                &&& ups@ == seq![(base - 1) as usize] + u
                &&& downs@ == d
                &&& crossings@ == c
            }),
        decreases edges.len() - k,
    {
        proof {
            lemma_fold_counts(below@, base as int, base as int, es, k as int);
        }
        let e = edges[k];
        let a = e.v1();
        let b = e.v2();
        let nvi = base + crossings.len();
        let ghost prev = cut_fold(below@, base as int, es, k as int);
        let ghost pout = edge_views(out@);
        let ghost old_out = out@;
        let ba = a < n && below[a];
        let bb = b < n && below[b];
        if ba && !bb {
            let ne = DirectedMeshEdge::new(place[a], nvi);
            out.push(ne);
            proof {
                lemma_views_push(old_out, ne);
            }
            ups.push(nvi);
            crossings.push(k);
        } else if !ba && bb {
            let ne = DirectedMeshEdge::new(nvi, place[b]);
            out.push(ne);
            proof {
                lemma_views_push(old_out, ne);
            }
            downs.push(nvi);
            crossings.push(k);
        } else if ba && bb {
            out.push(e);
            proof {
                lemma_views_push(old_out, e);
            }
        }
        proof {
            assert(es[k as int] == e@);
            assert(edge_views(out@) =~= path_part + cut_fold(below@, base as int, es, k + 1).0);
            assert(ups@ =~= seq![(base - 1) as usize] + cut_fold(below@, base as int, es, k + 1).1);
        }
        k = k + 1;
    }
    downs.push(kn);
    proof {
        lemma_fold_counts(below@, base as int, 0, es, edges.len() as int);
    }
    let ghost before = edge_views(out@);
    assert(out.len() == before.len());
    let m = ups.len();
    let mut q: usize = 0;
    while q < m
        invariant
            m == ups.len(),
            ups.len() == downs.len(),
            q <= m,
            out.len() == before.len() + q,
            edge_views(out@) == before + stitch_edges(ups@.take(q as int), downs@.take(q as int)),
        decreases m - q,
    {
        let ghost old_out = out@;
        let ne = DirectedMeshEdge::new(ups[q], downs[q]);
        out.push(ne);
        proof {
            lemma_views_push(old_out, ne);
        }
        q = q + 1;
        assert(edge_views(out@) =~= before + stitch_edges(ups@.take(q as int), downs@.take(q as int)));
    }
    proof {
        assert(ups@.take(m as int) =~= ups@);
        assert(downs@.take(m as int) =~= downs@);
        assert(edge_views(out@) =~= cut_spec(below@, path_len as int, es));
        lemma_crossings(below@, base as int, es, edges.len() as int);
        assert forall|i: int| 0 <= i < edges.len() implies (crossings@.contains(i as usize) <==> is_below(
            below@,
            edges@[i]@.0,
        ) != is_below(below@, edges@[i]@.1)) by {
            assert(es[i] == edges@[i]@);
        }
    }
    CutEdges { kept, crossings, edges: out }
}

/// The edges the walk records as crossing are exactly those with one end below the cut.
proof fn lemma_crossings(below: Seq<bool>, base: int, edges: Seq<(usize, usize)>, k: int)
    requires
        0 <= k <= edges.len(),
        edges.len() < usize::MAX,
    ensures
        forall|i: int|
            0 <= i < k ==> (cut_fold(below, base, edges, k).3.contains(i as usize) <==> is_below(
                below,
                edges[i].0,
            ) != is_below(below, edges[i].1)),
        forall|x: usize| cut_fold(below, base, edges, k).3.contains(x) ==> x < k,
    decreases k,
{
    if k > 0 {
        lemma_crossings(below, base, edges, k - 1);
        let c = cut_fold(below, base, edges, k - 1).3;
        let e = edges[k - 1];
        let crosses = is_below(below, e.0) != is_below(below, e.1);
        if crosses {
            let c2 = c.push((k - 1) as usize);
            assert(cut_fold(below, base, edges, k).3 == c2);
            assert(c2[c.len() as int] == (k - 1) as usize);
            assert forall|x: usize| #[trigger] c2.contains(x) <==> (c.contains(x) || x == (k - 1) as usize) by {
                if c2.contains(x) {
                    let w = choose|w: int| 0 <= w < c2.len() && #[trigger] c2[w] == x;
                    if w < c.len() {
                        assert(c[w] == x);
                    }
                }
                if c.contains(x) {
                    let w = choose|w: int| 0 <= w < c.len() && #[trigger] c[w] == x;
                    assert(c2[w] == x);
                }
            }
        } else {
            assert(cut_fold(below, base, edges, k).3 == c);
        }
        let c3 = cut_fold(below, base, edges, k).3;
        assert forall|i: int| 0 <= i < k implies (c3.contains(i as usize) <==> is_below(below, edges[i].0)
            != is_below(below, edges[i].1)) by {
            if i < k - 1 {
                assert((i as usize) != ((k - 1) as usize));
            } else if !crosses {
                if c.contains((k - 1) as usize) {
                    assert(((k - 1) as usize) < k - 1);
                }
            }
        }
    }
}

} // verus!
