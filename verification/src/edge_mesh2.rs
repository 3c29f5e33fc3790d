//! A planar mesh of directed edges: positions of type `V` and edges between their indices,
//! usually closed polygons.
use vstd::prelude::*;
use std::collections::HashMap;
use crate::directed_mesh_edge::DirectedMeshEdge;

verus! {

#[derive(Debug)]
pub struct EdgeMesh2<V> {
    vertices: Vec<V>,
    edges: Vec<DirectedMeshEdge>,
}

/// The edges `(vs[i], vs[i + 1])` around the closed loop through `vs`.
pub open spec fn loop_edges(first: usize, n: nat) -> Seq<(usize, usize)> {
    Seq::new(n, |i: int| ((first + i) as usize, (first + (i + 1) % (n as int)) as usize))
}

impl<V> EdgeMesh2<V> {
    pub closed spec fn spec_vertices(&self) -> Seq<V> {
        self.vertices@
    }

    /// The edges, each as (from, to).
    pub closed spec fn spec_edges(&self) -> Seq<(usize, usize)> {
        self.edges@.map_values(|e: DirectedMeshEdge| e@)
    }

    /// An empty mesh.
    pub fn new() -> (r: Self)
        ensures
            r.spec_vertices() == Seq::<V>::empty(),
            r.spec_edges() == Seq::<(usize, usize)>::empty(),
    {
        let r = EdgeMesh2 { vertices: Vec::new(), edges: Vec::new() };
        assert(r.spec_edges() =~= Seq::<(usize, usize)>::empty());
        r
    }

    pub fn from_vecs(vertices: Vec<V>, edges: Vec<DirectedMeshEdge>) -> (r: Self)
        ensures
            r.spec_vertices() == vertices@,
            r.spec_edges() == edges@.map_values(|e: DirectedMeshEdge| e@),
    {
        EdgeMesh2 { vertices, edges }
    }

    pub fn vertices(&self) -> (r: &[V])
        ensures
            r@ == self.spec_vertices(),
    {
        self.vertices.as_slice()
    }

    pub fn edges(&self) -> (r: &[DirectedMeshEdge])
        ensures
            r@.map_values(|e: DirectedMeshEdge| e@) == self.spec_edges(),
    {
        self.edges.as_slice()
    }

    /// Appends the closed polygon through `poly`: its points become new vertices, joined in
    /// order and back to the first.
    pub fn add_polygon(&mut self, poly: Vec<V>)
        requires
            old(self).spec_vertices().len() + poly.len() <= usize::MAX,
        ensures
            final(self).spec_vertices() == old(self).spec_vertices() + poly@,
            final(self).spec_edges() == old(self).spec_edges() + loop_edges(
                old(self).spec_vertices().len() as usize,
                poly.len() as nat,
            ),
    {
        let first = self.vertices.len();
        let n = poly.len();
        let ghost old_edges = self.spec_edges();
        let mut poly = poly;
        let ghost p = poly@;
        let mut tail: Vec<V> = Vec::new();
        // Keep the points in order: move them out back to front, then append.
        while poly.len() > 0
            invariant
                poly@ + tail@.reverse() == p,
            decreases poly.len(),
        {
            let v = poly.pop().unwrap();
            tail.push(v);
            proof {
                assert(poly@ + tail@.reverse() =~= p);
            }
        }
        let ghost before = self.vertices@;
        while tail.len() > 0
            invariant
                self.vertices@ + tail@.reverse() == before + p,
                self.edges@.map_values(|e: DirectedMeshEdge| e@) == old_edges,
            decreases tail.len(),
        {
            let v = tail.pop().unwrap();
            self.vertices.push(v);
            proof {
                assert(self.vertices@ + tail@.reverse() =~= before + p);
            }
        }
        proof {
            assert(self.vertices@ =~= before + p);
        }
        let mut i: usize = 0;
        while i < n
            invariant
                i <= n,
                first + n <= usize::MAX,
                self.vertices@ == before + p,
                self.edges@.map_values(|e: DirectedMeshEdge| e@) == old_edges + loop_edges(first, n as nat).take(
                    i as int,
                ),
            decreases n - i,
        {
            let next = if i + 1 == n { 0 } else { i + 1 };
            let ghost prev_edges = self.edges@;
            let d = DirectedMeshEdge::new(first + i, first + next);
            self.edges.push(d);
            proof {
                assert(self.edges@.map_values(|e: DirectedMeshEdge| e@) =~= prev_edges.map_values(
                    |e: DirectedMeshEdge| e@,
                ).push(d@));
            }
            proof {
                if i + 1 < n {
                    vstd::arithmetic::div_mod::lemma_small_mod((i + 1) as nat, n as nat);
                } else {
                    vstd::arithmetic::div_mod::lemma_mod_self_0(n as int);
                }
                assert((i + 1) % (n as int) == next);
                assert(loop_edges(first, n as nat)[i as int] == ((first + i) as usize, (first + next) as usize));
                assert(loop_edges(first, n as nat).take(i + 1) =~= loop_edges(first, n as nat).take(
                    i as int,
                ).push(((first + i) as usize, (first + next) as usize)));
                assert(self.edges@.map_values(|e: DirectedMeshEdge| e@) =~= old_edges + loop_edges(
                    first,
                    n as nat,
                ).take(i + 1));
            }
            i = i + 1;
        }
        proof {
            assert(loop_edges(first, n as nat).take(n as int) =~= loop_edges(first, n as nat));
        }
    }

    /// Appends `other`, shifting its vertex indices past this mesh's vertices and reversing
    /// its edges when `invert` is set.
    pub fn add_mesh(&mut self, other: &Self, invert: bool)
        where
            V: Copy,
        requires
            old(self).spec_vertices().len() + other.spec_vertices().len() <= usize::MAX,
            forall|i: int|
                0 <= i < other.spec_edges().len() ==> #[trigger] other.spec_edges()[i].0 + old(
                    self,
                ).spec_vertices().len() <= usize::MAX && other.spec_edges()[i].1 + old(
                    self,
                ).spec_vertices().len() <= usize::MAX,
        ensures
            final(self).spec_vertices() == old(self).spec_vertices() + other.spec_vertices(),
            final(self).spec_edges() == old(self).spec_edges() + other.spec_edges().map_values(
                |e: (usize, usize)| {
                    let s = old(self).spec_vertices().len();
                    if invert {
                        ((e.1 + s) as usize, (e.0 + s) as usize)
                    } else {
                        ((e.0 + s) as usize, (e.1 + s) as usize)
                    }
                },
            ),
    {
        let shift = self.vertices.len();
        let ghost before = self.vertices@;
        let ghost old_edges = self.spec_edges();
        let ghost moved = other.spec_edges().map_values(
            |e: (usize, usize)|
                if invert {
                    ((e.1 + shift) as usize, (e.0 + shift) as usize)
                } else {
                    ((e.0 + shift) as usize, (e.1 + shift) as usize)
                },
        );
        let mut i: usize = 0;
        while i < other.vertices.len()
            invariant
                i <= other.vertices.len(),
                self.vertices@ == before + other.vertices@.take(i as int),
                self.edges@.map_values(|e: DirectedMeshEdge| e@) == old_edges,
            decreases other.vertices.len() - i,
        {
            self.vertices.push(other.vertices[i]);
            proof {
                assert(self.vertices@ =~= before + other.vertices@.take(i + 1));
            }
            i = i + 1;
        }
        proof {
            assert(other.vertices@.take(other.vertices.len() as int) =~= other.vertices@);
        }
        let mut j: usize = 0;
        while j < other.edges.len()
            invariant
                j <= other.edges.len(),
                shift == before.len(),
                forall|k: int|
                    0 <= k < other.spec_edges().len() ==> #[trigger] other.spec_edges()[k].0 + shift <= usize::MAX
                        && other.spec_edges()[k].1 + shift <= usize::MAX,
                moved == other.spec_edges().map_values(
                    |e: (usize, usize)|
                        if invert {
                            ((e.1 + shift) as usize, (e.0 + shift) as usize)
                        } else {
                            ((e.0 + shift) as usize, (e.1 + shift) as usize)
                        },
                ),
                self.edges@.map_values(|e: DirectedMeshEdge| e@) == old_edges + moved.take(j as int),
                self.vertices@ == before + other.vertices@,
            decreases other.edges.len() - j,
        {
            let e = other.edges[j];
            proof {
                assert(other.spec_edges()[j as int] == e@);
            }
            let shifted = DirectedMeshEdge::new(e.v1() + shift, e.v2() + shift);
            let ghost prev_edges = self.edges@;
            let d = if invert {
                shifted.inverted()
            } else {
                shifted
            };
            self.edges.push(d);
            proof {
                assert(self.edges@.map_values(|e: DirectedMeshEdge| e@) =~= prev_edges.map_values(
                    |e: DirectedMeshEdge| e@,
                ).push(d@));
            }
            proof {
                let want = if invert {
                    ((e@.1 + shift) as usize, (e@.0 + shift) as usize)
                } else {
                    ((e@.0 + shift) as usize, (e@.1 + shift) as usize)
                };
                assert(moved[j as int] == want);
                assert(d@ == want);
                assert(moved.take(j + 1) =~= moved.take(j as int).push(want));
                assert(self.edges@.map_values(|e: DirectedMeshEdge| e@) =~= old_edges + moved.take(j + 1));
            }
            j = j + 1;
        }
        proof {
            assert(moved.take(other.edges.len() as int) =~= moved);
        }
    }
}


/// Endpoint `k` of the edges: the start of edge `k / 2` when `k` is even, its end when odd.
pub open spec fn endpoint(edges: Seq<(usize, usize)>, k: int) -> usize {
    if k % 2 == 0 {
        edges[k / 2].0
    } else {
        edges[k / 2].1
    }
}

/// The vertices met among the first `k` endpoints, each once, in order of first meeting.
pub open spec fn first_met(edges: Seq<(usize, usize)>, k: int) -> Seq<usize>
    decreases k,
{
    if k <= 0 {
        Seq::empty()
    } else {
        let before = first_met(edges, k - 1);
        let v = endpoint(edges, k - 1);
        if before.contains(v) {
            before
        } else {
            before.push(v)
        }
    }
}

/// The place of `v` in `s`.
pub open spec fn position_in(s: Seq<usize>, v: usize) -> int {
    choose|j: int| 0 <= j < s.len() && s[j] == v
}

proof fn lemma_first_met_distinct(edges: Seq<(usize, usize)>, k: int)
    ensures
        first_met(edges, k).no_duplicates(),
    decreases k,
{
    if k > 0 {
        lemma_first_met_distinct(edges, k - 1);
    }
}

proof fn lemma_position_in(s: Seq<usize>, j: int)
    requires
        s.no_duplicates(),
        0 <= j < s.len(),
    ensures
        position_in(s, s[j]) == j,
{
    let i = position_in(s, s[j]);
    assert(0 <= i < s.len() && s[i] == s[j]);
}

impl<V: Copy> EdgeMesh2<V> {
    /// The same edges over only the vertices they use, renumbered in the order the edges
    /// first reach them.
    #[verifier::rlimit(30)]
    pub fn without_dead_vertices(&self) -> (r: Self)
        requires
            forall|i: int|
                0 <= i < self.spec_edges().len() ==> #[trigger] self.spec_edges()[i].0
                    < self.spec_vertices().len() && self.spec_edges()[i].1 < self.spec_vertices().len(),
        ensures
            ({
                let order = first_met(self.spec_edges(), 2 * self.spec_edges().len() as int);
                &&& r.spec_vertices() == order.map_values(|v: usize| self.spec_vertices()[v as int])
                &&& r.spec_edges() == self.spec_edges().map_values(
                    |e: (usize, usize)| (position_in(order, e.0) as usize, position_in(order, e.1) as usize),
                )
            }),
    {
        let ghost es = self.spec_edges();
        let nv = self.vertices.len();
        let mut map: Vec<Option<usize>> = Vec::new();
        while map.len() < nv
            invariant
                map.len() <= nv,
                forall|v: int| 0 <= v < map.len() ==> map[v] is None,
            decreases nv - map.len(),
        {
            map.push(None);
        }
        let mut vertices: Vec<V> = Vec::new();
        let mut edges: Vec<DirectedMeshEdge> = Vec::new();
        let mut i: usize = 0;
        while i < self.edges.len()
            invariant
                es == self.spec_edges(),
                nv == self.spec_vertices().len(),
                i <= self.edges.len(),
                map.len() == nv,
                forall|j: int| 0 <= j < es.len() ==> #[trigger] es[j].0 < nv && es[j].1 < nv,
                ({
                    let order = first_met(es, 2 * i);
                    &&& vertices@ == order.map_values(|v: usize| self.spec_vertices()[v as int])
                    &&& forall|v: int|
                        0 <= v < nv ==> (#[trigger] map[v] == if order.contains(v as usize) {
                            Some(position_in(order, v as usize) as usize)
                        } else {
                            None
                        })
                    &&& forall|j: int| 0 <= j < order.len() ==> order[j] < nv
                    &&& edges@.map_values(|e: DirectedMeshEdge| e@) == es.take(i as int).map_values(
                        |e: (usize, usize)| (position_in(order, e.0) as usize, position_in(order, e.1) as usize),
                    )
                }),
            decreases self.edges.len() - i,
        {
            let e = self.edges[i];
            proof {
                assert(es[i as int] == e@);
            }
            let ghost o0 = first_met(es, 2 * i);
            proof {
                lemma_first_met_distinct(es, 2 * i);
                lemma_first_met_distinct(es, 2 * i + 1);
            }
            let a = self.place(&mut map, &mut vertices, e.v1(), Ghost(o0));
            let ghost o1 = first_met(es, 2 * i + 1);
            proof {
                assert((2 * i) / 2 == i && (2 * i) % 2 == 0);
                assert(o1 == if o0.contains(e@.0) { o0 } else { o0.push(e@.0) });
            }
            let b = self.place(&mut map, &mut vertices, e.v2(), Ghost(o1));
            let ghost o2 = first_met(es, 2 * i + 2);
            proof {
                assert((2 * i + 1) / 2 == i && (2 * i + 1) % 2 == 1);
                assert(o2 == if o1.contains(e@.1) { o1 } else { o1.push(e@.1) });
                lemma_first_met_distinct(es, 2 * i + 2);
                // Positions fixed earlier stay put as the order grows.
                assert forall|v: usize| o0.contains(v) implies position_in(o2, v) == position_in(o0, v) by {
                    lemma_first_met_distinct(es, 2 * i);
                    let j = position_in(o0, v);
                    assert(o2[j] == o0[j]);
                    lemma_position_in(o2, j);
                    lemma_position_in(o0, j);
                }
                assert(o2[a as int] == e@.0);
                lemma_position_in(o2, a as int);
                assert(o2[b as int] == e@.1);
                lemma_position_in(o2, b as int);
            }
            let ghost prev = edges@;
            edges.push(DirectedMeshEdge::new(a, b));
            proof {
                let f0 = |e: (usize, usize)| (position_in(o0, e.0) as usize, position_in(o0, e.1) as usize);
                let f2 = |e: (usize, usize)| (position_in(o2, e.0) as usize, position_in(o2, e.1) as usize);
                assert forall|j: int| 0 <= j < i implies f0(es[j]) == f2(es[j]) by {
                    assert(o0.contains(es[j].0) && o0.contains(es[j].1)) by {
                        lemma_endpoints_met(es, j, 2 * i);
                    }
                }
                assert(es.take(i as int).map_values(f0) =~= es.take(i as int).map_values(f2));
                assert(edges@.map_values(|e: DirectedMeshEdge| e@) =~= prev.map_values(
                    |e: DirectedMeshEdge| e@,
                ).push((a, b)));
                assert(es.take(i + 1).map_values(f2) =~= es.take(i as int).map_values(f2).push(f2(es[i as int])));
            }
            i = i + 1;
        }
        EdgeMesh2 { vertices, edges }
    }

    /// The new number of vertex `v`, numbering it next when it has none yet.
    fn place(
        &self,
        map: &mut Vec<Option<usize>>,
        vertices: &mut Vec<V>,
        v: usize,
        Ghost(order): Ghost<Seq<usize>>,
    ) -> (r: usize)
        requires
            v < old(map).len(),
            old(map).len() == self.spec_vertices().len(),
            order.no_duplicates(),
            forall|j: int| 0 <= j < order.len() ==> order[j] < old(map).len(),
            old(vertices)@ == order.map_values(|u: usize| self.spec_vertices()[u as int]),
            forall|u: int|
                0 <= u < old(map).len() ==> (#[trigger] old(map)[u] == if order.contains(u as usize) {
                    Some(position_in(order, u as usize) as usize)
                } else {
                    None
                }),
        ensures
            ({
                let grown = if order.contains(v) {
                    order
                } else {
                    order.push(v)
                };
                &&& final(map).len() == old(map).len()
                &&& final(vertices)@ == grown.map_values(|u: usize| self.spec_vertices()[u as int])
                &&& forall|u: int|
                    0 <= u < final(map).len() ==> (#[trigger] final(map)[u] == if grown.contains(u as usize) {
                        Some(position_in(grown, u as usize) as usize)
                    } else {
                        None
                    })
                &&& r < grown.len()
                &&& grown[r as int] == v
            }),
    {
        match map[v] {
            Some(k) => {
                proof {
                    assert(vertices.len() == order.len());
                    let j = position_in(order, v);
                    assert(0 <= j < order.len() && order[j] == v);
                    assert(k as int == j);
                }
                k
            },
            None => {
                let k = vertices.len();
                proof {
                    assert(!order.contains(v));
                    assert(order.len() == k);
                }
                vertices.push(self.vertices[v]);
                map.set(v, Some(k));
                proof {
                    let grown = order.push(v);
                    assert(grown.no_duplicates());
                    assert(vertices@ =~= grown.map_values(|u: usize| self.spec_vertices()[u as int]));
                    lemma_position_in(grown, k as int);
                    assert forall|u: int| 0 <= u < map.len() implies (#[trigger] map[u] == if grown.contains(u as usize) {
                        Some(position_in(grown, u as usize) as usize)
                    } else {
                        None
                    }) by {
                        if u != v && order.contains(u as usize) {
                            let j = position_in(order, u as usize);
                            lemma_position_in(order, j);
                            assert(grown[j] == order[j]);
                            lemma_position_in(grown, j);
                        }
                    }
                }
                k
            },
        }
    }
}

/// Both ends of each of the first `k / 2` edges have been met after `k` endpoints.
proof fn lemma_endpoints_met(edges: Seq<(usize, usize)>, j: int, k: int)
    requires
        0 <= j,
        2 * j + 2 <= k,
    ensures
        first_met(edges, k).contains(edges[j].0),
        first_met(edges, k).contains(edges[j].1),
    decreases k,
{
    if k > 2 * j + 2 {
        lemma_endpoints_met(edges, j, k - 1);
        let before = first_met(edges, k - 1);
        assert(before.contains(edges[j].0));
        assert(before.contains(edges[j].1));
        let after = first_met(edges, k);
        if !before.contains(endpoint(edges, k - 1)) {
            assert(after == before.push(endpoint(edges, k - 1)));
            let x = choose|x: int| 0 <= x < before.len() && before[x] == edges[j].0;
            assert(after[x] == edges[j].0);
            let y = choose|y: int| 0 <= y < before.len() && before[y] == edges[j].1;
            assert(after[y] == edges[j].1);
        }
    } else {
        assert((2 * j) / 2 == j && (2 * j) % 2 == 0);
        assert((2 * j + 1) / 2 == j && (2 * j + 1) % 2 == 1);
        lemma_met_grows(edges, 2 * j + 1);
        lemma_met_grows(edges, 2 * j + 2);
        lemma_met_keeps(edges, 2 * j + 1, edges[j].0);
    }
}

proof fn lemma_met_are_endpoints(edges: Seq<(usize, usize)>, k: int)
    requires
        k <= 2 * edges.len(),
    ensures
        forall|j: int|
            #![trigger first_met(edges, k)[j]]
            0 <= j < first_met(edges, k).len() ==> exists|m: int| 0 <= m < k && #[trigger] endpoint(edges, m) == first_met(edges, k)[j],
    decreases k,
{
    if k > 0 {
        lemma_met_are_endpoints(edges, k - 1);
        let before = first_met(edges, k - 1);
        assert forall|j: int|
            #![trigger first_met(edges, k)[j]]
            0 <= j < first_met(edges, k).len() implies exists|m: int|
            0 <= m < k && #[trigger] endpoint(edges, m) == first_met(edges, k)[j] by {
            if j < before.len() {
                assert(first_met(edges, k)[j] == before[j]);
                let m = choose|m: int| 0 <= m < k - 1 && #[trigger] endpoint(edges, m) == before[j];
                assert(endpoint(edges, m) == first_met(edges, k)[j]);
            } else {
                assert(endpoint(edges, k - 1) == first_met(edges, k)[j]);
            }
        }
    }
}

/// Dropping dead vertices keeps exactly the vertices some edge uses, each once: every end of
/// every edge has a place in the new numbering that holds that same vertex, and every
/// vertex kept is an end of some edge.
pub proof fn lemma_live_renumbering(edges: Seq<(usize, usize)>)
    ensures
        ({
            let order = first_met(edges, 2 * edges.len() as int);
            &&& order.no_duplicates()
            &&& forall|i: int|
                0 <= i < edges.len() ==> {
                    let p0 = position_in(order, #[trigger] edges[i].0);
                    let p1 = position_in(order, edges[i].1);
                    &&& 0 <= p0 < order.len() && order[p0] == edges[i].0
                    &&& 0 <= p1 < order.len() && order[p1] == edges[i].1
                }
            &&& forall|j: int|
                0 <= j < order.len() ==> exists|i: int|
                    0 <= i < edges.len() && (edges[i].0 == #[trigger] order[j] || edges[i].1 == order[j])
        }),
{
    let n = 2 * edges.len() as int;
    let order = first_met(edges, n);
    lemma_first_met_distinct(edges, n);
    assert forall|i: int| 0 <= i < edges.len() implies {
        let p0 = position_in(order, #[trigger] edges[i].0);
        let p1 = position_in(order, edges[i].1);
        &&& 0 <= p0 < order.len() && order[p0] == edges[i].0
        &&& 0 <= p1 < order.len() && order[p1] == edges[i].1
    } by {
        lemma_endpoints_met(edges, i, n);
        let x = choose|x: int| 0 <= x < order.len() && order[x] == edges[i].0;
        lemma_position_in(order, x);
        let y = choose|y: int| 0 <= y < order.len() && order[y] == edges[i].1;
        lemma_position_in(order, y);
    }
    lemma_met_are_endpoints(edges, n);
    assert forall|j: int| 0 <= j < order.len() implies exists|i: int|
        0 <= i < edges.len() && (edges[i].0 == #[trigger] order[j] || edges[i].1 == order[j]) by {
        let m = choose|m: int| 0 <= m < n && #[trigger] endpoint(edges, m) == order[j];
        let i = m / 2;
        assert(0 <= i < edges.len());
        assert(edges[i].0 == order[j] || edges[i].1 == order[j]);
    }
}

/// After `k` endpoints, endpoint `k - 1` has been met.
proof fn lemma_met_grows(edges: Seq<(usize, usize)>, k: int)
    requires
        k >= 1,
    ensures
        first_met(edges, k).contains(endpoint(edges, k - 1)),
{
    let before = first_met(edges, k - 1);
    let v = endpoint(edges, k - 1);
    if !before.contains(v) {
        assert(first_met(edges, k)[before.len() as int] == v);
    }
}

/// A vertex met after `k` endpoints is still met after `k + 1`.
proof fn lemma_met_keeps(edges: Seq<(usize, usize)>, k: int, v: usize)
    requires
        k >= 0,
        first_met(edges, k).contains(v),
    ensures
        first_met(edges, k + 1).contains(v),
{
    let before = first_met(edges, k);
    let x = choose|x: int| 0 <= x < before.len() && before[x] == v;
    assert(first_met(edges, k + 1)[x] == v);
}


/// Some edge starts at `v`.
pub open spec fn starts_edge(edges: Seq<(usize, usize)>, v: usize) -> bool {
    exists|i: int| 0 <= i < edges.len() && edges[i].0 == v
}

/// Where each edge start leads, after the first `n` edges have been recorded.
pub open spec fn forward_upto(edges: Seq<(usize, usize)>, n: int) -> Map<usize, usize>
    decreases n,
{
    if n <= 0 {
        Map::empty()
    } else {
        forward_upto(edges, n - 1).insert(edges[n - 1].0, edges[n - 1].1)
    }
}

/// The vertices met walking from `v` along `f`, stopping before the first vertex in `seen`
/// or met already, taking at most `fuel` steps.
pub open spec fn walk(f: Map<usize, usize>, seen: Set<usize>, v: usize, fuel: nat) -> Seq<usize>
    decreases fuel,
{
    if fuel == 0 || seen.contains(v) {
        Seq::empty()
    } else {
        seq![v] + walk(f, seen.insert(v), f[v], (fuel - 1) as nat)
    }
}

/// The loops found walking from vertices `0`, `1`, ... below `i`, each walk skipping vertices
/// met before, and the vertices met so far.
pub open spec fn loops_upto(f: Map<usize, usize>, nv: nat, i: int) -> (Seq<Seq<usize>>, Set<usize>)
    decreases i,
{
    if i <= 0 {
        (Seq::empty(), Set::empty())
    } else {
        let (ls, seen) = loops_upto(f, nv, i - 1);
        let w = walk(f, seen, (i - 1) as usize, nv + 1);
        (if w.len() > 0 {
            ls.push(w)
        } else {
            ls
        }, seen + w.to_set())
    }
}

proof fn lemma_forward_upto(edges: Seq<(usize, usize)>, n: int)
    requires
        0 <= n <= edges.len(),
        forall|i: int, j: int| 0 <= i < j < edges.len() ==> edges[i].0 != edges[j].0,
    ensures
        forall|k: usize|
            #[trigger] forward_upto(edges, n).contains_key(k) <==> exists|i: int| 0 <= i < n && edges[i].0 == k,
        forall|i: int| 0 <= i < n ==> #[trigger] forward_upto(edges, n)[edges[i].0] == edges[i].1,
    decreases n,
{
    if n > 0 {
        lemma_forward_upto(edges, n - 1);
        let f = forward_upto(edges, n);
        assert forall|k: usize| #[trigger] f.contains_key(k) <==> exists|i: int| 0 <= i < n && edges[i].0 == k by {
            if f.contains_key(k) && k != edges[n - 1].0 {
                assert(forward_upto(edges, n - 1).contains_key(k));
                let i = choose|i: int| 0 <= i < n - 1 && edges[i].0 == k;
                assert(0 <= i < n && edges[i].0 == k);
            }
            if f.contains_key(k) && k == edges[n - 1].0 {
                assert(0 <= n - 1 < n && edges[n - 1].0 == k);
            }
            if exists|i: int| 0 <= i < n && edges[i].0 == k {
                let i = choose|i: int| 0 <= i < n && edges[i].0 == k;
                if i < n - 1 {
                    assert(forward_upto(edges, n - 1).contains_key(k));
                }
            }
        }
        assert forall|i: int| 0 <= i < n implies #[trigger] f[edges[i].0] == edges[i].1 by {
            if i < n - 1 {
                assert(edges[i].0 != edges[n - 1].0);
                assert(forward_upto(edges, n - 1)[edges[i].0] == edges[i].1);
            }
        }
    }
}

impl<V: Copy> EdgeMesh2<V> {
    /// Walks from `s` along `forward` until a visited vertex, marking the vertices it meets;
    /// returns their positions in order.
    fn walk_from(
        &self,
        forward: &HashMap<usize, usize>,
        visited: &mut Vec<bool>,
        s: usize,
        Ghost(f): Ghost<Map<usize, usize>>,
        Ghost(seen0): Ghost<Set<usize>>,
    ) -> (r: Vec<V>)
        requires
            s < self.vertices.len(),
            forward@ == f,
            forall|k: usize| k < self.vertices.len() ==> #[trigger] f.contains_key(k) && f[k] < self.vertices.len(),
            old(visited).len() == self.vertices.len(),
            forall|k: usize| k < self.vertices.len() ==> (old(visited)[k as int] <==> #[trigger] seen0.contains(k)),
            seen0.finite(),
            forall|k: usize| seen0.contains(k) ==> k < self.vertices.len(),
        ensures
            ({
                let w = walk(f, seen0, s, (self.vertices.len() + 1) as nat);
                &&& r@ == w.map_values(|u: usize| self.vertices@[u as int])
                &&& final(visited).len() == self.vertices.len()
                &&& forall|k: usize|
                    k < self.vertices.len() ==> (final(visited)[k as int] <==> #[trigger] (seen0 + w.to_set()).contains(k))
                &&& forall|k: usize| (#[trigger] w.to_set()).contains(k) ==> k < self.vertices.len()
            }),
    {
        let nv = self.vertices.len();
        let ghost big = (nv + 1) as nat;
        let ghost vs = self.vertices@;
        let mut poly: Vec<V> = Vec::new();
        let ghost mut walked: Seq<usize> = Seq::empty();
        let mut v = s;
        proof {
            let below = Set::new(|k: usize| k < nv);
            vstd::set_lib::range_set_properties::<usize>(0, nv);
            assert(below =~= <usize as vstd::set_lib::FiniteRange>::range_set(0, nv));
            assert(seen0.subset_of(below));
            vstd::set_lib::lemma_len_subset(seen0, below);
            assert(walked.to_set() =~= Set::<usize>::empty());
            assert(seen0 + walked.to_set() =~= seen0);
            assert(walked + walk(f, seen0 + walked.to_set(), v, big) =~= walk(f, seen0, s, big));
        }
        while !visited[v]
            invariant
                nv == self.vertices.len(),
                vs == self.vertices@,
                big == nv + 1,
                v < nv,
                forward@ == f,
                forall|k: usize| k < nv ==> #[trigger] f.contains_key(k) && f[k] < nv,
                visited.len() == nv,
                seen0.finite(),
                forall|k: usize| seen0.contains(k) ==> k < nv,
                forall|k: usize| k < nv ==> (visited[k as int] <==> #[trigger] (seen0 + walked.to_set()).contains(k)),
                walked.len() + seen0.len() <= nv,
                walk(f, seen0, s, big) == walked + walk(f, seen0 + walked.to_set(), v, (big - walked.len()) as nat),
                poly@ == walked.map_values(|u: usize| vs[u as int]),
                walked.no_duplicates(),
                forall|k: usize| walked.contains(k) ==> k < nv && !seen0.contains(k),
            decreases nv - walked.len() - seen0.len(),
        {
            visited.set(v, true);
            poly.push(self.vertices[v]);
            proof {
                let cur = seen0 + walked.to_set();
                assert(!cur.contains(v));
                let fuel = (big - walked.len()) as nat;
                assert(fuel >= 1);
                assert(walk(f, cur, v, fuel) == seq![v] + walk(f, cur.insert(v), f[v], (fuel - 1) as nat));
                let w2 = walked.push(v);
                assert(w2 =~= walked + seq![v]);
                vstd::seq_lib::seq_to_set_distributes_over_add(walked, seq![v]);
                assert forall|y: usize| seq![v].to_set().contains(y) <==> y == v by {
                    if y == v {
                        assert(seq![v][0] == v);
                    }
                }
                assert(w2.to_set() =~= walked.to_set().insert(v));
                assert(cur.insert(v) =~= seen0 + w2.to_set());
                assert(walked + (seq![v] + walk(f, cur.insert(v), f[v], (fuel - 1) as nat)) =~= w2 + walk(
                    f,
                    seen0 + w2.to_set(),
                    f[v],
                    (big - w2.len()) as nat,
                ));
                assert(poly@ =~= w2.map_values(|u: usize| vs[u as int]));
                let met = seen0 + w2.to_set();
                assert(seen0.disjoint(w2.to_set()));
                w2.unique_seq_to_set();
                vstd::set_lib::lemma_set_disjoint_lens(seen0, w2.to_set());
                let below = Set::new(|k: usize| k < nv);
                vstd::set_lib::range_set_properties::<usize>(0, nv);
                assert(below =~= <usize as vstd::set_lib::FiniteRange>::range_set(0, nv));
                assert(met.subset_of(below));
                vstd::set_lib::lemma_len_subset(met, below);
                assert forall|k: usize| w2.contains(k) implies k < nv && !seen0.contains(k) by {
                    let i = choose|i: int| 0 <= i < w2.len() && w2[i] == k;
                    if i < walked.len() {
                        assert(walked[i] == k);
                        assert(walked.contains(k));
                    }
                }
                walked = w2;
            }
            v = *forward.get(&v).unwrap();
        }
        proof {
            let cur = seen0 + walked.to_set();
            assert(cur.contains(v));
            assert(walk(f, cur, v, (big - walked.len()) as nat) =~= Seq::<usize>::empty());
            assert(walk(f, seen0, s, big) =~= walked);
        }
        poly
    }

    /// The closed loops of the mesh as lists of positions: walking from each vertex in index
    /// order not yet met, along the edge leaving it, until a vertex met before comes back.
    /// Each vertex must start exactly one edge, ending at a vertex of the mesh.
    pub fn as_polygons(&self) -> (r: Vec<Vec<V>>)
        requires
            forall|i: int, j: int|
                0 <= i < j < self.spec_edges().len() ==> self.spec_edges()[i].0 != self.spec_edges()[j].0,
            forall|v: usize| v < self.spec_vertices().len() ==> #[trigger] starts_edge(self.spec_edges(), v),
            forall|i: int|
                0 <= i < self.spec_edges().len() && #[trigger] self.spec_edges()[i].0 < self.spec_vertices().len()
                    ==> self.spec_edges()[i].1 < self.spec_vertices().len(),
        ensures
            ({
                let f = forward_upto(self.spec_edges(), self.spec_edges().len() as int);
                let ls = loops_upto(f, self.spec_vertices().len(), self.spec_vertices().len() as int).0;
                &&& r.len() == ls.len()
                &&& forall|i: int|
                    0 <= i < r.len() ==> #[trigger] r[i]@ == ls[i].map_values(
                        |v: usize| self.spec_vertices()[v as int],
                    )
            }),
    {
        let ghost es = self.spec_edges();
        let ghost f = forward_upto(es, es.len() as int);
        let nv = self.vertices.len();
        let mut forward: HashMap<usize, usize> = HashMap::new();
        let mut i: usize = 0;
        while i < self.edges.len()
            invariant
                es == self.spec_edges(),
                i <= self.edges.len(),
                forward@ == forward_upto(es, i as int),
            decreases self.edges.len() - i,
        {
            let e = self.edges[i];
            proof {
                assert(es[i as int] == e@);
            }
            forward.insert(e.v1(), e.v2());
            i = i + 1;
        }
        let mut polys: Vec<Vec<V>> = Vec::new();
        let mut visited: Vec<bool> = Vec::new();
        while visited.len() < nv
            invariant
                visited.len() <= nv,
                forall|j: int| 0 <= j < visited.len() ==> !visited[j],
            decreases nv - visited.len(),
        {
            visited.push(false);
        }
        proof {
            lemma_forward_upto(es, es.len() as int);
            assert forall|k: usize| k < nv implies #[trigger] f.contains_key(k) && f[k] < nv by {
                assert(starts_edge(es, k));
                let i = choose|i: int| 0 <= i < es.len() && es[i].0 == k;
                assert(f[es[i].0] == es[i].1);
            }
        }
        let ghost vs = self.spec_vertices();
        let mut s: usize = 0;
        while s < nv
            invariant
                es == self.spec_edges(),
                vs == self.spec_vertices(),
                nv == vs.len(),
                nv == self.vertices.len(),
                s <= nv,
                forward@ == f,
                f == forward_upto(es, es.len() as int),
                forall|k: usize| k < nv ==> #[trigger] f.contains_key(k) && f[k] < nv,
                visited.len() == nv,
                ({
                    let (ls, seen) = loops_upto(f, nv as nat, s as int);
                    &&& forall|k: usize| k < nv ==> (visited[k as int] <==> #[trigger] seen.contains(k))
                    &&& forall|k: usize| seen.contains(k) ==> k < nv
                    &&& seen.finite()
                    &&& polys.len() == ls.len()
                    &&& forall|j: int|
                        0 <= j < polys.len() ==> #[trigger] polys[j]@ == ls[j].map_values(
                            |v: usize| vs[v as int],
                        )
                }),
            decreases nv - s,
        {
            let ghost seen0 = loops_upto(f, nv as nat, s as int).1;
            let poly = self.walk_from(&forward, &mut visited, s, Ghost(f), Ghost(seen0));
            proof {
                let w = walk(f, seen0, s, (nv + 1) as nat);
                assert(loops_upto(f, nv as nat, s + 1).1 =~= seen0 + w.to_set());
                assert(poly@.len() == w.len());
            }
            if poly.len() > 0 {
                polys.push(poly);
            }
            s = s + 1;
        }
        polys
    }
}

} // verus!
