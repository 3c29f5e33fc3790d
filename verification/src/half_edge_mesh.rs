use vstd::prelude::*;
use slab::Slab;
use crate::slab_store::{
    edge_slab_contents, vertex_slab_contents, edge_slab_get, edge_slab_set, edge_slab_remove,
    edge_slab_keys, edge_slab_from_vec, vertex_slab_get, vertex_slab_set, vertex_slab_remove,
    vertex_slab_keys, vertex_slab_from_vec, vertex_slab_len, edge_slab_len,
};
use crate::mesh_triangle::MeshTriangle;
use crate::mesh::Mesh;
use crate::directed_mesh_edge::DirectedMeshEdge;
use std::collections::{HashMap, HashSet};
use arrayvec::ArrayVec;
use crate::array_lists::{removed_list_from, removed_list_items};

verus! {

/// The name of a half edge: its key in the mesh's table of edges.
#[derive(Copy, Clone, Eq, Ord, PartialEq, Structural, Hash, Debug)]
pub struct HalfEdgeId(pub usize);

/// One side of a triangle, walked in the triangle's winding order.
#[derive(Copy, Clone, Debug, PartialEq, Eq, Structural)]
pub struct HalfEdge {
    twin: HalfEdgeId,
    next: HalfEdgeId,
    prev: HalfEdgeId,
    vertex: usize,
}

/// A vertex, with one half edge leaving it (the start of its fan).
#[derive(Copy, Clone, Debug, PartialEq, Eq, Structural)]
pub struct HalfEdgeVertex {
    edge: HalfEdgeId,
}

/// The ways a half-edge mesh can fail to describe a closed manifold surface.
#[derive(Debug, Copy, Clone, Eq, Ord, PartialEq, PartialOrd, Hash)]
pub enum HalfEdgeError {
    BadTwin(HalfEdgeId),
    BadFace(HalfEdgeId),
    BadFan(usize, HalfEdgeId),
    FanDuplicate(usize, HalfEdgeId),
    CollapsedEdge(HalfEdgeId, usize),
}

impl HalfEdgeId {
    pub fn new(index: usize) -> (r: Self)
        ensures
            r.0 == index,
    {
        HalfEdgeId(index)
    }

    pub fn index(self) -> (r: usize)
        ensures
            r == self.0,
    {
        self.0
    }
}

impl From<usize> for HalfEdgeId {
    fn from(value: usize) -> (r: Self)
        ensures
            r.0 == value,
    {
        HalfEdgeId(value)
    }
}

impl vstd::std_specs::convert::FromSpecImpl<usize> for HalfEdgeId {
    open spec fn obeys_from_spec() -> bool {
        true
    }

    open spec fn from_spec(v: usize) -> Self {
        HalfEdgeId(v)
    }
}

impl From<HalfEdgeId> for usize {
    fn from(value: HalfEdgeId) -> (r: usize)
        ensures
            r == value.0,
    {
        value.0
    }
}

impl vstd::std_specs::convert::FromSpecImpl<HalfEdgeId> for usize {
    open spec fn obeys_from_spec() -> bool {
        true
    }

    open spec fn from_spec(v: HalfEdgeId) -> usize {
        v.0
    }
}

impl HalfEdge {
    pub closed spec fn spec_vertex(&self) -> usize {
        self.vertex
    }

    pub closed spec fn spec_twin(&self) -> HalfEdgeId {
        self.twin
    }

    pub closed spec fn spec_next(&self) -> HalfEdgeId {
        self.next
    }

    pub closed spec fn spec_prev(&self) -> HalfEdgeId {
        self.prev
    }

    /// The vertex the half edge leaves.
    pub fn vertex(&self) -> (r: usize)
        ensures
            r == self.spec_vertex(),
    {
        self.vertex
    }

    /// The half edge along the same side of the neighbouring triangle, walked the other way.
    pub fn twin(&self) -> (r: HalfEdgeId)
        ensures
            r == self.spec_twin(),
    {
        self.twin
    }

    /// The following side of the same triangle.
    pub fn next(&self) -> (r: HalfEdgeId)
        ensures
            r == self.spec_next(),
    {
        self.next
    }

    /// The preceding side of the same triangle.
    pub fn prev(&self) -> (r: HalfEdgeId)
        ensures
            r == self.spec_prev(),
    {
        self.prev
    }
}

impl HalfEdgeVertex {
    pub closed spec fn spec_edge(&self) -> HalfEdgeId {
        self.edge
    }

    /// A half edge leaving the vertex.
    pub fn edge(&self) -> (r: HalfEdgeId)
        ensures
            r == self.spec_edge(),
    {
        self.edge
    }
}

/// A triangle mesh stored as half edges, with vertex positions of type `V`.
pub struct HalfEdgeMesh<V> {
    positions: Vec<V>,
    vertices: Slab<HalfEdgeVertex>,
    edges: Slab<HalfEdge>,
}

impl<V> HalfEdgeMesh<V> {
    /// The live half edges by key.
    pub closed spec fn edge_map(&self) -> Map<usize, HalfEdge> {
        edge_slab_contents(self.edges)
    }

    /// The live vertices by key.
    pub closed spec fn vertex_map(&self) -> Map<usize, HalfEdgeVertex> {
        vertex_slab_contents(self.vertices)
    }

    /// The position of every vertex the mesh was built with, by key.
    pub closed spec fn positions(&self) -> Seq<V> {
        self.positions@
    }

    pub open spec fn has_edge(&self, id: HalfEdgeId) -> bool {
        self.edge_map().contains_key(id.0)
    }

    pub open spec fn has_vertex(&self, v: usize) -> bool {
        self.vertex_map().contains_key(v)
    }

    pub open spec fn spec_edge(&self, id: HalfEdgeId) -> HalfEdge {
        self.edge_map()[id.0]
    }

    /// Every reference held by an edge or a vertex names a live edge or vertex, and every
    /// vertex has a position.
    pub open spec fn wf(&self) -> bool {
        &&& self.edge_map().dom().finite()
        &&& self.vertex_map().dom().finite()
        &&& forall|k: usize|
            self.edge_map().contains_key(k) ==> {
                let e = #[trigger] self.edge_map()[k];
                &&& self.has_edge(e.spec_twin())
                &&& self.has_edge(e.spec_next())
                &&& self.has_edge(e.spec_prev())
                &&& self.has_vertex(e.spec_vertex())
            }
        &&& forall|v: usize|
            self.vertex_map().contains_key(v) ==> {
                &&& self.has_edge((#[trigger] self.vertex_map()[v]).spec_edge())
                &&& v < self.positions().len()
            }
    }

    /// One step around a vertex: from an edge leaving it to the next edge leaving it.
    pub open spec fn fan_step(&self, id: HalfEdgeId) -> HalfEdgeId {
        self.spec_edge(self.spec_edge(id).spec_prev()).spec_twin()
    }

    /// The edge reached from `id` after `n` fan steps.
    pub open spec fn fan_iterate(&self, id: HalfEdgeId, n: nat) -> HalfEdgeId
        decreases n,
    {
        if n == 0 {
            id
        } else {
            self.fan_step(self.fan_iterate(id, (n - 1) as nat))
        }
    }

    /// The walk from `id` comes back to `id` for the first time after `n` steps.
    pub open spec fn fan_closes_at(&self, id: HalfEdgeId, n: nat) -> bool {
        &&& n >= 1
        &&& self.fan_iterate(id, n) == id
        &&& forall|i: nat| 1 <= i < n ==> #[trigger] self.fan_iterate(id, i) != id
    }

    /// The walk around vertex `v` comes back to where it started.
    pub open spec fn fan_closes(&self, v: usize) -> bool {
        exists|n: nat| self.fan_closes_at(self.vertex_map()[v].spec_edge(), n)
    }

    /// The number of edges in the fan of `v`, when the walk closes.
    pub open spec fn fan_len(&self, v: usize) -> nat {
        choose|n: nat| self.fan_closes_at(self.vertex_map()[v].spec_edge(), n)
    }

    /// The fan of `v`: the edges leaving it, in walking order from its exemplar edge.
    pub open spec fn fan_seq(&self, v: usize) -> Seq<HalfEdgeId> {
        Seq::new(
            self.fan_len(v),
            |i: int| self.fan_iterate(self.vertex_map()[v].spec_edge(), i as nat),
        )
    }

    pub fn vertices(&self) -> (r: &Slab<HalfEdgeVertex>)
        ensures
            vertex_slab_contents(*r) == self.vertex_map(),
    {
        &self.vertices
    }

    /// The position of vertex `v`.
    pub fn position(&self, v: usize) -> (r: &V)
        requires
            v < self.positions().len(),
        ensures
            *r == self.positions()[v as int],
    {
        &self.positions[v]
    }

    /// The number of vertex positions the mesh holds (live vertices or not).
    pub fn position_count(&self) -> (r: usize)
        ensures
            r == self.positions().len(),
    {
        self.positions.len()
    }

    /// The half edge named `id`.
    pub fn get(&self, id: HalfEdgeId) -> (r: Option<&HalfEdge>)
        ensures
            match r {
                Some(e) => self.has_edge(id) && *e == self.spec_edge(id),
                None => !self.has_edge(id),
            },
    {
        edge_slab_get(&self.edges, id.0)
    }

    /// The half edge named `id`, which must be live.
    pub fn edge(&self, id: HalfEdgeId) -> (r: &HalfEdge)
        requires
            self.has_edge(id),
        ensures
            *r == self.spec_edge(id),
    {
        edge_slab_get(&self.edges, id.0).unwrap()
    }

    fn vertex(&self, v: usize) -> (r: &HalfEdgeVertex)
        requires
            self.has_vertex(v),
        ensures
            *r == self.vertex_map()[v],
    {
        vertex_slab_get(&self.vertices, v).unwrap()
    }

    /// The number of live half edges.
    pub fn edge_count(&self) -> (r: usize)
        ensures
            r == self.edge_map().dom().len(),
    {
        edge_slab_len(&self.edges)
    }

    /// The number of live vertices.
    pub fn vertex_count(&self) -> (r: usize)
        ensures
            r == self.vertex_map().dom().len(),
    {
        vertex_slab_len(&self.vertices)
    }

    /// The live half edges, by increasing key.
    pub fn edges(&self) -> (r: Vec<HalfEdgeId>)
        ensures
            forall|i: int, j: int| 0 <= i < j < r.len() ==> r[i].0 < r[j].0,
            forall|i: int| 0 <= i < r.len() ==> r[i].0 < usize::MAX,
            forall|k: usize| self.edge_map().contains_key(k) <==> r@.contains(HalfEdgeId(k)),
    {
        let keys = edge_slab_keys(&self.edges);
        let mut r: Vec<HalfEdgeId> = Vec::new();
        let mut i: usize = 0;
        while i < keys.len()
            invariant
                i <= keys.len(),
                r.len() == i,
                forall|j: int| 0 <= j < i ==> #[trigger] r[j] == HalfEdgeId(keys[j]),
            decreases keys.len() - i,
        {
            r.push(HalfEdgeId(keys[i]));
            i = i + 1;
        }
        assert forall|k: usize| self.edge_map().contains_key(k) <==> r@.contains(HalfEdgeId(k)) by {
            if keys@.contains(k) {
                let j = choose|j: int| 0 <= j < keys.len() && keys[j] == k;
                assert(r[j] == HalfEdgeId(k));
            }
            if r@.contains(HalfEdgeId(k)) {
                let j = choose|j: int| 0 <= j < r.len() && r[j] == HalfEdgeId(k);
                assert(keys[j] == k);
            }
        }
        r
    }

    /// A walker over the fan of `vertex`, starting at its exemplar edge.
    pub fn walk(&self, vertex: usize) -> (r: FanWalker)
        requires
            self.has_vertex(vertex),
        ensures
            r.spec_start() == self.vertex_map()[vertex].spec_edge(),
            r.spec_next() == Some(self.vertex_map()[vertex].spec_edge()),
    {
        FanWalker::new(self.vertex(vertex).edge)
    }

    /// The triangle of edge `id`, from its vertex, rotated to start at its smallest vertex.
    pub fn mesh_triangle(&self, id: HalfEdgeId) -> (r: MeshTriangle)
        requires
            self.wf(),
            self.has_edge(id),
        ensures
            r@ == crate::mesh_triangle::canonical_rotation(
                self.spec_edge(id).spec_vertex(),
                self.spec_edge(self.spec_edge(id).spec_next()).spec_vertex(),
                self.spec_edge(self.spec_edge(id).spec_prev()).spec_vertex(),
            ),
    {
        let e = self.edge(id);
        MeshTriangle::new(e.vertex, self.edge(e.next).vertex, self.edge(e.prev).vertex)
    }
}

/// Walks the fan of a vertex one edge at a time.
pub struct FanWalker {
    start: HalfEdgeId,
    next: Option<HalfEdgeId>,
}

impl FanWalker {
    pub closed spec fn spec_start(&self) -> HalfEdgeId {
        self.start
    }

    pub closed spec fn spec_next(&self) -> Option<HalfEdgeId> {
        self.next
    }

    /// A walker that starts, and will stop on coming back to, `start`.
    pub fn new(start: HalfEdgeId) -> (r: Self)
        ensures
            r.spec_start() == start,
            r.spec_next() == Some(start),
    {
        FanWalker { start, next: Some(start) }
    }

    /// The current edge, moving on to the next edge around the vertex; `None` once the walk
    /// is back at its start.
    pub fn step<V>(&mut self, mesh: &HalfEdgeMesh<V>) -> (r: Option<HalfEdgeId>)
        requires
            mesh.wf(),
            old(self).spec_next() matches Some(n) ==> mesh.has_edge(n),
        ensures
            r == old(self).spec_next(),
            final(self).spec_start() == old(self).spec_start(),
            final(self).spec_next() == match old(self).spec_next() {
                Some(n) => if mesh.fan_step(n) != old(self).spec_start() {
                    Some(mesh.fan_step(n))
                } else {
                    None
                },
                None => None,
            },
            final(self).spec_next() matches Some(n) ==> mesh.has_edge(n),
    {
        match self.next {
            None => None,
            Some(ret) => {
                let next = mesh.edge(mesh.edge(ret).prev).twin;
                self.next = if next != self.start { Some(next) } else { None };
                Some(ret)
            },
        }
    }
}


/// Side `k % 3` of triangle `k / 3`, as a directed edge in winding order.
pub open spec fn tri_dedge(tris: Seq<MeshTriangle>, k: int) -> (usize, usize) {
    let tv = tris[k / 3]@;
    if k % 3 == 0 {
        (tv.0, tv.1)
    } else if k % 3 == 1 {
        (tv.1, tv.2)
    } else {
        (tv.2, tv.0)
    }
}

/// Vertex `k % 3` of triangle `k / 3`.
pub open spec fn tri_corner(tris: Seq<MeshTriangle>, k: int) -> usize {
    let tv = tris[k / 3]@;
    if k % 3 == 0 {
        tv.0
    } else if k % 3 == 1 {
        tv.1
    } else {
        tv.2
    }
}

/// The last of the first `n` sides equal to `d`, or -1.
pub open spec fn last_side(tris: Seq<MeshTriangle>, d: (usize, usize), n: int) -> int
    decreases n,
{
    if n <= 0 {
        -1
    } else if tri_dedge(tris, n - 1) == d {
        n - 1
    } else {
        last_side(tris, d, n - 1)
    }
}

/// The last of the first `n` sides leaving vertex `v`, or -1.
pub open spec fn last_leaving(tris: Seq<MeshTriangle>, v: usize, n: int) -> int
    decreases n,
{
    if n <= 0 {
        -1
    } else if tri_dedge(tris, n - 1).0 == v {
        n - 1
    } else {
        last_leaving(tris, v, n - 1)
    }
}

proof fn lemma_last_side_bounds(tris: Seq<MeshTriangle>, d: (usize, usize), n: int)
    requires
        n >= 0,
    ensures
        -1 <= last_side(tris, d, n) < n,
        last_side(tris, d, n) >= 0 ==> tri_dedge(tris, last_side(tris, d, n)) == d,
        (exists|k: int| 0 <= k < n && tri_dedge(tris, k) == d) ==> last_side(tris, d, n) >= 0,
    decreases n,
{
    if n > 0 {
        lemma_last_side_bounds(tris, d, n - 1);
    }
}

proof fn lemma_last_leaving_bounds(tris: Seq<MeshTriangle>, v: usize, n: int)
    requires
        n >= 0,
    ensures
        -1 <= last_leaving(tris, v, n) < n,
        last_leaving(tris, v, n) >= 0 ==> tri_dedge(tris, last_leaving(tris, v, n)).0 == v,
        (exists|k: int| 0 <= k < n && tri_dedge(tris, k).0 == v) ==> last_leaving(tris, v, n) >= 0,
    decreases n,
{
    if n > 0 {
        lemma_last_leaving_bounds(tris, v, n - 1);
    }
}

/// The half edge built for side `k` of the triangles: its twin, next and previous sides are
/// the last sides equal to the reversed side and to the following and preceding sides.
pub open spec fn built_twin(tris: Seq<MeshTriangle>, k: int) -> usize {
    let d = tri_dedge(tris, k);
    last_side(tris, (d.1, d.0), 3 * tris.len() as int) as usize
}

pub open spec fn built_next(tris: Seq<MeshTriangle>, k: int) -> usize {
    last_side(tris, tri_dedge(tris, 3 * (k / 3) + (k % 3 + 1) % 3), 3 * tris.len() as int) as usize
}

pub open spec fn built_prev(tris: Seq<MeshTriangle>, k: int) -> usize {
    last_side(tris, tri_dedge(tris, 3 * (k / 3) + (k % 3 + 2) % 3), 3 * tris.len() as int) as usize
}

closed spec fn built_edge(tris: Seq<MeshTriangle>, k: int) -> HalfEdge {
    HalfEdge {
        twin: HalfEdgeId(built_twin(tris, k)),
        next: HalfEdgeId(built_next(tris, k)),
        prev: HalfEdgeId(built_prev(tris, k)),
        vertex: tri_corner(tris, k),
    }
}

/// The mesh can be turned into half edges: its triangles name only its vertices, every
/// vertex starts some side, and every side has a reversed twin.
pub open spec fn half_edge_ready<V>(mesh: Mesh<V>) -> bool {
    let tris = mesh.spec_triangles();
    let n = 3 * tris.len();
    &&& n <= usize::MAX
    &&& forall|k: int| 0 <= k < n ==> #[trigger] tri_corner(tris, k) < mesh.spec_vertices().len()
    &&& forall|v: usize| v < mesh.spec_vertices().len() ==> #[trigger] starts_some_side(tris, v)
    &&& forall|k: int| 0 <= k < n ==> #[trigger] has_reversed_side(tris, k)
}

/// Some side of the triangles leaves `v`.
pub open spec fn starts_some_side(tris: Seq<MeshTriangle>, v: usize) -> bool {
    exists|k: int| 0 <= k < 3 * tris.len() && #[trigger] tri_dedge(tris, k).0 == v
}

/// Side `k` reversed is also a side of the triangles.
pub open spec fn has_reversed_side(tris: Seq<MeshTriangle>, k: int) -> bool {
    exists|k2: int|
        0 <= k2 < 3 * tris.len() && #[trigger] tri_dedge(tris, k2) == (tri_dedge(tris, k).1, tri_dedge(tris, k).0)
}

/// The key under which a directed edge is looked up.
pub open spec fn dedge_key(d: (usize, usize)) -> u128 {
    (d.0 * 0x1_0000_0000_0000_0000 + d.1) as u128
}

pub(crate) proof fn lemma_dedge_key_injective(a: (usize, usize), b: (usize, usize))
    ensures
        dedge_key(a) == dedge_key(b) ==> a == b,
{
    assert(a.0 * 0x1_0000_0000_0000_0000 + a.1 == b.0 * 0x1_0000_0000_0000_0000 + b.1 ==> a == b) by (nonlinear_arith)
        requires
            a.1 < 0x1_0000_0000_0000_0000,
            b.1 < 0x1_0000_0000_0000_0000,
    ;
    assert(a.0 * 0x1_0000_0000_0000_0000 + a.1 < 0x1_0000_0000_0000_0000_0000_0000_0000_0000) by (nonlinear_arith)
        requires
            a.0 < 0x1_0000_0000_0000_0000,
            a.1 < 0x1_0000_0000_0000_0000,
    ;
    assert(b.0 * 0x1_0000_0000_0000_0000 + b.1 < 0x1_0000_0000_0000_0000_0000_0000_0000_0000) by (nonlinear_arith)
        requires
            b.0 < 0x1_0000_0000_0000_0000,
            b.1 < 0x1_0000_0000_0000_0000,
    ;
}

pub(crate) fn edge_key(e: DirectedMeshEdge) -> (r: u128)
    ensures
        r == dedge_key(e@),
{
    let a = e.v1() as u128;
    let b = e.v2() as u128;
    assert(a * 0x1_0000_0000_0000_0000 + b < 0x1_0000_0000_0000_0000_0000_0000_0000_0000) by (nonlinear_arith)
        requires
            a < 0x1_0000_0000_0000_0000,
            b < 0x1_0000_0000_0000_0000,
    ;
    a * 0x1_0000_0000_0000_0000 + b
}

impl<V> HalfEdgeMesh<V> {
    /// The mesh holds what [`Self::new`] builds from `mesh`: side `s` of triangle `t` is half
    /// edge `3 * t + s`, linked to the last sides equal to its reversed, following and
    /// preceding sides; vertex `v` has the position `mesh` gives it and its fan starts at
    /// the last side leaving it.
    pub open spec fn built_from(&self, mesh: Mesh<V>) -> bool {
        &&& self.positions() == mesh.spec_vertices()
        &&& forall|k: usize| self.edge_map().contains_key(k) <==> k < 3 * mesh.spec_triangles().len()
        &&& forall|k: usize|
            k < 3 * mesh.spec_triangles().len() ==> {
                let e = #[trigger] self.edge_map()[k];
                &&& e.spec_twin() == HalfEdgeId(built_twin(mesh.spec_triangles(), k as int))
                &&& e.spec_next() == HalfEdgeId(built_next(mesh.spec_triangles(), k as int))
                &&& e.spec_prev() == HalfEdgeId(built_prev(mesh.spec_triangles(), k as int))
                &&& e.spec_vertex() == tri_corner(mesh.spec_triangles(), k as int)
            }
        &&& forall|v: usize| self.vertex_map().contains_key(v) <==> v < mesh.spec_vertices().len()
        &&& forall|v: usize|
            v < mesh.spec_vertices().len() ==> (#[trigger] self.vertex_map()[v]).spec_edge()
                == HalfEdgeId(last_leaving(mesh.spec_triangles(), v, 3 * mesh.spec_triangles().len() as int) as usize)
    }
}

impl<V: Copy> HalfEdgeMesh<V> {
    /// Builds the half edges of a closed triangle mesh. Side `s` of triangle `t` becomes
    /// half edge `3 * t + s`; where the same directed side occurs more than once, the last
    /// occurrence is the one that other edges point to, and a vertex's exemplar edge is the
    /// last side leaving it.
    pub fn new(mesh: &Mesh<V>) -> (r: Self)
        requires
            half_edge_ready(*mesh),
        ensures
            r.wf(),
            r.built_from(*mesh),
    {
        let tris = mesh.triangles();
        let nv = mesh.vertices().len();
        let ghost ts = mesh.spec_triangles();
        let ghost n: int = 3 * ts.len() as int;
        let mut directed_edges: Vec<DirectedMeshEdge> = Vec::new();
        let mut t: usize = 0;
        while t < tris.len()
            invariant
                tris@ == ts,
                n == 3 * ts.len(),
                n <= usize::MAX,
                t <= tris.len(),
                directed_edges.len() == 3 * t,
                forall|k: int| 0 <= k < 3 * t ==> #[trigger] directed_edges[k]@ == tri_dedge(ts, k),
            decreases tris.len() - t,
        {
            let es = tris[t].ordered_edges();
            directed_edges.push(es[0]);
            directed_edges.push(es[1]);
            directed_edges.push(es[2]);
            proof {
                assert forall|k: int| 0 <= k < 3 * t + 3 implies #[trigger] directed_edges[k]@ == tri_dedge(ts, k) by {
                    if k >= 3 * t {
                        assert(k / 3 == t);
                    }
                }
            }
            t = t + 1;
        }
        // The exemplar edge of each vertex: the last side leaving it.
        let mut vertex_edge: Vec<usize> = Vec::new();
        let mut v: usize = 0;
        while v < nv
            invariant
                v <= nv,
                vertex_edge.len() == v,
                forall|j: int| 0 <= j < v ==> vertex_edge[j] == usize::MAX,
            decreases nv - v,
        {
            vertex_edge.push(usize::MAX);
            v = v + 1;
        }
        let mut edge_ids: HashMap<u128, usize> = HashMap::new();
        let mut id: usize = 0;
        while id < directed_edges.len()
            invariant
                tris@ == ts,
                n == 3 * ts.len(),
                n <= usize::MAX,
                directed_edges.len() == n,
                forall|k: int| 0 <= k < n ==> #[trigger] directed_edges[k]@ == tri_dedge(ts, k),
                half_edge_ready(*mesh),
                ts == mesh.spec_triangles(),
                nv == mesh.spec_vertices().len(),
                id <= n,
                vertex_edge.len() == nv,
                forall|w: usize| w < nv ==> (#[trigger] vertex_edge[w as int] == if last_leaving(ts, w, id as int) < 0 {
                    usize::MAX
                } else {
                    last_leaving(ts, w, id as int) as usize
                }),
                forall|d: (usize, usize)| (#[trigger] edge_ids@.contains_key(dedge_key(d))) == (last_side(ts, d, id as int) >= 0),
                forall|d: (usize, usize)| edge_ids@.contains_key(dedge_key(d)) ==> #[trigger] edge_ids@[dedge_key(d)] == last_side(ts, d, id as int),
                forall|key: u128| edge_ids@.contains_key(key) ==> exists|d: (usize, usize)| dedge_key(d) == key,
            decreases n - id,
        {
            let e = directed_edges[id];
            proof {
                assert(tri_dedge(ts, id as int).0 == tri_corner(ts, id as int));
                assert(tri_corner(ts, id as int) < nv);
            }
            let v1 = e.v1();
            vertex_edge.set(v1, id);
            edge_ids.insert(edge_key(e), id);
            proof {
                assert forall|d: (usize, usize)| (#[trigger] edge_ids@.contains_key(dedge_key(d))) == (last_side(ts, d, id + 1) >= 0) by {
                    lemma_dedge_key_injective(d, e@);
                }
                assert forall|d: (usize, usize)| edge_ids@.contains_key(dedge_key(d)) implies #[trigger] edge_ids@[dedge_key(d)] == last_side(ts, d, id + 1) by {
                    lemma_dedge_key_injective(d, e@);
                }
            }
            id = id + 1;
        }
        let mut vs: Vec<HalfEdgeVertex> = Vec::new();
        let mut v: usize = 0;
        while v < nv
            invariant
                half_edge_ready(*mesh),
                ts == mesh.spec_triangles(),
                n == 3 * ts.len(),
                nv == mesh.spec_vertices().len(),
                v <= nv,
                vertex_edge.len() == nv,
                forall|w: usize| w < nv ==> (#[trigger] vertex_edge[w as int] == if last_leaving(ts, w, n) < 0 {
                    usize::MAX
                } else {
                    last_leaving(ts, w, n) as usize
                }),
                vs.len() == v,
                forall|w: int| 0 <= w < v ==> #[trigger] vs[w] == (HalfEdgeVertex {
                    edge: HalfEdgeId(last_leaving(ts, w as usize, n) as usize),
                }),
            decreases nv - v,
        {
            proof {
                assert(starts_some_side(ts, v));
                lemma_last_leaving_bounds(ts, v, n);
            }
            vs.push(HalfEdgeVertex { edge: HalfEdgeId(vertex_edge[v]) });
            v = v + 1;
        }
        let mut es: Vec<HalfEdge> = Vec::new();
        let mut t: usize = 0;
        while t < tris.len()
            invariant
                tris@ == ts,
                n == 3 * ts.len(),
                n <= usize::MAX,
                half_edge_ready(*mesh),
                ts == mesh.spec_triangles(),
                t <= tris.len(),
                es.len() == 3 * t,
                forall|k: int| 0 <= k < 3 * t ==> #[trigger] es[k] == built_edge(ts, k),
                forall|d: (usize, usize)| (#[trigger] edge_ids@.contains_key(dedge_key(d))) == (last_side(ts, d, n) >= 0),
                forall|d: (usize, usize)| edge_ids@.contains_key(dedge_key(d)) ==> #[trigger] edge_ids@[dedge_key(d)] == last_side(ts, d, n),
            decreases tris.len() - t,
        {
            let tri = tris[t];
            let oes = tri.ordered_edges();
            let tvs = tri.vertices();
            let mut side: usize = 0;
            while side < 3
                invariant
                    tris@ == ts,
                    n == 3 * ts.len(),
                    n <= usize::MAX,
                    half_edge_ready(*mesh),
                ts == mesh.spec_triangles(),
                    t < tris.len(),
                    tri == ts[t as int],
                    oes[0]@ == (tri@.0, tri@.1),
                    oes[1]@ == (tri@.1, tri@.2),
                    oes[2]@ == (tri@.2, tri@.0),
                    tvs@ == seq![tri@.0, tri@.1, tri@.2],
                    side <= 3,
                    es.len() == 3 * t + side,
                    forall|k: int| 0 <= k < 3 * t + side ==> #[trigger] es[k] == built_edge(ts, k),
                    forall|d: (usize, usize)| (#[trigger] edge_ids@.contains_key(dedge_key(d))) == (last_side(ts, d, n) >= 0),
                    forall|d: (usize, usize)| edge_ids@.contains_key(dedge_key(d)) ==> #[trigger] edge_ids@[dedge_key(d)] == last_side(ts, d, n),
                decreases 3 - side,
            {
                let ghost k = 3 * t + side;
                proof {
                    assert(k / 3 == t);
                    assert(k % 3 == side);
                    assert((3 * t + (k % 3 + 1) % 3) / 3 == t);
                    assert((3 * t + (k % 3 + 2) % 3) / 3 == t);
                    assert(0 <= k < n);
                    let d = tri_dedge(ts, k);
                    assert(has_reversed_side(ts, k));
                    lemma_last_side_bounds(ts, (d.1, d.0), n);
                    lemma_last_side_bounds(ts, tri_dedge(ts, 3 * t + (k % 3 + 1) % 3), n);
                    lemma_last_side_bounds(ts, tri_dedge(ts, 3 * t + (k % 3 + 2) % 3), n);
                }
                let twin = *edge_ids.get(&edge_key(oes[side].inverted())).unwrap();
                let next = *edge_ids.get(&edge_key(oes[(side + 1) % 3])).unwrap();
                let prev = *edge_ids.get(&edge_key(oes[(side + 2) % 3])).unwrap();
                es.push(HalfEdge {
                    twin: HalfEdgeId(twin),
                    next: HalfEdgeId(next),
                    prev: HalfEdgeId(prev),
                    vertex: tvs[side],
                });
                side = side + 1;
            }
            t = t + 1;
        }
        let pos = mesh.vertices();
        let mut positions: Vec<V> = Vec::new();
        let mut v: usize = 0;
        while v < pos.len()
            invariant
                v <= pos.len(),
                positions@ == pos@.take(v as int),
            decreases pos.len() - v,
        {
            positions.push(pos[v]);
            assert(pos@.take(v + 1) =~= pos@.take(v as int).push(pos@[v as int]));
            v = v + 1;
        }
        assert(pos@.take(pos.len() as int) =~= pos@);
        let r = HalfEdgeMesh {
            positions,
            vertices: vertex_slab_from_vec(vs),
            edges: edge_slab_from_vec(es),
        };
        proof {
            assert(r.edge_map() =~= Map::new(
                |k: usize| k < n,
                |k: usize| built_edge(ts, k as int),
            ));
            assert forall|k: usize| r.edge_map().contains_key(k) implies {
                let e = #[trigger] r.edge_map()[k];
                &&& r.has_edge(e.spec_twin())
                &&& r.has_edge(e.spec_next())
                &&& r.has_edge(e.spec_prev())
                &&& r.has_vertex(e.spec_vertex())
            } by {
                let t = k / 3;
                let d = tri_dedge(ts, k as int);
                assert(has_reversed_side(ts, k as int));
                lemma_last_side_bounds(ts, (d.1, d.0), n);
                assert((3 * t + (k % 3 + 1) % 3) / 3 == t);
                assert((3 * t + (k % 3 + 2) % 3) / 3 == t);
                lemma_last_side_bounds(ts, tri_dedge(ts, 3 * t + (k % 3 + 1) % 3), n);
                lemma_last_side_bounds(ts, tri_dedge(ts, 3 * t + (k % 3 + 2) % 3), n);
                assert(tri_corner(ts, k as int) < nv);
            }
            assert forall|w: usize| r.vertex_map().contains_key(w) implies {
                &&& r.has_edge((#[trigger] r.vertex_map()[w]).spec_edge())
                &&& w < r.positions().len()
            } by {
                assert(starts_some_side(ts, w));
                lemma_last_leaving_bounds(ts, w, n);
            }
            lemma_keys_below_finite(r.edge_map(), n as usize);
            lemma_keys_below_finite(r.vertex_map(), nv);
        }
        r
    }
}

/// A map whose keys all lie below `n` is finite.
pub proof fn lemma_keys_below_finite<T>(m: Map<usize, T>, n: usize)
    requires
        forall|k: usize| m.contains_key(k) ==> k < n,
    ensures
        m.dom().finite(),
{
    let r = <usize as vstd::set_lib::FiniteRange>::range_set(0, n);
    vstd::set_lib::range_set_properties::<usize>(0, n);
    assert(m.dom().subset_of(r));
    vstd::set_lib::lemma_set_subset_finite(r, m.dom());
}


impl<V> HalfEdgeMesh<V> {
    /// The vertex at the far end of edge `id`.
    pub open spec fn far_vertex(&self, id: HalfEdgeId) -> usize {
        self.spec_edge(self.spec_edge(id).spec_twin()).spec_vertex()
    }

    /// Edge `k` and its twin point at each other and leave different vertices.
    pub open spec fn twin_ok(&self, k: usize) -> bool {
        let e = self.edge_map()[k];
        &&& self.spec_edge(e.spec_twin()).spec_twin() == HalfEdgeId(k)
        &&& self.spec_edge(e.spec_twin()).spec_vertex() != e.spec_vertex()
    }

    /// Edge `k`, its next and its previous edge form a triangle linked both ways.
    pub open spec fn face_ok(&self, k: usize) -> bool {
        let e = self.edge_map()[k];
        let n = self.spec_edge(e.spec_next());
        let p = self.spec_edge(e.spec_prev());
        &&& n.spec_next() == e.spec_prev()
        &&& n.spec_prev() == HalfEdgeId(k)
        &&& p.spec_next() == HalfEdgeId(k)
        &&& p.spec_prev() == e.spec_next()
    }

    /// The first `n` steps of the walk from `s` visit distinct edges leaving `v`, reaching
    /// distinct far vertices, and every edge leaving `v` among them.
    pub open spec fn fan_complete(&self, v: usize, s: HalfEdgeId, n: nat) -> bool {
        &&& forall|i: nat, j: nat|
            i < j < n ==> #[trigger] self.fan_iterate(s, i) != #[trigger] self.fan_iterate(s, j)
        &&& forall|i: nat, j: nat|
            i < j < n ==> self.far_vertex(#[trigger] self.fan_iterate(s, i)) != self.far_vertex(
                #[trigger] self.fan_iterate(s, j),
            )
        &&& forall|i: nat| i < n ==> self.spec_edge(#[trigger] self.fan_iterate(s, i)).spec_vertex() == v
        &&& forall|k: usize|
            self.edge_map().contains_key(k) && #[trigger] self.edge_map()[k].spec_vertex() == v
                ==> exists|i: nat| i < n && #[trigger] self.fan_iterate(s, i) == HalfEdgeId(k)
    }

    /// Walking around `v` from its exemplar edge comes back to the start after visiting
    /// exactly the edges that leave `v`, each reaching a different neighbour.
    pub open spec fn fan_ok(&self, v: usize) -> bool {
        let s = self.vertex_map()[v].spec_edge();
        exists|n: nat| self.fan_closes_at(s, n) && self.fan_complete(v, s, n)
    }

    /// The mesh is a closed manifold surface: twins pair up, triangles close, and every
    /// vertex has a single well-formed fan.
    pub open spec fn is_manifold(&self) -> bool {
        &&& self.wf()
        &&& forall|k: usize| self.edge_map().contains_key(k) ==> #[trigger] self.twin_ok(k)
        &&& forall|k: usize| self.edge_map().contains_key(k) ==> #[trigger] self.face_ok(k)
        &&& forall|v: usize| self.vertex_map().contains_key(v) ==> #[trigger] self.fan_ok(v)
    }

    pub proof fn lemma_fan_iterate_live(&self, s: HalfEdgeId, i: nat)
        requires
            self.wf(),
            self.has_edge(s),
        ensures
            self.has_edge(self.fan_iterate(s, i)),
        decreases i,
    {
        if i > 0 {
            self.lemma_fan_iterate_live(s, (i - 1) as nat);
            let e = self.fan_iterate(s, (i - 1) as nat);
            let _ = self.edge_map()[e.0];
            let _ = self.edge_map()[self.spec_edge(e).spec_prev().0];
        }
    }

    /// The edges around `vertex`, starting from its exemplar edge, until the walk comes
    /// back to it.
    pub fn fan(&self, vertex: usize) -> (r: Vec<HalfEdgeId>)
        requires
            self.wf(),
            self.has_vertex(vertex),
            self.fan_closes(vertex),
        ensures
            r@ == self.fan_seq(vertex),
    {
        let mut walker = self.walk(vertex);
        let ghost s = self.vertex_map()[vertex].spec_edge();
        let ghost n = self.fan_len(vertex);
        proof {
            let _ = self.vertex_map()[vertex];
        }
        let mut r: Vec<HalfEdgeId> = Vec::new();
        loop
            invariant
                self.wf(),
                self.has_edge(s),
                self.fan_closes_at(s, n),
                walker.spec_start() == s,
                r.len() <= n,
                forall|i: int| 0 <= i < r.len() ==> #[trigger] r[i] == self.fan_iterate(s, i as nat),
                walker.spec_next() == if r.len() < n {
                    Some(self.fan_iterate(s, r.len() as nat))
                } else {
                    None::<HalfEdgeId>
                },
            ensures
                r.len() == n,
                forall|i: int| 0 <= i < r.len() ==> #[trigger] r[i] == self.fan_iterate(s, i as nat),
            decreases n - r.len(),
        {
            proof {
                if r.len() < n {
                    self.lemma_fan_iterate_live(s, r.len() as nat);
                }
            }
            match walker.step(self) {
                Some(e) => {
                    proof {
                        assert(self.fan_iterate(s, (r.len() + 1) as nat) == self.fan_step(e));
                        if r.len() + 1 < n {
                            assert(self.fan_iterate(s, (r.len() + 1) as nat) != s);
                        }
                    }
                    r.push(e);
                },
                None => {
                    break ;
                },
            }
        }
        assert(r@ =~= self.fan_seq(vertex));
        r
    }
}


/// The smallest vertex key not yet processed after the first `j` of `keys`, or `vb`.
pub open spec fn key_limit(keys: Seq<usize>, j: int, vb: usize) -> int {
    if j < keys.len() {
        keys[j] as int
    } else {
        vb as int
    }
}

/// Key `k` is among the first `i` ids.
pub open spec fn among_first(ids: Seq<HalfEdgeId>, i: int, k: usize) -> bool {
    exists|j: int| 0 <= j < i && ids[j].0 == k
}

proof fn lemma_among_first_step(ids: Seq<HalfEdgeId>, i: int, k: usize)
    requires
        0 <= i < ids.len(),
    ensures
        among_first(ids, i + 1, k) == (among_first(ids, i, k) || ids[i].0 == k),
{
    if among_first(ids, i + 1, k) && !(ids[i].0 == k) {
        let j = choose|j: int| 0 <= j < i + 1 && ids[j].0 == k;
        assert(0 <= j < i);
    }
    if among_first(ids, i, k) {
        let j = choose|j: int| 0 <= j < i && ids[j].0 == k;
        assert(0 <= j < i + 1 && ids[j].0 == k);
    }
    if ids[i].0 == k {
        assert(0 <= i < i + 1 && ids[i].0 == k);
    }
}

/// Every element of a sequence without repeats that lies in `e` takes a place of `e`.
proof fn lemma_distinct_within(p: Seq<usize>, e: Seq<usize>)
    requires
        p.no_duplicates(),
        forall|x: usize| p.contains(x) ==> e.contains(x),
    ensures
        p.len() <= e.len(),
{
    p.unique_seq_to_set();
    e.lemma_cardinality_of_set();
    assert(p.to_set().subset_of(e.to_set()));
    vstd::set_lib::lemma_len_subset(p.to_set(), e.to_set());
}

impl<V> HalfEdgeMesh<V> {
    /// A walk that has not yet come back to its start has taken fewer steps than the first
    /// return.
    pub proof fn lemma_walk_within(&self, s: HalfEdgeId, i: nat, n: nat)
        requires
            self.fan_closes_at(s, n),
            forall|j: nat| 1 <= j < i ==> #[trigger] self.fan_iterate(s, j) != s,
            i >= 1 ==> self.fan_iterate(s, i) != s,
        ensures
            i < n,
    {
        if n <= i {
            if n < i {
                assert(self.fan_iterate(s, n) != s);
            }
        }
    }

    /// Two first returns of the same walk take the same number of steps.
    pub proof fn lemma_closes_unique(&self, s: HalfEdgeId, m: nat, n: nat)
        requires
            self.fan_closes_at(s, m),
            self.fan_closes_at(s, n),
        ensures
            m == n,
    {
        if m < n {
            assert(self.fan_iterate(s, m) != s);
        }
        if n < m {
            assert(self.fan_iterate(s, n) != s);
        }
    }

    proof fn lemma_closes_at(&self, s: HalfEdgeId, i: nat)
        requires
            i >= 1,
            self.fan_iterate(s, i) == s,
            forall|j: nat| 1 <= j < i ==> #[trigger] self.fan_iterate(s, j) != s,
        ensures
            self.fan_closes_at(s, i),
    {
    }

    /// One past the largest live edge key (0 when there is none).
    fn edge_bound(ids: &Vec<HalfEdgeId>) -> (r: usize)
        requires
            forall|i: int, j: int| 0 <= i < j < ids.len() ==> ids[i].0 < ids[j].0,
            forall|i: int| 0 <= i < ids.len() ==> ids[i].0 < usize::MAX,
        ensures
            forall|i: int| 0 <= i < ids.len() ==> ids[i].0 < r,
    {
        if ids.len() == 0 {
            0
        } else {
            ids[ids.len() - 1].0 + 1
        }
    }

    /// The fan of `vid` passes the checks of [`Self::check_manifold`]; on success the edges
    /// leaving `vid` are marked in `visited` and its neighbours stamped in `seen`.
    fn check_fan(
        &self,
        vid: usize,
        expected: &Vec<usize>,
        visited: &mut Vec<bool>,
        seen: &mut Vec<usize>,
        eb: usize,
        vb: usize,
    ) -> (r: Result<(), HalfEdgeError>)
        requires
            self.wf(),
            self.has_vertex(vid),
            vid < vb,
            forall|k: usize| self.edge_map().contains_key(k) ==> k < eb,
            forall|v: usize| self.vertex_map().contains_key(v) ==> v < vb,
            old(visited).len() == eb,
            old(seen).len() == vb,
            forall|k: usize| expected@.contains(k) <==> (self.edge_map().contains_key(k) && self.edge_map()[k].spec_vertex() == vid),
            forall|k: int| 0 <= k < eb && #[trigger] old(visited)[k] ==> self.edge_map().contains_key(k as usize) && self.edge_map()[k as usize].spec_vertex() != vid,
            forall|u: int| 0 <= u < vb ==> #[trigger] old(seen)[u] <= vid,
        ensures
            r is Ok <==> self.fan_ok(vid),
            r matches Err(e) ==> (e matches HalfEdgeError::BadFan(v, _) && v == vid) || (e matches HalfEdgeError::FanDuplicate(v, _) && v == vid),
            r is Ok ==> final(visited).len() == eb && final(seen).len() == vb,
            r is Ok ==> forall|k: int| 0 <= k < eb ==> #[trigger] final(visited)[k] == (old(visited)[k] || (self.edge_map().contains_key(k as usize) && self.edge_map()[k as usize].spec_vertex() == vid)),
            r is Ok ==> forall|u: int| 0 <= u < vb ==> #[trigger] final(seen)[u] <= vid + 1,
    {
        let mut walker = self.walk(vid);
        let ghost s = self.vertex_map()[vid].spec_edge();
        proof {
            let _ = self.vertex_map()[vid];
        }
        let ghost old_visited = visited@;
        let ghost old_seen = seen@;
        let mut i: usize = 0;
        loop
            invariant
                self.wf(),
                self.has_edge(s),
                s == self.vertex_map()[vid].spec_edge(),
                walker.spec_start() == s,
                i <= expected.len(),
                forall|k: usize| self.edge_map().contains_key(k) ==> k < eb,
                forall|v: usize| self.vertex_map().contains_key(v) ==> v < vb,
                vid < vb,
                visited.len() == eb,
                seen.len() == vb,
                forall|k: usize| expected@.contains(k) <==> (self.edge_map().contains_key(k) && self.edge_map()[k].spec_vertex() == vid),
                walker.spec_next() matches Some(n) ==> n == self.fan_iterate(s, i as nat),
                walker.spec_next() is None ==> i >= 1 && self.fan_iterate(s, i as nat) == s,
                forall|j: nat| 1 <= j < i ==> #[trigger] self.fan_iterate(s, j) != s,
                walker.spec_next() is Some && i >= 1 ==> self.fan_iterate(s, i as nat) != s,
                forall|j: nat| j < i ==> self.spec_edge(#[trigger] self.fan_iterate(s, j)).spec_vertex() == vid,
                forall|j: nat| j < i ==> self.has_edge(#[trigger] self.fan_iterate(s, j)),
                forall|a: nat, b: nat| a < b < i ==> #[trigger] self.fan_iterate(s, a) != #[trigger] self.fan_iterate(s, b),
                forall|a: nat, b: nat| a < b < i ==> self.far_vertex(#[trigger] self.fan_iterate(s, a)) != self.far_vertex(#[trigger] self.fan_iterate(s, b)),
                forall|k: int| 0 <= k < eb ==> #[trigger] visited[k] == (old_visited[k] || exists|j: nat| j < i && self.fan_iterate(s, j).0 == k),
                forall|u: int| 0 <= u < vb ==> (#[trigger] seen[u] == vid + 1) == exists|j: nat| j < i && self.far_vertex(self.fan_iterate(s, j)) == u,
                forall|u: int| 0 <= u < vb ==> #[trigger] seen[u] <= vid + 1,
                forall|k: int| 0 <= k < eb && #[trigger] old_visited[k] ==> self.edge_map().contains_key(k as usize) && self.edge_map()[k as usize].spec_vertex() != vid,
                forall|u: int| 0 <= u < vb ==> #[trigger] old_seen[u] <= vid,
                walker.spec_next() matches Some(n) ==> self.has_edge(n),
            ensures
                walker.spec_next() is None,
                i >= 1,
                self.fan_iterate(s, i as nat) == s,
            decreases expected.len() - i,
        {
            match walker.step(self) {
                None => {
                    break ;
                },
                Some(actual) => {
                    let e = self.edge(actual);
                    proof {
                        let _ = self.edge_map()[actual.0];
                    }
                    if e.vertex != vid || visited[actual.0] {
                        proof {
                            if self.fan_ok(vid) {
                                assert(exists|n: nat| self.fan_closes_at(s, n) && self.fan_complete(vid, s, n));
                                let n = choose|n: nat| self.fan_closes_at(s, n) && self.fan_complete(vid, s, n);
                                self.lemma_walk_within(s, i as nat, n);
                                assert(self.spec_edge(self.fan_iterate(s, i as nat)).spec_vertex() == vid);
                                let k = actual.0 as int;
                                assert(visited[k]);
                                assert(!old_visited[k]);
                                let j = choose|j: nat| j < i && self.fan_iterate(s, j).0 == k;
                                assert(self.fan_iterate(s, j) != self.fan_iterate(s, i as nat));
                            }
                        }
                        return Err(HalfEdgeError::BadFan(vid, actual));
                    }
                    visited.set(actual.0, true);
                    let opp = self.edge(e.twin).vertex;
                    proof {
                        let _ = self.edge_map()[e.twin.0];
                    }
                    if seen[opp] == vid + 1 {
                        proof {
                            if self.fan_ok(vid) {
                                assert(exists|n: nat| self.fan_closes_at(s, n) && self.fan_complete(vid, s, n));
                                let n = choose|n: nat| self.fan_closes_at(s, n) && self.fan_complete(vid, s, n);
                                self.lemma_walk_within(s, i as nat, n);
                                let j = choose|j: nat| j < i && self.far_vertex(self.fan_iterate(s, j)) == opp;
                                assert(self.far_vertex(self.fan_iterate(s, j)) != self.far_vertex(self.fan_iterate(s, i as nat)));
                            }
                        }
                        return Err(HalfEdgeError::FanDuplicate(vid, actual));
                    }
                    seen.set(opp, vid + 1);
                    proof {
                        let p = Seq::new((i + 1) as nat, |j: int| self.fan_iterate(s, j as nat).0);
                        assert(p.no_duplicates());
                        assert forall|x: usize| p.contains(x) implies expected@.contains(x) by {
                            let j = choose|j: int| 0 <= j < p.len() && p[j] == x;
                            assert(self.fan_iterate(s, j as nat).0 == x);
                        }
                        lemma_distinct_within(p, expected@);
                    }
                    i = i + 1;
                },
            }
        }
        proof {
            self.lemma_closes_at(s, i as nat);
        }
        let mut idx: usize = 0;
        while idx < expected.len()
            invariant
                self.wf(),
                forall|k: usize| self.edge_map().contains_key(k) ==> k < eb,
                forall|k: usize| expected@.contains(k) <==> (self.edge_map().contains_key(k) && self.edge_map()[k].spec_vertex() == vid),
                visited.len() == eb,
                forall|j: int| 0 <= j < idx ==> visited[expected[j] as int],
                self.fan_closes_at(s, i as nat),
                forall|k: int| 0 <= k < eb ==> #[trigger] visited[k] == (old_visited[k] || exists|j: nat| j < i && self.fan_iterate(s, j).0 == k),
                forall|k: int| 0 <= k < eb && #[trigger] old_visited[k] ==> self.edge_map().contains_key(k as usize) && self.edge_map()[k as usize].spec_vertex() != vid,
                s == self.vertex_map()[vid].spec_edge(),
            decreases expected.len() - idx,
        {
            assert(expected@.contains(expected[idx as int]));
            if !visited[expected[idx]] {
                proof {
                    if self.fan_ok(vid) {
                        assert(exists|n: nat| self.fan_closes_at(s, n) && self.fan_complete(vid, s, n));
                        let n = choose|n: nat| self.fan_closes_at(s, n) && self.fan_complete(vid, s, n);
                        self.lemma_closes_unique(s, i as nat, n);
                        let k = expected[idx as int];
                        let _ = self.edge_map()[k];
                        let j = choose|j: nat| j < n && #[trigger] self.fan_iterate(s, j) == HalfEdgeId(k);
                        assert(visited[k as int]);
                    }
                }
                return Err(HalfEdgeError::BadFan(vid, HalfEdgeId(expected[idx])));
            }
            idx = idx + 1;
        }
        proof {
            assert forall|k: usize| self.edge_map().contains_key(k) && #[trigger] self.edge_map()[k].spec_vertex() == vid
                implies exists|j: nat| j < i && #[trigger] self.fan_iterate(s, j) == HalfEdgeId(k) by {
                assert(expected@.contains(k));
                let x = choose|x: int| 0 <= x < expected.len() && expected[x] == k;
                assert(visited[k as int]);
                assert(!old_visited[k as int]);
                let j = choose|j: nat| j < i && self.fan_iterate(s, j).0 == k;
                assert(self.fan_iterate(s, j) == HalfEdgeId(k));
            }
            assert(self.fan_closes_at(s, i as nat));
            assert(self.fan_complete(vid, s, i as nat));
        }
        Ok(())
    }
}


impl<V> HalfEdgeMesh<V> {
    /// Checks that the mesh is a closed manifold surface: every edge is its twin's twin and
    /// leaves a different vertex than its twin (checked for all edges first, in key order),
    /// then every triangle closes, then every vertex (in key order) has a fan that visits
    /// exactly its edges with distinct neighbours.
    #[verifier::rlimit(40)]
    pub fn check_manifold(&self) -> (r: Result<(), HalfEdgeError>)
        requires
            self.wf(),
        ensures
            r is Ok <==> self.is_manifold(),
            r matches Err(HalfEdgeError::BadTwin(id)) ==> self.has_edge(id)
                && self.spec_edge(self.spec_edge(id).spec_twin()).spec_twin() != id,
            r matches Err(HalfEdgeError::CollapsedEdge(id, v)) ==> self.has_edge(id)
                && self.spec_edge(self.spec_edge(id).spec_twin()).spec_twin() == id
                && self.spec_edge(id).spec_vertex() == v && self.far_vertex(id) == v,
            r matches Err(HalfEdgeError::BadFace(id)) ==> self.has_edge(id) && !self.face_ok(id.0)
                && forall|k: usize| self.edge_map().contains_key(k) ==> #[trigger] self.twin_ok(k),
            r matches Err(HalfEdgeError::BadFan(v, _)) ==> self.has_vertex(v) && !self.fan_ok(v)
                && (forall|k: usize| self.edge_map().contains_key(k) ==> #[trigger] self.twin_ok(k))
                && (forall|k: usize| self.edge_map().contains_key(k) ==> #[trigger] self.face_ok(k)),
            r matches Err(HalfEdgeError::FanDuplicate(v, _)) ==> self.has_vertex(v) && !self.fan_ok(v)
                && (forall|k: usize| self.edge_map().contains_key(k) ==> #[trigger] self.twin_ok(k))
                && (forall|k: usize| self.edge_map().contains_key(k) ==> #[trigger] self.face_ok(k)),
    {
        let ids = self.edges();
        let mut i: usize = 0;
        while i < ids.len()
            invariant
                self.wf(),
                i <= ids.len(),
                forall|k: usize| self.edge_map().contains_key(k) <==> ids@.contains(HalfEdgeId(k)),
                forall|j: int| 0 <= j < i ==> #[trigger] self.twin_ok(ids[j].0),
            decreases ids.len() - i,
        {
            let id = ids[i];
            assert(ids@.contains(id));
            let e = self.edge(id);
            proof {
                let _ = self.edge_map()[id.0];
            }
            let t = self.edge(e.twin);
            if t.twin != id || t.vertex == e.vertex {
                proof {
                    assert(!self.twin_ok(id.0));
                    if self.is_manifold() {
                        assert(self.twin_ok(id.0));
                    }
                }
                if t.twin != id {
                    return Err(HalfEdgeError::BadTwin(id));
                }
                return Err(HalfEdgeError::CollapsedEdge(id, e.vertex));
            }
            i = i + 1;
        }
        assert forall|k: usize| self.edge_map().contains_key(k) implies #[trigger] self.twin_ok(k) by {
            assert(ids@.contains(HalfEdgeId(k)));
            let j = choose|j: int| 0 <= j < ids.len() && ids[j] == HalfEdgeId(k);
            assert(self.twin_ok(ids[j].0));
        }
        let mut i: usize = 0;
        while i < ids.len()
            invariant
                self.wf(),
                i <= ids.len(),
                forall|k: usize| self.edge_map().contains_key(k) <==> ids@.contains(HalfEdgeId(k)),
                forall|k: usize| self.edge_map().contains_key(k) ==> #[trigger] self.twin_ok(k),
                forall|j: int| 0 <= j < i ==> #[trigger] self.face_ok(ids[j].0),
            decreases ids.len() - i,
        {
            let id1 = ids[i];
            assert(ids@.contains(id1));
            let e1 = self.edge(id1);
            proof {
                let _ = self.edge_map()[id1.0];
            }
            let id2 = e1.next;
            let id3 = e1.prev;
            let e2 = self.edge(id2);
            let e3 = self.edge(id3);
            if e2.next != id3 || e2.prev != id1 || e3.next != id1 || e3.prev != id2 {
                proof {
                    assert(!self.face_ok(id1.0));
                    if self.is_manifold() {
                        assert(self.face_ok(id1.0));
                    }
                }
                return Err(HalfEdgeError::BadFace(id1));
            }
            i = i + 1;
        }
        assert forall|k: usize| self.edge_map().contains_key(k) implies #[trigger] self.face_ok(k) by {
            assert(ids@.contains(HalfEdgeId(k)));
            let j = choose|j: int| 0 <= j < ids.len() && ids[j] == HalfEdgeId(k);
            assert(self.face_ok(ids[j].0));
        }
        let eb = Self::edge_bound(&ids);
        let vkeys = vertex_slab_keys(&self.vertices);
        let vb: usize = if vkeys.len() == 0 { 0 } else { vkeys[vkeys.len() - 1] + 1 };
        proof {
            assert forall|k: usize| self.edge_map().contains_key(k) implies k < eb by {
                assert(ids@.contains(HalfEdgeId(k)));
            }
            assert forall|v: usize| self.vertex_map().contains_key(v) implies v < vb by {
                assert(vkeys@.contains(v));
                let j = choose|j: int| 0 <= j < vkeys.len() && vkeys[j] == v;
                if j < vkeys.len() - 1 {
                    assert(vkeys[j] < vkeys[vkeys.len() - 1]);
                }
            }
        }
        // The edges leaving each vertex, in key order.
        let mut expected: Vec<Vec<usize>> = Vec::new();
        let mut v: usize = 0;
        while v < vb
            invariant
                v <= vb,
                expected.len() == v,
                forall|w: int| 0 <= w < v ==> expected[w]@ == Seq::<usize>::empty(),
            decreases vb - v,
        {
            expected.push(Vec::new());
            v = v + 1;
        }
        let mut i: usize = 0;
        while i < ids.len()
            invariant
                self.wf(),
                i <= ids.len(),
                forall|i1: int, j1: int| 0 <= i1 < j1 < ids.len() ==> ids[i1].0 < ids[j1].0,
                forall|k: usize| self.edge_map().contains_key(k) <==> ids@.contains(HalfEdgeId(k)),
                forall|v: usize| self.vertex_map().contains_key(v) ==> v < vb,
                expected.len() == vb,
                forall|w: int, k: usize| 0 <= w < vb ==> (#[trigger] expected[w]@.contains(k) <==> among_first(ids@, i as int, k) && self.edge_map()[k].spec_vertex() == w),
            decreases ids.len() - i,
        {
            let id = ids[i];
            assert(ids@.contains(id));
            let e = self.edge(id);
            proof {
                let _ = self.edge_map()[id.0];
            }
            let ghost before = expected@;
            expected[e.vertex].push(id.0);
            proof {
                assert forall|w: int, k: usize| 0 <= w < vb implies (#[trigger] expected[w]@.contains(k) <==> among_first(ids@, i + 1, k) && self.edge_map()[k].spec_vertex() == w) by {
                    lemma_among_first_step(ids@, i as int, k);
                    if w == e.vertex {
                        assert(expected[w]@ == before[w]@.push(id.0));
                        if expected[w]@.contains(k) && k != id.0 {
                            let x = choose|x: int| 0 <= x < expected[w]@.len() && expected[w]@[x] == k;
                            assert(before[w]@[x] == k);
                            assert(before[w]@.contains(k));
                        }
                        if k == id.0 {
                            assert(expected[w]@[expected[w]@.len() - 1] == k);
                        }
                        if before[w]@.contains(k) {
                            let x = choose|x: int| 0 <= x < before[w]@.len() && before[w]@[x] == k;
                            assert(expected[w]@[x] == k);
                        }
                    } else {
                        assert(expected[w] == before[w]);
                        assert(before[w]@.contains(k) == (among_first(ids@, i as int, k) && self.edge_map()[k].spec_vertex() == w));
                    }
                }
            }
            i = i + 1;
        }
        let mut visited: Vec<bool> = Vec::new();
        let mut k: usize = 0;
        while k < eb
            invariant
                k <= eb,
                visited.len() == k,
                forall|j: int| 0 <= j < k ==> !visited[j],
            decreases eb - k,
        {
            visited.push(false);
            k = k + 1;
        }
        let mut seen: Vec<usize> = Vec::new();
        let mut u: usize = 0;
        while u < vb
            invariant
                u <= vb,
                seen.len() == u,
                forall|j: int| 0 <= j < u ==> seen[j] == 0,
            decreases vb - u,
        {
            seen.push(0);
            u = u + 1;
        }
        proof {
            assert forall|k: int| 0 <= k < eb implies #[trigger] visited[k] == (self.edge_map().contains_key(k as usize) && self.edge_map()[k as usize].spec_vertex() < key_limit(vkeys@, 0, vb)) by {
                if self.edge_map().contains_key(k as usize) {
                    let w = self.edge_map()[k as usize].spec_vertex();
                    assert(self.has_vertex(w));
                    assert(vkeys@.contains(w));
                    let x = choose|x: int| 0 <= x < vkeys.len() && vkeys[x] == w;
                    if x > 0 {
                        assert(vkeys[0] < vkeys[x]);
                    }
                }
            }
        }
        let mut j: usize = 0;
        while j < vkeys.len()
            invariant
                self.wf(),
                j <= vkeys.len(),
                forall|i1: int, j1: int| 0 <= i1 < j1 < vkeys.len() ==> vkeys[i1] < vkeys[j1],
                forall|i1: int| 0 <= i1 < vkeys.len() ==> vkeys[i1] < vb,
                forall|v: usize| self.vertex_map().contains_key(v) <==> vkeys@.contains(v),
                forall|v: usize| self.vertex_map().contains_key(v) ==> v < vb,
                forall|k: usize| self.edge_map().contains_key(k) ==> k < eb,
                expected.len() == vb,
                forall|w: int, k: usize| 0 <= w < vb ==> (#[trigger] expected[w]@.contains(k) <==> self.edge_map().contains_key(k) && self.edge_map()[k].spec_vertex() == w),
                visited.len() == eb,
                seen.len() == vb,
                forall|k: int| 0 <= k < eb ==> #[trigger] visited[k] == (self.edge_map().contains_key(k as usize) && self.edge_map()[k as usize].spec_vertex() < key_limit(vkeys@, j as int, vb)),
                forall|u: int| 0 <= u < vb ==> #[trigger] seen[u] <= key_limit(vkeys@, j as int, vb),
                forall|x: int| 0 <= x < j ==> #[trigger] self.fan_ok(vkeys[x]),
                forall|k: usize| self.edge_map().contains_key(k) ==> #[trigger] self.twin_ok(k),
                forall|k: usize| self.edge_map().contains_key(k) ==> #[trigger] self.face_ok(k),
            decreases vkeys.len() - j,
        {
            let vid = vkeys[j];
            proof {
                assert(vkeys@.contains(vid));
            }
            let ghost before = visited@;
            let res = self.check_fan(vid, &expected[vid], &mut visited, &mut seen, eb, vb);
            match res {
                Err(e) => {
                    proof {
                        if self.is_manifold() {
                            assert(self.fan_ok(vid));
                        }
                    }
                    return Err(e);
                },
                Ok(()) => {},
            }
            proof {
                assert forall|k: int| 0 <= k < eb implies #[trigger] visited[k] == (self.edge_map().contains_key(k as usize) && self.edge_map()[k as usize].spec_vertex() < key_limit(vkeys@, j + 1, vb)) by {
                    if self.edge_map().contains_key(k as usize) {
                        let w = self.edge_map()[k as usize].spec_vertex();
                        assert(self.has_vertex(w));
                        assert(vkeys@.contains(w));
                        let x = choose|x: int| 0 <= x < vkeys.len() && vkeys[x] == w;
                        if x < j {
                            assert(vkeys[x] < vkeys[j as int]);
                        }
                        if x > j {
                            assert(vkeys[j as int] < vkeys[x]);
                            if x > j + 1 {
                                assert(vkeys[j + 1] < vkeys[x]);
                            }
                        }
                    }
                }
                if j + 1 < vkeys.len() {
                    assert(vkeys[j as int] < vkeys[j + 1]);
                }
            }
            j = j + 1;
        }
        assert forall|v: usize| self.vertex_map().contains_key(v) implies #[trigger] self.fan_ok(v) by {
            assert(vkeys@.contains(v));
            let x = choose|x: int| 0 <= x < vkeys.len() && vkeys[x] == v;
            assert(self.fan_ok(vkeys[x]));
        }
        Ok(())
    }
}


impl HalfEdge {
    /// The same half edge, leaving vertex `v`.
    pub closed spec fn with_vertex(self, v: usize) -> HalfEdge {
        HalfEdge { twin: self.twin, next: self.next, prev: self.prev, vertex: v }
    }

    /// The same half edge, with twin `t`.
    pub closed spec fn with_twin(self, t: HalfEdgeId) -> HalfEdge {
        HalfEdge { twin: t, next: self.next, prev: self.prev, vertex: self.vertex }
    }

    /// The same half edge, followed by `n`.
    pub closed spec fn with_next(self, n: HalfEdgeId) -> HalfEdge {
        HalfEdge { twin: self.twin, next: n, prev: self.prev, vertex: self.vertex }
    }

    /// The same half edge, preceded by `p`.
    pub closed spec fn with_prev(self, p: HalfEdgeId) -> HalfEdge {
        HalfEdge { twin: self.twin, next: self.next, prev: p, vertex: self.vertex }
    }
}

impl HalfEdgeVertex {
    /// A vertex whose fan starts at `e`.
    pub closed spec fn leaving(e: HalfEdgeId) -> HalfEdgeVertex {
        HalfEdgeVertex { edge: e }
    }
}

/// What each field update of a half edge changes: only the field it names.
pub proof fn lemma_half_edge_updates(e: HalfEdge, v: usize, t: HalfEdgeId)
    ensures
        e.with_vertex(v).spec_vertex() == v,
        e.with_vertex(v).spec_twin() == e.spec_twin(),
        e.with_vertex(v).spec_next() == e.spec_next(),
        e.with_vertex(v).spec_prev() == e.spec_prev(),
        e.with_twin(t).spec_twin() == t,
        e.with_twin(t).spec_vertex() == e.spec_vertex(),
        e.with_twin(t).spec_next() == e.spec_next(),
        e.with_twin(t).spec_prev() == e.spec_prev(),
        e.with_next(t).spec_next() == t,
        e.with_next(t).spec_vertex() == e.spec_vertex(),
        e.with_next(t).spec_twin() == e.spec_twin(),
        e.with_next(t).spec_prev() == e.spec_prev(),
        e.with_prev(t).spec_prev() == t,
        e.with_prev(t).spec_vertex() == e.spec_vertex(),
        e.with_prev(t).spec_twin() == e.spec_twin(),
        e.with_prev(t).spec_next() == e.spec_next(),
        HalfEdgeVertex::leaving(t).spec_edge() == t,
{
}

impl<V> HalfEdgeMesh<V> {
    pub open spec fn next_of(&self, id: HalfEdgeId) -> HalfEdgeId {
        self.spec_edge(id).spec_next()
    }

    pub open spec fn prev_of(&self, id: HalfEdgeId) -> HalfEdgeId {
        self.spec_edge(id).spec_prev()
    }

    pub open spec fn twin_of(&self, id: HalfEdgeId) -> HalfEdgeId {
        self.spec_edge(id).spec_twin()
    }

    pub open spec fn vertex_of(&self, id: HalfEdgeId) -> usize {
        self.spec_edge(id).spec_vertex()
    }

    /// Everything a live edge refers to is live.
    proof fn lemma_links_live(&self, e: HalfEdgeId)
        requires
            self.wf(),
            self.has_edge(e),
        ensures
            self.has_edge(self.next_of(e)),
            self.has_edge(self.prev_of(e)),
            self.has_edge(self.twin_of(e)),
            self.has_vertex(self.vertex_of(e)),
    {
        let _ = self.edge_map()[e.0];
    }

    /// In a manifold mesh an edge is its twin's twin, and leaves another vertex than its twin.
    proof fn lemma_twin(&self, e: HalfEdgeId)
        requires
            self.is_manifold(),
            self.has_edge(e),
        ensures
            self.twin_of(self.twin_of(e)) == e,
            self.far_vertex(e) != self.vertex_of(e),
    {
        assert(self.twin_ok(e.0));
    }

    /// In a manifold mesh the three edges of a triangle follow one another in a cycle.
    proof fn lemma_face(&self, e: HalfEdgeId)
        requires
            self.is_manifold(),
            self.has_edge(e),
        ensures
            self.prev_of(self.next_of(e)) == e,
            self.next_of(self.prev_of(e)) == e,
            self.next_of(self.next_of(e)) == self.prev_of(e),
            self.prev_of(self.prev_of(e)) == self.next_of(e),
    {
        assert(self.face_ok(e.0));
    }

    /// In a manifold mesh an edge ends where the next edge of its triangle starts.
    pub proof fn lemma_far_is_next(&self, e: HalfEdgeId)
        requires
            self.is_manifold(),
            self.has_edge(e),
        ensures
            self.far_vertex(e) == self.vertex_of(self.next_of(e)),
    {
        self.lemma_links_live(e);
        self.lemma_face(e);
        let nx = self.next_of(e);
        let u = self.vertex_of(nx);
        assert(self.fan_ok(u));
        let s = self.vertex_map()[u].spec_edge();
        let n = choose|n: nat| self.fan_closes_at(s, n) && self.fan_complete(u, s, n);
        assert(self.edge_map().contains_key(nx.0) && self.edge_map()[nx.0].spec_vertex() == u);
        let i = choose|i: nat| i < n && #[trigger] self.fan_iterate(s, i) == HalfEdgeId(nx.0);
        assert(self.fan_iterate(s, i + 1) == self.fan_step(nx));
        if i + 1 < n {
            assert(self.spec_edge(self.fan_iterate(s, (i + 1) as nat)).spec_vertex() == u);
        } else {
            assert(self.fan_iterate(s, 0) == s);
            assert(self.spec_edge(self.fan_iterate(s, 0)).spec_vertex() == u);
        }
    }

    /// In a manifold mesh no two edges join the same two vertices in the same direction.
    pub proof fn lemma_edge_unique(&self, a: HalfEdgeId, b: HalfEdgeId)
        requires
            self.is_manifold(),
            self.has_edge(a),
            self.has_edge(b),
            self.vertex_of(a) == self.vertex_of(b),
            self.far_vertex(a) == self.far_vertex(b),
        ensures
            a == b,
    {
        self.lemma_links_live(a);
        let u = self.vertex_of(a);
        assert(self.fan_ok(u));
        let s = self.vertex_map()[u].spec_edge();
        let n = choose|n: nat| self.fan_closes_at(s, n) && self.fan_complete(u, s, n);
        assert(self.edge_map().contains_key(a.0) && self.edge_map()[a.0].spec_vertex() == u);
        assert(self.edge_map().contains_key(b.0) && self.edge_map()[b.0].spec_vertex() == u);
        let i = choose|i: nat| i < n && #[trigger] self.fan_iterate(s, i) == HalfEdgeId(a.0);
        let j = choose|j: nat| j < n && #[trigger] self.fan_iterate(s, j) == HalfEdgeId(b.0);
        if i < j {
            assert(self.far_vertex(self.fan_iterate(s, i)) != self.far_vertex(self.fan_iterate(s, j)));
        } else if j < i {
            assert(self.far_vertex(self.fan_iterate(s, j)) != self.far_vertex(self.fan_iterate(s, i)));
        }
    }
}


impl<V> HalfEdgeMesh<V> {
    /// The edge map once every edge leaving `from` leaves `to` instead.
    pub open spec fn relabeled_edges(&self, from: usize, to: usize) -> Map<usize, HalfEdge> {
        self.edge_map().map_values(
            |e: HalfEdge|
                if e.spec_vertex() == from {
                    e.with_vertex(to)
                } else {
                    e
                },
        )
    }

    /// Contracting `f1` meets the case where the edge before `f1` and the edge after its twin
    /// are twins: the two triangles beside `f1` share a second side.
    pub open spec fn contraction_folds(&self, f1: HalfEdgeId) -> bool {
        self.twin_of(self.prev_of(f1)) == self.next_of(self.twin_of(f1))
    }

    /// The edge map after contracting `f1`: the edges leaving the vertex of `f1` leave the
    /// vertex of its twin instead, the two triangles beside `f1` go, and the two edges of each
    /// that survive take over the links of the edge they are merged with (when the two
    /// triangles share a second side they are removed whole, and joined across the gap).
    pub open spec fn contracted_edge_map(&self, f1: HalfEdgeId) -> Map<usize, HalfEdge> {
        let v1 = self.vertex_of(f1);
        let r1 = self.twin_of(f1);
        let v2 = self.vertex_of(r1);
        let f2 = self.next_of(f1);
        let f3 = self.prev_of(f1);
        let f2p = self.twin_of(f2);
        let f3p = self.twin_of(f3);
        let r2 = self.next_of(r1);
        let r3 = self.prev_of(r1);
        let r2p = self.twin_of(r2);
        let m = self.relabeled_edges(v1, v2);
        if self.contraction_folds(f1) {
            let r3p = self.twin_of(r3);
            let m = m.remove(f1.0).remove(r1.0).remove(f3.0).remove(f3p.0).remove(f2.0).remove(
                r3.0,
            );
            if f2p != r3 {
                let m = m.insert(f2p.0, m[f2p.0].with_twin(r3p));
                m.insert(r3p.0, m[r3p.0].with_twin(f2p))
            } else {
                m
            }
        } else {
            let a = self.next_of(f3p);
            let b = self.prev_of(f3p);
            let m = m.remove(f1.0).remove(f3.0).remove(f3p.0);
            let m = m.insert(f2.0, m[f2.0].with_next(a));
            let m = m.insert(a.0, m[a.0].with_prev(f2));
            let m = m.insert(f2.0, m[f2.0].with_prev(b));
            let m = m.insert(b.0, m[b.0].with_next(f2));
            let gone = m[r2p.0];
            let m = m.remove(r1.0).remove(r2.0).remove(r2p.0);
            let n = gone.spec_next();
            let p = gone.spec_prev();
            let m = m.insert(n.0, m[n.0].with_prev(r3));
            let m = m.insert(r3.0, m[r3.0].with_next(n));
            let m = m.insert(p.0, m[p.0].with_next(r3));
            m.insert(r3.0, m[r3.0].with_prev(p))
        }
    }

    /// The vertex map after contracting `f1`: the vertex of `f1` goes, vertices whose fan
    /// started at an edge that goes start at a surviving edge instead, and when the two
    /// triangles beside `f1` were all that was left of their piece, its two other vertices
    /// go too.
    pub open spec fn contracted_vertex_map(&self, f1: HalfEdgeId) -> Map<usize, HalfEdgeVertex> {
        let v1 = self.vertex_of(f1);
        let r1 = self.twin_of(f1);
        let v2 = self.vertex_of(r1);
        let f2 = self.next_of(f1);
        let f3 = self.prev_of(f1);
        let f2p = self.twin_of(f2);
        let f3p = self.twin_of(f3);
        let r3 = self.prev_of(r1);
        let r2p = self.twin_of(self.next_of(r1));
        let m = self.relabeled_edges(v1, v2);
        let w = self.vertex_map().remove(v1);
        let w = if w[v2].spec_edge() == r1 {
            w.insert(v2, HalfEdgeVertex::leaving(f2))
        } else {
            w
        };
        let u3 = m[f3.0].spec_vertex();
        let w = if w[u3].spec_edge() == f3 {
            w.insert(u3, HalfEdgeVertex::leaving(self.next_of(f3p)))
        } else {
            w
        };
        let ur3 = m[r3.0].spec_vertex();
        let w = if w[ur3].spec_edge() == r2p {
            w.insert(ur3, HalfEdgeVertex::leaving(r3))
        } else {
            w
        };
        if self.contraction_folds(f1) && f2p == r3 {
            w.remove(v2).remove(ur3)
        } else {
            w
        }
    }

    /// The edges that contracting `f1` removes, in the order it reports them.
    pub open spec fn contraction_removed(&self, f1: HalfEdgeId) -> Seq<HalfEdgeId> {
        let r1 = self.twin_of(f1);
        let f2 = self.next_of(f1);
        let f3 = self.prev_of(f1);
        let f3p = self.twin_of(f3);
        let r2 = self.next_of(r1);
        if self.contraction_folds(f1) {
            seq![f1, r1, f3, f3p, f2, r2]
        } else {
            seq![f1, f3, f3p, r1, r2, self.twin_of(r2)]
        }
    }

    /// What a manifold mesh guarantees about the edges and vertices around `f1` that
    /// contracting it reads, writes and removes.
    proof fn lemma_contraction_sites(&self, f1: HalfEdgeId)
        requires
            self.is_manifold(),
            self.has_edge(f1),
        ensures
            ({
                let v1 = self.vertex_of(f1);
                let r1 = self.twin_of(f1);
                let v2 = self.vertex_of(r1);
                let f2 = self.next_of(f1);
                let f3 = self.prev_of(f1);
                let f2p = self.twin_of(f2);
                let f3p = self.twin_of(f3);
                let r2 = self.next_of(r1);
                let r3 = self.prev_of(r1);
                let r2p = self.twin_of(r2);
                let a = self.next_of(f3p);
                let b = self.prev_of(f3p);
                let w = self.vertex_of(f3);
                let x = self.vertex_of(r3);
                &&& self.has_edge(f2) && self.has_edge(f3) && self.has_edge(r1)
                &&& self.has_edge(r2) && self.has_edge(r3) && self.has_edge(f2p)
                &&& self.has_edge(f3p) && self.has_edge(r2p) && self.has_edge(a)
                &&& self.has_edge(b)
                &&& self.has_vertex(v1) && self.has_vertex(v2) && self.has_vertex(w)
                &&& self.has_vertex(x)
                &&& v1 != v2 && w != v1 && w != v2 && x != v1 && x != v2
                &&& f1 != f2 && f1 != f3 && f2 != f3 && r1 != r2 && r1 != r3 && r2 != r3
                &&& f1 != r1 && f1 != r2 && f1 != r3 && f2 != r1 && f2 != r2 && f2 != r3
                &&& f3 != r1 && f3 != r2 && f3 != r3
                &&& f3p != f1 && f3p != f2 && f3p != f3
                &&& self.contraction_folds(f1) ==> r2p == f3 && f2p == r3
                &&& !self.contraction_folds(f1) ==> {
                    &&& w != x
                    &&& f3p != r1 && f3p != r3 && r2p != f2
                    &&& a != f1 && a != f2 && a != f3 && a != f3p && a != b
                    &&& b != f1 && b != f2 && b != f3 && b != f3p
                    &&& a != r1 && a != r2 && b != r1 && b != r2
                    &&& r2p != f1 && r2p != f3 && r2p != f3p && r2p != r1 && r2p != r2
                    &&& r2p != r3 && r2p != a
                    &&& r2p == b ==> self.prev_of(b) == a
                    &&& r2p != b ==> {
                        let n = self.next_of(r2p);
                        let p = self.prev_of(r2p);
                        &&& self.has_edge(n) && self.has_edge(p)
                        &&& n != f1 && n != f3 && n != f3p && n != r1 && n != r2 && n != r2p
                        &&& p != f1 && p != f3 && p != f3p && p != r1 && p != r2 && p != r2p
                    }
                }
            }),
    {
        let r1 = self.twin_of(f1);
        let f2 = self.next_of(f1);
        let f3 = self.prev_of(f1);
        self.lemma_links_live(f1);
        self.lemma_links_live(r1);
        self.lemma_links_live(f2);
        self.lemma_links_live(f3);
        let f2p = self.twin_of(f2);
        let f3p = self.twin_of(f3);
        let r2 = self.next_of(r1);
        let r3 = self.prev_of(r1);
        self.lemma_links_live(r2);
        self.lemma_links_live(r3);
        self.lemma_links_live(f3p);
        self.lemma_links_live(f2p);
        let r2p = self.twin_of(r2);
        self.lemma_links_live(r2p);
        let a = self.next_of(f3p);
        let b = self.prev_of(f3p);
        self.lemma_links_live(a);
        self.lemma_links_live(b);
        self.lemma_face(f1);
        self.lemma_face(r1);
        self.lemma_face(f3p);
        self.lemma_face(r2p);
        self.lemma_twin(f1);
        self.lemma_twin(f2);
        self.lemma_twin(f3);
        self.lemma_twin(r1);
        self.lemma_twin(r2);
        self.lemma_twin(r3);
        self.lemma_twin(f3p);
        self.lemma_twin(a);
        self.lemma_twin(b);
        self.lemma_twin(r2p);
        self.lemma_far_is_next(f1);
        self.lemma_far_is_next(f2);
        self.lemma_far_is_next(f3);
        self.lemma_far_is_next(r1);
        self.lemma_far_is_next(r2);
        self.lemma_far_is_next(r3);
        self.lemma_far_is_next(f3p);
        self.lemma_far_is_next(a);
        self.lemma_far_is_next(b);
        self.lemma_far_is_next(r2p);
        let w = self.vertex_of(f3);
        let x = self.vertex_of(r3);
        if self.contraction_folds(f1) {
            self.lemma_edge_unique(f2p, r3);
        } else {
            if w == x {
                self.lemma_edge_unique(f3p, r2);
            }
            if self.vertex_of(b) == self.vertex_of(r1) {
                self.lemma_edge_unique(b, r1);
            }
            if r2p != b {
                let n = self.next_of(r2p);
                let p = self.prev_of(r2p);
                self.lemma_links_live(r2p);
            }
        }
    }
}


impl<V> HalfEdgeMesh<V> {
    /// Makes every edge leaving `from` leave `to` instead.
    fn relabel_fan(&mut self, from: usize, to: usize)
        requires
            old(self).is_manifold(),
            old(self).has_vertex(from),
        ensures
            final(self).edge_map() == old(self).relabeled_edges(from, to),
            final(self).vertex_map() == old(self).vertex_map(),
            final(self).positions() == old(self).positions(),
    {
        let ghost m0 = *self;
        let ghost s = m0.vertex_map()[from].spec_edge();
        let ghost n = choose|n: nat| m0.fan_closes_at(s, n) && m0.fan_complete(from, s, n);
        proof {
            assert(m0.fan_ok(from));
            assert(m0.fan_closes_at(s, n));
            assert(m0.fan_closes(from));
            m0.lemma_closes_unique(s, m0.fan_len(from), n);
            m0.lemma_links_live(s);
            let _ = m0.vertex_map()[from];
        }
        let fan = self.fan(from);
        proof {
            assert forall|j: int| 0 <= j < fan.len() implies m0.has_edge(#[trigger] fan[j]) by {
                m0.lemma_fan_iterate_live(s, j as nat);
            }
        }
        let mut i: usize = 0;
        while i < fan.len()
            invariant
                i <= fan.len(),
                fan@ == m0.fan_seq(from),
                fan.len() == n,
                m0.wf(),
                self.vertex_map() == m0.vertex_map(),
                self.positions() == m0.positions(),
                forall|j: int| 0 <= j < fan.len() ==> m0.has_edge(#[trigger] fan[j]),
                forall|k: usize| self.edge_map().contains_key(k) <==> m0.edge_map().contains_key(k),
                forall|k: usize|
                    m0.edge_map().contains_key(k) ==> #[trigger] self.edge_map()[k] == if among_first(
                        fan@,
                        i as int,
                        k,
                    ) {
                        m0.edge_map()[k].with_vertex(to)
                    } else {
                        m0.edge_map()[k]
                    },
            decreases fan.len() - i,
        {
            let e = fan[i];
            let mut rec = *self.edge(e);
            rec.vertex = to;
            edge_slab_set(&mut self.edges, e.0, rec);
            proof {
                assert forall|k: usize| m0.edge_map().contains_key(k) implies #[trigger] self.edge_map()[k]
                    == if among_first(fan@, i + 1, k) {
                    m0.edge_map()[k].with_vertex(to)
                } else {
                    m0.edge_map()[k]
                } by {
                    lemma_among_first_step(fan@, i as int, k);
                }
            }
            i = i + 1;
        }
        proof {
            assert forall|k: usize| m0.edge_map().contains_key(k) implies among_first(fan@, n as int, k)
                == (m0.edge_map()[k].spec_vertex() == from) by {
                if among_first(fan@, n as int, k) {
                    let j = choose|j: int| 0 <= j < n && fan@[j].0 == k;
                    assert(fan@[j] == m0.fan_iterate(s, j as nat));
                    assert(m0.spec_edge(m0.fan_iterate(s, j as nat)).spec_vertex() == from);
                }
                if m0.edge_map()[k].spec_vertex() == from {
                    let j = choose|j: nat| j < n && #[trigger] m0.fan_iterate(s, j) == HalfEdgeId(k);
                    assert(fan@[j as int] == m0.fan_iterate(s, j));
                    assert(0 <= j < n && fan@[j as int].0 == k);
                }
            }
            assert(self.edge_map() =~= m0.relabeled_edges(from, to));
        }
    }

    /// Points the next link of live edge `id` at `n`.
    fn set_next(&mut self, id: HalfEdgeId, n: HalfEdgeId)
        requires
            old(self).has_edge(id),
        ensures
            final(self).edge_map() == old(self).edge_map().insert(
                id.0,
                old(self).edge_map()[id.0].with_next(n),
            ),
            final(self).vertex_map() == old(self).vertex_map(),
            final(self).positions() == old(self).positions(),
    {
        let mut rec = *self.edge(id);
        rec.next = n;
        edge_slab_set(&mut self.edges, id.0, rec);
    }

    /// Points the prev link of live edge `id` at `p`.
    fn set_prev(&mut self, id: HalfEdgeId, p: HalfEdgeId)
        requires
            old(self).has_edge(id),
        ensures
            final(self).edge_map() == old(self).edge_map().insert(
                id.0,
                old(self).edge_map()[id.0].with_prev(p),
            ),
            final(self).vertex_map() == old(self).vertex_map(),
            final(self).positions() == old(self).positions(),
    {
        let mut rec = *self.edge(id);
        rec.prev = p;
        edge_slab_set(&mut self.edges, id.0, rec);
    }

    /// Points the twin link of live edge `id` at `t`.
    fn set_twin(&mut self, id: HalfEdgeId, t: HalfEdgeId)
        requires
            old(self).has_edge(id),
        ensures
            final(self).edge_map() == old(self).edge_map().insert(
                id.0,
                old(self).edge_map()[id.0].with_twin(t),
            ),
            final(self).vertex_map() == old(self).vertex_map(),
            final(self).positions() == old(self).positions(),
    {
        let mut rec = *self.edge(id);
        rec.twin = t;
        edge_slab_set(&mut self.edges, id.0, rec);
    }

    /// Starts the fan of live vertex `v` at `e`.
    fn set_fan_start(&mut self, v: usize, e: HalfEdgeId)
        requires
            old(self).has_vertex(v),
        ensures
            final(self).vertex_map() == old(self).vertex_map().insert(v, HalfEdgeVertex::leaving(e)),
            final(self).edge_map() == old(self).edge_map(),
            final(self).positions() == old(self).positions(),
    {
        vertex_slab_set(&mut self.vertices, v, HalfEdgeVertex { edge: e });
    }
}


impl<V> HalfEdgeMesh<V> {
    /// Contracts edge `f1`: its vertex merges into the vertex at its far end, and the two
    /// triangles beside it disappear. Returns the six half edges that were removed.
    #[verifier::rlimit(40)]
    pub fn contract_edge(&mut self, f1: HalfEdgeId) -> (r: ArrayVec<HalfEdgeId, 6>)
        requires
            old(self).is_manifold(),
            old(self).has_edge(f1),
        ensures
            final(self).edge_map() == old(self).contracted_edge_map(f1),
            final(self).vertex_map() == old(self).contracted_vertex_map(f1),
            final(self).positions() == old(self).positions(),
            removed_list_items(r) == old(self).contraction_removed(f1),
            final(self).wf(),
            old(self).contraction_folds(f1) ==> final(self).is_manifold(),
            forall|max_degree: usize|
                !#[trigger] old(self).contraction_blocked_spec(f1, max_degree) ==> final(self).is_manifold(),
    {
        let ghost m0 = *self;
        proof {
            m0.lemma_contraction_sites(f1);
            m0.lemma_links_live(f1);
            if m0.contraction_folds(f1) {
                m0.lemma_contraction_links_folded(f1);
            } else {
                m0.lemma_contraction_links_unfolded(f1);
            }
        }
        let v1 = self.edge(f1).vertex;
        let v2 = self.edge(self.edge(f1).twin).vertex;
        self.relabel_fan(v1, v2);
        let ghost m1 = self.edge_map();
        vertex_slab_remove(&mut self.vertices, v1);
        let f2 = self.edge(f1).next;
        let f2p = self.edge(f2).twin;
        let f3 = self.edge(f1).prev;
        let f3p = self.edge(f3).twin;
        let r1 = self.edge(f1).twin;
        let r2 = self.edge(r1).next;
        let r3 = self.edge(r1).prev;
        let r2p = self.edge(r2).twin;

        // No fan may start at an edge about to go.
        if self.vertex(v2).edge == r1 {
            self.set_fan_start(v2, f2);
        }
        let u3 = self.edge(f3).vertex;
        if self.vertex(u3).edge == f3 {
            let n = self.edge(f3p).next;
            self.set_fan_start(u3, n);
        }
        let ur3 = self.edge(r3).vertex;
        if self.vertex(ur3).edge == r2p {
            self.set_fan_start(ur3, r3);
        }

        if f3p == r2 {
            let removed = removed_list_from([f1, r1, f3, f3p, f2, r2]);
            let stitch = f2p != r3;
            let _e1 = edge_slab_remove(&mut self.edges, f1.0);
            let _e2 = edge_slab_remove(&mut self.edges, r1.0);
            let _e3 = edge_slab_remove(&mut self.edges, f3.0);
            let _e4 = edge_slab_remove(&mut self.edges, f3p.0);
            let e_f2 = edge_slab_remove(&mut self.edges, f2.0);
            let e_r3 = edge_slab_remove(&mut self.edges, r3.0);
            if stitch {
                // Removed an ear: join the two sides across the gap.
                self.set_twin(e_f2.twin, e_r3.twin);
                self.set_twin(e_r3.twin, e_f2.twin);
            } else {
                // The two triangles were a whole piece of the surface.
                vertex_slab_remove(&mut self.vertices, v2);
                vertex_slab_remove(&mut self.vertices, e_r3.vertex);
            }
            proof {
                self.lemma_wf_links();
                m0.lemma_contraction_result(&*self, f1);
            }
            return removed;
        }
        let removed = removed_list_from([f1, f3, f3p, r1, r2, r2p]);

        // The triangle above the edge goes; its left side merges into its right side.
        let _e1 = edge_slab_remove(&mut self.edges, f1.0);
        let _e3 = edge_slab_remove(&mut self.edges, f3.0);
        let e_f3p = edge_slab_remove(&mut self.edges, f3p.0);
        self.set_next(f2, e_f3p.next);
        self.set_prev(e_f3p.next, f2);
        self.set_prev(f2, e_f3p.prev);
        self.set_next(e_f3p.prev, f2);

        // Likewise below.
        let _e4 = edge_slab_remove(&mut self.edges, r1.0);
        let _e5 = edge_slab_remove(&mut self.edges, r2.0);
        let e_r2p = edge_slab_remove(&mut self.edges, r2p.0);
        self.set_prev(e_r2p.next, r3);
        self.set_next(r3, e_r2p.next);
        self.set_next(e_r2p.prev, r3);
        self.set_prev(r3, e_r2p.prev);
        proof {
            self.lemma_wf_links();
            m0.lemma_contraction_result(&*self, f1);
        }
        removed
    }
}


impl<V> HalfEdgeMesh<V> {
    /// Contracting an edge of a manifold mesh removes exactly the six half edges it reports:
    /// all six were live and are distinct, none of them is left, and every other half edge
    /// stays. (When the two triangles beside the edge share a second side, the report names
    /// that side twice and leaves out the third edge of the lower triangle, which goes too.)
    pub proof fn lemma_contraction_removes_reported(&self, f1: HalfEdgeId)
        requires
            self.is_manifold(),
            self.has_edge(f1),
            !self.contraction_folds(f1),
        ensures
            self.contraction_removed(f1).len() == 6,
            self.contraction_removed(f1).no_duplicates(),
            forall|i: int| 0 <= i < 6 ==> self.has_edge(#[trigger] self.contraction_removed(f1)[i]),
            forall|k: usize|
                #[trigger] self.contracted_edge_map(f1).contains_key(k) <==> (self.edge_map().contains_key(k)
                    && !self.contraction_removed(f1).contains(HalfEdgeId(k))),
            self.contracted_edge_map(f1).dom().len() + 6 == self.edge_map().dom().len(),
    {
        self.lemma_contraction_sites(f1);
        self.lemma_links_live(f1);
        let rm = self.contraction_removed(f1);
        let m = self.contracted_edge_map(f1);
        let v1 = self.vertex_of(f1);
        let v2 = self.vertex_of(self.twin_of(f1));
        let base = self.relabeled_edges(v1, v2);
        assert(forall|k: usize| #[trigger] base.contains_key(k) <==> self.edge_map().contains_key(k));
        let keys = set![rm[0].0, rm[1].0, rm[2].0, rm[3].0, rm[4].0, rm[5].0];
        let r1 = self.twin_of(f1);
        let f2 = self.next_of(f1);
        let f3 = self.prev_of(f1);
        let f3p = self.twin_of(f3);
        let r2 = self.next_of(r1);
        let r3 = self.prev_of(r1);
        let r2p = self.twin_of(r2);
        {
            let a = self.next_of(f3p);
            let b = self.prev_of(f3p);
            let g1 = base.remove(f1.0).remove(f3.0).remove(f3p.0);
            assert(g1.contains_key(f2.0) && g1.contains_key(a.0) && g1.contains_key(b.0));
            let g2 = g1.insert(f2.0, g1[f2.0].with_next(a));
            let g3 = g2.insert(a.0, g2[a.0].with_prev(f2));
            let g4 = g3.insert(f2.0, g3[f2.0].with_prev(b));
            let g5 = g4.insert(b.0, g4[b.0].with_next(f2));
            assert(g5.dom() =~= g1.dom());
            let gone = g5[r2p.0];
            let g6 = g5.remove(r1.0).remove(r2.0).remove(r2p.0);
            let n = gone.spec_next();
            let p = gone.spec_prev();
            if r2p == b {
                assert(n == f2);
                assert(p == a);
            } else {
                assert(gone == base[r2p.0]);
            }
            assert(g6.contains_key(n.0) && g6.contains_key(p.0) && g6.contains_key(r3.0));
            let g7 = g6.insert(n.0, g6[n.0].with_prev(r3));
            let g8 = g7.insert(r3.0, g7[r3.0].with_next(n));
            let g9 = g8.insert(p.0, g8[p.0].with_next(r3));
            let g10 = g9.insert(r3.0, g9[r3.0].with_prev(p));
            assert(m == g10);
            assert(g10.dom() =~= g6.dom());
            assert(g6.dom() =~= self.edge_map().dom().difference(keys));
        }
        assert(m.dom() =~= self.edge_map().dom().difference(keys));
        assert forall|k: usize| #[trigger] m.contains_key(k) <==> (self.edge_map().contains_key(k)
            && !rm.contains(HalfEdgeId(k))) by {
            if rm.contains(HalfEdgeId(k)) {
                let i = choose|i: int| 0 <= i < rm.len() && rm[i] == HalfEdgeId(k);
                assert(rm[i].0 == k);
            }
            if !rm.contains(HalfEdgeId(k)) {
                assert(HalfEdgeId(k) != rm[0] && HalfEdgeId(k) != rm[1] && HalfEdgeId(k) != rm[2]);
                assert(HalfEdgeId(k) != rm[3] && HalfEdgeId(k) != rm[4] && HalfEdgeId(k) != rm[5]);
            }
        }
        let s1 = Set::<usize>::empty().insert(rm[0].0);
        let s2 = s1.insert(rm[1].0);
        let s3 = s2.insert(rm[2].0);
        let s4 = s3.insert(rm[3].0);
        let s5 = s4.insert(rm[4].0);
        assert(!s1.contains(rm[1].0) && !s2.contains(rm[2].0) && !s3.contains(rm[3].0));
        assert(!s4.contains(rm[4].0) && !s5.contains(rm[5].0));
        assert(keys.len() == 6);
        assert(keys.subset_of(self.edge_map().dom()));
        vstd::set_lib::lemma_set_difference_len(self.edge_map().dom(), keys);
        assert(self.edge_map().dom().intersect(keys) =~= keys);
        assert(rm.no_duplicates());
    }
}


/// Each key of `ks` is smaller than the keys after it.
pub open spec fn increasing(ks: Seq<usize>) -> bool {
    forall|i: int, j: int| 0 <= i < j < ks.len() ==> ks[i] < ks[j]
}

/// The keys of `s` in increasing order.
pub open spec fn keys_in_order(s: Set<usize>) -> Seq<usize> {
    choose|ks: Seq<usize>| increasing(ks) && ks.to_set() == s
}

/// The place of `k` in `ks`.
pub open spec fn place_of(ks: Seq<usize>, k: usize) -> int {
    choose|i: int| 0 <= i < ks.len() && ks[i] == k
}

/// Two increasing sequences with the same keys agree up to `n`, given they agree below `i`.
proof fn lemma_increasing_agree(a: Seq<usize>, b: Seq<usize>, i: int)
    requires
        increasing(a),
        increasing(b),
        a.to_set() == b.to_set(),
        0 <= i <= a.len(),
        i <= b.len(),
        forall|j: int| 0 <= j < i ==> a[j] == b[j],
    ensures
        a == b,
    decreases a.len() + b.len() - 2 * i,
{
    if i == a.len() && i == b.len() {
        assert(a =~= b);
    } else if i == a.len() {
        assert(b.to_set().contains(b[i]));
        let k = choose|k: int| 0 <= k < a.len() && a[k] == b[i];
        assert(b[k] == a[k]);
    } else if i == b.len() {
        assert(a.to_set().contains(a[i]));
        let k = choose|k: int| 0 <= k < b.len() && b[k] == a[i];
        assert(a[k] == b[k]);
    } else {
        assert(a.to_set().contains(a[i]));
        assert(b.to_set().contains(b[i]));
        let j = choose|j: int| 0 <= j < b.len() && b[j] == a[i];
        let k = choose|k: int| 0 <= k < a.len() && a[k] == b[i];
        if j < i {
            assert(a[j] == b[j]);
        }
        if k < i {
            assert(a[k] == b[k]);
        }
        assert(a[i] == b[i]);
        lemma_increasing_agree(a, b, i + 1);
    }
}

/// An increasing sequence holding exactly the keys of `s` is the keys of `s` in order.
pub proof fn lemma_keys_in_order(ks: Seq<usize>, s: Set<usize>)
    requires
        increasing(ks),
        ks.to_set() == s,
    ensures
        keys_in_order(s) == ks,
{
    let c = keys_in_order(s);
    assert(increasing(c) && c.to_set() == s);
    lemma_increasing_agree(c, ks, 0);
}

/// A key of an increasing sequence sits at a single place.
proof fn lemma_place_of(ks: Seq<usize>, i: int)
    requires
        increasing(ks),
        0 <= i < ks.len(),
    ensures
        place_of(ks, ks[i]) == i,
{
    let j = place_of(ks, ks[i]);
    assert(0 <= j < ks.len() && ks[j] == ks[i]);
}

impl<V> HalfEdgeMesh<V> {
    /// The vertex keys in increasing order.
    pub open spec fn vertex_keys(&self) -> Seq<usize> {
        keys_in_order(self.vertex_map().dom())
    }

    /// The edge keys in increasing order.
    pub open spec fn edge_keys(&self) -> Seq<usize> {
        keys_in_order(self.edge_map().dom())
    }

    /// The positions of the live vertices, in key order.
    pub open spec fn live_positions(&self) -> Seq<V> {
        self.vertex_keys().map_values(|v: usize| self.positions()[v as int])
    }

    /// The triangles listed from the first `n` edges in key order, and the edges seen so
    /// far: an edge not yet seen gives the triangle through it, its next edge and the next
    /// edge's next, each vertex named by its place among the live vertices, and all three
    /// count as seen.
    pub open spec fn faces_upto(&self, n: nat) -> (Seq<(usize, usize, usize)>, Set<usize>)
        decreases n,
    {
        if n == 0 {
            (Seq::empty(), Set::empty())
        } else {
            let (tris, seen) = self.faces_upto((n - 1) as nat);
            let k = self.edge_keys()[n - 1];
            if seen.contains(k) {
                (tris, seen)
            } else {
                let id2 = self.spec_edge(HalfEdgeId(k)).spec_next();
                let id3 = self.spec_edge(id2).spec_next();
                let vk = self.vertex_keys();
                (
                    tris.push(
                        crate::mesh_triangle::canonical_rotation(
                            place_of(vk, self.spec_edge(HalfEdgeId(k)).spec_vertex()) as usize,
                            place_of(vk, self.spec_edge(id2).spec_vertex()) as usize,
                            place_of(vk, self.spec_edge(id3).spec_vertex()) as usize,
                        ),
                    ),
                    seen.insert(k).insert(id2.0).insert(id3.0),
                )
            }
        }
    }

    /// The triangles of the mesh, as [`Self::as_mesh`] lists them.
    pub open spec fn face_list(&self) -> Seq<(usize, usize, usize)> {
        self.faces_upto(self.edge_keys().len()).0
    }
}

impl<V: Copy> HalfEdgeMesh<V> {
    /// The mesh as a plain triangle mesh: the live vertices in key order, renumbered from 0,
    /// and one triangle per face, found by walking the edges in key order.
    #[verifier::rlimit(30)]
    pub fn as_mesh(&self) -> (r: Mesh<V>)
        requires
            self.wf(),
        ensures
            r.spec_vertices() == self.live_positions(),
            r.spec_triangles().map_values(|t: MeshTriangle| t@) == self.face_list(),
    {
        let vkeys = vertex_slab_keys(&self.vertices);
        proof {
            assert(vkeys@.to_set() =~= self.vertex_map().dom());
            lemma_keys_in_order(vkeys@, self.vertex_map().dom());
        }
        let vb: usize = if vkeys.len() == 0 { 0 } else { vkeys[vkeys.len() - 1] + 1 };
        let mut place: Vec<usize> = Vec::new();
        while place.len() < vb
            invariant
                place.len() <= vb,
            decreases vb - place.len(),
        {
            place.push(usize::MAX);
        }
        let mut vertices: Vec<V> = Vec::new();
        let mut i: usize = 0;
        while i < vkeys.len()
            invariant
                self.wf(),
                i <= vkeys.len(),
                vkeys@ == self.vertex_keys(),
                increasing(vkeys@),
                forall|k: usize| self.vertex_map().contains_key(k) <==> vkeys@.contains(k),
                place.len() == vb,
                forall|j: int| 0 <= j < vkeys.len() ==> vkeys[j] < vb,
                vertices@ == vkeys@.take(i as int).map_values(|v: usize| self.positions()[v as int]),
                forall|j: int| 0 <= j < i ==> #[trigger] place[vkeys[j] as int] == j,
            decreases vkeys.len() - i,
        {
            let v = vkeys[i];
            proof {
                assert(vkeys@.contains(v));
                let _ = self.vertex_map()[v];
            }
            place.set(v, i);
            vertices.push(*self.position(v));
            proof {
                assert forall|j: int| 0 <= j < i + 1 implies #[trigger] place[vkeys[j] as int] == j by {
                    if j < i {
                        assert(vkeys[j] < vkeys[i as int]);
                    }
                }
                assert(vkeys@.take(i + 1) =~= vkeys@.take(i as int).push(v));
            }
            i = i + 1;
        }
        proof {
            assert(vkeys@.take(vkeys.len() as int) =~= vkeys@);
        }
        let ids = self.edges();
        let ghost ks = ids@.map_values(|e: HalfEdgeId| e.0);
        proof {
            assert(ks.to_set() =~= self.edge_map().dom()) by {
                assert forall|k: usize| ks.to_set().contains(k) <==> self.edge_map().contains_key(k) by {
                    if ks.to_set().contains(k) {
                        let j = choose|j: int| 0 <= j < ks.len() && ks[j] == k;
                        assert(ids[j] == HalfEdgeId(k));
                    }
                    if self.edge_map().contains_key(k) {
                        assert(ids@.contains(HalfEdgeId(k)));
                        let j = choose|j: int| 0 <= j < ids.len() && ids[j] == HalfEdgeId(k);
                        assert(ks[j] == k);
                    }
                }
            }
            lemma_keys_in_order(ks, self.edge_map().dom());
        }
        let eb = Self::edge_bound(&ids);
        let mut seen: Vec<bool> = Vec::new();
        while seen.len() < eb
            invariant
                seen.len() <= eb,
                forall|j: int| 0 <= j < seen.len() ==> !seen[j],
            decreases eb - seen.len(),
        {
            seen.push(false);
        }
        let mut tris: Vec<MeshTriangle> = Vec::new();
        let mut i: usize = 0;
        while i < ids.len()
            invariant
                self.wf(),
                i <= ids.len(),
                ks == self.edge_keys(),
                ks == ids@.map_values(|e: HalfEdgeId| e.0),
                forall|k: usize| self.edge_map().contains_key(k) <==> ids@.contains(HalfEdgeId(k)),
                forall|j: int| 0 <= j < ids.len() ==> ids[j].0 < eb,
                forall|k: usize| self.edge_map().contains_key(k) ==> k < eb,
                vkeys@ == self.vertex_keys(),
                increasing(vkeys@),
                place.len() == vb,
                forall|j: int| 0 <= j < vkeys.len() ==> #[trigger] place[vkeys[j] as int] == j,
                forall|v: usize| self.vertex_map().contains_key(v) ==> vkeys@.contains(v),
                forall|j: int| 0 <= j < vkeys.len() ==> vkeys[j] < vb,
                seen.len() == eb,
                tris@.map_values(|t: MeshTriangle| t@) == self.faces_upto(i as nat).0,
                forall|k: usize| k < eb ==> (seen[k as int] <==> self.faces_upto(i as nat).1.contains(k)),
            decreases ids.len() - i,
        {
            let id1 = ids[i];
            proof {
                assert(ks[i as int] == id1.0);
                assert(ids@[i as int] == HalfEdgeId(id1.0));
                assert(self.edge_map().contains_key(id1.0));
            }
            if !seen[id1.0] {
                let e1 = self.edge(id1);
                proof {
                    let _ = self.edge_map()[id1.0];
                }
                let id2 = e1.next;
                let e2 = self.edge(id2);
                proof {
                    let _ = self.edge_map()[id2.0];
                }
                let id3 = e2.next;
                let e3 = self.edge(id3);
                proof {
                    let _ = self.edge_map()[id3.0];
                }
                seen.set(id1.0, true);
                seen.set(id2.0, true);
                seen.set(id3.0, true);
                proof {
                    assert forall|v: usize| self.vertex_map().contains_key(v) implies place[v as int] == place_of(vkeys@, v) by {
                        assert(vkeys@.contains(v));
                        let j = choose|j: int| 0 <= j < vkeys@.len() && vkeys@[j] == v;
                        lemma_place_of(vkeys@, j);
                        assert(place[vkeys[j] as int] == j);
                    }
                    assert forall|v: usize| self.vertex_map().contains_key(v) implies v < vb by {
                        assert(vkeys@.contains(v));
                        let j = choose|j: int| 0 <= j < vkeys@.len() && vkeys@[j] == v;
                        assert(vkeys[j] < vb);
                    }
                }
                let t = MeshTriangle::new(place[e1.vertex], place[e2.vertex], place[e3.vertex]);
                tris.push(t);
                proof {
                    assert(tris@.map_values(|t: MeshTriangle| t@) =~= self.faces_upto(i as nat).0.push(t@));
                }
            }
            i = i + 1;
        }
        proof {
            assert(ks.len() == ids.len());
        }
        Mesh::new(vertices, tris)
    }
}


/// No directed side occurs twice among the triangles.
pub open spec fn sides_distinct(tris: Seq<MeshTriangle>) -> bool {
    forall|j: int, k: int| 0 <= j < k < 3 * tris.len() ==> tri_dedge(tris, j) != tri_dedge(tris, k)
}

/// Every triangle starts at its smallest vertex, as [`MeshTriangle::new`] leaves it.
pub open spec fn triangles_canonical(tris: Seq<MeshTriangle>) -> bool {
    forall|t: int|
        0 <= t < tris.len() ==> crate::mesh_triangle::canonical_rotation(
            (#[trigger] tris[t]@).0,
            tris[t]@.1,
            tris[t]@.2,
        ) == tris[t]@
}

/// Among sides that are all distinct, the last one equal to side `j` is side `j`.
proof fn lemma_last_side_of(tris: Seq<MeshTriangle>, j: int, m: int)
    requires
        sides_distinct(tris),
        0 <= j < m <= 3 * tris.len(),
    ensures
        last_side(tris, tri_dedge(tris, j), m) == j,
    decreases m,
{
    if m - 1 != j {
        assert(tri_dedge(tris, j) != tri_dedge(tris, m - 1));
        lemma_last_side_of(tris, j, m - 1);
    }
}

impl<V> HalfEdgeMesh<V> {
    /// The sides of triangle `u` come next in key order: side 0 is unseen and gives triangle
    /// `u`, and the other two are then seen.
    #[verifier::spinoff_prover]
    #[verifier::rlimit(40)]
    proof fn lemma_faces_step(&self, mesh: Mesh<V>, u: nat)
        requires
            self.wf(),
            self.built_from(mesh),
            sides_distinct(mesh.spec_triangles()),
            triangles_canonical(mesh.spec_triangles()),
            u < mesh.spec_triangles().len(),
            3 * mesh.spec_triangles().len() <= usize::MAX,
            mesh.spec_vertices().len() <= usize::MAX,
            self.edge_keys() == Seq::new(3 * mesh.spec_triangles().len(), |i: int| i as usize),
            self.vertex_keys() == Seq::new(mesh.spec_vertices().len(), |i: int| i as usize),
            self.faces_upto(3 * u) == (
                mesh.spec_triangles().take(u as int).map_values(|x: MeshTriangle| x@),
                Set::new(|k: usize| k < 3 * u),
            ),
        ensures
            self.faces_upto(3 * u + 3) == (
                mesh.spec_triangles().take(u as int + 1).map_values(|x: MeshTriangle| x@),
                Set::new(|k: usize| k < 3 * u + 3),
            ),
    {
        let tris = mesh.spec_triangles();
        let n = 3 * tris.len();
        let k0 = (3 * u) as usize;
        let k1 = (3 * u + 1) as usize;
        let k2 = (3 * u + 2) as usize;
        assert(k0 == 3 * u && k1 == 3 * u + 1 && k2 == 3 * u + 2);
        assert((3 * u) / 3 == u && (3 * u) % 3 == 0) by (nonlinear_arith);
        assert((3 * u + 1) / 3 == u && (3 * u + 1) % 3 == 1) by (nonlinear_arith);
        assert((3 * u + 2) / 3 == u && (3 * u + 2) % 3 == 2) by (nonlinear_arith);
        assert(self.edge_keys()[3 * u as int] == k0);
        assert(self.edge_keys()[3 * u as int + 1] == k1);
        assert(self.edge_keys()[3 * u as int + 2] == k2);
        lemma_last_side_of(tris, 3 * u as int + 1, n as int);
        lemma_last_side_of(tris, 3 * u as int + 2, n as int);
        let e0 = self.edge_map()[k0];
        let e1 = self.edge_map()[k1];
        let e2 = self.edge_map()[k2];
        assert(e0.spec_next() == HalfEdgeId(k1));
        assert(e1.spec_next() == HalfEdgeId(k2));
        let tv = tris[u as int]@;
        let vk = self.vertex_keys();
        assert(increasing(vk));
        assert(e0.spec_vertex() == tv.0 && e1.spec_vertex() == tv.1 && e2.spec_vertex() == tv.2);
        assert(self.has_vertex(tv.0) && self.has_vertex(tv.1) && self.has_vertex(tv.2));
        lemma_place_of(vk, tv.0 as int);
        lemma_place_of(vk, tv.1 as int);
        lemma_place_of(vk, tv.2 as int);
        let before = self.faces_upto(3 * u);
        assert(!before.1.contains(k0));
        let after = self.faces_upto((3 * u + 1) as nat);
        assert(after.0 == before.0.push(tv));
        assert(after.1 =~= Set::new(|k: usize| k < 3 * u + 3));
        assert(after.1.contains(k1) && after.1.contains(k2));
        assert(self.faces_upto((3 * u + 2) as nat) == after);
        assert(self.faces_upto(3 * u + 3) == after);
        assert(tris.take(u as int + 1).map_values(|x: MeshTriangle| x@) =~= tris.take(u as int).map_values(
            |x: MeshTriangle| x@,
        ).push(tv));
    }

    /// Walking the edges built from `mesh` in key order meets side 0 of each triangle first,
    /// so after `t` triangles' sides the list holds those `t` triangles.
    #[verifier::spinoff_prover]
    #[verifier::rlimit(40)]
    proof fn lemma_faces_built(&self, mesh: Mesh<V>, t: nat)
        requires
            self.wf(),
            self.built_from(mesh),
            sides_distinct(mesh.spec_triangles()),
            triangles_canonical(mesh.spec_triangles()),
            t <= mesh.spec_triangles().len(),
            3 * mesh.spec_triangles().len() <= usize::MAX,
            mesh.spec_vertices().len() <= usize::MAX,
            self.edge_keys() == Seq::new(3 * mesh.spec_triangles().len(), |i: int| i as usize),
            self.vertex_keys() == Seq::new(mesh.spec_vertices().len(), |i: int| i as usize),
        ensures
            self.faces_upto(3 * t) == (
                mesh.spec_triangles().take(t as int).map_values(|x: MeshTriangle| x@),
                Set::new(|k: usize| k < 3 * t),
            ),
        decreases t,
    {
        if t == 0 {
            assert(mesh.spec_triangles().take(0).map_values(|x: MeshTriangle| x@) =~= Seq::empty());
            assert(Set::new(|k: usize| k < 0) =~= Set::<usize>::empty());
        } else {
            let u = (t - 1) as nat;
            self.lemma_faces_built(mesh, u);
            self.lemma_faces_step(mesh, u);
        }
    }

    /// Turning a mesh into half edges and back gives the same vertices and triangles, when
    /// no directed side occurs twice and every triangle starts at its smallest vertex.
    pub proof fn lemma_round_trip(&self, mesh: Mesh<V>)
        requires
            half_edge_ready(mesh),
            self.wf(),
            self.built_from(mesh),
            sides_distinct(mesh.spec_triangles()),
            triangles_canonical(mesh.spec_triangles()),
        ensures
            self.live_positions() == mesh.spec_vertices(),
            self.face_list() == mesh.spec_triangles().map_values(|x: MeshTriangle| x@),
    {
        let tris = mesh.spec_triangles();
        let n = 3 * tris.len();
        let nv = mesh.spec_vertices().len();
        let eks = Seq::new(n, |i: int| i as usize);
        let vks = Seq::new(nv, |i: int| i as usize);
        mesh.lemma_sizes();
        assert(eks.to_set() =~= self.edge_map().dom()) by {
            assert forall|k: usize| eks.to_set().contains(k) <==> self.edge_map().contains_key(k) by {
                if k < n {
                    assert(eks[k as int] == k);
                }
            }
        }
        assert(vks.to_set() =~= self.vertex_map().dom()) by {
            assert forall|k: usize| vks.to_set().contains(k) <==> self.vertex_map().contains_key(k) by {
                if k < nv {
                    assert(vks[k as int] == k);
                }
            }
        }
        lemma_keys_in_order(eks, self.edge_map().dom());
        lemma_keys_in_order(vks, self.vertex_map().dom());
        self.lemma_faces_built(mesh, tris.len());
        assert(tris.take(tris.len() as int) =~= tris);
        assert(self.live_positions() =~= mesh.spec_vertices());
    }
}


impl<V> HalfEdgeMesh<V> {
    /// The vertices at the far ends of the edges around `v`.
    pub open spec fn neighbours(&self, v: usize) -> Set<usize> {
        self.fan_seq(v).map_values(|e: HalfEdgeId| self.far_vertex(e)).to_set()
    }

    /// Whether contracting edge `id` must be refused: some neighbour of its far vertex is a
    /// neighbour of its vertex other than the two across its triangles (contracting would
    /// pinch the surface), or the two vertices have `max_degree` or more edges between them.
    pub open spec fn contraction_blocked_spec(&self, id: HalfEdgeId, max_degree: usize) -> bool {
        let v1 = self.vertex_of(id);
        let v2 = self.far_vertex(id);
        let n1 = self.neighbours(v1);
        let keep = n1.remove(self.vertex_of(self.prev_of(id))).remove(
            self.vertex_of(self.prev_of(self.twin_of(id))),
        );
        let shared = exists|i: int|
            0 <= i < self.fan_len(v2) && keep.contains(#[trigger] self.far_vertex(self.fan_seq(v2)[i]));
        shared || n1.len() + self.fan_len(v2) >= max_degree
    }

    /// Whether contracting edge `id` must be refused, as [`Self::contraction_blocked_spec`]
    /// says.
    pub fn contraction_blocked(&self, id: HalfEdgeId, max_degree: usize) -> (r: bool)
        requires
            self.is_manifold(),
            self.has_edge(id),
        ensures
            r == self.contraction_blocked_spec(id, max_degree),
    {
        proof {
            self.lemma_links_live(id);
            self.lemma_links_live(self.twin_of(id));
        }
        let v1 = self.edge(id).vertex;
        let t = self.edge(id).twin;
        let v2 = self.edge(t).vertex;
        proof {
            assert(self.fan_ok(v1));
            assert(self.fan_ok(v2));
            let s1 = self.vertex_map()[v1].spec_edge();
            let n1 = choose|n: nat| self.fan_closes_at(s1, n) && self.fan_complete(v1, s1, n);
            assert(self.fan_closes(v1));
            let s2 = self.vertex_map()[v2].spec_edge();
            let n2 = choose|n: nat| self.fan_closes_at(s2, n) && self.fan_complete(v2, s2, n);
            assert(self.fan_closes(v2));
            let _ = self.vertex_map()[v1];
            let _ = self.vertex_map()[v2];
        }
        let f1 = self.fan(v1);
        let ghost s1 = self.vertex_map()[v1].spec_edge();
        proof {
            let _ = self.vertex_map()[v1];
            self.lemma_links_live(s1);
            assert forall|j: int| 0 <= j < f1.len() implies self.has_edge(#[trigger] f1[j]) by {
                self.lemma_fan_iterate_live(s1, j as nat);
            }
        }
        let mut ns1: HashSet<usize> = HashSet::new();
        let mut i: usize = 0;
        while i < f1.len()
            invariant
                self.wf(),
                i <= f1.len(),
                forall|j: int| 0 <= j < f1.len() ==> self.has_edge(#[trigger] f1[j]),
                ns1@ == f1@.take(i as int).map_values(|e: HalfEdgeId| self.far_vertex(e)).to_set(),
            decreases f1.len() - i,
        {
            let e = f1[i];
            proof {
                self.lemma_links_live(e);
            }
            let far = self.edge(self.edge(e).twin).vertex;
            ns1.insert(far);
            proof {
                assert(f1@.take(i + 1).map_values(|e: HalfEdgeId| self.far_vertex(e)) =~= f1@.take(
                    i as int,
                ).map_values(|e: HalfEdgeId| self.far_vertex(e)).push(far));
                vstd::seq_lib::seq_to_set_distributes_over_add(
                    f1@.take(i as int).map_values(|e: HalfEdgeId| self.far_vertex(e)),
                    seq![far],
                );
                assert forall|y: usize| seq![far].to_set().contains(y) <==> y == far by {
                    if y == far {
                        assert(seq![far][0] == far);
                    }
                }
                assert(seq![far].to_set() =~= set![far]);
                assert(f1@.take(i as int).map_values(|e: HalfEdgeId| self.far_vertex(e)).push(far) =~= f1@.take(
                    i as int,
                ).map_values(|e: HalfEdgeId| self.far_vertex(e)) + seq![far]);
                assert(ns1@ =~= f1@.take(i + 1).map_values(|e: HalfEdgeId| self.far_vertex(e)).to_set());
            }
            i = i + 1;
        }
        proof {
            assert(f1@.take(f1.len() as int) =~= f1@);
        }
        let degree = ns1.len();
        proof {
            self.lemma_links_live(self.prev_of(id));
            self.lemma_links_live(self.prev_of(t));
        }
        let w = self.edge(self.edge(id).prev).vertex;
        let x = self.edge(self.edge(t).prev).vertex;
        ns1.remove(&w);
        ns1.remove(&x);
        let f2 = self.fan(v2);
        let ghost s2 = self.vertex_map()[v2].spec_edge();
        proof {
            let _ = self.vertex_map()[v2];
            self.lemma_links_live(s2);
            assert forall|j: int| 0 <= j < f2.len() implies self.has_edge(#[trigger] f2[j]) by {
                self.lemma_fan_iterate_live(s2, j as nat);
            }
        }
        let mut shared = false;
        let mut k: usize = 0;
        while k < f2.len()
            invariant_except_break
                !shared,
            invariant
                self.wf(),
                k <= f2.len(),
                forall|j: int| 0 <= j < f2.len() ==> self.has_edge(#[trigger] f2[j]),
                forall|j: int| 0 <= j < k ==> !ns1@.contains(#[trigger] self.far_vertex(f2@[j])),
            ensures
                shared ==> exists|j: int| 0 <= j < f2.len() && ns1@.contains(#[trigger] self.far_vertex(f2@[j])),
                !shared ==> forall|j: int| 0 <= j < f2.len() ==> !ns1@.contains(#[trigger] self.far_vertex(f2@[j])),
            decreases f2.len() - k,
        {
            let e = f2[k];
            proof {
                self.lemma_links_live(e);
            }
            let far = self.edge(self.edge(e).twin).vertex;
            if ns1.contains(&far) {
                shared = true;
                assert(ns1@.contains(self.far_vertex(f2@[k as int])));
                break;
            }
            k = k + 1;
        }
        let too_many = degree >= max_degree || f2.len() >= max_degree - degree;
        shared || too_many
    }
}


/// Every link of an edge map and a vertex map names a live edge or vertex, and every vertex
/// key is below `np`.
pub open spec fn links_ok(em: Map<usize, HalfEdge>, vm: Map<usize, HalfEdgeVertex>, np: nat) -> bool {
    &&& em.dom().finite()
    &&& vm.dom().finite()
    &&& forall|k: usize|
        em.contains_key(k) ==> {
            let e = #[trigger] em[k];
            &&& em.contains_key(e.spec_twin().0)
            &&& em.contains_key(e.spec_next().0)
            &&& em.contains_key(e.spec_prev().0)
            &&& vm.contains_key(e.spec_vertex())
        }
    &&& forall|v: usize| vm.contains_key(v) ==> em.contains_key((#[trigger] vm[v]).spec_edge().0) && v < np
}

impl<V> HalfEdgeMesh<V> {
    /// A mesh whose maps' links are all live is well formed.
    pub proof fn lemma_wf_links(&self)
        requires
            links_ok(self.edge_map(), self.vertex_map(), self.positions().len()),
        ensures
            self.wf(),
    {
        assert forall|k: usize| self.edge_map().contains_key(k) implies {
            let e = #[trigger] self.edge_map()[k];
            &&& self.has_edge(e.spec_twin())
            &&& self.has_edge(e.spec_next())
            &&& self.has_edge(e.spec_prev())
            &&& self.has_vertex(e.spec_vertex())
        } by {
            let _ = self.edge_map()[k];
        }
        assert forall|v: usize| self.vertex_map().contains_key(v) implies {
            &&& self.has_edge((#[trigger] self.vertex_map()[v]).spec_edge())
            &&& v < self.positions().len()
        } by {
            let _ = self.vertex_map()[v];
        }
    }

    /// In a manifold mesh the edge a vertex's fan starts at leaves that vertex.
    proof fn lemma_exemplar_leaves(&self, u: usize)
        requires
            self.is_manifold(),
            self.has_vertex(u),
        ensures
            self.has_edge(self.vertex_map()[u].spec_edge()),
            self.vertex_of(self.vertex_map()[u].spec_edge()) == u,
    {
        assert(self.fan_ok(u));
        let s = self.vertex_map()[u].spec_edge();
        let n = choose|n: nat| self.fan_closes_at(s, n) && self.fan_complete(u, s, n);
        assert(self.fan_iterate(s, 0) == s);
        assert(self.spec_edge(self.fan_iterate(s, 0)).spec_vertex() == u);
    }

    /// The edge links left by contracting a non-folding edge of a manifold mesh.
    #[verifier::rlimit(80)]
    #[verifier::spinoff_prover]
    proof fn lemma_contraction_edge_links(&self, f1: HalfEdgeId)
        requires
            self.is_manifold(),
            self.has_edge(f1),
            !self.contraction_folds(f1),
        ensures
            ({
                let m = self.contracted_edge_map(f1);
                let vm = self.contracted_vertex_map(f1);
                &&& m.dom().finite()
                &&& forall|k: usize|
                    m.contains_key(k) ==> {
                        let e = #[trigger] m[k];
                        &&& m.contains_key(e.spec_twin().0)
                        &&& m.contains_key(e.spec_next().0)
                        &&& m.contains_key(e.spec_prev().0)
                        &&& vm.contains_key(e.spec_vertex())
                    }
                &&& forall|k: usize|
                    #[trigger] m.contains_key(k) <==> (self.edge_map().contains_key(k) && k != f1.0
                        && k != self.prev_of(f1).0 && k != self.twin_of(self.prev_of(f1)).0 && k
                        != self.twin_of(f1).0 && k != self.next_of(self.twin_of(f1)).0 && k
                        != self.twin_of(self.next_of(self.twin_of(f1))).0)
            }),
    {
        self.lemma_contraction_sites(f1);
        self.lemma_links_live(f1);
        let em = self.edge_map();
        let v1 = self.vertex_of(f1);
        let r1 = self.twin_of(f1);
        let v2 = self.vertex_of(r1);
        let f2 = self.next_of(f1);
        let f3 = self.prev_of(f1);
        let f3p = self.twin_of(f3);
        let r2 = self.next_of(r1);
        let r3 = self.prev_of(r1);
        let r2p = self.twin_of(r2);
        let a = self.next_of(f3p);
        let b = self.prev_of(f3p);
        self.lemma_face(f1);
        self.lemma_face(r1);
        self.lemma_face(f3p);
        self.lemma_face(r2p);
        self.lemma_twin(f1);
        self.lemma_twin(f3);
        self.lemma_twin(r2);
        let base = self.relabeled_edges(v1, v2);
        let g1 = base.remove(f1.0).remove(f3.0).remove(f3p.0);
        let g2 = g1.insert(f2.0, g1[f2.0].with_next(a));
        let g3 = g2.insert(a.0, g2[a.0].with_prev(f2));
        let g4 = g3.insert(f2.0, g3[f2.0].with_prev(b));
        let g5 = g4.insert(b.0, g4[b.0].with_next(f2));
        let gone = g5[r2p.0];
        let g6 = g5.remove(r1.0).remove(r2.0).remove(r2p.0);
        let n = gone.spec_next();
        let p = gone.spec_prev();
        if r2p == b {
            assert(n == f2 && p == a);
        } else {
            assert(gone == base[r2p.0]);
            assert(n == self.next_of(r2p) && p == self.prev_of(r2p));
        }
        let g7 = g6.insert(n.0, g6[n.0].with_prev(r3));
        let g8 = g7.insert(r3.0, g7[r3.0].with_next(n));
        let g9 = g8.insert(p.0, g8[p.0].with_next(r3));
        let m = g9.insert(r3.0, g9[r3.0].with_prev(p));
        assert(m == self.contracted_edge_map(f1));
        assert forall|k: usize| #[trigger] m.contains_key(k) <==> (em.contains_key(k) && k != f1.0 && k != f3.0
            && k != f3p.0 && k != r1.0 && k != r2.0 && k != r2p.0) by {}
        // Fields other than the links of a triangle never change.
        assert forall|k: usize| m.contains_key(k) implies #[trigger] m[k].spec_twin() == em[k].spec_twin()
            && m[k].spec_vertex() == (if em[k].spec_vertex() == v1 { v2 } else { em[k].spec_vertex() }) by {}
        assert forall|k: usize| m.contains_key(k) implies {
            &&& m.contains_key((#[trigger] m[k]).spec_twin().0)
            &&& m.contains_key(m[k].spec_next().0)
            &&& m.contains_key(m[k].spec_prev().0)
        } by {
            let id = HalfEdgeId(k);
            self.lemma_links_live(id);
            self.lemma_face(id);
            self.lemma_twin(id);
            let t = em[k].spec_twin();
            assert(self.twin_of(t) == id);
            if k == f2.0 {
                assert(m[k].spec_next() == a);
            } else if k == r3.0 {
                assert(m[k].spec_next() == n);
                assert(m[k].spec_prev() == p);
            } else if k == a.0 {
                assert(m[k].spec_prev() == f2);
            }
        }
        assert(m.dom().finite()) by {
            assert(m.dom().subset_of(em.dom()));
            vstd::set_lib::lemma_set_subset_finite(em.dom(), m.dom());
        }
    }

    /// The fan starts left by contracting a non-folding edge of a manifold mesh.
    #[verifier::rlimit(100)]
    proof fn lemma_contraction_vertex_links(&self, f1: HalfEdgeId)
        requires
            self.is_manifold(),
            self.has_edge(f1),
            !self.contraction_folds(f1),
        ensures
            self.contracted_vertex_map(f1).dom().finite(),
            forall|u: usize|
                self.contracted_vertex_map(f1).contains_key(u) ==> self.contracted_edge_map(f1).contains_key(
                    (#[trigger] self.contracted_vertex_map(f1)[u]).spec_edge().0,
                ),
            forall|u: usize| #[trigger] self.contracted_vertex_map(f1).contains_key(u) ==> u < self.positions().len(),
    {
        self.lemma_contraction_sites(f1);
        self.lemma_contraction_edge_links(f1);
        self.lemma_links_live(f1);
        let v1 = self.vertex_of(f1);
        let r1 = self.twin_of(f1);
        let v2 = self.vertex_of(r1);
        let f2 = self.next_of(f1);
        let f3 = self.prev_of(f1);
        let f3p = self.twin_of(f3);
        let r2 = self.next_of(r1);
        let r3 = self.prev_of(r1);
        let r2p = self.twin_of(r2);
        let a = self.next_of(f3p);
        let w = self.vertex_of(f3);
        let x = self.vertex_of(r3);
        let m = self.contracted_edge_map(f1);
        let base = self.relabeled_edges(v1, v2);
        let vm = self.contracted_vertex_map(f1);
        assert(base[f3.0].spec_vertex() == w);
        assert(base[r3.0].spec_vertex() == x);
        // Fans that started at a removed edge were moved to a surviving one.
        self.lemma_far_is_next(r1);
        self.lemma_far_is_next(f3);
        self.lemma_far_is_next(r2);
        self.lemma_twin(f1);
        self.lemma_twin(f3);
        self.lemma_twin(r1);
        self.lemma_twin(r2);
        self.lemma_face(f1);
        self.lemma_face(r1);
        assert(self.vertex_of(r2) == v1 && self.vertex_of(f3p) == v1 && self.vertex_of(r2p) == x);
        let vw0 = self.vertex_map().remove(v1);
        let vw1 = if vw0[v2].spec_edge() == r1 {
            vw0.insert(v2, HalfEdgeVertex::leaving(f2))
        } else {
            vw0
        };
        let vw2 = if vw1[w].spec_edge() == f3 {
            vw1.insert(w, HalfEdgeVertex::leaving(a))
        } else {
            vw1
        };
        let vw3 = if vw2[x].spec_edge() == r2p {
            vw2.insert(x, HalfEdgeVertex::leaving(r3))
        } else {
            vw2
        };
        assert(vm == vw3);
        assert forall|u: usize| vm.contains_key(u) implies m.contains_key((#[trigger] vm[u]).spec_edge().0)
            && u < self.positions().len() by {
            assert(self.vertex_map().contains_key(u));
            let _ = self.vertex_map()[u];
            self.lemma_exemplar_leaves(u);
            let e = self.vertex_map()[u].spec_edge();
            self.lemma_links_live(e);
            if u == v2 {
                if vw0[v2].spec_edge() != r1 {
                    assert(vm[u] == self.vertex_map()[u]);
                }
            } else if u == w {
                if vw1[w].spec_edge() != f3 {
                    assert(vm[u] == self.vertex_map()[u]);
                }
            } else if u == x {
                if vw2[x].spec_edge() != r2p {
                    assert(vm[u] == self.vertex_map()[u]);
                }
            } else {
                assert(vm[u] == self.vertex_map()[u]);
            }
        }
        assert(vm.dom().subset_of(self.vertex_map().dom()));
        vstd::set_lib::lemma_set_subset_finite(self.vertex_map().dom(), vm.dom());
        assert forall|u: usize| #[trigger] vm.contains_key(u) implies u < self.positions().len() by {
            assert(self.vertex_map().contains_key(u));
            let _ = self.vertex_map()[u];
        }
    }

    /// Contracting an edge of a manifold mesh that does not fold leaves a well-formed mesh:
    /// every remaining link names a remaining edge or vertex.
    proof fn lemma_contraction_links_unfolded(&self, f1: HalfEdgeId)
        requires
            self.is_manifold(),
            self.has_edge(f1),
            !self.contraction_folds(f1),
        ensures
            links_ok(self.contracted_edge_map(f1), self.contracted_vertex_map(f1), self.positions().len()),
    {
        self.lemma_contraction_edge_links(f1);
        self.lemma_contraction_vertex_links(f1);
    }
}


impl<V> HalfEdgeMesh<V> {
    /// A walk that reaches one of two edges the fan step swaps stays on those two edges.
    proof fn lemma_iterate_within(&self, s: HalfEdgeId, i: nat, j: nat, a: HalfEdgeId, b: HalfEdgeId)
        requires
            self.fan_step(a) == b,
            self.fan_step(b) == a,
            self.fan_iterate(s, i) == a || self.fan_iterate(s, i) == b,
        ensures
            self.fan_iterate(s, i + j) == a || self.fan_iterate(s, i + j) == b,
        decreases j,
    {
        if j > 0 {
            self.lemma_iterate_within(s, i, (j - 1) as nat, a, b);
            assert(self.fan_iterate(s, i + j) == self.fan_step(self.fan_iterate(s, (i + j - 1) as nat)));
        }
    }

    /// When the fan step swaps two edges leaving `v`, they are all the edges leaving `v`.
    proof fn lemma_two_edge_fan(&self, v: usize, a: HalfEdgeId, b: HalfEdgeId)
        requires
            self.is_manifold(),
            self.has_edge(a),
            self.vertex_of(a) == v,
            self.fan_step(a) == b,
            self.fan_step(b) == a,
        ensures
            forall|k: usize|
                self.edge_map().contains_key(k) && #[trigger] self.edge_map()[k].spec_vertex() == v ==> HalfEdgeId(
                    k,
                ) == a || HalfEdgeId(k) == b,
    {
        self.lemma_links_live(a);
        assert(self.fan_ok(v));
        let s = self.vertex_map()[v].spec_edge();
        let n = choose|n: nat| self.fan_closes_at(s, n) && self.fan_complete(v, s, n);
        assert(self.edge_map().contains_key(a.0) && self.edge_map()[a.0].spec_vertex() == v);
        let i = choose|i: nat| i < n && #[trigger] self.fan_iterate(s, i) == HalfEdgeId(a.0);
        self.lemma_iterate_within(s, i, (n - i) as nat, a, b);
        assert(self.fan_iterate(s, n) == s);
        assert(self.fan_iterate(s, 0) == s);
        assert forall|k: usize|
            self.edge_map().contains_key(k) && #[trigger] self.edge_map()[k].spec_vertex() == v implies HalfEdgeId(
                k,
            ) == a || HalfEdgeId(k) == b by {
            let j = choose|j: nat| j < n && #[trigger] self.fan_iterate(s, j) == HalfEdgeId(k);
            self.lemma_iterate_within(s, 0, j, a, b);
        }
    }

    /// Contracting an edge of a manifold mesh whose two triangles share all three sides
    /// removes them and their three vertices and leaves a well-formed mesh.
    #[verifier::rlimit(80)]
    #[verifier::spinoff_prover]
    proof fn lemma_contraction_links_folded(&self, f1: HalfEdgeId)
        requires
            self.is_manifold(),
            self.has_edge(f1),
            self.contraction_folds(f1),
        ensures
            links_ok(self.contracted_edge_map(f1), self.contracted_vertex_map(f1), self.positions().len()),
    {
        self.lemma_contraction_sites(f1);
        self.lemma_links_live(f1);
        let em = self.edge_map();
        let v1 = self.vertex_of(f1);
        let r1 = self.twin_of(f1);
        let v2 = self.vertex_of(r1);
        let f2 = self.next_of(f1);
        let f3 = self.prev_of(f1);
        let f3p = self.twin_of(f3);
        let r2 = self.next_of(r1);
        let r3 = self.prev_of(r1);
        let f2p = self.twin_of(f2);
        let w = self.vertex_of(f3);
        let x = self.vertex_of(r3);
        self.lemma_face(f1);
        self.lemma_face(r1);
        self.lemma_twin(f1);
        self.lemma_twin(f2);
        self.lemma_twin(f3);
        self.lemma_twin(r1);
        self.lemma_twin(r3);
        self.lemma_far_is_next(f3);
        self.lemma_far_is_next(f1);
        self.lemma_far_is_next(f2);
        self.lemma_far_is_next(r1);
        assert(f3p == r2 && f2p == r3);
        assert(self.fan_step(f1) == f3p && self.fan_step(f3p) == f1);
        assert(self.fan_step(r1) == f2 && self.fan_step(f2) == r1);
        assert(self.fan_step(f3) == r3 && self.fan_step(r3) == f3);
        assert(self.vertex_of(f3p) == v1 && self.vertex_of(f2) == v2 && x == w);
        self.lemma_two_edge_fan(v1, f1, f3p);
        self.lemma_two_edge_fan(v2, r1, f2);
        self.lemma_two_edge_fan(w, f3, r3);
        let base = self.relabeled_edges(v1, v2);
        let m = self.contracted_edge_map(f1);
        assert(m == base.remove(f1.0).remove(r1.0).remove(f3.0).remove(f3p.0).remove(f2.0).remove(r3.0));
        assert forall|k: usize| #[trigger] m.contains_key(k) <==> (em.contains_key(k) && k != f1.0 && k != r1.0
            && k != f3.0 && k != r2.0 && k != f2.0 && k != r3.0) by {}
        let vm = self.contracted_vertex_map(f1);
        let vw0 = self.vertex_map().remove(v1);
        let vw1 = if vw0[v2].spec_edge() == r1 {
            vw0.insert(v2, HalfEdgeVertex::leaving(f2))
        } else {
            vw0
        };
        assert(base[f3.0].spec_vertex() == w);
        assert(base[r3.0].spec_vertex() == x);
        let vw2 = if vw1[w].spec_edge() == f3 {
            vw1.insert(w, HalfEdgeVertex::leaving(self.next_of(f3p)))
        } else {
            vw1
        };
        let vw3 = if vw2[x].spec_edge() == self.twin_of(r2) {
            vw2.insert(x, HalfEdgeVertex::leaving(r3))
        } else {
            vw2
        };
        assert(vm == vw3.remove(v2).remove(x));
        assert forall|u: usize| #[trigger] vm.contains_key(u) <==> (self.vertex_map().contains_key(u) && u != v1
            && u != v2 && u != w) by {}
        assert forall|k: usize| m.contains_key(k) implies {
            let e = #[trigger] m[k];
            &&& m.contains_key(e.spec_twin().0)
            &&& m.contains_key(e.spec_next().0)
            &&& m.contains_key(e.spec_prev().0)
            &&& vm.contains_key(e.spec_vertex())
        } by {
            let id = HalfEdgeId(k);
            self.lemma_links_live(id);
            self.lemma_face(id);
            self.lemma_twin(id);
            assert(m[k] == base[k]);
            assert(em[k].spec_vertex() != v1 && em[k].spec_vertex() != v2 && em[k].spec_vertex() != w);
            assert(base[k] == em[k]);
        }
        assert forall|u: usize| vm.contains_key(u) implies m.contains_key((#[trigger] vm[u]).spec_edge().0) by {
            self.lemma_exemplar_leaves(u);
            let e = self.vertex_map()[u].spec_edge();
            self.lemma_links_live(e);
            assert(vm[u] == self.vertex_map()[u]);
        }
        assert forall|u: usize| #[trigger] vm.contains_key(u) implies u < self.positions().len() by {
            let _ = self.vertex_map()[u];
        }
        assert(m.dom().subset_of(em.dom()));
        vstd::set_lib::lemma_set_subset_finite(em.dom(), m.dom());
        assert(vm.dom().subset_of(self.vertex_map().dom()));
        vstd::set_lib::lemma_set_subset_finite(self.vertex_map().dom(), vm.dom());
    }
}


impl<V> HalfEdgeMesh<V> {
    /// Contracting any edge of a manifold mesh leaves a well-formed mesh: every remaining
    /// twin, next and previous link names a remaining edge, every remaining edge leaves a
    /// remaining vertex, and every remaining vertex's fan starts at a remaining edge.
    pub proof fn lemma_contraction_well_formed(&self, f1: HalfEdgeId)
        requires
            self.is_manifold(),
            self.has_edge(f1),
        ensures
            links_ok(self.contracted_edge_map(f1), self.contracted_vertex_map(f1), self.positions().len()),
    {
        if self.contraction_folds(f1) {
            self.lemma_contraction_links_folded(f1);
        } else {
            self.lemma_contraction_links_unfolded(f1);
        }
    }
}


/// In the edge map `m`, edge `k` and its twin point at each other and leave different
/// vertices, and `k`, its next and its previous edge close a triangle linked both ways.
pub open spec fn local_ok(m: Map<usize, HalfEdge>, k: usize) -> bool {
    let e = m[k];
    let t = m[e.spec_twin().0];
    let n = m[e.spec_next().0];
    let p = m[e.spec_prev().0];
    &&& t.spec_twin() == HalfEdgeId(k)
    &&& t.spec_vertex() != e.spec_vertex()
    &&& n.spec_next() == e.spec_prev()
    &&& n.spec_prev() == HalfEdgeId(k)
    &&& p.spec_next() == HalfEdgeId(k)
    &&& p.spec_prev() == e.spec_next()
}

impl<V> HalfEdgeMesh<V> {
    /// Contracting an edge of a manifold mesh that does not fold keeps every remaining edge
    /// paired with its twin and every remaining triangle closed.
    #[verifier::rlimit(100)]
    #[verifier::spinoff_prover]
    pub proof fn lemma_contraction_keeps_faces(&self, f1: HalfEdgeId)
        requires
            self.is_manifold(),
            self.has_edge(f1),
            !self.contraction_folds(f1),
        ensures
            forall|k: usize|
                #[trigger] self.contracted_edge_map(f1).contains_key(k) ==> local_ok(
                    self.contracted_edge_map(f1),
                    k,
                ),
    {
        self.lemma_contraction_sites(f1);
        self.lemma_contraction_edge_links(f1);
        self.lemma_links_live(f1);
        let em = self.edge_map();
        let v1 = self.vertex_of(f1);
        let r1 = self.twin_of(f1);
        let v2 = self.vertex_of(r1);
        let f2 = self.next_of(f1);
        let f3 = self.prev_of(f1);
        let f3p = self.twin_of(f3);
        let r2 = self.next_of(r1);
        let r3 = self.prev_of(r1);
        let r2p = self.twin_of(r2);
        let a = self.next_of(f3p);
        let b = self.prev_of(f3p);
        self.lemma_face(f1);
        self.lemma_face(r1);
        self.lemma_face(f3p);
        self.lemma_face(r2p);
        self.lemma_twin(f1);
        self.lemma_twin(f3);
        self.lemma_twin(r2);
        self.lemma_far_is_next(f1);
        let base = self.relabeled_edges(v1, v2);
        let g1 = base.remove(f1.0).remove(f3.0).remove(f3p.0);
        let g2 = g1.insert(f2.0, g1[f2.0].with_next(a));
        let g3 = g2.insert(a.0, g2[a.0].with_prev(f2));
        let g4 = g3.insert(f2.0, g3[f2.0].with_prev(b));
        let g5 = g4.insert(b.0, g4[b.0].with_next(f2));
        let gone = g5[r2p.0];
        let g6 = g5.remove(r1.0).remove(r2.0).remove(r2p.0);
        let n = gone.spec_next();
        let p = gone.spec_prev();
        if r2p == b {
            assert(n == f2 && p == a);
        } else {
            assert(gone == base[r2p.0]);
            assert(n == self.next_of(r2p) && p == self.prev_of(r2p));
        }
        let g7 = g6.insert(n.0, g6[n.0].with_prev(r3));
        let g8 = g7.insert(r3.0, g7[r3.0].with_next(n));
        let g9 = g8.insert(p.0, g8[p.0].with_next(r3));
        let m = g9.insert(r3.0, g9[r3.0].with_prev(p));
        assert(m == self.contracted_edge_map(f1));
        assert forall|k: usize| #[trigger] m.contains_key(k) implies local_ok(m, k) by {
            let id = HalfEdgeId(k);
            self.lemma_links_live(id);
            self.lemma_face(id);
            self.lemma_twin(id);
            let t = self.twin_of(id);
            self.lemma_links_live(t);
            self.lemma_far_is_next(id);
            self.lemma_far_is_next(t);
            self.lemma_face(t);
            self.lemma_face(self.next_of(id));
            self.lemma_face(self.prev_of(id));
            if self.vertex_of(id) == v1 && self.vertex_of(t) == v2 {
                self.lemma_edge_unique(id, f1);
            }
            if self.vertex_of(id) == v2 && self.vertex_of(t) == v1 {
                self.lemma_edge_unique(id, r1);
            }
        }
    }
}

impl<V> HalfEdgeMesh<V> {
    /// What contracting a non-folding edge leaves of each surviving edge: its twin, its vertex
    /// (renamed when it was the contracted one), and, away from the four vertices around the
    /// contracted edge, its previous edge.
    #[verifier::rlimit(80)]
    #[verifier::spinoff_prover]
    proof fn lemma_contraction_fields(&self, f1: HalfEdgeId)
        requires
            self.is_manifold(),
            self.has_edge(f1),
            !self.contraction_folds(f1),
        ensures
            forall|k: usize|
                #[trigger] self.contracted_edge_map(f1).contains_key(k) ==> {
                    let e = self.edge_map()[k];
                    let c = self.contracted_edge_map(f1)[k];
                    let v1 = self.vertex_of(f1);
                    let v2 = self.vertex_of(self.twin_of(f1));
                    &&& self.edge_map().contains_key(k)
                    &&& c.spec_twin() == e.spec_twin()
                    &&& c.spec_vertex() == (if e.spec_vertex() == v1 { v2 } else { e.spec_vertex() })
                    &&& (e.spec_vertex() != v1 && e.spec_vertex() != v2 && e.spec_vertex() != self.vertex_of(
                        self.prev_of(f1),
                    ) && e.spec_vertex() != self.vertex_of(self.prev_of(self.twin_of(f1))))
                        ==> c.spec_prev() == e.spec_prev()
                },
    {
        self.lemma_contraction_sites(f1);
        self.lemma_contraction_edge_links(f1);
        self.lemma_links_live(f1);
        let v1 = self.vertex_of(f1);
        let r1 = self.twin_of(f1);
        let v2 = self.vertex_of(r1);
        let f2 = self.next_of(f1);
        let f3 = self.prev_of(f1);
        let f3p = self.twin_of(f3);
        let r2 = self.next_of(r1);
        let r3 = self.prev_of(r1);
        let r2p = self.twin_of(r2);
        let a = self.next_of(f3p);
        let b = self.prev_of(f3p);
        self.lemma_face(f1);
        self.lemma_face(r1);
        self.lemma_face(f3p);
        self.lemma_face(r2p);
        self.lemma_twin(f1);
        self.lemma_twin(f3);
        self.lemma_twin(r2);
        self.lemma_far_is_next(f1);
        self.lemma_far_is_next(f3p);
        self.lemma_far_is_next(f3);
        self.lemma_far_is_next(r1);
        self.lemma_far_is_next(r2);
        self.lemma_far_is_next(r2p);
        let base = self.relabeled_edges(v1, v2);
        let g1 = base.remove(f1.0).remove(f3.0).remove(f3p.0);
        let g2 = g1.insert(f2.0, g1[f2.0].with_next(a));
        let g3 = g2.insert(a.0, g2[a.0].with_prev(f2));
        let g4 = g3.insert(f2.0, g3[f2.0].with_prev(b));
        let g5 = g4.insert(b.0, g4[b.0].with_next(f2));
        let gone = g5[r2p.0];
        let g6 = g5.remove(r1.0).remove(r2.0).remove(r2p.0);
        let n = gone.spec_next();
        let p = gone.spec_prev();
        if r2p == b {
            assert(n == f2 && p == a);
        } else {
            assert(gone == base[r2p.0]);
            assert(n == self.next_of(r2p) && p == self.prev_of(r2p));
            self.lemma_far_is_next(r2p);
        }
        let g7 = g6.insert(n.0, g6[n.0].with_prev(r3));
        let g8 = g7.insert(r3.0, g7[r3.0].with_next(n));
        let g9 = g8.insert(p.0, g8[p.0].with_next(r3));
        let m = g9.insert(r3.0, g9[r3.0].with_prev(p));
        assert(m == self.contracted_edge_map(f1));
        assert(self.vertex_of(a) == self.vertex_of(f3));
        assert(self.vertex_of(f2) == v2);
        assert(self.vertex_of(n) == v1 || self.vertex_of(n) == v2);
        assert forall|k: usize| #[trigger] m.contains_key(k) implies {
            let e = self.edge_map()[k];
            let c = m[k];
            &&& self.edge_map().contains_key(k)
            &&& c.spec_twin() == e.spec_twin()
            &&& c.spec_vertex() == (if e.spec_vertex() == v1 { v2 } else { e.spec_vertex() })
            &&& (e.spec_vertex() != v1 && e.spec_vertex() != v2 && e.spec_vertex() != self.vertex_of(f3)
                && e.spec_vertex() != self.vertex_of(r3)) ==> c.spec_prev() == e.spec_prev()
        } by {
            assert(base[k] == (if self.edge_map()[k].spec_vertex() == v1 {
                self.edge_map()[k].with_vertex(v2)
            } else {
                self.edge_map()[k]
            }));
        }
    }

    /// What contracting a non-folding edge leaves of the previous-edge links at the far corners
    /// of the two removed triangles.
    #[verifier::rlimit(80)]
    #[verifier::spinoff_prover]
    proof fn lemma_contraction_corner_prevs(&self, f1: HalfEdgeId)
        requires
            self.is_manifold(),
            self.has_edge(f1),
            !self.contraction_folds(f1),
        ensures
            forall|k: usize|
                #[trigger] self.contracted_edge_map(f1).contains_key(k) ==> {
                    let e = self.edge_map()[k];
                    let c = self.contracted_edge_map(f1)[k];
                    let v1 = self.vertex_of(f1);
                    let v2 = self.vertex_of(self.twin_of(f1));
                    &&& (e.spec_vertex() == self.vertex_of(self.prev_of(f1)) && HalfEdgeId(k) != self.next_of(
                        self.twin_of(self.prev_of(f1)),
                    )) ==> c.spec_prev() == e.spec_prev()
                    &&& (e.spec_vertex() == self.vertex_of(self.prev_of(self.twin_of(f1))) && HalfEdgeId(k)
                        != self.prev_of(self.twin_of(f1))) ==> c.spec_prev() == e.spec_prev()
                },
            self.contracted_edge_map(f1)[self.next_of(self.twin_of(self.prev_of(f1))).0].spec_prev()
                == self.next_of(f1),
            self.contracted_edge_map(f1)[self.prev_of(self.twin_of(f1)).0].spec_prev() == self.prev_of(
                self.twin_of(self.next_of(self.twin_of(f1))),
            ),
    {
        self.lemma_contraction_sites(f1);
        self.lemma_contraction_edge_links(f1);
        self.lemma_links_live(f1);
        let v1 = self.vertex_of(f1);
        let r1 = self.twin_of(f1);
        let v2 = self.vertex_of(r1);
        let f2 = self.next_of(f1);
        let f3 = self.prev_of(f1);
        let f3p = self.twin_of(f3);
        let r2 = self.next_of(r1);
        let r3 = self.prev_of(r1);
        let r2p = self.twin_of(r2);
        let a = self.next_of(f3p);
        let b = self.prev_of(f3p);
        self.lemma_face(f1);
        self.lemma_face(r1);
        self.lemma_face(f3p);
        self.lemma_face(r2p);
        self.lemma_twin(f1);
        self.lemma_twin(f3);
        self.lemma_twin(r2);
        self.lemma_far_is_next(f1);
        self.lemma_far_is_next(f3p);
        self.lemma_far_is_next(f3);
        self.lemma_far_is_next(r1);
        self.lemma_far_is_next(r2);
        self.lemma_far_is_next(r2p);
        let base = self.relabeled_edges(v1, v2);
        let g1 = base.remove(f1.0).remove(f3.0).remove(f3p.0);
        let g2 = g1.insert(f2.0, g1[f2.0].with_next(a));
        let g3 = g2.insert(a.0, g2[a.0].with_prev(f2));
        let g4 = g3.insert(f2.0, g3[f2.0].with_prev(b));
        let g5 = g4.insert(b.0, g4[b.0].with_next(f2));
        let gone = g5[r2p.0];
        let g6 = g5.remove(r1.0).remove(r2.0).remove(r2p.0);
        let n = gone.spec_next();
        let p = gone.spec_prev();
        if r2p == b {
            assert(n == f2 && p == a);
        } else {
            assert(gone == base[r2p.0]);
            assert(n == self.next_of(r2p) && p == self.prev_of(r2p));
            self.lemma_far_is_next(r2p);
        }
        let g7 = g6.insert(n.0, g6[n.0].with_prev(r3));
        let g8 = g7.insert(r3.0, g7[r3.0].with_next(n));
        let g9 = g8.insert(p.0, g8[p.0].with_next(r3));
        let m = g9.insert(r3.0, g9[r3.0].with_prev(p));
        assert(m == self.contracted_edge_map(f1));
        assert(self.vertex_of(a) == self.vertex_of(f3));
        assert(self.vertex_of(f2) == v2);
        assert(self.vertex_of(n) == v1 || self.vertex_of(n) == v2);
        assert(p == self.prev_of(r2p)) by {
            if r2p == b {
                self.lemma_face(f3p);
            }
        }
        assert(m[a.0].spec_prev() == f2);
        assert(m[r3.0].spec_prev() == p);
        assert forall|k: usize| #[trigger] m.contains_key(k) implies {
            let e = self.edge_map()[k];
            let c = m[k];
            &&& (e.spec_vertex() == self.vertex_of(f3) && HalfEdgeId(k) != a) ==> c.spec_prev() == e.spec_prev()
            &&& (e.spec_vertex() == self.vertex_of(r3) && HalfEdgeId(k) != r3) ==> c.spec_prev() == e.spec_prev()
        } by {
            assert(base[k] == (if self.edge_map()[k].spec_vertex() == v1 {
                self.edge_map()[k].with_vertex(v2)
            } else {
                self.edge_map()[k]
            }));
        }
    }

    /// What contracting a non-folding edge leaves of the previous-edge links at the two ends of
    /// the contracted edge.
    #[verifier::rlimit(80)]
    #[verifier::spinoff_prover]
    proof fn lemma_contraction_merge_prevs(&self, f1: HalfEdgeId)
        requires
            self.is_manifold(),
            self.has_edge(f1),
            !self.contraction_folds(f1),
        ensures
            forall|k: usize|
                #[trigger] self.contracted_edge_map(f1).contains_key(k) ==> {
                    let e = self.edge_map()[k];
                    let c = self.contracted_edge_map(f1)[k];
                    let r2p = self.twin_of(self.next_of(self.twin_of(f1)));
                    ((e.spec_vertex() == self.vertex_of(f1) || e.spec_vertex() == self.vertex_of(
                        self.twin_of(f1),
                    )) && HalfEdgeId(k) != self.next_of(f1) && (r2p == self.prev_of(
                        self.twin_of(self.prev_of(f1)),
                    ) || HalfEdgeId(k) != self.next_of(r2p))) ==> c.spec_prev() == e.spec_prev()
                },
            ({
                let r2p = self.twin_of(self.next_of(self.twin_of(f1)));
                let b = self.prev_of(self.twin_of(self.prev_of(f1)));
                let r3 = self.prev_of(self.twin_of(f1));
                &&& self.contracted_edge_map(f1)[self.next_of(f1).0].spec_prev() == (if r2p == b {
                    r3
                } else {
                    b
                })
                &&& r2p != b ==> self.contracted_edge_map(f1)[self.next_of(r2p).0].spec_prev() == r3
            }),
    {
        self.lemma_contraction_sites(f1);
        self.lemma_contraction_edge_links(f1);
        self.lemma_links_live(f1);
        let v1 = self.vertex_of(f1);
        let r1 = self.twin_of(f1);
        let v2 = self.vertex_of(r1);
        let f2 = self.next_of(f1);
        let f3 = self.prev_of(f1);
        let f3p = self.twin_of(f3);
        let r2 = self.next_of(r1);
        let r3 = self.prev_of(r1);
        let r2p = self.twin_of(r2);
        let a = self.next_of(f3p);
        let b = self.prev_of(f3p);
        self.lemma_face(f1);
        self.lemma_face(r1);
        self.lemma_face(f3p);
        self.lemma_face(r2p);
        self.lemma_twin(f1);
        self.lemma_twin(f3);
        self.lemma_twin(r2);
        self.lemma_far_is_next(f1);
        self.lemma_far_is_next(f3p);
        self.lemma_far_is_next(f3);
        self.lemma_far_is_next(r1);
        self.lemma_far_is_next(r2);
        self.lemma_far_is_next(r2p);
        let base = self.relabeled_edges(v1, v2);
        let g1 = base.remove(f1.0).remove(f3.0).remove(f3p.0);
        let g2 = g1.insert(f2.0, g1[f2.0].with_next(a));
        let g3 = g2.insert(a.0, g2[a.0].with_prev(f2));
        let g4 = g3.insert(f2.0, g3[f2.0].with_prev(b));
        let g5 = g4.insert(b.0, g4[b.0].with_next(f2));
        let gone = g5[r2p.0];
        let g6 = g5.remove(r1.0).remove(r2.0).remove(r2p.0);
        let n = gone.spec_next();
        let p = gone.spec_prev();
        if r2p == b {
            assert(n == f2 && p == a);
        } else {
            assert(gone == base[r2p.0]);
            assert(n == self.next_of(r2p) && p == self.prev_of(r2p));
            self.lemma_far_is_next(r2p);
        }
        let g7 = g6.insert(n.0, g6[n.0].with_prev(r3));
        let g8 = g7.insert(r3.0, g7[r3.0].with_next(n));
        let g9 = g8.insert(p.0, g8[p.0].with_next(r3));
        let m = g9.insert(r3.0, g9[r3.0].with_prev(p));
        assert(m == self.contracted_edge_map(f1));
        assert(self.vertex_of(a) == self.vertex_of(f3));
        assert(self.vertex_of(f2) == v2);
        assert(self.vertex_of(n) == v1 || self.vertex_of(n) == v2);
        assert(m[f2.0].spec_prev() == (if r2p == b { r3 } else { b }));
        assert(r2p != b ==> m[n.0].spec_prev() == r3);
        assert forall|k: usize| #[trigger] m.contains_key(k) implies {
            let e = self.edge_map()[k];
            let c = m[k];
            ((e.spec_vertex() == v1 || e.spec_vertex() == v2) && HalfEdgeId(k) != f2 && (r2p == b
                || HalfEdgeId(k) != self.next_of(r2p))) ==> c.spec_prev() == e.spec_prev()
        } by {
            assert(base[k] == (if self.edge_map()[k].spec_vertex() == v1 {
                self.edge_map()[k].with_vertex(v2)
            } else {
                self.edge_map()[k]
            }));
        }
    }

    /// The walk around a vertex comes back to its start first after one number of steps only.
    proof fn lemma_closes_once(&self, s: HalfEdgeId, n: nat, m: nat)
        requires
            self.fan_closes_at(s, n),
            self.fan_closes_at(s, m),
        ensures
            n == m,
    {
        if n < m {
            assert(self.fan_iterate(s, n) == s);
        } else if m < n {
            assert(self.fan_iterate(s, m) == s);
        }
    }

    /// In a manifold mesh, an edge leaving `v` and ending at `u` puts `u` among the
    /// neighbours of `v`, at a place of its fan.
    proof fn lemma_neighbour_place(&self, e: HalfEdgeId)
        requires
            self.is_manifold(),
            self.has_edge(e),
        ensures
            exists|i: int|
                0 <= i < self.fan_len(self.vertex_of(e)) && #[trigger] self.fan_seq(self.vertex_of(e))[i] == e,
            self.neighbours(self.vertex_of(e)).contains(self.far_vertex(e)),
    {
        self.lemma_links_live(e);
        let v = self.vertex_of(e);
        assert(self.fan_ok(v));
        let s = self.vertex_map()[v].spec_edge();
        let n = choose|n: nat| self.fan_closes_at(s, n) && self.fan_complete(v, s, n);
        self.lemma_closes_once(s, n, self.fan_len(v));
        assert(self.edge_map().contains_key(e.0) && self.edge_map()[e.0].spec_vertex() == v);
        let i = choose|i: nat| i < n && #[trigger] self.fan_iterate(s, i) == HalfEdgeId(e.0);
        assert(self.fan_seq(v)[i as int] == e);
        let fs = self.fan_seq(v).map_values(|x: HalfEdgeId| self.far_vertex(x));
        assert(fs[i as int] == self.far_vertex(e));
        assert(fs.contains(self.far_vertex(e)));
    }
}

impl<V> HalfEdgeMesh<V> {
    /// The edges of a non-folding contraction that go, and the vertices they leave and reach.
    proof fn lemma_removed_ends(&self, f1: HalfEdgeId)
        requires
            self.is_manifold(),
            self.has_edge(f1),
        ensures
            ({
                let v1 = self.vertex_of(f1);
                let r1 = self.twin_of(f1);
                let v2 = self.vertex_of(r1);
                let f3 = self.prev_of(f1);
                let f3p = self.twin_of(f3);
                let r2 = self.next_of(r1);
                let r2p = self.twin_of(r2);
                let w = self.vertex_of(f3);
                let x = self.vertex_of(self.prev_of(r1));
                &&& self.far_vertex(f1) == v2
                &&& self.vertex_of(f3p) == v1 && self.far_vertex(f3p) == w
                &&& self.far_vertex(f3) == v1
                &&& self.far_vertex(r1) == v1
                &&& self.vertex_of(r2) == v1 && self.far_vertex(r2) == x
                &&& self.vertex_of(r2p) == x && self.far_vertex(r2p) == v1
            }),
    {
        self.lemma_contraction_sites(f1);
        let r1 = self.twin_of(f1);
        let f3 = self.prev_of(f1);
        let r2 = self.next_of(r1);
        self.lemma_face(f1);
        self.lemma_face(r1);
        self.lemma_twin(f1);
        self.lemma_twin(f3);
        self.lemma_twin(r2);
        self.lemma_far_is_next(f3);
        self.lemma_far_is_next(r1);
        self.lemma_far_is_next(r2);
    }

    /// Walking the fan of a vertex away from the contracted edge's triangles takes the same
    /// steps after the contraction, each on an edge leaving that vertex.
    proof fn lemma_far_walk_same(&self, after: &Self, f1: HalfEdgeId, u: usize, i: nat)
        requires
            self.is_manifold(),
            self.has_edge(f1),
            !self.contraction_folds(f1),
            after.edge_map() == self.contracted_edge_map(f1),
            self.has_vertex(u),
            u != self.vertex_of(f1),
            u != self.far_vertex(f1),
            u != self.vertex_of(self.prev_of(f1)),
            u != self.vertex_of(self.prev_of(self.twin_of(f1))),
        ensures
            self.has_edge(self.fan_iterate(self.vertex_map()[u].spec_edge(), i)),
            self.vertex_of(self.fan_iterate(self.vertex_map()[u].spec_edge(), i)) == u,
            after.fan_iterate(self.vertex_map()[u].spec_edge(), i) == self.fan_iterate(
                self.vertex_map()[u].spec_edge(),
                i,
            ),
        decreases i,
    {
        let s = self.vertex_map()[u].spec_edge();
        if i == 0 {
            self.lemma_exemplar_leaves(u);
        } else {
            self.lemma_far_walk_same(after, f1, u, (i - 1) as nat);
            self.lemma_contraction_edge_links(f1);
            self.lemma_contraction_fields(f1);
            self.lemma_removed_ends(f1);
            self.lemma_contraction_sites(f1);
            let e = self.fan_iterate(s, (i - 1) as nat);
            self.lemma_links_live(e);
            self.lemma_face(e);
            let q = self.prev_of(e);
            self.lemma_links_live(q);
            self.lemma_far_is_next(q);
            let t = self.twin_of(q);
            assert(self.vertex_of(t) == u);
            assert(self.fan_iterate(s, i) == t);
            assert(after.fan_iterate(s, i) == after.fan_step(e));
            assert(self.contracted_edge_map(f1).contains_key(e.0));
            assert(self.contracted_edge_map(f1).contains_key(q.0));
            assert(after.edge_map()[e.0].spec_prev() == q);
            assert(after.edge_map()[q.0].spec_twin() == t);
        }
    }

    /// Contracting an edge of a manifold mesh, where the two triangles beside it share no
    /// second side and the contraction is not blocked, leaves a well-formed fan at every vertex
    /// other than the merged vertex and the far corners of those two triangles.
    #[verifier::rlimit(60)]
    #[verifier::spinoff_prover]
    proof fn lemma_contraction_keeps_far_fans(
        &self,
        after: &Self,
        f1: HalfEdgeId,
        max_degree: usize,
        u: usize,
    )
        requires
            self.is_manifold(),
            self.has_edge(f1),
            !self.contraction_folds(f1),
            !self.contraction_blocked_spec(f1, max_degree),
            after.edge_map() == self.contracted_edge_map(f1),
            after.vertex_map() == self.contracted_vertex_map(f1),
            after.has_vertex(u),
            u != self.far_vertex(f1),
            u != self.vertex_of(self.prev_of(f1)),
            u != self.vertex_of(self.prev_of(self.twin_of(f1))),
        ensures
            after.fan_ok(u),
    {
        self.lemma_contraction_sites(f1);
        self.lemma_contraction_edge_links(f1);
        self.lemma_contraction_fields(f1);
        self.lemma_removed_ends(f1);
        self.lemma_links_live(f1);
        let v1 = self.vertex_of(f1);
        let r1 = self.twin_of(f1);
        let v2 = self.vertex_of(r1);
        let f3 = self.prev_of(f1);
        let r3 = self.prev_of(r1);
        let w = self.vertex_of(f3);
        let x = self.vertex_of(r3);
        let m = self.relabeled_edges(v1, v2);
        assert(m[f3.0].spec_vertex() == w);
        assert(m[r3.0].spec_vertex() == x);
        assert(u != v1 && self.has_vertex(u) && after.vertex_map()[u] == self.vertex_map()[u]);
        let s = self.vertex_map()[u].spec_edge();
        assert(self.fan_ok(u));
        let n = choose|n: nat| self.fan_closes_at(s, n) && self.fan_complete(u, s, n);
        assert forall|i: nat| #[trigger] after.fan_iterate(s, i) == self.fan_iterate(s, i) by {
            self.lemma_far_walk_same(after, f1, u, i);
        }
        assert(after.fan_closes_at(s, n)) by {
            assert(after.fan_iterate(s, n) == self.fan_iterate(s, n));
            assert forall|i: nat| 1 <= i < n implies #[trigger] after.fan_iterate(s, i) != s by {
                assert(self.fan_iterate(s, i) != s);
            }
        }
        assert forall|i: nat| i < n implies after.far_vertex(#[trigger] self.fan_iterate(s, i)) == (if self.far_vertex(
            self.fan_iterate(s, i),
        ) == v1 {
            v2
        } else {
            self.far_vertex(self.fan_iterate(s, i))
        }) && after.spec_edge(self.fan_iterate(s, i)).spec_vertex() == u by {
            self.lemma_far_walk_same(after, f1, u, i);
            let e = self.fan_iterate(s, i);
            self.lemma_twin(e);
            self.lemma_links_live(e);
            let t = self.twin_of(e);
            assert(self.far_vertex(t) == u);
            assert(self.contracted_edge_map(f1).contains_key(e.0));
            assert(self.contracted_edge_map(f1).contains_key(t.0));
        }
        assert forall|i: nat, j: nat| i < j < n implies after.far_vertex(
            #[trigger] after.fan_iterate(s, i),
        ) != after.far_vertex(#[trigger] after.fan_iterate(s, j)) by {
            let ei = self.fan_iterate(s, i);
            let ej = self.fan_iterate(s, j);
            assert(self.far_vertex(ei) != self.far_vertex(ej));
            if after.far_vertex(ei) == after.far_vertex(ej) {
                self.lemma_far_walk_same(after, f1, u, i);
                self.lemma_far_walk_same(after, f1, u, j);
                let (e1, e2) = if self.far_vertex(ei) == v1 { (ei, ej) } else { (ej, ei) };
                assert(self.far_vertex(e1) == v1 && self.far_vertex(e2) == v2);
                self.lemma_twin(e1);
                self.lemma_twin(e2);
                self.lemma_links_live(e1);
                self.lemma_links_live(e2);
                let t1 = self.twin_of(e1);
                let t2 = self.twin_of(e2);
                self.lemma_neighbour_place(t1);
                self.lemma_neighbour_place(t2);
                let keep = self.neighbours(v1).remove(w).remove(x);
                assert(keep.contains(u));
                let idx = choose|idx: int|
                    0 <= idx < self.fan_len(v2) && #[trigger] self.fan_seq(v2)[idx] == t2;
                assert(keep.contains(self.far_vertex(self.fan_seq(v2)[idx])));
                assert(false);
            }
        }
        assert forall|k: usize|
            after.edge_map().contains_key(k) && #[trigger] after.edge_map()[k].spec_vertex() == u implies exists|
                i: nat,
            | i < n && #[trigger] after.fan_iterate(s, i) == HalfEdgeId(k) by {
            assert(self.edge_map().contains_key(k) && self.edge_map()[k].spec_vertex() == u);
            let i = choose|i: nat| i < n && #[trigger] self.fan_iterate(s, i) == HalfEdgeId(k);
            assert(after.fan_iterate(s, i) == HalfEdgeId(k));
        }
        assert(after.fan_complete(u, s, n));
    }
}

impl<V> HalfEdgeMesh<V> {
    /// Walking `i` steps and then `j` more is walking `i + j` steps.
    proof fn lemma_iterate_add(&self, c: HalfEdgeId, i: nat, j: nat)
        ensures
            self.fan_iterate(c, i + j) == self.fan_iterate(self.fan_iterate(c, i), j),
        decreases j,
    {
        if j > 0 {
            self.lemma_iterate_add(c, i, (j - 1) as nat);
            assert(self.fan_iterate(c, i + j) == self.fan_step(self.fan_iterate(c, (i + j - 1) as nat)));
        }
    }

    /// A fan that closes and is complete when walked from one of its edges is the fan of its
    /// vertex, walked from the vertex's exemplar.
    proof fn lemma_fan_ok_from(&self, v: usize, c: HalfEdgeId, n: nat, k: nat)
        requires
            self.fan_closes_at(c, n),
            self.fan_complete(v, c, n),
            self.vertex_map().contains_key(v),
            k < n,
            self.vertex_map()[v].spec_edge() == self.fan_iterate(c, k),
        ensures
            self.fan_ok(v),
    {
        self.lemma_rotate(v, c, n, k);
    }

    /// A fan that closes and is complete when walked from one of its edges closes and is
    /// complete when walked from any other.
    proof fn lemma_rotate(&self, v: usize, c: HalfEdgeId, n: nat, k: nat)
        requires
            self.fan_closes_at(c, n),
            self.fan_complete(v, c, n),
            k < n,
        ensures
            self.fan_closes_at(self.fan_iterate(c, k), n),
            self.fan_complete(v, self.fan_iterate(c, k), n),
    {
        let d = self.fan_iterate(c, k);
        assert forall|i: nat| i <= n implies #[trigger] self.fan_iterate(d, i) == self.fan_iterate(
            c,
            if k + i < n { k + i } else { (k + i - n) as nat },
        ) by {
            self.lemma_iterate_add(c, k, i);
            if k + i >= n {
                self.lemma_iterate_add(c, n, (k + i - n) as nat);
            }
        }
        assert(self.fan_iterate(d, n) == d);
        assert forall|i: nat| 1 <= i < n implies #[trigger] self.fan_iterate(d, i) != d by {
            let j: nat = if k + i < n { k + i } else { (k + i - n) as nat };
            assert(self.fan_iterate(d, i) == self.fan_iterate(c, j));
            if j < k {
                assert(self.fan_iterate(c, j) != self.fan_iterate(c, k));
            } else {
                assert(self.fan_iterate(c, k) != self.fan_iterate(c, j));
            }
        }
        assert(self.fan_closes_at(d, n));
        assert forall|i: nat, j: nat| i < j < n implies #[trigger] self.fan_iterate(d, i)
            != #[trigger] self.fan_iterate(d, j) && self.far_vertex(self.fan_iterate(d, i))
            != self.far_vertex(self.fan_iterate(d, j)) by {
            let a: nat = if k + i < n { k + i } else { (k + i - n) as nat };
            let b: nat = if k + j < n { k + j } else { (k + j - n) as nat };
            assert(self.fan_iterate(d, i) == self.fan_iterate(c, a));
            assert(self.fan_iterate(d, j) == self.fan_iterate(c, b));
            if a < b {
                assert(self.fan_iterate(c, a) != self.fan_iterate(c, b));
                assert(self.far_vertex(self.fan_iterate(c, a)) != self.far_vertex(self.fan_iterate(c, b)));
            } else {
                assert(self.fan_iterate(c, b) != self.fan_iterate(c, a));
                assert(self.far_vertex(self.fan_iterate(c, b)) != self.far_vertex(self.fan_iterate(c, a)));
            }
        }
        assert forall|i: nat| i < n implies self.spec_edge(#[trigger] self.fan_iterate(d, i)).spec_vertex() == v by {
            let a: nat = if k + i < n { k + i } else { (k + i - n) as nat };
            assert(self.fan_iterate(d, i) == self.fan_iterate(c, a));
        }
        assert forall|q: usize|
            self.edge_map().contains_key(q) && #[trigger] self.edge_map()[q].spec_vertex() == v implies exists|
                i: nat,
            | i < n && #[trigger] self.fan_iterate(d, i) == HalfEdgeId(q) by {
            let j = choose|j: nat| j < n && #[trigger] self.fan_iterate(c, j) == HalfEdgeId(q);
            let i: nat = if j >= k { (j - k) as nat } else { (j + n - k) as nat };
            assert(self.fan_iterate(d, i) == self.fan_iterate(c, j));
        }
        assert(self.fan_complete(v, d, n));
    }
}

impl<V> HalfEdgeMesh<V> {
    /// The walk in `after` from `c` takes `c`'s second successor in `self` as its first step and
    /// then steps as `self` does.
    proof fn lemma_skip_walk(&self, after: &Self, c: HalfEdgeId, n: nat, i: nat)
        requires
            1 <= i < n,
            after.fan_step(c) == self.fan_iterate(c, 2),
            forall|j: nat|
                2 <= j < n ==> after.fan_step(#[trigger] self.fan_iterate(c, j)) == self.fan_step(
                    self.fan_iterate(c, j),
                ),
        ensures
            after.fan_iterate(c, i) == self.fan_iterate(c, i + 1),
        decreases i,
    {
        if i > 1 {
            self.lemma_skip_walk(after, c, n, (i - 1) as nat);
            assert(after.fan_iterate(c, i) == after.fan_step(after.fan_iterate(c, (i - 1) as nat)));
            assert(self.fan_iterate(c, i + 1) == self.fan_step(self.fan_iterate(c, i)));
        } else {
            assert(after.fan_iterate(c, 0) == c);
            assert(self.fan_iterate(c, 0) == c);
            assert(self.fan_iterate(c, 1) == self.fan_step(c));
            assert(self.fan_iterate(c, 2) == self.fan_step(self.fan_iterate(c, 1)));
        }
    }

    /// When a walk around `u` loses the edge that followed `c` and otherwise steps as before,
    /// the shortened walk is the fan of `u`.
    proof fn lemma_skip_one(&self, after: &Self, u: usize, c: HalfEdgeId, n: nat)
        requires
            self.fan_closes_at(c, n),
            self.fan_complete(u, c, n),
            n >= 3,
            after.fan_step(c) == self.fan_iterate(c, 2),
            forall|j: nat|
                2 <= j < n ==> after.fan_step(#[trigger] self.fan_iterate(c, j)) == self.fan_step(
                    self.fan_iterate(c, j),
                ),
            forall|j: nat|
                j < n && j != 1 ==> {
                    &&& after.spec_edge(#[trigger] self.fan_iterate(c, j)).spec_vertex() == u
                    &&& after.far_vertex(self.fan_iterate(c, j)) == self.far_vertex(self.fan_iterate(c, j))
                },
            forall|k: usize|
                after.edge_map().contains_key(k) && #[trigger] after.edge_map()[k].spec_vertex() == u
                    ==> self.edge_map().contains_key(k) && self.edge_map()[k].spec_vertex() == u
                    && HalfEdgeId(k) != self.fan_iterate(c, 1),
            after.vertex_map().contains_key(u),
            after.edge_map().contains_key(after.vertex_map()[u].spec_edge().0),
            after.spec_edge(after.vertex_map()[u].spec_edge()).spec_vertex() == u,
        ensures
            after.fan_ok(u),
    {
        let m: nat = (n - 1) as nat;
        assert forall|i: nat| i < n implies #[trigger] after.fan_iterate(c, i) == self.fan_iterate(
            c,
            if i == 0 { 0 } else { i + 1 },
        ) by {
            if i >= 1 {
                self.lemma_skip_walk(after, c, n, i);
            }
        }
        assert(after.fan_iterate(c, m) == self.fan_iterate(c, n));
        assert forall|i: nat| 1 <= i < m implies #[trigger] after.fan_iterate(c, i) != c by {
            assert(after.fan_iterate(c, i) == self.fan_iterate(c, i + 1));
            assert(self.fan_iterate(c, 0) != self.fan_iterate(c, i + 1));
        }
        assert(after.fan_closes_at(c, m));
        assert forall|i: nat, j: nat| i < j < m implies #[trigger] after.fan_iterate(c, i)
            != #[trigger] after.fan_iterate(c, j) && after.far_vertex(after.fan_iterate(c, i))
            != after.far_vertex(after.fan_iterate(c, j)) by {
            let a: nat = if i == 0 { 0 } else { i + 1 };
            let b: nat = j + 1;
            assert(after.fan_iterate(c, i) == self.fan_iterate(c, a));
            assert(after.fan_iterate(c, j) == self.fan_iterate(c, b));
            assert(self.fan_iterate(c, a) != self.fan_iterate(c, b));
            assert(self.far_vertex(self.fan_iterate(c, a)) != self.far_vertex(self.fan_iterate(c, b)));
        }
        assert forall|i: nat| i < m implies after.spec_edge(#[trigger] after.fan_iterate(c, i)).spec_vertex() == u by {
            let a: nat = if i == 0 { 0 } else { i + 1 };
            assert(after.fan_iterate(c, i) == self.fan_iterate(c, a));
        }
        assert forall|q: usize|
            after.edge_map().contains_key(q) && #[trigger] after.edge_map()[q].spec_vertex() == u implies exists|
                i: nat,
            | i < m && #[trigger] after.fan_iterate(c, i) == HalfEdgeId(q) by {
            let j = choose|j: nat| j < n && #[trigger] self.fan_iterate(c, j) == HalfEdgeId(q);
            let i: nat = if j == 0 { 0 } else { (j - 1) as nat };
            assert(after.fan_iterate(c, i) == self.fan_iterate(c, j));
        }
        assert(after.fan_complete(u, c, m));
        let ex = after.vertex_map()[u].spec_edge();
        assert(after.edge_map().contains_key(ex.0) && after.edge_map()[ex.0].spec_vertex() == u);
        let k = choose|k: nat| k < m && #[trigger] after.fan_iterate(c, k) == HalfEdgeId(ex.0);
        after.lemma_fan_ok_from(u, c, m, k);
    }
}

impl<V> HalfEdgeMesh<V> {
    /// In a manifold mesh the fan of a vertex closes and is complete when walked from any edge
    /// leaving it, after as many steps as the fan has edges.
    proof fn lemma_fan_from_edge(&self, c: HalfEdgeId)
        requires
            self.is_manifold(),
            self.has_edge(c),
        ensures
            self.fan_closes_at(c, self.fan_len(self.vertex_of(c))),
            self.fan_complete(self.vertex_of(c), c, self.fan_len(self.vertex_of(c))),
    {
        self.lemma_links_live(c);
        let v = self.vertex_of(c);
        assert(self.fan_ok(v));
        let s = self.vertex_map()[v].spec_edge();
        let n = choose|n: nat| self.fan_closes_at(s, n) && self.fan_complete(v, s, n);
        self.lemma_closes_once(s, n, self.fan_len(v));
        assert(self.edge_map().contains_key(c.0) && self.edge_map()[c.0].spec_vertex() == v);
        let k = choose|k: nat| k < n && #[trigger] self.fan_iterate(s, k) == HalfEdgeId(c.0);
        self.lemma_rotate(v, s, n, k);
    }
}

impl<V> HalfEdgeMesh<V> {
    /// An edge leaving the far corner `w` of the triangle before the contracted edge, other than
    /// the removed side and the edge after the removed side's twin, steps around `w` as before.
    #[verifier::spinoff_prover]
    proof fn lemma_corner_step_kept(&self, after: &Self, f1: HalfEdgeId, e: HalfEdgeId, w: usize, skip: HalfEdgeId)
        requires
            self.is_manifold(),
            self.has_edge(f1),
            !self.contraction_folds(f1),
            after.edge_map() == self.contracted_edge_map(f1),
            self.has_edge(e),
            self.vertex_of(e) == w,
            (w == self.vertex_of(self.prev_of(f1)) && skip == self.next_of(self.twin_of(self.prev_of(f1))))
                || (w == self.vertex_of(self.prev_of(self.twin_of(f1))) && skip == self.prev_of(
                self.twin_of(f1),
            )),
            e != skip,
            e != self.prev_of(f1),
            e != self.twin_of(self.next_of(self.twin_of(f1))),
        ensures
            after.fan_step(e) == self.fan_step(e),
    {
        self.lemma_contraction_sites(f1);
        self.lemma_contraction_edge_links(f1);
        self.lemma_contraction_fields(f1);
        self.lemma_contraction_corner_prevs(f1);
        self.lemma_removed_ends(f1);
        let r1 = self.twin_of(f1);
        let f3 = self.prev_of(f1);
        let f3p = self.twin_of(f3);
        let r2 = self.next_of(r1);
        self.lemma_face(f3p);
        self.lemma_face(r1);
        self.lemma_links_live(e);
        self.lemma_face(e);
        let q = self.prev_of(e);
        self.lemma_links_live(q);
        self.lemma_far_is_next(q);
        assert(self.far_vertex(q) == w);
        let cm = self.contracted_edge_map(f1);
        assert(cm.contains_key(e.0));
        assert(q != f3p);
        assert(q != r2);
        assert(cm.contains_key(q.0));
    }

    /// An edge leaving the far corner `w` of one of the removed triangles, other than the
    /// removed side, leaves `w` after the contraction and reaches the same vertex, unless that
    /// vertex was the contracted one.
    #[verifier::spinoff_prover]
    proof fn lemma_corner_far_kept(&self, after: &Self, f1: HalfEdgeId, e: HalfEdgeId, w: usize)
        requires
            self.is_manifold(),
            self.has_edge(f1),
            !self.contraction_folds(f1),
            after.edge_map() == self.contracted_edge_map(f1),
            self.has_edge(e),
            self.vertex_of(e) == w,
            w == self.vertex_of(self.prev_of(f1)) || w == self.vertex_of(self.prev_of(self.twin_of(f1))),
            e != self.prev_of(f1),
            e != self.twin_of(self.next_of(self.twin_of(f1))),
            self.far_vertex(e) != self.vertex_of(f1),
        ensures
            after.has_edge(e),
            after.spec_edge(e).spec_vertex() == w,
            after.far_vertex(e) == self.far_vertex(e),
    {
        self.lemma_contraction_sites(f1);
        self.lemma_contraction_edge_links(f1);
        self.lemma_contraction_fields(f1);
        self.lemma_removed_ends(f1);
        let cm = self.contracted_edge_map(f1);
        self.lemma_links_live(e);
        self.lemma_twin(e);
        let t = self.twin_of(e);
        self.lemma_links_live(t);
        let f3 = self.prev_of(f1);
        let r2 = self.next_of(self.twin_of(f1));
        self.lemma_twin(f3);
        self.lemma_twin(r2);
        assert(self.far_vertex(t) == w);
        assert(cm.contains_key(e.0));
        assert(t != self.twin_of(f3));
        assert(t != r2);
        assert(cm.contains_key(t.0));
    }

    /// Contracting a non-folding edge of a manifold mesh leaves a well-formed fan at the far
    /// corner of the triangle before the edge: the walk there only loses the removed side.
    #[verifier::rlimit(40)]
    #[verifier::spinoff_prover]
    proof fn lemma_first_corner_fan(&self, after: &Self, f1: HalfEdgeId)
        requires
            self.is_manifold(),
            self.has_edge(f1),
            !self.contraction_folds(f1),
            after.edge_map() == self.contracted_edge_map(f1),
            after.vertex_map() == self.contracted_vertex_map(f1),
        ensures
            after.fan_ok(self.vertex_of(self.prev_of(f1))),
    {
        self.lemma_contraction_sites(f1);
        self.lemma_links_live(f1);
        let v1 = self.vertex_of(f1);
        let r1 = self.twin_of(f1);
        let v2 = self.vertex_of(r1);
        let f2 = self.next_of(f1);
        let f3 = self.prev_of(f1);
        let f2p = self.twin_of(f2);
        let f3p = self.twin_of(f3);
        let r2 = self.next_of(r1);
        let r3 = self.prev_of(r1);
        let r2p = self.twin_of(r2);
        let a = self.next_of(f3p);
        let b = self.prev_of(f3p);
        let w = self.vertex_of(f3);
        let x = self.vertex_of(r3);
        self.lemma_face(f1);
        self.lemma_face(f3p);
        self.lemma_twin(f1);
        self.lemma_twin(f2);
        self.lemma_twin(f3);
        self.lemma_far_is_next(f3p);
        self.lemma_far_is_next(f3);
        assert(self.vertex_of(a) == w);
        self.lemma_fan_from_edge(a);
        let n = self.fan_len(w);
        assert(self.fan_iterate(a, 0) == a);
        assert(self.fan_iterate(a, 1) == f3);
        assert(self.fan_iterate(a, 2) == f2p);
        if f2p == a {
            self.lemma_links_live(a);
            self.lemma_face(a);
            self.lemma_far_is_next(a);
            self.lemma_far_is_next(f2);
            self.lemma_twin(b);
            self.lemma_far_is_next(b);
            self.lemma_far_is_next(f1);
            assert(self.vertex_of(b) == v2);
            assert(self.far_vertex(b) == v1);
            self.lemma_edge_unique(b, r1);
            assert(false);
        }
        assert(n >= 3) by {
            if n == 1 {
                assert(self.fan_iterate(a, 1) == a);
            }
            if n == 2 {
                assert(self.fan_iterate(a, 2) == a);
            }
        }
        assert(after.fan_step(a) == f2p) by {
            self.lemma_contraction_edge_links(f1);
            self.lemma_contraction_fields(f1);
            self.lemma_contraction_corner_prevs(f1);
            assert(self.contracted_edge_map(f1).contains_key(f2.0));
        }
        assert(f2p != self.twin_of(self.next_of(self.twin_of(f1)))) by {
            self.lemma_removed_ends(f1);
            self.lemma_twin(r2);
        }
        assert forall|j: nat| 2 <= j < n implies after.fan_step(#[trigger] self.fan_iterate(a, j)) == self.fan_step(
            self.fan_iterate(a, j),
        ) by {
            let e = self.fan_iterate(a, j);
            assert(self.fan_iterate(a, 0) != e);
            assert(self.fan_iterate(a, 1) != e);
            self.lemma_removed_ends(f1);
            self.lemma_fan_iterate_live(a, j);
            self.lemma_corner_step_kept(after, f1, e, w, a);
        }
        assert forall|j: nat| j < n && j != 1 implies {
            &&& after.spec_edge(#[trigger] self.fan_iterate(a, j)).spec_vertex() == w
            &&& after.far_vertex(self.fan_iterate(a, j)) == self.far_vertex(self.fan_iterate(a, j))
        } by {
            let e = self.fan_iterate(a, j);
            if j > 1 {
                assert(self.fan_iterate(a, 1) != self.fan_iterate(a, j));
                assert(self.far_vertex(self.fan_iterate(a, 1)) != self.far_vertex(self.fan_iterate(a, j)));
            } else {
                assert(self.far_vertex(self.fan_iterate(a, 0)) != self.far_vertex(self.fan_iterate(a, 1)));
            }
            self.lemma_removed_ends(f1);
            self.lemma_fan_iterate_live(a, j);
            self.lemma_corner_far_kept(after, f1, e, w);
        }
        assert forall|k: usize|
            after.edge_map().contains_key(k) && #[trigger] after.edge_map()[k].spec_vertex() == w implies self.edge_map().contains_key(
                k,
            ) && self.edge_map()[k].spec_vertex() == w && HalfEdgeId(k) != self.fan_iterate(a, 1) by {
            self.lemma_contraction_edge_links(f1);
            self.lemma_contraction_fields(f1);
            assert(self.contracted_edge_map(f1).contains_key(k));
        }
        assert(after.vertex_map().contains_key(w) && after.has_edge(after.vertex_map()[w].spec_edge())
            && after.spec_edge(after.vertex_map()[w].spec_edge()).spec_vertex() == w) by {
            self.lemma_contraction_edge_links(f1);
            self.lemma_contraction_fields(f1);
            self.lemma_removed_ends(f1);
            let m = self.relabeled_edges(v1, v2);
            assert(m[f3.0].spec_vertex() == w);
            assert(m[r3.0].spec_vertex() == x);
            self.lemma_exemplar_leaves(w);
            let ex = self.vertex_map()[w].spec_edge();
            assert(self.contracted_edge_map(f1).contains_key(a.0));
            if ex != f3 {
                assert(self.contracted_edge_map(f1).contains_key(ex.0));
            }
        }
        self.lemma_skip_one(after, w, a, n);
    }
}

impl<V> HalfEdgeMesh<V> {
    /// Contracting a non-folding edge of a manifold mesh leaves a well-formed fan at the far
    /// corner of the triangle beside the edge's twin: the walk there only loses the removed
    /// side.
    #[verifier::rlimit(40)]
    #[verifier::spinoff_prover]
    proof fn lemma_second_corner_fan(&self, after: &Self, f1: HalfEdgeId)
        requires
            self.is_manifold(),
            self.has_edge(f1),
            !self.contraction_folds(f1),
            after.edge_map() == self.contracted_edge_map(f1),
            after.vertex_map() == self.contracted_vertex_map(f1),
        ensures
            after.fan_ok(self.vertex_of(self.prev_of(self.twin_of(f1)))),
    {
        self.lemma_contraction_sites(f1);
        self.lemma_links_live(f1);
        let v1 = self.vertex_of(f1);
        let r1 = self.twin_of(f1);
        let v2 = self.vertex_of(r1);
        let f3 = self.prev_of(f1);
        let r2 = self.next_of(r1);
        let r3 = self.prev_of(r1);
        let r2p = self.twin_of(r2);
        let p = self.prev_of(r2p);
        let w = self.vertex_of(f3);
        let x = self.vertex_of(r3);
        self.lemma_face(f1);
        self.lemma_face(r1);
        self.lemma_face(r2p);
        self.lemma_twin(f1);
        self.lemma_twin(r2);
        self.lemma_twin(r3);
        self.lemma_removed_ends(f1);
        self.lemma_links_live(r2p);
        self.lemma_links_live(p);
        self.lemma_twin(p);
        self.lemma_fan_from_edge(r3);
        let n = self.fan_len(x);
        assert(self.fan_iterate(r3, 0) == r3);
        assert(self.fan_iterate(r3, 1) == r2p);
        assert(self.fan_iterate(r3, 2) == self.twin_of(p));
        if self.twin_of(p) == r3 {
            let nx = self.next_of(r2p);
            self.lemma_links_live(nx);
            self.lemma_far_is_next(r2p);
            self.lemma_far_is_next(nx);
            self.lemma_far_is_next(r3);
            self.lemma_face(nx);
            assert(self.vertex_of(nx) == v1);
            assert(self.far_vertex(nx) == v2);
            self.lemma_edge_unique(nx, f1);
            assert(false);
        }
        assert(n >= 3) by {
            if n == 1 {
                assert(self.fan_iterate(r3, 1) == r3);
            }
            if n == 2 {
                assert(self.fan_iterate(r3, 2) == r3);
            }
        }
        assert(after.fan_step(r3) == self.twin_of(p)) by {
            self.lemma_contraction_edge_links(f1);
            self.lemma_contraction_fields(f1);
            self.lemma_contraction_corner_prevs(f1);
            self.lemma_far_is_next(p);
            assert(self.far_vertex(p) == x);
            assert(p != r2);
            assert(self.contracted_edge_map(f1).contains_key(p.0));
            assert(self.contracted_edge_map(f1).contains_key(r3.0));
        }
        assert forall|j: nat| 2 <= j < n implies after.fan_step(#[trigger] self.fan_iterate(r3, j)) == self.fan_step(
            self.fan_iterate(r3, j),
        ) by {
            let e = self.fan_iterate(r3, j);
            assert(self.fan_iterate(r3, 0) != e);
            assert(self.fan_iterate(r3, 1) != e);
            self.lemma_fan_iterate_live(r3, j);
            self.lemma_corner_step_kept(after, f1, e, x, r3);
        }
        assert forall|j: nat| j < n && j != 1 implies {
            &&& after.spec_edge(#[trigger] self.fan_iterate(r3, j)).spec_vertex() == x
            &&& after.far_vertex(self.fan_iterate(r3, j)) == self.far_vertex(self.fan_iterate(r3, j))
        } by {
            let e = self.fan_iterate(r3, j);
            if j > 1 {
                assert(self.fan_iterate(r3, 1) != self.fan_iterate(r3, j));
                assert(self.far_vertex(self.fan_iterate(r3, 1)) != self.far_vertex(self.fan_iterate(r3, j)));
            } else {
                assert(self.far_vertex(self.fan_iterate(r3, 0)) != self.far_vertex(self.fan_iterate(r3, 1)));
            }
            self.lemma_fan_iterate_live(r3, j);
            self.lemma_corner_far_kept(after, f1, e, x);
        }
        assert forall|k: usize|
            after.edge_map().contains_key(k) && #[trigger] after.edge_map()[k].spec_vertex() == x implies self.edge_map().contains_key(
                k,
            ) && self.edge_map()[k].spec_vertex() == x && HalfEdgeId(k) != self.fan_iterate(r3, 1) by {
            self.lemma_contraction_edge_links(f1);
            self.lemma_contraction_fields(f1);
            assert(self.contracted_edge_map(f1).contains_key(k));
        }
        assert(after.vertex_map().contains_key(x) && after.has_edge(after.vertex_map()[x].spec_edge())
            && after.spec_edge(after.vertex_map()[x].spec_edge()).spec_vertex() == x) by {
            self.lemma_contraction_edge_links(f1);
            self.lemma_contraction_fields(f1);
            let m = self.relabeled_edges(v1, v2);
            assert(m[f3.0].spec_vertex() == w);
            assert(m[r3.0].spec_vertex() == x);
            self.lemma_exemplar_leaves(x);
            let ex = self.vertex_map()[x].spec_edge();
            assert(self.contracted_edge_map(f1).contains_key(r3.0));
            if ex != r2p {
                assert(self.contracted_edge_map(f1).contains_key(ex.0));
            }
        }
        self.lemma_skip_one(after, x, r3, n);
    }
}

impl<V> HalfEdgeMesh<V> {
    /// Where the walk in `after` from `c` is after `i` steps, when it joins the middle of the
    /// walk from `p0` to the walk from `q0`, which ends at `c`.
    spec fn merged_walk_at(&self, p0: HalfEdgeId, n1: nat, q0: HalfEdgeId, c: HalfEdgeId, i: nat) -> HalfEdgeId {
        if i == 0 {
            c
        } else if i + 3 <= n1 {
            self.fan_iterate(p0, i + 1)
        } else {
            self.fan_iterate(q0, (i + 3 - n1) as nat)
        }
    }

    proof fn lemma_merged_walk(
        &self,
        after: &Self,
        p0: HalfEdgeId,
        n1: nat,
        q0: HalfEdgeId,
        n2: nat,
        c: HalfEdgeId,
        i: nat,
    )
        requires
            n1 >= 3,
            n2 >= 3,
            i + 4 <= n1 + n2,
            c == self.fan_iterate(q0, (n2 - 1) as nat),
            after.fan_step(c) == (if n1 > 3 { self.fan_iterate(p0, 2) } else { self.fan_iterate(q0, 1) }),
            forall|j: nat|
                2 <= j && j + 3 <= n1 ==> after.fan_step(#[trigger] self.fan_iterate(p0, j)) == self.fan_step(
                    self.fan_iterate(p0, j),
                ),
            n1 > 3 ==> after.fan_step(self.fan_iterate(p0, (n1 - 2) as nat)) == self.fan_iterate(q0, 1),
            forall|j: nat|
                1 <= j && j + 2 <= n2 ==> after.fan_step(#[trigger] self.fan_iterate(q0, j)) == self.fan_step(
                    self.fan_iterate(q0, j),
                ),
        ensures
            after.fan_iterate(c, i) == self.merged_walk_at(p0, n1, q0, c, i),
        decreases i,
    {
        if i > 0 {
            let k = (i - 1) as nat;
            self.lemma_merged_walk(after, p0, n1, q0, n2, c, k);
            assert(after.fan_iterate(c, i) == after.fan_step(after.fan_iterate(c, k)));
            if k == 0 {
                assert(after.fan_iterate(c, 0) == c);
            } else if k + 3 < n1 {
                assert(self.fan_iterate(p0, k + 2) == self.fan_step(self.fan_iterate(p0, k + 1)));
            } else if k + 3 == n1 {
            } else {
                let j = (k + 3 - n1) as nat;
                assert(self.fan_iterate(q0, j + 1) == self.fan_step(self.fan_iterate(q0, j)));
                assert((i + 3 - n1) as nat == j + 1);
            }
        }
    }

    /// When the fans of two vertices of `self` are joined in `after` into one around `u` (the
    /// first fan without its first two edges and its last, the second without its first, both
    /// otherwise stepping as before, with no far vertex in common), the joined walk is the fan
    /// of `u`.
    proof fn lemma_merge_fans(
        &self,
        after: &Self,
        u: usize,
        v1: usize,
        p0: HalfEdgeId,
        n1: nat,
        v2: usize,
        q0: HalfEdgeId,
        n2: nat,
    )
        requires
            v1 != v2,
            self.fan_closes_at(p0, n1),
            self.fan_complete(v1, p0, n1),
            self.fan_closes_at(q0, n2),
            self.fan_complete(v2, q0, n2),
            n1 >= 3,
            n2 >= 3,
            after.fan_step(self.fan_iterate(q0, (n2 - 1) as nat)) == (if n1 > 3 {
                self.fan_iterate(p0, 2)
            } else {
                self.fan_iterate(q0, 1)
            }),
            forall|j: nat|
                2 <= j && j + 3 <= n1 ==> after.fan_step(#[trigger] self.fan_iterate(p0, j)) == self.fan_step(
                    self.fan_iterate(p0, j),
                ),
            n1 > 3 ==> after.fan_step(self.fan_iterate(p0, (n1 - 2) as nat)) == self.fan_iterate(q0, 1),
            forall|j: nat|
                1 <= j && j + 2 <= n2 ==> after.fan_step(#[trigger] self.fan_iterate(q0, j)) == self.fan_step(
                    self.fan_iterate(q0, j),
                ),
            forall|j: nat|
                2 <= j && j + 2 <= n1 ==> {
                    &&& after.spec_edge(#[trigger] self.fan_iterate(p0, j)).spec_vertex() == u
                    &&& after.far_vertex(self.fan_iterate(p0, j)) == self.far_vertex(self.fan_iterate(p0, j))
                },
            forall|j: nat|
                1 <= j < n2 ==> {
                    &&& after.spec_edge(#[trigger] self.fan_iterate(q0, j)).spec_vertex() == u
                    &&& after.far_vertex(self.fan_iterate(q0, j)) == self.far_vertex(self.fan_iterate(q0, j))
                },
            forall|i: nat, j: nat|
                2 <= i && i + 2 <= n1 && 1 <= j < n2 ==> self.far_vertex(#[trigger] self.fan_iterate(p0, i))
                    != self.far_vertex(#[trigger] self.fan_iterate(q0, j)),
            forall|k: usize|
                after.edge_map().contains_key(k) && #[trigger] after.edge_map()[k].spec_vertex() == u
                    ==> self.edge_map().contains_key(k) && ((self.edge_map()[k].spec_vertex() == v1
                    && HalfEdgeId(k) != self.fan_iterate(p0, 0) && HalfEdgeId(k) != self.fan_iterate(p0, 1)
                    && HalfEdgeId(k) != self.fan_iterate(p0, (n1 - 1) as nat)) || (
                    self.edge_map()[k].spec_vertex() == v2 && HalfEdgeId(k) != q0)),
            after.vertex_map().contains_key(u),
            after.edge_map().contains_key(after.vertex_map()[u].spec_edge().0),
            after.spec_edge(after.vertex_map()[u].spec_edge()).spec_vertex() == u,
        ensures
            after.fan_ok(u),
    {
        let c = self.fan_iterate(q0, (n2 - 1) as nat);
        let nn: nat = (n1 + n2 - 4) as nat;
        assert forall|i: nat| i <= nn implies #[trigger] after.fan_iterate(c, i) == self.merged_walk_at(
            p0,
            n1,
            q0,
            c,
            i,
        ) by {
            self.lemma_merged_walk(after, p0, n1, q0, n2, c, i);
        }
        assert(after.fan_iterate(c, nn) == c);
        assert forall|i: nat| 1 <= i < nn implies #[trigger] after.fan_iterate(c, i) != c by {
            if i + 3 <= n1 {
                assert(self.spec_edge(self.fan_iterate(p0, i + 1)).spec_vertex() == v1);
                assert(self.spec_edge(self.fan_iterate(q0, (n2 - 1) as nat)).spec_vertex() == v2);
            } else {
                assert(self.fan_iterate(q0, (i + 3 - n1) as nat) != self.fan_iterate(q0, (n2 - 1) as nat));
            }
        }
        assert(after.fan_closes_at(c, nn));
        assert forall|i: nat, j: nat| i < j < nn implies #[trigger] after.fan_iterate(c, i)
            != #[trigger] after.fan_iterate(c, j) && after.far_vertex(after.fan_iterate(c, i))
            != after.far_vertex(after.fan_iterate(c, j)) by {
            let qi: nat = if i == 0 { (n2 - 1) as nat } else { (i + 3 - n1) as nat };
            let qj: nat = (j + 3 - n1) as nat;
            if i != 0 && i + 3 <= n1 && j + 3 <= n1 {
                assert(self.fan_iterate(p0, i + 1) != self.fan_iterate(p0, j + 1));
                assert(self.far_vertex(self.fan_iterate(p0, i + 1)) != self.far_vertex(self.fan_iterate(p0, j + 1)));
            } else if i != 0 && i + 3 <= n1 {
                assert(self.spec_edge(self.fan_iterate(p0, i + 1)).spec_vertex() == v1);
                assert(self.spec_edge(self.fan_iterate(q0, qj)).spec_vertex() == v2);
                assert(self.far_vertex(self.fan_iterate(p0, i + 1)) != self.far_vertex(self.fan_iterate(q0, qj)));
            } else if j + 3 <= n1 {
                assert(i == 0);
                assert(self.spec_edge(self.fan_iterate(p0, j + 1)).spec_vertex() == v1);
                assert(self.spec_edge(self.fan_iterate(q0, qi)).spec_vertex() == v2);
                assert(self.far_vertex(self.fan_iterate(p0, j + 1)) != self.far_vertex(self.fan_iterate(q0, qi)));
            } else if i == 0 {
                assert(self.fan_iterate(q0, qj) != self.fan_iterate(q0, qi));
                assert(self.far_vertex(self.fan_iterate(q0, qj)) != self.far_vertex(self.fan_iterate(q0, qi)));
            } else {
                assert(self.fan_iterate(q0, qi) != self.fan_iterate(q0, qj));
                assert(self.far_vertex(self.fan_iterate(q0, qi)) != self.far_vertex(self.fan_iterate(q0, qj)));
            }
        }
        assert forall|i: nat| i < nn implies after.spec_edge(#[trigger] after.fan_iterate(c, i)).spec_vertex() == u by {
            if i != 0 && i + 3 <= n1 {
                assert(after.fan_iterate(c, i) == self.fan_iterate(p0, i + 1));
            } else if i != 0 {
                assert(after.fan_iterate(c, i) == self.fan_iterate(q0, (i + 3 - n1) as nat));
            }
        }
        assert forall|k: usize|
            after.edge_map().contains_key(k) && #[trigger] after.edge_map()[k].spec_vertex() == u implies exists|
                i: nat,
            | i < nn && #[trigger] after.fan_iterate(c, i) == HalfEdgeId(k) by {
            if self.edge_map()[k].spec_vertex() == v1 && HalfEdgeId(k) != self.fan_iterate(p0, 0)
                && HalfEdgeId(k) != self.fan_iterate(p0, 1) && HalfEdgeId(k) != self.fan_iterate(
                p0,
                (n1 - 1) as nat,
            ) {
                let j = choose|j: nat| j < n1 && #[trigger] self.fan_iterate(p0, j) == HalfEdgeId(k);
                assert(after.fan_iterate(c, (j - 1) as nat) == self.fan_iterate(p0, j));
            } else {
                let j = choose|j: nat| j < n2 && #[trigger] self.fan_iterate(q0, j) == HalfEdgeId(k);
                assert(j != 0);
                if j + 1 == n2 {
                    assert(after.fan_iterate(c, 0) == HalfEdgeId(k));
                } else {
                    assert(after.fan_iterate(c, (j + n1 - 3) as nat) == self.fan_iterate(q0, j));
                }
            }
        }
        assert(after.fan_complete(u, c, nn));
        let ex = after.vertex_map()[u].spec_edge();
        assert(after.edge_map().contains_key(ex.0) && after.edge_map()[ex.0].spec_vertex() == u);
        let k = choose|k: nat| k < nn && #[trigger] after.fan_iterate(c, k) == HalfEdgeId(ex.0);
        after.lemma_fan_ok_from(u, c, nn, k);
    }
}

impl<V> HalfEdgeMesh<V> {
    /// In a closed complete walk around `v`, the edge leaving `v` whose step reaches the walk's
    /// `t`-th edge is its `(t - 1)`-th.
    proof fn lemma_step_back(&self, v: usize, c: HalfEdgeId, n: nat, e: HalfEdgeId, t: nat)
        requires
            self.fan_closes_at(c, n),
            self.fan_complete(v, c, n),
            self.has_edge(e),
            self.vertex_of(e) == v,
            1 <= t <= n,
            self.fan_step(e) == self.fan_iterate(c, t),
        ensures
            e == self.fan_iterate(c, (t - 1) as nat),
    {
        assert(self.edge_map().contains_key(e.0) && self.edge_map()[e.0].spec_vertex() == v);
        let j = choose|j: nat| j < n && #[trigger] self.fan_iterate(c, j) == HalfEdgeId(e.0);
        assert(self.fan_iterate(c, j + 1) == self.fan_step(self.fan_iterate(c, j)));
        if j + 1 != t {
            if j + 1 < n && t < n {
                if j + 1 < t {
                    assert(self.fan_iterate(c, j + 1) != self.fan_iterate(c, t));
                } else {
                    assert(self.fan_iterate(c, t) != self.fan_iterate(c, j + 1));
                }
            } else if j + 1 == n {
                assert(self.fan_iterate(c, t) != c);
            } else {
                assert(self.fan_iterate(c, j + 1) != c);
            }
        }
    }

    /// An edge leaving either end of a non-folding contracted edge, other than the edges that
    /// go or change their previous edge, steps around its vertex as before.
    #[verifier::spinoff_prover]
    proof fn lemma_merge_step_kept(&self, after: &Self, f1: HalfEdgeId, e: HalfEdgeId)
        requires
            self.is_manifold(),
            self.has_edge(f1),
            !self.contraction_folds(f1),
            after.edge_map() == self.contracted_edge_map(f1),
            self.has_edge(e),
            (self.vertex_of(e) == self.vertex_of(f1) && e != f1 && e != self.twin_of(self.prev_of(f1)) && e
                != self.next_of(self.twin_of(f1)) && e != self.next_of(self.twin_of(self.next_of(self.twin_of(f1)))))
                || (self.vertex_of(e) == self.vertex_of(self.twin_of(f1)) && e != self.twin_of(f1) && e
                != self.next_of(f1)),
        ensures
            after.fan_step(e) == self.fan_step(e),
    {
        self.lemma_contraction_sites(f1);
        self.lemma_contraction_edge_links(f1);
        self.lemma_contraction_fields(f1);
        self.lemma_contraction_merge_prevs(f1);
        self.lemma_removed_ends(f1);
        let r1 = self.twin_of(f1);
        let f3 = self.prev_of(f1);
        let r2 = self.next_of(r1);
        let r2p = self.twin_of(r2);
        self.lemma_face(f1);
        self.lemma_face(r1);
        self.lemma_face(r2p);
        self.lemma_far_is_next(r2p);
        self.lemma_links_live(r2p);
        self.lemma_links_live(e);
        self.lemma_face(e);
        let q = self.prev_of(e);
        self.lemma_links_live(q);
        self.lemma_far_is_next(q);
        let cm = self.contracted_edge_map(f1);
        assert(cm.contains_key(e.0));
        assert(q != f3);
        assert(q != r1);
        assert(q != r2p);
        assert(q != f1);
        assert(cm.contains_key(q.0));
    }

    /// An edge leaving either end of a non-folding contracted edge that stays leaves the merged
    /// vertex after the contraction and reaches the same vertex, unless that vertex was the
    /// contracted one.
    #[verifier::spinoff_prover]
    proof fn lemma_merge_far_kept(&self, after: &Self, f1: HalfEdgeId, e: HalfEdgeId)
        requires
            self.is_manifold(),
            self.has_edge(f1),
            !self.contraction_folds(f1),
            after.edge_map() == self.contracted_edge_map(f1),
            self.has_edge(e),
            (self.vertex_of(e) == self.vertex_of(f1) && e != f1 && e != self.twin_of(self.prev_of(f1)) && e
                != self.next_of(self.twin_of(f1))) || (self.vertex_of(e) == self.vertex_of(self.twin_of(f1))
                && e != self.twin_of(f1) && self.far_vertex(e) != self.vertex_of(f1)),
        ensures
            after.has_edge(e),
            after.spec_edge(e).spec_vertex() == self.vertex_of(self.twin_of(f1)),
            after.far_vertex(e) == self.far_vertex(e),
    {
        self.lemma_contraction_sites(f1);
        self.lemma_contraction_edge_links(f1);
        self.lemma_contraction_fields(f1);
        self.lemma_removed_ends(f1);
        let cm = self.contracted_edge_map(f1);
        self.lemma_links_live(e);
        self.lemma_twin(e);
        let t = self.twin_of(e);
        self.lemma_links_live(t);
        let r1 = self.twin_of(f1);
        let f3 = self.prev_of(f1);
        let r2 = self.next_of(r1);
        self.lemma_twin(f1);
        self.lemma_twin(f3);
        self.lemma_twin(r2);
        assert(cm.contains_key(e.0));
        assert(t != f3);
        assert(t != r1);
        assert(t != f1);
        assert(t != self.twin_of(r2));
        assert(cm.contains_key(t.0));
    }
}

impl<V> HalfEdgeMesh<V> {
    /// The fans at the two ends of a non-folding edge of a manifold mesh, walked from the edge
    /// and from its twin: where the edges that a contraction touches stand in them.
    #[verifier::rlimit(40)]
    #[verifier::spinoff_prover]
    proof fn lemma_end_fans(&self, f1: HalfEdgeId)
        requires
            self.is_manifold(),
            self.has_edge(f1),
            !self.contraction_folds(f1),
        ensures
            ({
                let v1 = self.vertex_of(f1);
                let r1 = self.twin_of(f1);
                let v2 = self.vertex_of(r1);
                let n1 = self.fan_len(v1);
                let n2 = self.fan_len(v2);
                let f3p = self.twin_of(self.prev_of(f1));
                let r2 = self.next_of(r1);
                let r2p = self.twin_of(r2);
                let b = self.prev_of(f3p);
                &&& self.fan_closes_at(f1, n1)
                &&& self.fan_complete(v1, f1, n1)
                &&& self.fan_closes_at(r1, n2)
                &&& self.fan_complete(v2, r1, n2)
                &&& n1 >= 3
                &&& n2 >= 3
                &&& self.fan_iterate(f1, 0) == f1
                &&& self.fan_iterate(f1, 1) == f3p
                &&& self.fan_iterate(f1, 2) == self.twin_of(b)
                &&& self.fan_iterate(f1, (n1 - 1) as nat) == r2
                &&& self.fan_iterate(r1, 0) == r1
                &&& self.fan_iterate(r1, 1) == self.twin_of(self.prev_of(r1))
                &&& self.fan_iterate(r1, (n2 - 1) as nat) == self.next_of(f1)
                &&& (n1 > 3 <==> r2p != b)
                &&& n1 > 3 ==> self.fan_iterate(f1, (n1 - 2) as nat) == self.next_of(r2p)
            }),
    {
        self.lemma_contraction_sites(f1);
        self.lemma_removed_ends(f1);
        self.lemma_links_live(f1);
        let v1 = self.vertex_of(f1);
        let r1 = self.twin_of(f1);
        let v2 = self.vertex_of(r1);
        let f2 = self.next_of(f1);
        let f3 = self.prev_of(f1);
        let f3p = self.twin_of(f3);
        let r2 = self.next_of(r1);
        let r3 = self.prev_of(r1);
        let r2p = self.twin_of(r2);
        let b = self.prev_of(f3p);
        let ne = self.next_of(r2p);
        self.lemma_face(f1);
        self.lemma_face(r1);
        self.lemma_face(f3p);
        self.lemma_face(r2p);
        self.lemma_twin(f1);
        self.lemma_twin(f2);
        self.lemma_twin(f3);
        self.lemma_twin(r2);
        self.lemma_twin(r3);
        self.lemma_twin(b);
        self.lemma_far_is_next(f1);
        self.lemma_far_is_next(f2);
        self.lemma_far_is_next(r2p);
        self.lemma_links_live(r2p);
        self.lemma_links_live(ne);
        self.lemma_links_live(f3p);
        self.lemma_fan_from_edge(f1);
        self.lemma_fan_from_edge(r1);
        let n1 = self.fan_len(v1);
        let n2 = self.fan_len(v2);
        assert(self.fan_iterate(f1, 0) == f1);
        assert(self.fan_iterate(f1, 1) == f3p);
        assert(self.fan_iterate(f1, 2) == self.twin_of(b));
        assert(self.fan_iterate(r1, 0) == r1);
        assert(self.fan_iterate(r1, 1) == self.twin_of(r3));
        assert(self.vertex_of(f2) == v2);
        assert(self.fan_step(r2) == f1);
        self.lemma_step_back(v1, f1, n1, r2, n1);
        assert(self.fan_step(f2) == r1);
        self.lemma_step_back(v2, r1, n2, f2, n2);
        assert(n1 >= 3) by {
            if n1 == 1 {
                assert(self.fan_iterate(f1, 1) == f1);
            }
        }
        assert(n2 >= 3) by {
            if n2 == 1 {
                assert(self.fan_iterate(r1, 1) == r1);
            }
            if n2 == 2 {
                assert(self.twin_of(r3) == f2);
                assert(r3 == self.twin_of(f2));
            }
        }
        assert(n1 > 3 <==> r2p != b) by {
            if n1 == 3 {
                assert(self.twin_of(b) == r2);
            } else if r2p == b {
                assert(self.fan_iterate(f1, 2) != self.fan_iterate(f1, (n1 - 1) as nat));
            }
        }
        if n1 > 3 {
            assert(self.fan_step(ne) == r2);
            self.lemma_step_back(v1, f1, n1, ne, (n1 - 1) as nat);
        }
    }

    /// How the walks at the two ends of a non-folding contracted edge step after the
    /// contraction.
    #[verifier::rlimit(40)]
    #[verifier::spinoff_prover]
    proof fn lemma_merged_steps(&self, after: &Self, f1: HalfEdgeId)
        requires
            self.is_manifold(),
            self.has_edge(f1),
            !self.contraction_folds(f1),
            after.edge_map() == self.contracted_edge_map(f1),
        ensures
            ({
                let r1 = self.twin_of(f1);
                let n1 = self.fan_len(self.vertex_of(f1));
                let n2 = self.fan_len(self.vertex_of(r1));
                &&& after.fan_step(self.fan_iterate(r1, (n2 - 1) as nat)) == (if n1 > 3 {
                    self.fan_iterate(f1, 2)
                } else {
                    self.fan_iterate(r1, 1)
                })
                &&& forall|j: nat|
                    2 <= j && j + 3 <= n1 ==> after.fan_step(#[trigger] self.fan_iterate(f1, j)) == self.fan_step(
                        self.fan_iterate(f1, j),
                    )
                &&& n1 > 3 ==> after.fan_step(self.fan_iterate(f1, (n1 - 2) as nat)) == self.fan_iterate(r1, 1)
                &&& forall|j: nat|
                    1 <= j && j + 2 <= n2 ==> after.fan_step(#[trigger] self.fan_iterate(r1, j)) == self.fan_step(
                        self.fan_iterate(r1, j),
                    )
            }),
    {
        self.lemma_end_fans(f1);
        self.lemma_contraction_sites(f1);
        self.lemma_links_live(f1);
        let v1 = self.vertex_of(f1);
        let r1 = self.twin_of(f1);
        let v2 = self.vertex_of(r1);
        let f2 = self.next_of(f1);
        let f3 = self.prev_of(f1);
        let f3p = self.twin_of(f3);
        let r2 = self.next_of(r1);
        let r3 = self.prev_of(r1);
        let r2p = self.twin_of(r2);
        let b = self.prev_of(f3p);
        let ne = self.next_of(r2p);
        let n1 = self.fan_len(v1);
        let n2 = self.fan_len(v2);
        assert(after.fan_step(f2) == (if n1 > 3 {
            self.fan_iterate(f1, 2)
        } else {
            self.fan_iterate(r1, 1)
        })) by {
            self.lemma_contraction_edge_links(f1);
            self.lemma_contraction_fields(f1);
            self.lemma_contraction_merge_prevs(f1);
            self.lemma_removed_ends(f1);
            self.lemma_face(f3p);
            self.lemma_links_live(b);
            self.lemma_far_is_next(b);
            assert(self.contracted_edge_map(f1).contains_key(f2.0));
            assert(self.contracted_edge_map(f1).contains_key(r3.0));
            if r2p != b {
                assert(self.contracted_edge_map(f1).contains_key(b.0));
            }
        }
        assert(n1 > 3 ==> after.fan_step(self.fan_iterate(f1, (n1 - 2) as nat)) == self.fan_iterate(r1, 1)) by {
            if n1 > 3 {
                self.lemma_contraction_edge_links(f1);
                self.lemma_contraction_fields(f1);
                self.lemma_contraction_merge_prevs(f1);
                self.lemma_removed_ends(f1);
                self.lemma_links_live(r2p);
                self.lemma_far_is_next(r2p);
                assert(self.contracted_edge_map(f1).contains_key(ne.0));
                assert(self.contracted_edge_map(f1).contains_key(r3.0));
            }
        }
        assert forall|j: nat| 2 <= j && j + 3 <= n1 implies after.fan_step(#[trigger] self.fan_iterate(f1, j))
            == self.fan_step(self.fan_iterate(f1, j)) by {
            let e = self.fan_iterate(f1, j);
            self.lemma_fan_iterate_live(f1, j);
            assert(self.fan_iterate(f1, 0) != e);
            assert(self.fan_iterate(f1, 1) != e);
            assert(e != self.fan_iterate(f1, (n1 - 2) as nat));
            assert(e != self.fan_iterate(f1, (n1 - 1) as nat));
            if n1 <= 3 {
                assert(false);
            }
            self.lemma_merge_step_kept(after, f1, e);
        }
        assert forall|j: nat| 1 <= j && j + 2 <= n2 implies after.fan_step(#[trigger] self.fan_iterate(r1, j))
            == self.fan_step(self.fan_iterate(r1, j)) by {
            let e = self.fan_iterate(r1, j);
            self.lemma_fan_iterate_live(r1, j);
            assert(self.fan_iterate(r1, 0) != e);
            assert(e != self.fan_iterate(r1, (n2 - 1) as nat));
            self.lemma_merge_step_kept(after, f1, e);
        }
    }

    /// Where the edges at the two ends of a non-folding contracted edge lead after the
    /// contraction, and that, when the contraction is not blocked, the two ends reach no vertex
    /// in common but the far corners of the removed triangles.
    #[verifier::rlimit(40)]
    #[verifier::spinoff_prover]
    proof fn lemma_merged_fars(&self, after: &Self, f1: HalfEdgeId, max_degree: usize)
        requires
            self.is_manifold(),
            self.has_edge(f1),
            !self.contraction_folds(f1),
            !self.contraction_blocked_spec(f1, max_degree),
            after.edge_map() == self.contracted_edge_map(f1),
        ensures
            ({
                let r1 = self.twin_of(f1);
                let v2 = self.vertex_of(r1);
                let n1 = self.fan_len(self.vertex_of(f1));
                let n2 = self.fan_len(v2);
                &&& forall|j: nat|
                    2 <= j && j + 2 <= n1 ==> {
                        &&& after.spec_edge(#[trigger] self.fan_iterate(f1, j)).spec_vertex() == v2
                        &&& after.far_vertex(self.fan_iterate(f1, j)) == self.far_vertex(self.fan_iterate(f1, j))
                    }
                &&& forall|j: nat|
                    1 <= j < n2 ==> {
                        &&& after.spec_edge(#[trigger] self.fan_iterate(r1, j)).spec_vertex() == v2
                        &&& after.far_vertex(self.fan_iterate(r1, j)) == self.far_vertex(self.fan_iterate(r1, j))
                    }
                &&& forall|i: nat, j: nat|
                    2 <= i && i + 2 <= n1 && 1 <= j < n2 ==> self.far_vertex(#[trigger] self.fan_iterate(f1, i))
                        != self.far_vertex(#[trigger] self.fan_iterate(r1, j))
            }),
    {
        self.lemma_end_fans(f1);
        self.lemma_links_live(f1);
        let v1 = self.vertex_of(f1);
        let r1 = self.twin_of(f1);
        let v2 = self.vertex_of(r1);
        let w = self.vertex_of(self.prev_of(f1));
        let x = self.vertex_of(self.prev_of(r1));
        let n1 = self.fan_len(v1);
        let n2 = self.fan_len(v2);
        self.lemma_removed_ends(f1);
        assert forall|j: nat| 2 <= j && j + 2 <= n1 implies {
            &&& after.spec_edge(#[trigger] self.fan_iterate(f1, j)).spec_vertex() == v2
            &&& after.far_vertex(self.fan_iterate(f1, j)) == self.far_vertex(self.fan_iterate(f1, j))
        } by {
            let e = self.fan_iterate(f1, j);
            self.lemma_fan_iterate_live(f1, j);
            assert(self.fan_iterate(f1, 0) != e);
            assert(self.fan_iterate(f1, 1) != e);
            assert(e != self.fan_iterate(f1, (n1 - 1) as nat));
            self.lemma_merge_far_kept(after, f1, e);
        }
        assert forall|j: nat| 1 <= j < n2 implies {
            &&& after.spec_edge(#[trigger] self.fan_iterate(r1, j)).spec_vertex() == v2
            &&& after.far_vertex(self.fan_iterate(r1, j)) == self.far_vertex(self.fan_iterate(r1, j))
        } by {
            let e = self.fan_iterate(r1, j);
            self.lemma_fan_iterate_live(r1, j);
            assert(self.fan_iterate(r1, 0) != e);
            assert(self.far_vertex(self.fan_iterate(r1, 0)) != self.far_vertex(e));
            self.lemma_merge_far_kept(after, f1, e);
        }
        assert forall|i: nat, j: nat| 2 <= i && i + 2 <= n1 && 1 <= j < n2 implies self.far_vertex(
            #[trigger] self.fan_iterate(f1, i),
        ) != self.far_vertex(#[trigger] self.fan_iterate(r1, j)) by {
            let ei = self.fan_iterate(f1, i);
            let ej = self.fan_iterate(r1, j);
            if self.far_vertex(ei) == self.far_vertex(ej) {
                self.lemma_fan_iterate_live(f1, i);
                self.lemma_fan_iterate_live(r1, j);
                assert(self.far_vertex(self.fan_iterate(f1, 1)) != self.far_vertex(ei));
                assert(self.far_vertex(ei) != self.far_vertex(self.fan_iterate(f1, (n1 - 1) as nat)));
                self.lemma_neighbour_place(ei);
                self.lemma_neighbour_place(ej);
                let keep = self.neighbours(v1).remove(w).remove(x);
                assert(keep.contains(self.far_vertex(ei)));
                let idx = choose|idx: int|
                    0 <= idx < self.fan_len(v2) && #[trigger] self.fan_seq(v2)[idx] == ej;
                assert(keep.contains(self.far_vertex(self.fan_seq(v2)[idx])));
                assert(false);
            }
        }
    }

    /// Which edges leave the merged vertex after contracting a non-folding edge, and that its
    /// exemplar is one of them.
    #[verifier::rlimit(40)]
    #[verifier::spinoff_prover]
    proof fn lemma_merged_cover(&self, after: &Self, f1: HalfEdgeId)
        requires
            self.is_manifold(),
            self.has_edge(f1),
            !self.contraction_folds(f1),
            after.edge_map() == self.contracted_edge_map(f1),
            after.vertex_map() == self.contracted_vertex_map(f1),
        ensures
            ({
                let v1 = self.vertex_of(f1);
                let r1 = self.twin_of(f1);
                let v2 = self.vertex_of(r1);
                &&& forall|k: usize|
                    after.edge_map().contains_key(k) && #[trigger] after.edge_map()[k].spec_vertex() == v2
                        ==> self.edge_map().contains_key(k) && ((self.edge_map()[k].spec_vertex() == v1
                        && HalfEdgeId(k) != f1 && HalfEdgeId(k) != self.twin_of(self.prev_of(f1))
                        && HalfEdgeId(k) != self.next_of(r1)) || (
                        self.edge_map()[k].spec_vertex() == v2 && HalfEdgeId(k) != r1))
                &&& after.vertex_map().contains_key(v2)
                &&& after.edge_map().contains_key(after.vertex_map()[v2].spec_edge().0)
                &&& after.spec_edge(after.vertex_map()[v2].spec_edge()).spec_vertex() == v2
            }),
    {
        let v1 = self.vertex_of(f1);
        let r1 = self.twin_of(f1);
        let v2 = self.vertex_of(r1);
        let f2 = self.next_of(f1);
        let f3 = self.prev_of(f1);
        let r3 = self.prev_of(r1);
        assert forall|k: usize|
            after.edge_map().contains_key(k) && #[trigger] after.edge_map()[k].spec_vertex() == v2 implies self.edge_map().contains_key(
                k,
            ) && ((self.edge_map()[k].spec_vertex() == v1 && HalfEdgeId(k) != f1 && HalfEdgeId(k)
                != self.twin_of(f3) && HalfEdgeId(k) != self.next_of(r1)) || (self.edge_map()[k].spec_vertex()
                == v2 && HalfEdgeId(k) != r1)) by {
            self.lemma_contraction_edge_links(f1);
            self.lemma_contraction_fields(f1);
            assert(self.contracted_edge_map(f1).contains_key(k));
        }
        assert(after.vertex_map().contains_key(v2) && after.has_edge(after.vertex_map()[v2].spec_edge())
            && after.spec_edge(after.vertex_map()[v2].spec_edge()).spec_vertex() == v2) by {
            self.lemma_contraction_sites(f1);
            self.lemma_contraction_edge_links(f1);
            self.lemma_contraction_fields(f1);
            self.lemma_removed_ends(f1);
            self.lemma_links_live(f1);
            self.lemma_far_is_next(f1);
            self.lemma_face(f1);
            let m = self.relabeled_edges(v1, v2);
            assert(m[f3.0].spec_vertex() == self.vertex_of(f3));
            assert(m[r3.0].spec_vertex() == self.vertex_of(r3));
            self.lemma_exemplar_leaves(v2);
            let ex = self.vertex_map()[v2].spec_edge();
            assert(self.contracted_edge_map(f1).contains_key(f2.0));
            if ex != r1 {
                assert(self.contracted_edge_map(f1).contains_key(ex.0));
            }
        }
    }

    /// Contracting a non-folding edge of a manifold mesh, when the contraction is not blocked,
    /// leaves a well-formed fan at the merged vertex: the fan of the contracted vertex without
    /// its three removed edges, joined to the fan of the kept vertex without the edge's twin.
    #[verifier::rlimit(60)]
    #[verifier::spinoff_prover]
    proof fn lemma_merged_vertex_fan(&self, after: &Self, f1: HalfEdgeId, max_degree: usize)
        requires
            self.is_manifold(),
            self.has_edge(f1),
            !self.contraction_folds(f1),
            !self.contraction_blocked_spec(f1, max_degree),
            after.edge_map() == self.contracted_edge_map(f1),
            after.vertex_map() == self.contracted_vertex_map(f1),
        ensures
            after.fan_ok(self.far_vertex(f1)),
    {
        self.lemma_end_fans(f1);
        self.lemma_merged_steps(after, f1);
        self.lemma_merged_fars(after, f1, max_degree);
        self.lemma_merged_cover(after, f1);
        let v1 = self.vertex_of(f1);
        let r1 = self.twin_of(f1);
        let v2 = self.vertex_of(r1);
        self.lemma_twin(f1);
        self.lemma_merge_fans(after, v2, v1, f1, self.fan_len(v1), v2, r1, self.fan_len(v2));
    }
}

impl<V> HalfEdgeMesh<V> {
    /// Contracting an edge of a manifold mesh leaves a manifold mesh (every edge still pairs
    /// with its twin, every triangle still closes, and every remaining vertex has one
    /// well-formed fan) when the contraction is not blocked, or when the two triangles beside
    /// the edge share a second side (they are then a closed piece, removed whole).
    pub proof fn lemma_contraction_keeps_manifold(&self, after: &Self, f1: HalfEdgeId, max_degree: usize)
        requires
            self.is_manifold(),
            self.has_edge(f1),
            self.contraction_folds(f1) || !self.contraction_blocked_spec(f1, max_degree),
            after.edge_map() == self.contracted_edge_map(f1),
            after.vertex_map() == self.contracted_vertex_map(f1),
            after.positions() == self.positions(),
        ensures
            after.is_manifold(),
    {
        if self.contraction_folds(f1) {
            self.lemma_folded_contraction_manifold(after, f1);
        } else {
            self.lemma_unfolded_contraction_manifold(after, f1, max_degree);
        }
    }

    /// Contracting an edge of a manifold mesh, when the two triangles beside it share no second
    /// side and the contraction is not blocked, leaves a manifold mesh.
    #[verifier::rlimit(40)]
    #[verifier::spinoff_prover]
    proof fn lemma_unfolded_contraction_manifold(&self, after: &Self, f1: HalfEdgeId, max_degree: usize)
        requires
            self.is_manifold(),
            self.has_edge(f1),
            !self.contraction_folds(f1),
            !self.contraction_blocked_spec(f1, max_degree),
            after.edge_map() == self.contracted_edge_map(f1),
            after.vertex_map() == self.contracted_vertex_map(f1),
            after.positions() == self.positions(),
        ensures
            after.is_manifold(),
    {
        self.lemma_contraction_well_formed(f1);
        after.lemma_wf_links();
        self.lemma_contraction_keeps_faces(f1);
        assert forall|k: usize| after.edge_map().contains_key(k) implies #[trigger] after.twin_ok(k) by {
            assert(local_ok(after.edge_map(), k));
        }
        assert forall|k: usize| after.edge_map().contains_key(k) implies #[trigger] after.face_ok(k) by {
            assert(local_ok(after.edge_map(), k));
        }
        assert forall|u: usize| after.vertex_map().contains_key(u) implies #[trigger] after.fan_ok(u) by {
            if u == self.far_vertex(f1) {
                self.lemma_merged_vertex_fan(after, f1, max_degree);
            } else if u == self.vertex_of(self.prev_of(f1)) {
                self.lemma_first_corner_fan(after, f1);
            } else if u == self.vertex_of(self.prev_of(self.twin_of(f1))) {
                self.lemma_second_corner_fan(after, f1);
            } else {
                self.lemma_contraction_keeps_far_fans(after, f1, max_degree, u);
            }
        }
    }
}

impl<V> HalfEdgeMesh<V> {
    /// When the two triangles beside `f1` share a second side, they are a whole piece of the
    /// mesh: contracting `f1` removes their six edges and three vertices and leaves every
    /// other edge and vertex as it was.
    #[verifier::rlimit(80)]
    #[verifier::spinoff_prover]
    proof fn lemma_folded_rest(&self, f1: HalfEdgeId)
        requires
            self.is_manifold(),
            self.has_edge(f1),
            self.contraction_folds(f1),
        ensures
            ({
                let v1 = self.vertex_of(f1);
                let v2 = self.far_vertex(f1);
                let w = self.vertex_of(self.prev_of(f1));
                let cm = self.contracted_edge_map(f1);
                let cvm = self.contracted_vertex_map(f1);
                &&& forall|k: usize|
                    #[trigger] cm.contains_key(k) ==> self.edge_map().contains_key(k) && cm[k] == self.edge_map()[k]
                &&& forall|k: usize|
                    #[trigger] self.edge_map().contains_key(k) ==> (cm.contains_key(k) <==> ({
                        let u = self.edge_map()[k].spec_vertex();
                        u != v1 && u != v2 && u != w
                    }))
                &&& forall|k: usize|
                    #[trigger] self.edge_map().contains_key(k) ==> (cm.contains_key(k) <==> ({
                        let u = self.far_vertex(HalfEdgeId(k));
                        u != v1 && u != v2 && u != w
                    }))
                &&& forall|u: usize|
                    #[trigger] cvm.contains_key(u) ==> self.vertex_map().contains_key(u) && cvm[u] == self.vertex_map()[u]
                        && u != v1 && u != v2 && u != w
            }),
    {
        self.lemma_contraction_sites(f1);
        self.lemma_links_live(f1);
        let v1 = self.vertex_of(f1);
        let r1 = self.twin_of(f1);
        let v2 = self.vertex_of(r1);
        let f2 = self.next_of(f1);
        let f3 = self.prev_of(f1);
        let f3p = self.twin_of(f3);
        let r2 = self.next_of(r1);
        let r3 = self.prev_of(r1);
        let f2p = self.twin_of(f2);
        let w = self.vertex_of(f3);
        let x = self.vertex_of(r3);
        self.lemma_face(f1);
        self.lemma_face(r1);
        self.lemma_twin(f1);
        self.lemma_twin(f2);
        self.lemma_twin(f3);
        self.lemma_twin(r1);
        self.lemma_twin(r3);
        self.lemma_twin(f3p);
        self.lemma_far_is_next(f3);
        self.lemma_far_is_next(f1);
        self.lemma_far_is_next(f2);
        self.lemma_far_is_next(r1);
        self.lemma_far_is_next(r3);
        self.lemma_far_is_next(f3p);
        assert(f3p == r2 && f2p == r3);
        assert(self.fan_step(f1) == f3p && self.fan_step(f3p) == f1);
        assert(self.fan_step(r1) == f2 && self.fan_step(f2) == r1);
        assert(self.fan_step(f3) == r3 && self.fan_step(r3) == f3);
        assert(self.vertex_of(f3p) == v1 && self.vertex_of(f2) == v2 && x == w);
        self.lemma_two_edge_fan(v1, f1, f3p);
        self.lemma_two_edge_fan(v2, r1, f2);
        self.lemma_two_edge_fan(w, f3, r3);
        let cm = self.contracted_edge_map(f1);
        let m = self.relabeled_edges(v1, v2);
        let g = m.remove(f1.0).remove(r1.0).remove(f3.0).remove(f3p.0).remove(f2.0).remove(r3.0);
        assert(cm == g);
        assert forall|k: usize| #[trigger] cm.contains_key(k) implies self.edge_map().contains_key(k)
            && cm[k] == self.edge_map()[k] by {
            assert(self.edge_map()[k].spec_vertex() != v1);
        }
        assert forall|k: usize| #[trigger] self.edge_map().contains_key(k) implies (cm.contains_key(k) <==> ({
            let u = self.edge_map()[k].spec_vertex();
            u != v1 && u != v2 && u != w
        })) by {
        }
        assert forall|k: usize| #[trigger] self.edge_map().contains_key(k) implies (cm.contains_key(k) <==> ({
            let u = self.far_vertex(HalfEdgeId(k));
            u != v1 && u != v2 && u != w
        })) by {
            let t = self.twin_of(HalfEdgeId(k));
            self.lemma_links_live(HalfEdgeId(k));
            self.lemma_twin(HalfEdgeId(k));
            assert(self.edge_map().contains_key(t.0) && self.edge_map()[t.0].spec_vertex() == self.far_vertex(
                HalfEdgeId(k),
            ));
        }
        let cvm = self.contracted_vertex_map(f1);
        assert(m[f3.0].spec_vertex() == w);
        assert(m[r3.0].spec_vertex() == w);
    }

    /// When the two triangles beside `f1` share a second side, contracting `f1` leaves every
    /// remaining edge and vertex as it was.
    #[verifier::rlimit(80)]
    #[verifier::spinoff_prover]
    proof fn lemma_folded_kept(&self, f1: HalfEdgeId)
        requires
            self.is_manifold(),
            self.has_edge(f1),
            self.contraction_folds(f1),
        ensures
            ({
                let v1 = self.vertex_of(f1);
                let v2 = self.far_vertex(f1);
                let w = self.vertex_of(self.prev_of(f1));
                let cm = self.contracted_edge_map(f1);
                let cvm = self.contracted_vertex_map(f1);
                &&& forall|k: usize|
                    #[trigger] cm.contains_key(k) ==> self.edge_map().contains_key(k) && cm[k] == self.edge_map()[k]
                &&& forall|u: usize|
                    #[trigger] cvm.contains_key(u) ==> self.vertex_map().contains_key(u) && cvm[u] == self.vertex_map()[u]
                        && u != v1 && u != v2 && u != w
            }),
    {
        self.lemma_contraction_sites(f1);
        self.lemma_links_live(f1);
        let v1 = self.vertex_of(f1);
        let r1 = self.twin_of(f1);
        let v2 = self.vertex_of(r1);
        let f2 = self.next_of(f1);
        let f3 = self.prev_of(f1);
        let f3p = self.twin_of(f3);
        let r2 = self.next_of(r1);
        let r3 = self.prev_of(r1);
        let f2p = self.twin_of(f2);
        let w = self.vertex_of(f3);
        let x = self.vertex_of(r3);
        self.lemma_face(f1);
        self.lemma_face(r1);
        self.lemma_twin(f1);
        self.lemma_twin(f2);
        self.lemma_twin(f3);
        self.lemma_twin(r1);
        self.lemma_twin(r3);
        self.lemma_twin(f3p);
        self.lemma_far_is_next(f3);
        self.lemma_far_is_next(f1);
        self.lemma_far_is_next(f2);
        self.lemma_far_is_next(r1);
        self.lemma_far_is_next(r3);
        self.lemma_far_is_next(f3p);
        assert(f3p == r2 && f2p == r3);
        assert(self.fan_step(f1) == f3p && self.fan_step(f3p) == f1);
        assert(self.fan_step(r1) == f2 && self.fan_step(f2) == r1);
        assert(self.fan_step(f3) == r3 && self.fan_step(r3) == f3);
        assert(self.vertex_of(f3p) == v1 && self.vertex_of(f2) == v2 && x == w);
        self.lemma_two_edge_fan(v1, f1, f3p);
        self.lemma_two_edge_fan(v2, r1, f2);
        self.lemma_two_edge_fan(w, f3, r3);
        let cm = self.contracted_edge_map(f1);
        let m = self.relabeled_edges(v1, v2);
        let g = m.remove(f1.0).remove(r1.0).remove(f3.0).remove(f3p.0).remove(f2.0).remove(r3.0);
        assert(cm == g);
        assert forall|k: usize| #[trigger] cm.contains_key(k) implies self.edge_map().contains_key(k)
            && cm[k] == self.edge_map()[k] by {
            assert(self.edge_map()[k].spec_vertex() != v1);
        }
        let cvm = self.contracted_vertex_map(f1);
        assert(m[f3.0].spec_vertex() == w);
        assert(m[r3.0].spec_vertex() == w);
    }

    /// In a mesh that contracting a folding edge leaves, the walk around a remaining vertex
    /// takes the same steps as before.
    proof fn lemma_folded_walk_same(&self, after: &Self, f1: HalfEdgeId, u: usize, i: nat)
        requires
            self.is_manifold(),
            self.has_edge(f1),
            self.contraction_folds(f1),
            after.edge_map() == self.contracted_edge_map(f1),
            self.has_vertex(u),
            u != self.vertex_of(f1),
            u != self.far_vertex(f1),
            u != self.vertex_of(self.prev_of(f1)),
        ensures
            self.has_edge(self.fan_iterate(self.vertex_map()[u].spec_edge(), i)),
            self.vertex_of(self.fan_iterate(self.vertex_map()[u].spec_edge(), i)) == u,
            after.fan_iterate(self.vertex_map()[u].spec_edge(), i) == self.fan_iterate(
                self.vertex_map()[u].spec_edge(),
                i,
            ),
        decreases i,
    {
        let s = self.vertex_map()[u].spec_edge();
        if i == 0 {
            self.lemma_exemplar_leaves(u);
        } else {
            self.lemma_folded_walk_same(after, f1, u, (i - 1) as nat);
            self.lemma_folded_rest(f1);
            let e = self.fan_iterate(s, (i - 1) as nat);
            self.lemma_links_live(e);
            self.lemma_face(e);
            let q = self.prev_of(e);
            self.lemma_links_live(q);
            self.lemma_far_is_next(q);
            let t = self.twin_of(q);
            assert(self.vertex_of(t) == u);
            assert(self.fan_iterate(s, i) == t);
            assert(after.fan_iterate(s, i) == after.fan_step(e));
            assert(self.contracted_edge_map(f1).contains_key(e.0));
            assert(self.contracted_edge_map(f1).contains_key(q.0));
        }
    }

    /// Contracting an edge whose two triangles share a second side removes that closed piece
    /// and leaves the rest of a manifold mesh manifold.
    #[verifier::rlimit(40)]
    #[verifier::spinoff_prover]
    proof fn lemma_folded_contraction_manifold(&self, after: &Self, f1: HalfEdgeId)
        requires
            self.is_manifold(),
            self.has_edge(f1),
            self.contraction_folds(f1),
            after.edge_map() == self.contracted_edge_map(f1),
            after.vertex_map() == self.contracted_vertex_map(f1),
            after.positions() == self.positions(),
        ensures
            after.is_manifold(),
    {
        self.lemma_contraction_well_formed(f1);
        after.lemma_wf_links();
        assert forall|k: usize| after.edge_map().contains_key(k) implies #[trigger] after.twin_ok(k) by {
            let _ = after.edge_map()[k];
            self.lemma_folded_local(after, f1, k);
        }
        assert forall|k: usize| after.edge_map().contains_key(k) implies #[trigger] after.face_ok(k) by {
            let _ = after.edge_map()[k];
            self.lemma_folded_local(after, f1, k);
        }
        assert forall|u: usize| after.vertex_map().contains_key(u) implies #[trigger] after.fan_ok(u) by {
            self.lemma_folded_fan(after, f1, u);
        }
    }
}

impl<V> HalfEdgeMesh<V> {
    /// In a mesh that contracting a folding edge leaves, every remaining vertex keeps its fan.
    #[verifier::rlimit(40)]
    #[verifier::spinoff_prover]
    proof fn lemma_folded_fan(&self, after: &Self, f1: HalfEdgeId, u: usize)
        requires
            self.is_manifold(),
            self.has_edge(f1),
            self.contraction_folds(f1),
            after.edge_map() == self.contracted_edge_map(f1),
            after.vertex_map() == self.contracted_vertex_map(f1),
            after.vertex_map().contains_key(u),
        ensures
            after.fan_ok(u),
    {
        self.lemma_folded_rest(f1);
        let cm = self.contracted_edge_map(f1);
        assert(self.fan_ok(u));
        let s = self.vertex_map()[u].spec_edge();
        let n = choose|n: nat| self.fan_closes_at(s, n) && self.fan_complete(u, s, n);
        assert forall|i: nat| #[trigger] after.fan_iterate(s, i) == self.fan_iterate(s, i) by {
            self.lemma_folded_walk_same(after, f1, u, i);
        }
        assert(after.fan_closes_at(s, n)) by {
            assert(after.fan_iterate(s, n) == self.fan_iterate(s, n));
            assert forall|i: nat| 1 <= i < n implies #[trigger] after.fan_iterate(s, i) != s by {
                assert(self.fan_iterate(s, i) != s);
            }
        }
        assert forall|i: nat| i < n implies after.far_vertex(#[trigger] self.fan_iterate(s, i))
            == self.far_vertex(self.fan_iterate(s, i)) && after.spec_edge(self.fan_iterate(s, i)).spec_vertex()
            == u by {
            self.lemma_folded_walk_same(after, f1, u, i);
            let e = self.fan_iterate(s, i);
            self.lemma_twin(e);
            self.lemma_links_live(e);
            let t = self.twin_of(e);
            assert(self.far_vertex(t) == u);
            assert(cm.contains_key(e.0));
            assert(cm.contains_key(t.0));
        }
        assert forall|i: nat, j: nat| i < j < n implies #[trigger] after.fan_iterate(s, i)
            != #[trigger] after.fan_iterate(s, j) && after.far_vertex(after.fan_iterate(s, i))
            != after.far_vertex(after.fan_iterate(s, j)) by {
            assert(self.fan_iterate(s, i) != self.fan_iterate(s, j));
            assert(self.far_vertex(self.fan_iterate(s, i)) != self.far_vertex(self.fan_iterate(s, j)));
        }
        assert forall|i: nat| i < n implies after.spec_edge(#[trigger] after.fan_iterate(s, i)).spec_vertex()
            == u by {
            assert(after.fan_iterate(s, i) == self.fan_iterate(s, i));
        }
        assert forall|k: usize|
            after.edge_map().contains_key(k) && #[trigger] after.edge_map()[k].spec_vertex() == u implies exists|
                i: nat,
            | i < n && #[trigger] after.fan_iterate(s, i) == HalfEdgeId(k) by {
            assert(self.edge_map().contains_key(k) && self.edge_map()[k].spec_vertex() == u);
            let i = choose|i: nat| i < n && #[trigger] self.fan_iterate(s, i) == HalfEdgeId(k);
            assert(after.fan_iterate(s, i) == HalfEdgeId(k));
        }
        assert(after.fan_complete(u, s, n));
    }
}

impl<V> HalfEdgeMesh<V> {
    /// In a mesh that contracting a folding edge leaves, every remaining edge still pairs with
    /// its twin and closes its triangle.
    #[verifier::rlimit(40)]
    #[verifier::spinoff_prover]
    proof fn lemma_folded_local(&self, after: &Self, f1: HalfEdgeId, k: usize)
        requires
            self.is_manifold(),
            self.has_edge(f1),
            self.contraction_folds(f1),
            after.edge_map() == self.contracted_edge_map(f1),
            after.edge_map().contains_key(k),
            after.edge_map().contains_key(after.edge_map()[k].spec_twin().0),
            after.edge_map().contains_key(after.edge_map()[k].spec_next().0),
            after.edge_map().contains_key(after.edge_map()[k].spec_prev().0),
        ensures
            after.twin_ok(k),
            after.face_ok(k),
    {
        self.lemma_folded_kept(f1);
        let cm = self.contracted_edge_map(f1);
        assert(self.twin_ok(k));
        assert(self.face_ok(k));
        let e = self.edge_map()[k];
        assert(cm[k] == e);
        assert(cm[e.spec_twin().0] == self.edge_map()[e.spec_twin().0]);
        assert(cm[e.spec_next().0] == self.edge_map()[e.spec_next().0]);
        assert(cm[e.spec_prev().0] == self.edge_map()[e.spec_prev().0]);
    }
}

impl<V> HalfEdgeMesh<V> {
    /// Contracting an edge of a manifold mesh removes the edge's vertex, and every surviving
    /// edge that left it leaves the edge's other end instead; the other edges keep their
    /// vertex.
    pub proof fn lemma_contraction_relabels(&self, f1: HalfEdgeId)
        requires
            self.is_manifold(),
            self.has_edge(f1),
        ensures
            !self.contracted_vertex_map(f1).contains_key(self.vertex_of(f1)),
            forall|k: usize|
                #[trigger] self.contracted_edge_map(f1).contains_key(k) ==> self.edge_map().contains_key(k)
                    && self.contracted_edge_map(f1)[k].spec_vertex() == (if self.edge_map()[k].spec_vertex()
                    == self.vertex_of(f1) {
                    self.far_vertex(f1)
                } else {
                    self.edge_map()[k].spec_vertex()
                }),
    {
        self.lemma_contraction_sites(f1);
        if self.contraction_folds(f1) {
            self.lemma_folded_kept(f1);
            self.lemma_folded_rest(f1);
        } else {
            self.lemma_contraction_fields(f1);
            let v1 = self.vertex_of(f1);
            let v2 = self.vertex_of(self.twin_of(f1));
            let m = self.relabeled_edges(v1, v2);
            assert(m[self.prev_of(f1).0].spec_vertex() == self.vertex_of(self.prev_of(f1)));
            assert(m[self.prev_of(self.twin_of(f1)).0].spec_vertex() == self.vertex_of(
                self.prev_of(self.twin_of(f1)),
            ));
        }
    }
}

impl<V> HalfEdgeMesh<V> {
    /// The mesh a contraction leaves is manifold for every degree limit under which the
    /// contraction folds or is not blocked.
    proof fn lemma_contraction_result(&self, after: &Self, f1: HalfEdgeId)
        requires
            self.is_manifold(),
            self.has_edge(f1),
            after.edge_map() == self.contracted_edge_map(f1),
            after.vertex_map() == self.contracted_vertex_map(f1),
            after.positions() == self.positions(),
        ensures
            self.contraction_folds(f1) ==> after.is_manifold(),
            forall|max_degree: usize|
                !#[trigger] self.contraction_blocked_spec(f1, max_degree) ==> after.is_manifold(),
    {
        if self.contraction_folds(f1) {
            self.lemma_contraction_keeps_manifold(after, f1, 0);
        }
        assert forall|max_degree: usize|
            !#[trigger] self.contraction_blocked_spec(f1, max_degree) implies after.is_manifold() by {
            self.lemma_contraction_keeps_manifold(after, f1, max_degree);
        }
    }
}

/// No side of the triangles runs from a vertex to itself.
pub open spec fn sides_proper(tris: Seq<MeshTriangle>) -> bool {
    forall|k: int| 0 <= k < 3 * tris.len() ==> #[trigger] tri_dedge(tris, k).0 != tri_dedge(tris, k).1
}

impl<V> HalfEdgeMesh<V> {
    /// Half edges built from a closed oriented triangle mesh (each directed side occurs once,
    /// has its reverse, and joins two different vertices) pair up with their twins, each
    /// leaving the vertex the other reaches, and close every triangle in a cycle of three.
    #[verifier::rlimit(40)]
    pub proof fn lemma_built_links(&self, mesh: Mesh<V>)
        requires
            self.built_from(mesh),
            half_edge_ready(mesh),
            sides_distinct(mesh.spec_triangles()),
            sides_proper(mesh.spec_triangles()),
        ensures
            forall|k: usize| self.edge_map().contains_key(k) ==> #[trigger] self.twin_ok(k),
            forall|k: usize| self.edge_map().contains_key(k) ==> #[trigger] self.face_ok(k),
    {
        let tris = mesh.spec_triangles();
        let n = 3 * tris.len();
        assert forall|k: usize| self.edge_map().contains_key(k) implies #[trigger] self.twin_ok(k) by {
            let d = tri_dedge(tris, k as int);
            assert(has_reversed_side(tris, k as int));
            let k2 = choose|k2: int| 0 <= k2 < n && #[trigger] tri_dedge(tris, k2) == (d.1, d.0);
            lemma_last_side_of(tris, k2, n as int);
            lemma_last_side_of(tris, k as int, n as int);
            assert(built_twin(tris, k as int) == k2);
            let _ = self.edge_map()[k2 as usize];
            assert(built_twin(tris, k2) == k);
            assert(tri_dedge(tris, k2 as int) == (d.1, d.0));
            assert(tri_corner(tris, k2) == d.1);
            assert(tri_corner(tris, k as int) == d.0);
            assert(sides_proper(tris) ==> d.0 != d.1);
        }
        assert forall|k: usize| self.edge_map().contains_key(k) implies #[trigger] self.face_ok(k) by {
            let t = k / 3;
            let s = k % 3;
            let a = 3 * t + (s + 1) % 3;
            let b = 3 * t + (s + 2) % 3;
            let len = tris.len() as int;
            assert(3 * t + (s + 1) % 3 < 3 * len && 3 * t + (s + 2) % 3 < 3 * len) by (nonlinear_arith)
                requires
                    k < 3 * len,
                    t == k / 3,
                    s == k % 3,
            ;
            lemma_last_side_of(tris, a as int, n as int);
            lemma_last_side_of(tris, b as int, n as int);
            lemma_last_side_of(tris, k as int, n as int);
            assert(built_next(tris, k as int) == a);
            assert(built_prev(tris, k as int) == b);
            assert(a / 3 == t && a % 3 == (s + 1) % 3);
            assert(b / 3 == t && b % 3 == (s + 2) % 3);
            assert(k == 3 * t + s);
            let _ = self.edge_map()[a as usize];
            let _ = self.edge_map()[b as usize];
            assert(built_next(tris, a as int) == b);
            assert(built_prev(tris, a as int) == k);
            assert(built_next(tris, b as int) == k);
            assert(built_prev(tris, b as int) == a);
        }
    }
}

} // verus!
