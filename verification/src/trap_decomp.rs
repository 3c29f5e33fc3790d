//! The pieces of a trapezoidal decomposition of a polygon mesh, by vertex index.
use vstd::prelude::*;
use crate::mesh_edge::MeshEdge;
use crate::directed_mesh_edge::DirectedMeshEdge;
use crate::half_edge_mesh::{dedge_key, edge_key, lemma_dedge_key_injective};
use std::collections::HashMap;

verus! {

/// Where the vertical line through a vertex stops: at once (`NoRay`: it does not leave the vertex),
/// at a mesh edge, or never.
#[derive(Debug, Copy, Clone, Eq, PartialEq, Ord, PartialOrd, Hash)]
pub enum Ray {
    NoRay,
    Edge(MeshEdge),
    All,
}

/// One vertical side of a trapezoid: through `vertex`, reaching `ray`, going down or up.
#[derive(Debug, Clone, Copy)]
pub struct Vertical {
    vertex: usize,
    ray: Ray,
    down: bool,
}

/// A trapezoid between two verticals; the directions tell whether its top and bottom
/// edges run the same way as the polygon's boundary.
#[derive(Debug)]
pub struct Trap {
    left: Vertical,
    right: Vertical,
    top_direction: bool,
    bottom_direction: bool,
}

impl Vertical {
    pub closed spec fn spec_vertex(&self) -> usize {
        self.vertex
    }

    pub closed spec fn spec_ray(&self) -> Ray {
        self.ray
    }

    pub closed spec fn spec_down(&self) -> bool {
        self.down
    }

    /// The vertical that [`Vertical::new`] builds.
    pub closed spec fn spec_new(vertex: usize, ray: Ray, down: bool) -> Vertical {
        Vertical { vertex, ray, down }
    }

    /// The parts of a vertical are those it was built from.
    pub broadcast proof fn lemma_spec_new(vertex: usize, ray: Ray, down: bool)
        ensures
            #![trigger Vertical::spec_new(vertex, ray, down)]
            Vertical::spec_new(vertex, ray, down).spec_vertex() == vertex,
            Vertical::spec_new(vertex, ray, down).spec_ray() == ray,
            Vertical::spec_new(vertex, ray, down).spec_down() == down,
    {
    }

    pub fn new(vertex: usize, ray: Ray, down: bool) -> (r: Self)
        ensures
            r.spec_vertex() == vertex,
            r.spec_ray() == ray,
            r.spec_down() == down,
            r == Vertical::spec_new(vertex, ray, down),
    {
        Vertical { vertex, ray, down }
    }

    pub fn vertex(&self) -> (r: usize)
        ensures
            r == self.spec_vertex(),
    {
        self.vertex
    }

    pub fn ray(&self) -> (r: Ray)
        ensures
            r == self.spec_ray(),
    {
        self.ray
    }

    pub fn down(&self) -> (r: bool)
        ensures
            r == self.spec_down(),
    {
        self.down
    }
}

/// Two verticals are the same side when they share the vertex and either reach the same
/// place in the same direction or both stop at the vertex.
pub open spec fn same_vertical(a: Vertical, b: Vertical) -> bool {
    a.spec_vertex() == b.spec_vertex() && ((same_ray(a.spec_ray(), b.spec_ray()) && a.spec_down()
        == b.spec_down()) || (a.spec_ray() is NoRay && b.spec_ray() is NoRay))
}

/// Two rays stop at the same place.
pub open spec fn same_ray(a: Ray, b: Ray) -> bool {
    match (a, b) {
        (Ray::NoRay, Ray::NoRay) => true,
        (Ray::Edge(e1), Ray::Edge(e2)) => e1@ == e2@,
        (Ray::All, Ray::All) => true,
        _ => false,
    }
}

/// Whether two rays stop at the same place.
fn rays_match(a: Ray, b: Ray) -> (r: bool)
    ensures
        r == same_ray(a, b),
{
    match (a, b) {
        (Ray::NoRay, Ray::NoRay) => true,
        (Ray::Edge(e1), Ray::Edge(e2)) => e1.v1() == e2.v1() && e1.v2() == e2.v2(),
        (Ray::All, Ray::All) => true,
        _ => false,
    }
}

impl PartialEq for Vertical {
    fn eq(&self, other: &Self) -> (r: bool) {
        let no_rays = match (self.ray, other.ray) {
            (Ray::NoRay, Ray::NoRay) => true,
            _ => false,
        };
        self.vertex == other.vertex && ((rays_match(self.ray, other.ray) && self.down == other.down)
            || no_rays)
    }
}

impl vstd::std_specs::cmp::PartialEqSpecImpl for Vertical {
    open spec fn obeys_eq_spec() -> bool {
        true
    }

    open spec fn eq_spec(&self, other: &Self) -> bool {
        same_vertical(*self, *other)
    }
}

impl Eq for Vertical {
}

impl Trap {
    pub closed spec fn spec_left(&self) -> Vertical {
        self.left
    }

    pub closed spec fn spec_right(&self) -> Vertical {
        self.right
    }

    pub closed spec fn spec_top_direction(&self) -> bool {
        self.top_direction
    }

    pub closed spec fn spec_bottom_direction(&self) -> bool {
        self.bottom_direction
    }

    /// The trapezoid that [`Trap::new`] builds.
    pub closed spec fn spec_new(left: Vertical, right: Vertical, top_direction: bool, bottom_direction: bool) -> Trap {
        Trap { left, right, top_direction, bottom_direction }
    }

    /// The parts of a trapezoid are those it was built from.
    pub broadcast proof fn lemma_spec_new(left: Vertical, right: Vertical, top_direction: bool, bottom_direction: bool)
        ensures
            #![trigger Trap::spec_new(left, right, top_direction, bottom_direction)]
            Trap::spec_new(left, right, top_direction, bottom_direction).spec_left() == left,
            Trap::spec_new(left, right, top_direction, bottom_direction).spec_right() == right,
            Trap::spec_new(left, right, top_direction, bottom_direction).spec_top_direction() == top_direction,
            Trap::spec_new(left, right, top_direction, bottom_direction).spec_bottom_direction() == bottom_direction,
    {
    }

    pub fn new(left: Vertical, right: Vertical, top_direction: bool, bottom_direction: bool) -> (r: Self)
        ensures
            r.spec_left() == left,
            r.spec_right() == right,
            r.spec_top_direction() == top_direction,
            r.spec_bottom_direction() == bottom_direction,
            r == Trap::spec_new(left, right, top_direction, bottom_direction),
    {
        Trap { left, right, top_direction, bottom_direction }
    }

    pub fn left(&self) -> (r: &Vertical)
        ensures
            *r == self.spec_left(),
    {
        &self.left
    }

    pub fn right(&self) -> (r: &Vertical)
        ensures
            *r == self.spec_right(),
    {
        &self.right
    }

    pub fn top_direction(&self) -> (r: bool)
        ensures
            r == self.spec_top_direction(),
    {
        self.top_direction
    }

    pub fn bottom_direction(&self) -> (r: bool)
        ensures
            r == self.spec_bottom_direction(),
    {
        self.bottom_direction
    }
}

/// An edge that the sweep line crosses, from its left end `from` to `to`, with the verticals
/// recorded at its left end just above it (`left_up`) and just below it (`left_down`).
#[derive(Clone, Copy, Debug)]
pub struct ActiveEdge {
    pub from: usize,
    pub to: usize,
    pub left_up: Vertical,
    pub left_down: Vertical,
}

/// The vertical through `v` that reaches the edge from `a` to `b`.
pub open spec fn edge_vertical(v: usize, a: usize, b: usize, down: bool) -> Vertical {
    Vertical::spec_new(v, Ray::Edge(MeshEdge::spec_new(a, b)), down)
}

/// The active edges around a vertex whose incoming edges sit at `slot .. slot + incoming`:
/// the edge just below them, the incoming edges, and the edge just above them (the first and
/// last absent at the bottom or top of the sweep line).
pub open spec fn around(active: Seq<ActiveEdge>, slot: int, incoming: int) -> Seq<Option<ActiveEdge>> {
    seq![if slot > 0 { Some(active[slot - 1]) } else { None }] + active.subrange(slot, slot + incoming).map_values(
        |a: ActiveEdge| Some(a),
    ) + seq![if slot + incoming < active.len() { Some(active[slot + incoming]) } else { None }]
}

/// A trapezoid is kept when one of its sides reaches something.
pub open spec fn has_ray(t: Trap) -> bool {
    !(t.spec_left().spec_ray() is NoRay) || !(t.spec_right().spec_ray() is NoRay)
}

/// The trapezoid alone when it is kept, nothing otherwise.
pub open spec fn kept(t: Trap) -> Seq<Trap> {
    if has_ray(t) {
        seq![t]
    } else {
        Seq::empty()
    }
}

/// The trapezoids that vertex `v` closes, in window `i` of `n`, between the active edges `below`
/// and `above`, on the left vertical `left`; `two` says whether the window has two left
/// verticals.
pub open spec fn left_traps(
    sides: Set<(usize, usize)>,
    v: usize,
    i: int,
    n: int,
    below: ActiveEdge,
    above: ActiveEdge,
    left: Vertical,
    two: bool,
) -> Seq<Trap> {
    let top_direction = sides.contains((above.to, above.from));
    let bottom_direction = sides.contains((below.from, below.to));
    let lv = left.spec_vertex();
    let lr = left.spec_ray();
    let ld = left.spec_down();
    let down_right = Vertical::spec_new(
        v,
        if two && !ld { Ray::NoRay } else { Ray::Edge(MeshEdge::spec_new(below.from, below.to)) },
        true,
    );
    let up_right = Vertical::spec_new(
        v,
        if two && ld { Ray::NoRay } else { Ray::Edge(MeshEdge::spec_new(above.from, above.to)) },
        false,
    );
    let first = if n == 1 {
        kept(
            Trap::spec_new(
                Vertical::spec_new(lv, if ld { lr } else { Ray::NoRay }, ld),
                down_right,
                top_direction,
                bottom_direction,
            ),
        ) + kept(
            Trap::spec_new(
                Vertical::spec_new(lv, if !ld { lr } else { Ray::NoRay }, ld),
                up_right,
                top_direction,
                bottom_direction,
            ),
        )
    } else if i == 0 {
        kept(Trap::spec_new(left, down_right, top_direction, bottom_direction))
    } else if i == n - 1 {
        kept(Trap::spec_new(left, up_right, top_direction, bottom_direction))
    } else {
        Seq::empty()
    };
    let middle = if 0 < i && i < n - 1 {
        kept(Trap::spec_new(left, Vertical::spec_new(v, Ray::NoRay, false), top_direction, bottom_direction))
    } else {
        Seq::empty()
    };
    first + middle
}

/// The trapezoids that vertex `v` closes in window `i` of `n`: none unless edges stand both
/// below and above it; otherwise those of the vertical recorded under the upper edge, then,
/// when it differs, those of the vertical recorded over the lower edge.
pub open spec fn window_traps(sides: Set<(usize, usize)>, v: usize, i: int, n: int, below: Option<ActiveEdge>, above: Option<ActiveEdge>) -> Seq<Trap> {
    match (below, above) {
        (Some(b), Some(a)) => {
            let two = !same_vertical(a.left_down, b.left_up);
            left_traps(sides, v, i, n, b, a, a.left_down, two) + (if two {
                left_traps(sides, v, i, n, b, a, b.left_up, two)
            } else {
                Seq::empty()
            })
        },
        _ => Seq::empty(),
    }
}

/// The trapezoids of the first `k` windows around vertex `v`.
pub open spec fn windows_upto(sides: Set<(usize, usize)>, active: Seq<ActiveEdge>, v: usize, slot: int, incoming: int, k: int) -> Seq<Trap>
    decreases k,
{
    if k <= 0 {
        Seq::empty()
    } else {
        let ar = around(active, slot, incoming);
        windows_upto(sides, active, v, slot, incoming, k - 1) + window_traps(
            sides,
            v,
            k - 1,
            incoming + 1,
            ar[k - 1],
            ar[k],
        )
    }
}

/// The trapezoids that the sweep closes at vertex `v`, whose `incoming` edges from the left
/// sit at `slot` on the sweep line.
pub open spec fn visit_traps(sides: Set<(usize, usize)>, active: Seq<ActiveEdge>, v: usize, slot: int, incoming: int) -> Seq<Trap> {
    windows_upto(sides, active, v, slot, incoming, incoming + 1)
}

/// The sweep line after vertex `v`: its incoming edges leave; the edge below `v` records the
/// vertical up from `v` to itself and the edge above records the vertical down to itself;
/// then the edges from `v` to `outgoing` (bottom to top) enter at the slot, the lowest
/// recording the vertical down from `v` and the highest the vertical up from `v` (to the
/// edge beyond, or to nothing).
pub open spec fn visit_active(active: Seq<ActiveEdge>, v: usize, slot: int, incoming: int, outgoing: Seq<usize>) -> Seq<ActiveEdge> {
    let len = active.len() as int;
    let below = active.take(slot);
    let below = if slot > 0 {
        let a = below[slot - 1];
        below.update(slot - 1, ActiveEdge { from: a.from, to: a.to, left_up: edge_vertical(v, a.from, a.to, true), left_down: a.left_down })
    } else {
        below
    };
    let above = active.skip(slot + incoming);
    let above = if slot + incoming < len {
        let a = above[0];
        above.update(0, ActiveEdge { from: a.from, to: a.to, left_up: a.left_up, left_down: edge_vertical(v, a.from, a.to, false) })
    } else {
        above
    };
    let k = outgoing.len() as int;
    let down_ray = if slot > 0 {
        Ray::Edge(MeshEdge::spec_new(active[slot - 1].from, active[slot - 1].to))
    } else {
        Ray::All
    };
    let up_ray = if slot + incoming < len {
        Ray::Edge(MeshEdge::spec_new(active[slot + incoming].from, active[slot + incoming].to))
    } else {
        Ray::All
    };
    let entering = Seq::new(
        k as nat,
        |j: int|
            ActiveEdge {
                from: v,
                to: outgoing[j],
                left_up: Vertical::spec_new(v, if j == k - 1 { up_ray } else { Ray::NoRay }, false),
                left_down: Vertical::spec_new(v, if j == 0 { down_ray } else { Ray::NoRay }, true),
            },
    );
    below + entering + above
}

/// The state of the sweep over a planar mesh: the mesh's directed edges, and the edges that the
/// sweep line crosses, from bottom to top.
pub struct TrapSweep {
    sides: HashMap<u128, bool>,
    active: Vec<ActiveEdge>,
}

impl TrapSweep {
    /// The directed edges of the mesh.
    pub closed spec fn sides(&self) -> Set<(usize, usize)> {
        Set::new(|d: (usize, usize)| self.sides@.contains_key(dedge_key(d)))
    }

    /// The edges the sweep line crosses, from bottom to top.
    pub closed spec fn active(&self) -> Seq<ActiveEdge> {
        self.active@
    }

    /// Every edge on the sweep line is an edge of the mesh, in one direction or the other.
    pub open spec fn edges_known(&self) -> bool {
        forall|i: int|
            0 <= i < self.active().len() ==> self.sides().contains((#[trigger] self.active()[i].from, self.active()[i].to))
                || self.sides().contains((self.active()[i].to, self.active()[i].from))
    }

    /// A sweep over the mesh with directed edges `forward`, before its first vertex.
    pub fn new(forward: Vec<DirectedMeshEdge>) -> (r: Self)
        ensures
            r.active() == Seq::<ActiveEdge>::empty(),
            forall|d: (usize, usize)| #[trigger] r.sides().contains(d) <==> exists|i: int|
                0 <= i < forward.len() && forward@[i]@ == d,
            r.edges_known(),
    {
        let mut sides: HashMap<u128, bool> = HashMap::new();
        let mut i: usize = 0;
        while i < forward.len()
            invariant
                i <= forward.len(),
                forall|d: (usize, usize)| #[trigger] sides@.contains_key(dedge_key(d)) <==> exists|j: int|
                    0 <= j < i && forward@[j]@ == d,
            decreases forward.len() - i,
        {
            let e = forward[i];
            sides.insert(edge_key(e), true);
            proof {
                assert forall|d: (usize, usize)| #[trigger] sides@.contains_key(dedge_key(d)) <==> exists|j: int|
                    0 <= j < i + 1 && forward@[j]@ == d by {
                    lemma_dedge_key_injective(d, e@);
                    if sides@.contains_key(dedge_key(d)) && d != e@ {
                        let j = choose|j: int| 0 <= j < i && forward@[j]@ == d;
                        assert(0 <= j < i + 1 && forward@[j]@ == d);
                    }
                    if d == e@ {
                        assert(0 <= i < i + 1 && forward@[i as int]@ == d);
                    }
                }
            }
            i = i + 1;
        }
        TrapSweep { sides, active: Vec::new() }
    }

    /// The edges the sweep line crosses, from bottom to top.
    pub fn active_edges(&self) -> (r: &[ActiveEdge])
        ensures
            r@ == self.active(),
    {
        self.active.as_slice()
    }

    /// Whether the mesh has the directed edge from `a` to `b`.
    fn has_side(&self, a: usize, b: usize) -> (r: bool)
        ensures
            r == self.sides().contains((a, b)),
    {
        self.sides.contains_key(&edge_key(DirectedMeshEdge::new(a, b)))
    }
}


/// Appends the trapezoid when it is kept.
fn push_kept(out: &mut Vec<Trap>, t: Trap)
    ensures
        final(out)@ == old(out)@ + kept(t),
{
    let left_reaches = match t.left.ray {
        Ray::NoRay => false,
        _ => true,
    };
    let right_reaches = match t.right.ray {
        Ray::NoRay => false,
        _ => true,
    };
    if left_reaches || right_reaches {
        out.push(t);
        assert(final(out)@ =~= old(out)@ + kept(t));
    } else {
        assert(old(out)@ + kept(t) =~= old(out)@);
    }
}

impl TrapSweep {
    /// Appends the trapezoids that [`left_traps`] describes.
    fn push_left_traps(
        &self,
        out: &mut Vec<Trap>,
        v: usize,
        i: usize,
        n: usize,
        below: &ActiveEdge,
        above: &ActiveEdge,
        left: Vertical,
        two: bool,
    )
        requires
            i < n,
        ensures
            final(out)@ == old(out)@ + left_traps(self.sides(), v, i as int, n as int, *below, *above, left, two),
    {
        broadcast use Vertical::lemma_spec_new, Trap::lemma_spec_new;
        let top_direction = self.has_side(above.to, above.from);
        let bottom_direction = self.has_side(below.from, below.to);
        let lv = left.vertex;
        let lr = left.ray;
        let ld = left.down;
        let down_right = Vertical::new(
            v,
            if two && !ld { Ray::NoRay } else { Ray::Edge(MeshEdge::new(below.from, below.to)) },
            true,
        );
        let up_right = Vertical::new(
            v,
            if two && ld { Ray::NoRay } else { Ray::Edge(MeshEdge::new(above.from, above.to)) },
            false,
        );
        let ghost start = out@;
        if n == 1 {
            push_kept(
                out,
                Trap::new(
                    Vertical::new(lv, if ld { lr } else { Ray::NoRay }, ld),
                    down_right,
                    top_direction,
                    bottom_direction,
                ),
            );
            push_kept(
                out,
                Trap::new(
                    Vertical::new(lv, if !ld { lr } else { Ray::NoRay }, ld),
                    up_right,
                    top_direction,
                    bottom_direction,
                ),
            );
        } else if i == 0 {
            push_kept(out, Trap::new(left, down_right, top_direction, bottom_direction));
        } else if i == n - 1 {
            push_kept(out, Trap::new(left, up_right, top_direction, bottom_direction));
        }
        let ghost mid = out@;
        if 0 < i && i < n - 1 {
            push_kept(out, Trap::new(left, Vertical::new(v, Ray::NoRay, false), top_direction, bottom_direction));
        }
        proof {
            assert(left == Vertical::spec_new(lv, lr, ld));
            assert(out@ =~= start + left_traps(self.sides(), v, i as int, n as int, *below, *above, left, two));
        }
    }

    /// Appends the trapezoids that [`window_traps`] describes.
    fn push_window(
        &self,
        out: &mut Vec<Trap>,
        v: usize,
        i: usize,
        n: usize,
        below: Option<ActiveEdge>,
        above: Option<ActiveEdge>,
    )
        requires
            i < n,
        ensures
            final(out)@ == old(out)@ + window_traps(self.sides(), v, i as int, n as int, below, above),
    {
        match (below, above) {
            (Some(b), Some(a)) => {
                let two = !(a.left_down == b.left_up);
                let ghost start = out@;
                self.push_left_traps(out, v, i, n, &b, &a, a.left_down, two);
                if two {
                    self.push_left_traps(out, v, i, n, &b, &a, b.left_up, two);
                }
                assert(out@ =~= start + window_traps(self.sides(), v, i as int, n as int, below, above));
            },
            _ => {
                assert(old(out)@ + window_traps(self.sides(), v, i as int, n as int, below, above) =~= old(out)@);
            },
        }
    }

    /// Moves the sweep line past vertex `v`, whose `incoming` edges from the left sit at `slot`
    /// on the line (or, when there are none, whose place on the line is `slot`), and whose edges
    /// to the right go to `outgoing`, from bottom to top. Returns the trapezoids that `v`
    /// closes.
    pub fn visit(&mut self, v: usize, slot: usize, incoming: usize, outgoing: &[usize]) -> (traps: Vec<Trap>)
        requires
            slot + incoming <= old(self).active().len(),
            incoming < usize::MAX,
            old(self).edges_known(),
            forall|j: int|
                0 <= j < outgoing.len() ==> old(self).sides().contains((v, #[trigger] outgoing[j]))
                    || old(self).sides().contains((outgoing[j], v)),
        ensures
            traps@ == visit_traps(old(self).sides(), old(self).active(), v, slot as int, incoming as int),
            final(self).active() == visit_active(old(self).active(), v, slot as int, incoming as int, outgoing@),
            final(self).sides() == old(self).sides(),
            final(self).edges_known(),
    {
        let ghost act = self.active@;
        let ghost sd = self.sides();
        let len = self.active.len();
        let n = incoming + 1;
        let mut out: Vec<Trap> = Vec::new();
        let mut i: usize = 0;
        while i < n
            invariant
                n == incoming + 1,
                len == act.len(),
                slot + incoming <= len,
                self.active@ == act,
                self.sides() == sd,
                i <= n,
                out@ == windows_upto(sd, act, v, slot as int, incoming as int, i as int),
            decreases n - i,
        {
            let ghost ar = around(act, slot as int, incoming as int);
            let below = if i == 0 {
                if slot > 0 {
                    Some(self.active[slot - 1])
                } else {
                    None
                }
            } else {
                Some(self.active[slot + i - 1])
            };
            let above = if i == incoming {
                if slot + incoming < len {
                    Some(self.active[slot + incoming])
                } else {
                    None
                }
            } else {
                Some(self.active[slot + i])
            };
            proof {
                assert(below == ar[i as int]);
                assert(above == ar[i + 1]);
            }
            self.push_window(&mut out, v, i, n, below, above);
            i = i + 1;
        }
        let ghost target = visit_active(act, v, slot as int, incoming as int, outgoing@);
        let ghost k0 = outgoing.len() as int;
        proof {
            assert(target.len() == slot + k0 + (len - slot - incoming));
            assert forall|q: int| 0 <= q < slot implies #[trigger] target[q] == (if q == slot - 1 {
                ActiveEdge {
                    from: act[q].from,
                    to: act[q].to,
                    left_up: edge_vertical(v, act[q].from, act[q].to, true),
                    left_down: act[q].left_down,
                }
            } else {
                act[q]
            }) by {}
            assert forall|q: int| slot <= q < slot + k0 implies #[trigger] target[q] == ActiveEdge {
                from: v,
                to: outgoing@[q - slot],
                left_up: Vertical::spec_new(
                    v,
                    if q - slot == k0 - 1 {
                        if slot + incoming < len {
                            Ray::Edge(MeshEdge::spec_new(act[slot + incoming].from, act[slot + incoming].to))
                        } else {
                            Ray::All
                        }
                    } else {
                        Ray::NoRay
                    },
                    false,
                ),
                left_down: Vertical::spec_new(
                    v,
                    if q == slot {
                        if slot > 0 {
                            Ray::Edge(MeshEdge::spec_new(act[slot - 1].from, act[slot - 1].to))
                        } else {
                            Ray::All
                        }
                    } else {
                        Ray::NoRay
                    },
                    true,
                ),
            } by {}
            assert forall|q: int| slot + k0 <= q < target.len() implies #[trigger] target[q] == (if q == slot + k0 {
                ActiveEdge {
                    from: act[slot + incoming].from,
                    to: act[slot + incoming].to,
                    left_up: act[slot + incoming].left_up,
                    left_down: edge_vertical(v, act[slot + incoming].from, act[slot + incoming].to, false),
                }
            } else {
                act[q - slot - k0 + slot + incoming]
            }) by {}
        }
        let mut next: Vec<ActiveEdge> = Vec::new();
        let mut j: usize = 0;
        while j < slot
            invariant
                slot + incoming <= len,
                len == act.len(),
                self.active@ == act,
                j <= slot,
                next@ == target.take(j as int),
                target == visit_active(act, v, slot as int, incoming as int, outgoing@),
                    forall|q: int| 0 <= q < slot ==> #[trigger] target[q] == (if q == slot - 1 {
                    ActiveEdge {
                        from: act[q].from,
                        to: act[q].to,
                        left_up: edge_vertical(v, act[q].from, act[q].to, true),
                        left_down: act[q].left_down,
                    }
                } else {
                    act[q]
                }),
            decreases slot - j,
        {
            let mut a = self.active[j];
            if j + 1 == slot {
                a.left_up = Vertical::new(v, Ray::Edge(MeshEdge::new(a.from, a.to)), true);
            }
            next.push(a);
            j = j + 1;
            assert(next@ =~= target.take(j as int));
        }
        let k = outgoing.len();
        let down_ray = if slot > 0 {
            Ray::Edge(MeshEdge::new(self.active[slot - 1].from, self.active[slot - 1].to))
        } else {
            Ray::All
        };
        let up_ray = if slot + incoming < len {
            Ray::Edge(MeshEdge::new(self.active[slot + incoming].from, self.active[slot + incoming].to))
        } else {
            Ray::All
        };
        let mut j: usize = 0;
        while j < k
            invariant
                slot + incoming <= len,
                len == act.len(),
                self.active@ == act,
                k == outgoing.len(),
                j <= k,
                next@ == target.take(slot + j),
                k0 == k,
                target.len() == slot + k0 + (len - slot - incoming),
                    forall|q: int| slot <= q < slot + k0 ==> #[trigger] target[q] == (ActiveEdge {
                    from: v,
                    to: outgoing@[q - slot],
                    left_up: Vertical::spec_new(
                        v,
                        if q - slot == k0 - 1 {
                            if slot + incoming < len {
                                Ray::Edge(MeshEdge::spec_new(act[slot + incoming].from, act[slot + incoming].to))
                            } else {
                                Ray::All
                            }
                        } else {
                            Ray::NoRay
                        },
                        false,
                    ),
                    left_down: Vertical::spec_new(
                        v,
                        if q == slot {
                            if slot > 0 {
                                Ray::Edge(MeshEdge::spec_new(act[slot - 1].from, act[slot - 1].to))
                            } else {
                                Ray::All
                            }
                        } else {
                            Ray::NoRay
                        },
                        true,
                    ),
                }),
                down_ray == (if slot > 0 {
                    Ray::Edge(MeshEdge::spec_new(act[slot - 1].from, act[slot - 1].to))
                } else {
                    Ray::All
                }),
                up_ray == (if slot + incoming < len {
                    Ray::Edge(MeshEdge::spec_new(act[slot + incoming].from, act[slot + incoming].to))
                } else {
                    Ray::All
                }),
            decreases k - j,
        {
            let e = ActiveEdge {
                from: v,
                to: outgoing[j],
                left_up: Vertical::new(v, if j + 1 == k { up_ray } else { Ray::NoRay }, false),
                left_down: Vertical::new(v, if j == 0 { down_ray } else { Ray::NoRay }, true),
            };
            next.push(e);
            proof {
                assert(target[slot + j] == e);
            }
            j = j + 1;
            assert(next@ =~= target.take(slot + j));
        }
        let mut j: usize = slot + incoming;
        while j < len
            invariant
                slot + incoming <= j <= len,
                len == act.len(),
                self.active@ == act,
                next@ == target.take(slot + k + (j - slot - incoming)),
                k == outgoing.len(),
                k0 == k,
                target.len() == slot + k0 + (len - slot - incoming),
                    forall|q: int| slot + k0 <= q < target.len() ==> #[trigger] target[q] == (if q == slot + k0 {
                    ActiveEdge {
                        from: act[slot + incoming].from,
                        to: act[slot + incoming].to,
                        left_up: act[slot + incoming].left_up,
                        left_down: edge_vertical(v, act[slot + incoming].from, act[slot + incoming].to, false),
                    }
                } else {
                    act[q - slot - k0 + slot + incoming]
                }),
            decreases len - j,
        {
            let mut a = self.active[j];
            if j == slot + incoming {
                a.left_down = Vertical::new(v, Ray::Edge(MeshEdge::new(a.from, a.to)), false);
            }
            next.push(a);
            j = j + 1;
            assert(next@ =~= target.take(slot + k + (j - slot - incoming)));
        }
        assert(next@ =~= target);
        self.active = next;
        proof {
            assert forall|i: int| 0 <= i < self.active().len() implies self.sides().contains(
                (#[trigger] self.active()[i].from, self.active()[i].to),
            ) || self.sides().contains((self.active()[i].to, self.active()[i].from)) by {
                if i < slot {
                    assert(self.active()[i].from == act[i].from && self.active()[i].to == act[i].to);
                } else if i < slot + k {
                    assert(self.active()[i].from == v && self.active()[i].to == outgoing[i - slot]);
                } else {
                    let o = i - slot - k + slot + incoming;
                    assert(self.active()[i].from == act[o].from && self.active()[i].to == act[o].to);
                }
            }
        }
        out
    }
}


/// Every trapezoid of `ts` ends at the vertical through `v` and reaches something on one side.
pub open spec fn all_close_at(ts: Seq<Trap>, v: usize) -> bool {
    forall|j: int| 0 <= j < ts.len() ==> (#[trigger] ts[j]).spec_right().spec_vertex() == v && has_ray(ts[j])
}

proof fn lemma_close_concat(a: Seq<Trap>, b: Seq<Trap>, v: usize)
    requires
        all_close_at(a, v),
        all_close_at(b, v),
    ensures
        all_close_at(a + b, v),
{
    assert forall|j: int| 0 <= j < (a + b).len() implies (#[trigger] (a + b)[j]).spec_right().spec_vertex() == v
        && has_ray((a + b)[j]) by {
        if j < a.len() {
            assert((a + b)[j] == a[j]);
        } else {
            assert((a + b)[j] == b[j - a.len()]);
        }
    }
}

proof fn lemma_kept_closes(t: Trap, v: usize)
    requires
        t.spec_right().spec_vertex() == v,
    ensures
        all_close_at(kept(t), v),
{
}

proof fn lemma_left_traps_close(
    sides: Set<(usize, usize)>,
    v: usize,
    i: int,
    n: int,
    below: ActiveEdge,
    above: ActiveEdge,
    left: Vertical,
    two: bool,
)
    ensures
        all_close_at(left_traps(sides, v, i, n, below, above, left, two), v),
{
    broadcast use Trap::lemma_spec_new, Vertical::lemma_spec_new;

    let top_direction = sides.contains((above.to, above.from));
    let bottom_direction = sides.contains((below.from, below.to));
    let lv = left.spec_vertex();
    let lr = left.spec_ray();
    let ld = left.spec_down();
    let down_right = Vertical::spec_new(
        v,
        if two && !ld { Ray::NoRay } else { Ray::Edge(MeshEdge::spec_new(below.from, below.to)) },
        true,
    );
    let up_right = Vertical::spec_new(
        v,
        if two && ld { Ray::NoRay } else { Ray::Edge(MeshEdge::spec_new(above.from, above.to)) },
        false,
    );
    let t1 = Trap::spec_new(Vertical::spec_new(lv, if ld { lr } else { Ray::NoRay }, ld), down_right, top_direction, bottom_direction);
    let t2 = Trap::spec_new(Vertical::spec_new(lv, if !ld { lr } else { Ray::NoRay }, ld), up_right, top_direction, bottom_direction);
    let t3 = Trap::spec_new(left, down_right, top_direction, bottom_direction);
    let t4 = Trap::spec_new(left, up_right, top_direction, bottom_direction);
    let t5 = Trap::spec_new(left, Vertical::spec_new(v, Ray::NoRay, false), top_direction, bottom_direction);
    lemma_kept_closes(t1, v);
    lemma_kept_closes(t2, v);
    lemma_kept_closes(t3, v);
    lemma_kept_closes(t4, v);
    lemma_kept_closes(t5, v);
    lemma_close_concat(kept(t1), kept(t2), v);
    let e = Seq::<Trap>::empty();
    let first = if n == 1 {
        kept(t1) + kept(t2)
    } else if i == 0 {
        kept(t3)
    } else if i == n - 1 {
        kept(t4)
    } else {
        e
    };
    let middle = if 0 < i && i < n - 1 {
        kept(t5)
    } else {
        e
    };
    lemma_close_concat(first, middle, v);
    assert(left_traps(sides, v, i, n, below, above, left, two) == first + middle);
}

proof fn lemma_windows_close(
    sides: Set<(usize, usize)>,
    active: Seq<ActiveEdge>,
    v: usize,
    slot: int,
    incoming: int,
    k: int,
)
    ensures
        all_close_at(windows_upto(sides, active, v, slot, incoming, k), v),
    decreases k,
{
    if k > 0 {
        lemma_windows_close(sides, active, v, slot, incoming, k - 1);
        let ar = around(active, slot, incoming);
        let (below, above) = (ar[k - 1], ar[k]);
        let w = window_traps(sides, v, k - 1, incoming + 1, below, above);
        match (below, above) {
            (Some(b), Some(a)) => {
                let two = !same_vertical(a.left_down, b.left_up);
                lemma_left_traps_close(sides, v, k - 1, incoming + 1, b, a, a.left_down, two);
                lemma_left_traps_close(sides, v, k - 1, incoming + 1, b, a, b.left_up, two);
                lemma_close_concat(
                    left_traps(sides, v, k - 1, incoming + 1, b, a, a.left_down, two),
                    if two {
                        left_traps(sides, v, k - 1, incoming + 1, b, a, b.left_up, two)
                    } else {
                        Seq::empty()
                    },
                    v,
                );
            },
            _ => {},
        }
        lemma_close_concat(windows_upto(sides, active, v, slot, incoming, k - 1), w, v);
    }
}

/// The trapezoids the sweep closes at a vertex all end at the vertical through that vertex,
/// and none is a mere strip between two verticals that reach nothing.
pub proof fn lemma_visit_closes_at(sides: Set<(usize, usize)>, active: Seq<ActiveEdge>, v: usize, slot: int, incoming: int)
    ensures
        all_close_at(visit_traps(sides, active, v, slot, incoming), v),
{
    lemma_windows_close(sides, active, v, slot, incoming, incoming + 1);
}

/// The edges an active list holds, as their two ends.
pub open spec fn active_ends(a: Seq<ActiveEdge>) -> Seq<(usize, usize)> {
    a.map_values(|e: ActiveEdge| (e.from, e.to))
}

/// Passing a vertex takes its incoming edges off the sweep line and puts its outgoing ones,
/// bottom to top, in their place; the edges below and above stay, in order. Each outgoing
/// edge starts at the vertex, and each vertical it records goes through the vertex.
pub proof fn lemma_visit_swaps_edges(active: Seq<ActiveEdge>, v: usize, slot: int, incoming: int, outgoing: Seq<usize>)
    requires
        0 <= slot,
        0 <= incoming,
        slot + incoming <= active.len(),
    ensures
        active_ends(visit_active(active, v, slot, incoming, outgoing)) == active_ends(active).take(slot) + Seq::new(
            outgoing.len(),
            |j: int| (v, outgoing[j]),
        ) + active_ends(active).skip(slot + incoming),
        forall|j: int|
            slot <= j < slot + outgoing.len() ==> (#[trigger] visit_active(active, v, slot, incoming, outgoing)[j]).left_up.spec_vertex()
                == v && visit_active(active, v, slot, incoming, outgoing)[j].left_down.spec_vertex() == v,
{
    broadcast use Vertical::lemma_spec_new;

    let r = visit_active(active, v, slot, incoming, outgoing);
    let want = active_ends(active).take(slot) + Seq::new(outgoing.len(), |j: int| (v, outgoing[j]))
        + active_ends(active).skip(slot + incoming);
    assert(r.len() == want.len());
    assert forall|j: int| 0 <= j < r.len() implies #[trigger] active_ends(r)[j] == want[j] by {
        if j < slot {
        } else if j < slot + outgoing.len() {
        } else {
        }
    }
    assert(active_ends(r) =~= want);
}

} // verus!
