//! Cutting a monotone polygon into triangles with a stack. The vertices come in sweep order,
//! each marked with the chain it lies on; whether a candidate triangle is wound the right
//! way is a geometric test that the caller supplies.
use vstd::prelude::*;
use crate::mesh_triangle::{MeshTriangle, canonical_rotation};
use crate::trap_decomp::Vertical;

verus! {

/// The chain of a monotone polygon a vertex lies on.
#[derive(Copy, Clone, Eq, PartialEq, Structural, Debug)]
pub enum MonoSide {
    Up,
    Down,
}

/// A vertex of a monotone polygon and the chain it lies on.
#[derive(Copy, Clone, Eq, PartialEq, Structural, Debug)]
pub struct MonoVertex {
    pub vertex: usize,
    pub side: MonoSide,
}

impl MonoVertex {
    pub fn new(vertex: usize, side: MonoSide) -> (r: Self)
        ensures
            r == (MonoVertex { vertex, side }),
    {
        MonoVertex { vertex, side }
    }

    pub fn vertex(&self) -> (r: usize)
        ensures
            r == self.vertex,
    {
        self.vertex
    }

    pub fn side(&self) -> (r: MonoSide)
        ensures
            r == self.side,
    {
        self.side
    }
}

/// The vertex of a vertical of a monotone chain, on the upper chain when the vertical points
/// down from it and on the lower (`Up`) chain otherwise.
pub open spec fn mono_of(v: Vertical) -> MonoVertex {
    MonoVertex {
        vertex: v.spec_vertex(),
        side: if v.spec_down() {
            MonoSide::Down
        } else {
            MonoSide::Up
        },
    }
}

/// The vertices of a monotone chain in sweep order, each with its chain.
pub fn mono_vertices(chain: &[Vertical]) -> (r: Vec<MonoVertex>)
    ensures
        r@ == chain@.map_values(|v: Vertical| mono_of(v)),
{
    let mut r: Vec<MonoVertex> = Vec::new();
    let mut i: usize = 0;
    while i < chain.len()
        invariant
            i <= chain.len(),
            r@ == chain@.take(i as int).map_values(|v: Vertical| mono_of(v)),
        decreases chain.len() - i,
    {
        let v = &chain[i];
        let side = if v.down() {
            MonoSide::Down
        } else {
            MonoSide::Up
        };
        r.push(MonoVertex::new(v.vertex(), side));
        proof {
            assert(chain@.take(i + 1) =~= chain@.take(i as int).push(chain@[i as int]));
        }
        i = i + 1;
        assert(r@ =~= chain@.take(i as int).map_values(|v: Vertical| mono_of(v)));
    }
    assert(chain@.take(chain.len() as int) =~= chain@);
    r
}

/// The triangle on the vertices at positions `c`, `a` and `b` of `mono`, in that order, turned
/// around when the one at `a` lies on the upper chain.
pub open spec fn corner_tri(mono: Seq<MonoVertex>, c: int, a: int, b: int) -> (usize, usize, usize) {
    let t = canonical_rotation(mono[c].vertex, mono[a].vertex, mono[b].vertex);
    if mono[a].side == MonoSide::Up {
        (t.0, t.2, t.1)
    } else {
        t
    }
}

/// `t` is the triangle [`corner_tri`] makes of positions `b < a < c`.
pub open spec fn made_from(mono: Seq<MonoVertex>, t: (usize, usize, usize), c: int, a: int, b: int) -> bool {
    0 <= b < a < c < mono.len() && t == corner_tri(mono, c, a, b)
}

/// `t` is the triangle [`corner_tri`] makes of three distinct positions of `mono`.
pub open spec fn from_mono(mono: Seq<MonoVertex>, t: (usize, usize, usize)) -> bool {
    exists|c: int, a: int, b: int| #[trigger] made_from(mono, t, c, a, b)
}

/// `t` is the triangle [`corner_tri`] makes of three distinct positions of `mono`, and unless
/// its first corner is the last vertex or lies on the other chain than its middle corner (a
/// fan from a vertex across the polygon), it is an ear cut off along one chain, which
/// `keeps` accepted.
pub open spec fn placed<F: Fn(MeshTriangle) -> bool>(mono: Seq<MonoVertex>, keeps: F, t: MeshTriangle) -> bool {
    exists|c: int, a: int, b: int|
        #[trigger] made_from(mono, t@, c, a, b) && (c == mono.len() - 1 || mono[c].side != mono[a].side
            || call_ensures(keeps, (t,), true))
}

/// Every triangle after the first `from` of `tris` is [`placed`].
pub open spec fn all_placed<F: Fn(MeshTriangle) -> bool>(
    mono: Seq<MonoVertex>,
    keeps: F,
    tris: Seq<MeshTriangle>,
    from: int,
) -> bool {
    forall|k: int| from <= k < tris.len() ==> placed(mono, keeps, #[trigger] tris[k])
}

/// How many triangles a polygon of `n` vertices is cut into.
pub open spec fn piece_count(n: int) -> int {
    if n == 2 {
        1
    } else {
        n - 2
    }
}

/// The stack holds increasing positions below `i`, and all but the bottom one lie on the
/// chain of the top.
spec fn stack_ok(mono: Seq<MonoVertex>, stack: Seq<usize>, i: int) -> bool {
    &&& forall|j: int, k: int| 0 <= j < k < stack.len() ==> stack[j] < stack[k]
    &&& forall|j: int| 0 <= j < stack.len() ==> stack[j] < i
    &&& forall|j: int|
        1 <= j < stack.len() ==> #[trigger] mono[stack[j] as int].side == mono[stack[stack.len()
            - 1] as int].side
}

/// Every triangle after the first `from` of `tris` comes from `mono`.
pub open spec fn all_from_mono(mono: Seq<MonoVertex>, tris: Seq<MeshTriangle>, from: int) -> bool {
    forall|k: int| from <= k < tris.len() ==> from_mono(mono, #[trigger] tris[k]@)
}

proof fn lemma_push_placed<F: Fn(MeshTriangle) -> bool>(
    mono: Seq<MonoVertex>,
    keeps: F,
    tris: Seq<MeshTriangle>,
    t: MeshTriangle,
    from: int,
)
    requires
        0 <= from <= tris.len(),
        all_placed(mono, keeps, tris, from),
        placed(mono, keeps, t),
    ensures
        all_placed(mono, keeps, tris.push(t), from),
{
    assert forall|k: int| from <= k < tris.push(t).len() implies placed(mono, keeps, #[trigger] tris.push(t)[k]) by {
        if k < tris.len() {
            assert(tris.push(t)[k] == tris[k]);
        }
    }
}

proof fn lemma_placed_from_mono<F: Fn(MeshTriangle) -> bool>(
    mono: Seq<MonoVertex>,
    keeps: F,
    tris: Seq<MeshTriangle>,
    from: int,
)
    requires
        all_placed(mono, keeps, tris, from),
    ensures
        all_from_mono(mono, tris, from),
{
    assert forall|k: int| from <= k < tris.len() implies from_mono(mono, #[trigger] tris[k]@) by {
        assert(placed(mono, keeps, tris[k]));
        let (c, a, b) = choose|c: int, a: int, b: int|
            #[trigger] made_from(mono, tris[k]@, c, a, b) && (c == mono.len() - 1 || mono[c].side != mono[a].side
                || call_ensures(keeps, (tris[k],), true));
        assert(made_from(mono, tris[k]@, c, a, b));
    }
}

fn corner(mono: &[MonoVertex], c: usize, a: usize, b: usize) -> (t: MeshTriangle)
    requires
        c < mono.len(),
        a < mono.len(),
        b < mono.len(),
    ensures
        t@ == corner_tri(mono@, c as int, a as int, b as int),
{
    let mut t = MeshTriangle::new(mono[c].vertex, mono[a].vertex, mono[b].vertex);
    if mono[a].side == MonoSide::Up {
        t.invert();
    }
    t
}

/// Appends to `tris` the triangles of the monotone polygon `mono`, given in sweep order. A
/// vertex on the other chain than the top of the stack fans out to the whole stack; one on
/// the same chain cuts off triangles from the top for as long as `keeps` accepts them, that
/// is while they are wound the right way. The last vertex fans out to what is left. Whatever
/// `keeps` answers, a polygon of `n` vertices gives [`piece_count`]`(n)` triangles, each on
/// three distinct positions of `mono` and wound by the chain of its middle corner, and every
/// ear cut off along one chain is one that `keeps` accepted.
pub fn diagonalize_monotonic<F: Fn(MeshTriangle) -> bool>(
    mono: &[MonoVertex],
    keeps: &F,
    tris: &mut Vec<MeshTriangle>,
)
    requires
        mono.len() >= 2,
        forall|t: MeshTriangle| call_requires(*keeps, (t,)),
    ensures
        final(tris)@.len() == old(tris)@.len() + piece_count(mono.len() as int),
        final(tris)@.take(old(tris)@.len() as int) == old(tris)@,
        mono.len() >= 3 ==> all_from_mono(mono@, final(tris)@, old(tris)@.len() as int),
        mono.len() >= 3 ==> all_placed(mono@, *keeps, final(tris)@, old(tris)@.len() as int),
        mono.len() == 2 ==> final(tris)@[old(tris)@.len() as int]@ == corner_tri(mono@, 1, 1, 0),
{
    let ghost base = tris@;
    let n = mono.len();
    let mut stack: Vec<usize> = Vec::new();
    stack.push(0);
    stack.push(1);
    assert(tris@.take(base.len() as int) =~= base);
    let mut i: usize = 2;
    while i < n - 1
        invariant
            2 <= i,
            n == mono.len(),
            n >= 2,
            n >= 3 ==> i <= n - 1,
            n == 2 ==> i == 2 && stack@ == seq![0usize, 1usize],
            forall|t: MeshTriangle| call_requires(*keeps, (t,)),
            stack.len() >= 2,
            stack_ok(mono@, stack@, i as int),
            tris@.len() + stack.len() == base.len() + i,
            base.len() <= tris@.len(),
            tris@.take(base.len() as int) == base,
            all_placed(mono@, *keeps, tris@, base.len() as int),
        decreases n - i,
    {
        let top = stack[stack.len() - 1];
        if mono[i].side != mono[top].side {
            while stack.len() >= 2
                invariant
                    stack.len() >= 1,
                    top < mono.len(),
                    mono[i as int].side != mono[top as int].side,
                    forall|j: int|
                        1 <= j < stack.len() ==> #[trigger] mono[stack[j] as int].side == mono[top as int].side,
                    forall|t: MeshTriangle| call_requires(*keeps, (t,)),
                    i < n - 1,
                    n == mono.len(),
                    stack_ok(mono@, stack@, i as int),
                    tris@.len() + stack.len() == base.len() + i,
                    base.len() <= tris@.len(),
                    tris@.take(base.len() as int) == base,
                    all_placed(mono@, *keeps, tris@, base.len() as int),
                decreases stack.len(),
            {
                let ghost before = stack@;
                let p1 = stack.pop().unwrap();
                let p2 = stack[stack.len() - 1];
                proof {
                    assert(p1 == before[before.len() - 1]);
                    assert(p2 == before[before.len() - 2]);
                }
                let t = corner(mono, i, p1, p2);
                proof {
                    assert(mono[before[before.len() - 1] as int].side == mono[top as int].side);
                    assert(made_from(mono@, t@, i as int, p1 as int, p2 as int));
                    assert(placed(mono@, *keeps, t));
                    lemma_push_placed(mono@, *keeps, tris@, t, base.len() as int);
                }
                tris.push(t);
            }
            stack.pop();
            stack.push(top);
            stack.push(i);
        } else {
            loop
                invariant
                    stack.len() >= 1,
                    i < n - 1,
                    n == mono.len(),
                    stack_ok(mono@, stack@, i as int),
                    forall|j: int|
                        1 <= j < stack.len() ==> #[trigger] mono[stack[j] as int].side == mono[i as int].side,
                    tris@.len() + stack.len() == base.len() + i,
                    base.len() <= tris@.len(),
                    tris@.take(base.len() as int) == base,
                    all_placed(mono@, *keeps, tris@, base.len() as int),
                    forall|t: MeshTriangle| call_requires(*keeps, (t,)),
                decreases stack.len(),
            {
                if stack.len() < 2 {
                    break;
                }
                let ghost before = stack@;
                let p1 = stack.pop().unwrap();
                let p2 = stack[stack.len() - 1];
                proof {
                    assert(p1 == before[before.len() - 1]);
                    assert(p2 == before[before.len() - 2]);
                }
                let t = corner(mono, i, p1, p2);
                if keeps(t) {
                    proof {
                        assert(made_from(mono@, t@, i as int, p1 as int, p2 as int));
                        assert(placed(mono@, *keeps, t));
                        lemma_push_placed(mono@, *keeps, tris@, t, base.len() as int);
                    }
                    tris.push(t);
                } else {
                    stack.push(p1);
                    proof {
                        assert(stack@ =~= before);
                    }
                    break;
                }
            }
            let ghost before = stack@;
            stack.push(i);
            proof {
                assert forall|j: int| 1 <= j < stack.len() implies #[trigger] mono[stack[j] as int].side
                    == mono[stack[stack.len() - 1] as int].side by {
                    if j < before.len() {
                        assert(stack[j] == before[j]);
                    }
                }
            }
        }
        i = i + 1;
    }
    let ghost mid = tris@;
    let last = n - 1;
    let mut k: usize = 0;
    while k + 1 < stack.len()
        invariant
            n == mono.len(),
            n >= 2,
            last == n - 1,
            2 <= i,
            i >= n - 1,
            n >= 3 ==> i == n - 1,
            n == 2 ==> i == 2,
            stack.len() >= 2,
            n == 2 ==> stack@ == seq![0usize, 1usize],
            stack_ok(mono@, stack@, i as int),
            k + 1 <= stack.len(),
            tris@.len() + stack.len() == base.len() + i + k,
            base.len() <= tris@.len(),
            tris@.take(base.len() as int) == base,
            n >= 3 ==> all_placed(mono@, *keeps, tris@, base.len() as int),
            n == 2 && k >= 1 ==> tris@[base.len() as int]@ == corner_tri(mono@, 1, 1, 0),
        decreases stack.len() - k,
    {
        proof {
            assert(stack[k as int] < n && stack[k + 1] < n) by {
                if n == 2 {
                    assert(stack@ == seq![0usize, 1usize]);
                } else {
                    assert(stack@[k as int] < i);
                    assert(stack@[k + 1] < i);
                }
            }
        }
        let t = corner(mono, last, stack[k + 1], stack[k]);
        proof {
            if n >= 3 {
                assert(made_from(mono@, t@, last as int, stack[k + 1] as int, stack[k as int] as int));
                assert(placed(mono@, *keeps, t));
                lemma_push_placed(mono@, *keeps, tris@, t, base.len() as int);
            }
        }
        let ghost prev = tris@;
        tris.push(t);
        proof {
            assert(tris@.take(base.len() as int) =~= prev.take(base.len() as int));
            if n == 2 && k == 0 {
                assert(tris@[base.len() as int] == t);
            } else if n == 2 {
                assert(tris@[base.len() as int] == prev[base.len() as int]);
            }
        }
        k = k + 1;
    }
    proof {
        if n >= 3 {
            lemma_placed_from_mono(mono@, *keeps, tris@, base.len() as int);
        }
    }
}

} // verus!
