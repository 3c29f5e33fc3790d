//! Joining the trapezoids of a trapezoidal decomposition into monotone polygons.
use vstd::prelude::*;
use crate::trap_decomp::{Ray, Trap, Vertical, same_vertical};

verus! {

/// A chain being built, keyed by the vertical it currently ends at.
pub type Builder = (Vertical, Seq<Vertical>);

/// The place of the builder whose key is the same side as `v`, if any.
pub open spec fn find_builder(bs: Seq<Builder>, v: Vertical) -> Option<int> {
    if exists|i: int| 0 <= i < bs.len() && same_vertical(bs[i].0, v) {
        Some(choose|i: int| 0 <= i < bs.len() && same_vertical(bs[i].0, v))
    } else {
        None
    }
}

/// What joining the first `n` trapezoids gives: the open chains by the side they end at,
/// the finished chains, and whether every step went as a decomposition of closed polygons
/// allows. A trapezoid whose top and bottom both run with the boundary extends the chain
/// ending at its left side by its right side (finishing it when the right side has no
/// ray), or, when no chain ends there, starts one from its two sides.
pub open spec fn join_upto(traps: Seq<Trap>, n: int) -> (Seq<Builder>, Seq<Seq<Vertical>>, bool)
    decreases n,
{
    if n <= 0 {
        (Seq::empty(), Seq::empty(), true)
    } else {
        let (bs, done, ok) = join_upto(traps, n - 1);
        let t = traps[n - 1];
        if !ok || !(t.spec_top_direction() && t.spec_bottom_direction()) {
            (bs, done, ok)
        } else {
            let l = t.spec_left();
            let r = t.spec_right();
            match find_builder(bs, l) {
                Some(i) => {
                    let chain = bs[i].1.push(r);
                    let rest = bs.remove(i);
                    if r.spec_ray() is NoRay {
                        (rest, done.push(chain), true)
                    } else if find_builder(rest, r) is Some {
                        (rest, done, false)
                    } else {
                        (rest.push((r, chain)), done, true)
                    }
                },
                None => {
                    if !(l.spec_ray() is NoRay) || find_builder(bs, r) is Some {
                        (bs, done, false)
                    } else {
                        (bs.push((r, seq![l, r])), done, true)
                    }
                },
            }
        }
    }
}

/// Joining the trapezoids goes through and leaves no chain open.
pub open spec fn joins_cleanly(traps: Seq<Trap>) -> bool {
    let (bs, _, ok) = join_upto(traps, traps.len() as int);
    ok && bs.len() == 0
}

/// The place of the builder for `v`, if any.
fn find_builder_exec(bs: &Vec<(Vertical, Vec<Vertical>)>, v: &Vertical) -> (r: Option<usize>)
    ensures
        ({
            let s = bs@.map_values(|b: (Vertical, Vec<Vertical>)| (b.0, b.1@));
            match r {
                Some(i) => find_builder(s, *v) is Some && i < bs.len() && same_vertical(bs@[i as int].0, *v),
                None => find_builder(s, *v) is None,
            }
        }),
{
    let ghost s = bs@.map_values(|b: (Vertical, Vec<Vertical>)| (b.0, b.1@));
    let mut i: usize = 0;
    while i < bs.len()
        invariant
            i <= bs.len(),
            s == bs@.map_values(|b: (Vertical, Vec<Vertical>)| (b.0, b.1@)),
            forall|j: int| 0 <= j < i ==> !same_vertical(#[trigger] s[j].0, *v),
        decreases bs.len() - i,
    {
        if bs[i].0 == *v {
            assert(same_vertical(s[i as int].0, *v));
            return Some(i);
        }
        i = i + 1;
    }
    None
}

/// The chains of verticals that the trapezoids join into, in the order they are finished.
pub fn monotone_chains(traps: &[Trap]) -> (r: Vec<Vec<Vertical>>)
    requires
        joins_cleanly(traps@),
    ensures
        r@.map_values(|c: Vec<Vertical>| c@) == join_upto(traps@, traps.len() as int).1,
{
    let mut builders: Vec<(Vertical, Vec<Vertical>)> = Vec::new();
    let mut monotones: Vec<Vec<Vertical>> = Vec::new();
    let mut k: usize = 0;
    while k < traps.len()
        invariant
            k <= traps.len(),
            joins_cleanly(traps@),
            ({
                let (bs, done, ok) = join_upto(traps@, k as int);
                &&& ok
                &&& builders@.map_values(|b: (Vertical, Vec<Vertical>)| (b.0, b.1@)) == bs
                &&& monotones@.map_values(|c: Vec<Vertical>| c@) == done
            }),
        decreases traps.len() - k,
    {
        proof {
            lemma_join_ok_prefix(traps@, k as int + 1, traps.len() as int);
            lemma_join_ok_prefix(traps@, k as int, traps.len() as int);
            lemma_join_distinct(traps@, k as int);
        }
        let t = &traps[k];
        let ghost bs = builders@.map_values(|b: (Vertical, Vec<Vertical>)| (b.0, b.1@));
        let ghost done = monotones@.map_values(|c: Vec<Vertical>| c@);
        if t.top_direction() && t.bottom_direction() {
            let left = *t.left();
            let right = *t.right();
            match find_builder_exec(&builders, &left) {
                Some(i) => {
                    let ghost fi = find_builder(bs, left)->Some_0;
                    proof {
                        lemma_find_unique(bs, left, i as int);
                    }
                    let (_, mut chain) = builders.remove(i);
                    chain.push(right);
                    proof {
                        assert(builders@.map_values(|b: (Vertical, Vec<Vertical>)| (b.0, b.1@)) =~= bs.remove(
                            i as int,
                        ));
                    }
                    match right.ray() {
                        Ray::NoRay => {
                            monotones.push(chain);
                            proof {
                                assert(monotones@.map_values(|c: Vec<Vertical>| c@) =~= done.push(
                                    bs[i as int].1.push(right),
                                ));
                            }
                        },
                        _ => {
                            let ghost rest = builders@.map_values(|b: (Vertical, Vec<Vertical>)| (b.0, b.1@));
                            builders.push((right, chain));
                            proof {
                                assert(builders@.map_values(|b: (Vertical, Vec<Vertical>)| (b.0, b.1@)) =~= rest.push(
                                    (right, bs[i as int].1.push(right)),
                                ));
                            }
                        },
                    }
                },
                None => {
                    let pair = vec![left, right];
                    builders.push((right, pair));
                    proof {
                        assert(pair@ =~= seq![left, right]);
                        assert(builders@.map_values(|b: (Vertical, Vec<Vertical>)| (b.0, b.1@)) =~= bs.push(
                            (right, seq![left, right]),
                        ));
                    }
                },
            }
        }
        k = k + 1;
    }
    monotones
}

/// The chains of verticals that the trapezoids join into, or `None` when they do not join
/// cleanly.
pub fn monotone_chains_checked(traps: &[Trap]) -> (r: Option<Vec<Vec<Vertical>>>)
    ensures
        r is Some <==> joins_cleanly(traps@),
        r matches Some(c) ==> c@.map_values(|c: Vec<Vertical>| c@) == join_upto(traps@, traps.len() as int).1,
{
    let mut builders: Vec<(Vertical, Vec<Vertical>)> = Vec::new();
    let mut monotones: Vec<Vec<Vertical>> = Vec::new();
    let mut k: usize = 0;
    while k < traps.len()
        invariant
            k <= traps.len(),
            ({
                let (bs, done, ok) = join_upto(traps@, k as int);
                &&& ok
                &&& builders@.map_values(|b: (Vertical, Vec<Vertical>)| (b.0, b.1@)) == bs
                &&& monotones@.map_values(|c: Vec<Vertical>| c@) == done
            }),
        decreases traps.len() - k,
    {
        proof {
            lemma_join_distinct(traps@, k as int);
        }
        let t = &traps[k];
        let ghost bs = builders@.map_values(|b: (Vertical, Vec<Vertical>)| (b.0, b.1@));
        let ghost done = monotones@.map_values(|c: Vec<Vertical>| c@);
        if t.top_direction() && t.bottom_direction() {
            let left = *t.left();
            let right = *t.right();
            match find_builder_exec(&builders, &left) {
                Some(i) => {
                    let ghost fi = find_builder(bs, left)->Some_0;
                    proof {
                        lemma_find_unique(bs, left, i as int);
                    }
                    let (_, mut chain) = builders.remove(i);
                    chain.push(right);
                    proof {
                        assert(builders@.map_values(|b: (Vertical, Vec<Vertical>)| (b.0, b.1@)) =~= bs.remove(
                            i as int,
                        ));
                    }
                    match right.ray() {
                        Ray::NoRay => {
                            monotones.push(chain);
                            proof {
                                assert(monotones@.map_values(|c: Vec<Vertical>| c@) =~= done.push(
                                    bs[i as int].1.push(right),
                                ));
                            }
                        },
                        _ => {
                            let ghost rest = builders@.map_values(|b: (Vertical, Vec<Vertical>)| (b.0, b.1@));
                            if find_builder_exec(&builders, &right).is_some() {
                                proof {
                                    lemma_join_fails_after(traps@, k as int + 1);
                                }
                                return None;
                            }
                            builders.push((right, chain));
                            proof {
                                assert(builders@.map_values(|b: (Vertical, Vec<Vertical>)| (b.0, b.1@)) =~= rest.push(
                                    (right, bs[i as int].1.push(right)),
                                ));
                            }
                        },
                    }
                },
                None => {
                    let left_stops = match left.ray() {
                        Ray::NoRay => true,
                        _ => false,
                    };
                    if !left_stops || find_builder_exec(&builders, &right).is_some() {
                        proof {
                            lemma_join_fails_after(traps@, k as int + 1);
                        }
                        return None;
                    }
                    let pair = vec![left, right];
                    builders.push((right, pair));
                    proof {
                        assert(pair@ =~= seq![left, right]);
                        assert(builders@.map_values(|b: (Vertical, Vec<Vertical>)| (b.0, b.1@)) =~= bs.push(
                            (right, seq![left, right]),
                        ));
                    }
                },
            }
        }
        k = k + 1;
    }
    if builders.len() != 0 {
        return None;
    }
    Some(monotones)
}

/// Once joining fails at some trapezoid, the whole join fails.
proof fn lemma_join_fails_after(traps: Seq<Trap>, k: int)
    requires
        0 <= k <= traps.len(),
        !join_upto(traps, k).2,
    ensures
        !joins_cleanly(traps),
{
    if join_upto(traps, traps.len() as int).2 {
        lemma_join_ok_prefix(traps, k, traps.len() as int);
    }
}

/// The vertices of the chain's verticals that point up (the lower boundary), in chain order.
pub open spec fn lower_side(c: Seq<Vertical>) -> Seq<usize>
    decreases c.len(),
{
    if c.len() == 0 {
        Seq::empty()
    } else {
        let rest = lower_side(c.drop_last());
        if c.last().spec_down() {
            rest
        } else {
            rest.push(c.last().spec_vertex())
        }
    }
}

/// The vertices of the chain's verticals that point down (the upper boundary), in chain order.
pub open spec fn upper_side(c: Seq<Vertical>) -> Seq<usize>
    decreases c.len(),
{
    if c.len() == 0 {
        Seq::empty()
    } else {
        let rest = upper_side(c.drop_last());
        if c.last().spec_down() {
            rest.push(c.last().spec_vertex())
        } else {
            rest
        }
    }
}

/// The polygon that a finished chain bounds, as vertex indices.
pub open spec fn polygon_of(c: Seq<Vertical>) -> Seq<usize> {
    lower_side(c) + upper_side(c).reverse()
}

/// The vertex of each vertical of a chain, in chain order.
pub open spec fn chain_vertices(c: Seq<Vertical>) -> Seq<usize> {
    c.map_values(|v: Vertical| v.spec_vertex())
}

proof fn lemma_sides_split(c: Seq<Vertical>)
    ensures
        lower_side(c).to_multiset().add(upper_side(c).to_multiset()) =~= chain_vertices(c).to_multiset(),
    decreases c.len(),
{
    broadcast use vstd::seq_lib::group_to_multiset_ensures, vstd::multiset::group_multiset_axioms;

    if c.len() > 0 {
        lemma_sides_split(c.drop_last());
        assert(chain_vertices(c) =~= chain_vertices(c.drop_last()).push(c.last().spec_vertex()));
    } else {
        assert(chain_vertices(c) =~= Seq::<usize>::empty());
    }
}

/// The polygon a finished chain bounds goes through every vertex of the chain once: its
/// vertices, counted with multiplicity, are those of the chain's verticals. Its lower
/// boundary comes first, from left to right, and its upper one after, from right to left.
pub proof fn lemma_polygon_vertices(c: Seq<Vertical>)
    ensures
        polygon_of(c).to_multiset() == chain_vertices(c).to_multiset(),
        polygon_of(c).len() == c.len(),
        forall|k: int| 0 <= k < lower_side(c).len() ==> #[trigger] polygon_of(c)[k] == lower_side(c)[k],
        forall|k: int|
            0 <= k < upper_side(c).len() ==> #[trigger] polygon_of(c)[lower_side(c).len() + k] == upper_side(
                c,
            )[upper_side(c).len() - 1 - k],
{
    broadcast use vstd::seq_lib::group_to_multiset_ensures, vstd::multiset::group_multiset_axioms;

    lemma_sides_split(c);
    upper_side(c).lemma_reverse_to_multiset();
    vstd::seq_lib::lemma_multiset_commutative(lower_side(c), upper_side(c).reverse());
    assert(chain_vertices(c).len() == c.len());
    assert(polygon_of(c).to_multiset().len() == polygon_of(c).len());
    assert(chain_vertices(c).to_multiset().len() == chain_vertices(c).len());
}

/// The vertex indices of the polygon bounded by a finished chain: the lower boundary from
/// left to right, then the upper boundary from right to left.
pub fn monotone_polygon(chain: &[Vertical]) -> (r: Vec<usize>)
    requires
        chain.len() >= 1,
        chain@[0].spec_ray() is NoRay,
        chain@.last().spec_ray() is NoRay,
    ensures
        r@ == polygon_of(chain@),
{
    let mut top: Vec<usize> = Vec::new();
    let mut bottom: Vec<usize> = Vec::new();
    let mut i: usize = 0;
    while i < chain.len()
        invariant
            i <= chain.len(),
            bottom@ == lower_side(chain@.take(i as int)),
            top@ == upper_side(chain@.take(i as int)),
        decreases chain.len() - i,
    {
        let vert = &chain[i];
        proof {
            assert(chain@.take(i as int + 1).drop_last() =~= chain@.take(i as int));
        }
        if vert.down() {
            top.push(vert.vertex());
        } else {
            bottom.push(vert.vertex());
        }
        i = i + 1;
    }
    assert(chain@.take(chain.len() as int) =~= chain@);
    let ghost lower = bottom@;
    let ghost upper = top@;
    let mut j: usize = top.len();
    while j > 0
        invariant
            j <= upper.len(),
            top@ == upper,
            bottom@ == lower + upper.reverse().take(upper.len() - j),
        decreases j,
    {
        j = j - 1;
        bottom.push(top[j]);
        proof {
            assert(upper.reverse().take(upper.len() - j) =~= upper.reverse().take(
                upper.len() - j - 1,
            ).push(upper[j as int]));
        }
    }
    assert(upper.reverse().take(upper.len() as int) =~= upper.reverse());
    bottom
}

/// Joins the trapezoids of a decomposition into monotone polygons.
pub struct MonotoneDecomp {
    traps: Vec<Trap>,
}

impl MonotoneDecomp {
    pub closed spec fn spec_traps(&self) -> Seq<Trap> {
        self.traps@
    }

    /// Takes the trapezoids in the order the sweep produced them.
    pub fn new(traps: Vec<Trap>) -> (r: Self)
        ensures
            r.spec_traps() == traps@,
    {
        MonotoneDecomp { traps }
    }

    /// The monotone polygons, as vertex indices, in the order their chains are finished.
    pub fn build(self) -> (r: Vec<Vec<usize>>)
        requires
            joins_cleanly(self.spec_traps()),
        ensures
            r.len() == join_upto(self.spec_traps(), self.spec_traps().len() as int).1.len(),
            forall|k: int|
                0 <= k < r.len() ==> #[trigger] r@[k]@ == polygon_of(
                    join_upto(self.spec_traps(), self.spec_traps().len() as int).1[k],
                ),
    {
        let chains = monotone_chains(self.traps.as_slice());
        let ghost done = join_upto(self.traps@, self.traps@.len() as int).1;
        proof {
            lemma_join_shapes(self.traps@, self.traps@.len() as int);
            assert(chains@.len() == done.len());
            assert forall|k: int| 0 <= k < chains.len() implies #[trigger] chains@[k]@ == done[k] by {
                assert(chains@.map_values(|c: Vec<Vertical>| c@)[k] == done[k]);
            }
        }
        let mut polygons: Vec<Vec<usize>> = Vec::new();
        let mut k: usize = 0;
        while k < chains.len()
            invariant
                k <= chains.len(),
                chains.len() == done.len(),
                forall|j: int| 0 <= j < chains.len() ==> #[trigger] chains@[j]@ == done[j],
                forall|j: int| 0 <= j < done.len() ==> finished_shape(#[trigger] done[j]),
                polygons.len() == k,
                forall|j: int| 0 <= j < k ==> #[trigger] polygons@[j]@ == polygon_of(done[j]),
            decreases chains.len() - k,
        {
            assert(finished_shape(done[k as int]));
            let p = monotone_polygon(chains[k].as_slice());
            polygons.push(p);
            k = k + 1;
        }
        polygons
    }

    /// The monotone polygons, as [`MonotoneDecomp::build`] gives them, or `None` when the
    /// trapezoids do not join cleanly.
    pub fn try_build(self) -> (r: Option<Vec<Vec<usize>>>)
        ensures
            r is Some <==> joins_cleanly(self.spec_traps()),
            r matches Some(ps) ==> ps.len() == join_upto(self.spec_traps(), self.spec_traps().len() as int).1.len()
                && forall|k: int|
                0 <= k < ps.len() ==> #[trigger] ps@[k]@ == polygon_of(
                    join_upto(self.spec_traps(), self.spec_traps().len() as int).1[k],
                ),
    {
        match monotone_chains_checked(self.traps.as_slice()) {
            None => None,
            Some(_) => Some(self.build()),
        }
    }
}

/// An open chain: at least two verticals, the first without a ray.
pub open spec fn open_shape(c: Seq<Vertical>) -> bool {
    c.len() >= 2 && c[0].spec_ray() is NoRay
}

/// A finished chain: an open one whose last vertical has no ray either.
pub open spec fn finished_shape(c: Seq<Vertical>) -> bool {
    open_shape(c) && c.last().spec_ray() is NoRay
}

/// Every chain that joining starts opens and ends at a vertex without a ray.
proof fn lemma_join_shapes(traps: Seq<Trap>, n: int)
    requires
        n >= 0,
    ensures
        forall|j: int|
            0 <= j < join_upto(traps, n).0.len() ==> open_shape(#[trigger] join_upto(traps, n).0[j].1),
        forall|j: int|
            0 <= j < join_upto(traps, n).1.len() ==> finished_shape(#[trigger] join_upto(traps, n).1[j]),
    decreases n,
{
    if n > 0 {
        lemma_join_shapes(traps, n - 1);
        let (bs, done, ok) = join_upto(traps, n - 1);
        let t = traps[n - 1];
        if ok && t.spec_top_direction() && t.spec_bottom_direction() {
            let l = t.spec_left();
            let r = t.spec_right();
            match find_builder(bs, l) {
                Some(i) => {
                    let chain = bs[i].1.push(r);
                    let rest = bs.remove(i);
                    assert(open_shape(bs[i].1));
                    assert(open_shape(chain));
                    assert forall|j: int| 0 <= j < rest.len() implies open_shape(#[trigger] rest[j].1) by {
                        let j2 = if j < i { j } else { j + 1 };
                        assert(rest[j] == bs[j2]);
                    }
                    if r.spec_ray() is NoRay {
                        assert(finished_shape(chain));
                        let d2 = done.push(chain);
                        assert forall|j: int| 0 <= j < d2.len() implies finished_shape(#[trigger] d2[j]) by {
                            if j < done.len() {
                                assert(d2[j] == done[j]);
                            }
                        }
                    } else if find_builder(rest, r) is None {
                        let b2 = rest.push((r, chain));
                        assert forall|j: int| 0 <= j < b2.len() implies open_shape(#[trigger] b2[j].1) by {
                            if j < rest.len() {
                                assert(b2[j] == rest[j]);
                            }
                        }
                    }
                },
                None => {
                    if l.spec_ray() is NoRay && find_builder(bs, r) is None {
                        let b2 = bs.push((r, seq![l, r]));
                        assert forall|j: int| 0 <= j < b2.len() implies open_shape(#[trigger] b2[j].1) by {
                            if j < bs.len() {
                                assert(b2[j] == bs[j]);
                            }
                        }
                    }
                },
            }
        }
    }
}

/// No two open chains end at the same side.
pub open spec fn keys_distinct(bs: Seq<Builder>) -> bool {
    forall|a: int, b: int| 0 <= a < b < bs.len() ==> !same_vertical(bs[a].0, bs[b].0)
}

/// Joining keeps the open chains' ends distinct.
proof fn lemma_join_distinct(traps: Seq<Trap>, n: int)
    requires
        n >= 0,
        join_upto(traps, n).2,
    ensures
        keys_distinct(join_upto(traps, n).0),
    decreases n,
{
    if n > 0 {
        lemma_join_ok_prefix(traps, n - 1, n);
        lemma_join_distinct(traps, n - 1);
        let (bs, done, ok) = join_upto(traps, n - 1);
        let t = traps[n - 1];
        if t.spec_top_direction() && t.spec_bottom_direction() {
            let l = t.spec_left();
            let r = t.spec_right();
            match find_builder(bs, l) {
                Some(i) => {
                    let rest = bs.remove(i);
                    assert(keys_distinct(rest)) by {
                        assert forall|a: int, b: int| 0 <= a < b < rest.len() implies !same_vertical(
                            rest[a].0,
                            rest[b].0,
                        ) by {
                            let a2 = if a < i { a } else { a + 1 };
                            let b2 = if b < i { b } else { b + 1 };
                            assert(rest[a] == bs[a2] && rest[b] == bs[b2]);
                        }
                    }
                    if !(r.spec_ray() is NoRay) && find_builder(rest, r) is None {
                        let grown = rest.push((r, bs[i].1.push(r)));
                        assert forall|a: int, b: int| 0 <= a < b < grown.len() implies !same_vertical(
                            grown[a].0,
                            grown[b].0,
                        ) by {
                            if b == rest.len() {
                                assert(!same_vertical(rest[a].0, r));
                            }
                        }
                    }
                },
                None => {
                    if l.spec_ray() is NoRay && find_builder(bs, r) is None {
                        let grown = bs.push((r, seq![l, r]));
                        assert forall|a: int, b: int| 0 <= a < b < grown.len() implies !same_vertical(
                            grown[a].0,
                            grown[b].0,
                        ) by {
                            if b == bs.len() {
                                assert(!same_vertical(bs[a].0, r));
                            }
                        }
                    }
                },
            }
        }
    }
}

/// Once joining fails it stays failed, so a clean join went through at every prefix.
proof fn lemma_join_ok_prefix(traps: Seq<Trap>, k: int, n: int)
    requires
        0 <= k <= n,
        join_upto(traps, n).2,
    ensures
        join_upto(traps, k).2,
    decreases n - k,
{
    if k < n {
        lemma_join_ok_prefix(traps, k + 1, n);
    }
}

/// Among builders with keys that are different sides, the one found for `v` is the only
/// match.
proof fn lemma_find_unique(bs: Seq<Builder>, v: Vertical, i: int)
    requires
        0 <= i < bs.len(),
        same_vertical(bs[i].0, v),
        forall|a: int, b: int| 0 <= a < b < bs.len() ==> !same_vertical(bs[a].0, bs[b].0),
    ensures
        find_builder(bs, v) == Some(i),
{
    let j = choose|j: int| 0 <= j < bs.len() && same_vertical(bs[j].0, v);
    if j != i {
        if j < i {
            assert(!same_vertical(bs[j].0, bs[i].0));
        } else {
            assert(!same_vertical(bs[i].0, bs[j].0));
        }
    }
}

} // verus!
