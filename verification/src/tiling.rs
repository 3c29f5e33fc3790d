//! How triangles cover a polygon, told by their sides: a side of a piece runs from one of its
//! corners to the next in winding order.
use vstd::prelude::*;
use crate::mesh_triangle::canonical_rotation;

verus! {

/// `s` runs from one corner of `t` to the next in winding order.
pub open spec fn has_side<T>(t: (T, T, T), s: (T, T)) -> bool {
    s == (t.0, t.1) || s == (t.1, t.2) || s == (t.2, t.0)
}

/// The number of pieces of `ps` that have side `s`.
pub open spec fn side_count<T>(ps: Seq<(T, T, T)>, s: (T, T)) -> nat
    decreases ps.len(),
{
    if ps.len() == 0 {
        0
    } else {
        side_count(ps.drop_last(), s) + if has_side(ps.last(), s) {
            1nat
        } else {
            0nat
        }
    }
}

/// `s` is one of the sides in `sides`.
pub open spec fn among<T>(sides: Seq<(T, T)>, s: (T, T)) -> bool
    decreases sides.len(),
{
    sides.len() > 0 && (sides.last() == s || among(sides.drop_last(), s))
}

/// The pieces `ps` cover, once and with one winding, the polygon whose boundary runs along
/// the sides `boundary`: each boundary side belongs to exactly one piece and its reverse to
/// none, and every side of a piece belongs to that piece only and is a boundary side or is
/// met, reversed, by exactly one other piece.
pub open spec fn tiles<T>(ps: Seq<(T, T, T)>, boundary: Seq<(T, T)>) -> bool {
    &&& forall|k: int|
        0 <= k < boundary.len() ==> side_count(ps, #[trigger] boundary[k]) == 1 && side_count(
            ps,
            (boundary[k].1, boundary[k].0),
        ) == 0
    &&& forall|j: int, s: (T, T)|
        0 <= j < ps.len() && #[trigger] has_side(ps[j], s) ==> side_count(ps, s) == 1 && (among(boundary, s)
            || side_count(ps, (s.1, s.0)) == 1)
}

/// Turning a triangle to start at its smallest corner keeps its sides.
pub broadcast proof fn lemma_rotation_sides(p: usize, q: usize, r: usize, s: (usize, usize))
    ensures
        #[trigger] has_side(canonical_rotation(p, q, r), s) == has_side((p, q, r), s),
{
}

} // verus!
