//! How the cut of one tetrahedron covers the part of its surface between the inside and the
//! outside corners.
use vstd::prelude::*;
use crate::tiling::{among, has_side, side_count, tiles};
use crate::transvoxel::cube_tetr::cut_triangles;
use crate::transvoxel::cube_vertex::CubeVertex;

verus! {

/// The four edge midpoints of a tetrahedron with two corners inside and two outside, going
/// round: from the first inside corner towards each outside one, then from the second.
pub open spec fn quad_boundary(inside: Seq<CubeVertex>, outside: Seq<CubeVertex>) -> Seq<
    ((CubeVertex, CubeVertex), (CubeVertex, CubeVertex)),
> {
    let p1 = (inside[0], outside[0]);
    let p2 = (inside[0], outside[1]);
    let p3 = (inside[1], outside[1]);
    let p4 = (inside[1], outside[0]);
    seq![(p1, p2), (p2, p3), (p3, p4), (p4, p1)]
}

/// The same boundary walked the other way round.
pub open spec fn reversed_sides<T>(b: Seq<(T, T)>) -> Seq<(T, T)> {
    Seq::new(b.len(), |k: int| (b[b.len() - 1 - k].1, b[b.len() - 1 - k].0))
}

/// With two corners inside and two outside, the two triangles of the cut cover the quad of
/// the four edge midpoints exactly once: each side of the quad belongs to one triangle, they
/// meet along one diagonal taken once each way, and the answer to the cut question decides
/// which way round the quad is wound.
pub proof fn lemma_cut_quad(inside: Seq<CubeVertex>, outside: Seq<CubeVertex>, oriented: bool)
    requires
        inside.len() == 2,
        outside.len() == 2,
        inside[0] != inside[1],
        outside[0] != outside[1],
    ensures
        cut_triangles(inside, outside, oriented).len() == 2,
        tiles(
            cut_triangles(inside, outside, oriented),
            if oriented {
                reversed_sides(quad_boundary(inside, outside))
            } else {
                quad_boundary(inside, outside)
            },
        ),
{
    reveal_with_fuel(side_count, 3);
    reveal_with_fuel(among, 5);
    let ps = cut_triangles(inside, outside, oriented);
    let bd = if oriented {
        reversed_sides(quad_boundary(inside, outside))
    } else {
        quad_boundary(inside, outside)
    };
    assert forall|k: int| 0 <= k < bd.len() implies side_count(ps, #[trigger] bd[k]) == 1 && side_count(
        ps,
        (bd[k].1, bd[k].0),
    ) == 0 by {
    }
    assert forall|j: int, s: ((CubeVertex, CubeVertex), (CubeVertex, CubeVertex))|
        0 <= j < ps.len() && #[trigger] has_side(ps[j], s) implies side_count(ps, s) == 1 && (among(bd, s)
        || side_count(ps, (s.1, s.0)) == 1) by {
    }
}

/// The sides of triangle `(p, q, r)`, in winding order.
pub open spec fn tri_sides<T>(p: T, q: T, r: T) -> Seq<(T, T)> {
    seq![(p, q), (q, r), (r, p)]
}

/// With one corner inside or one outside, the cut is a single triangle on the three edge
/// midpoints around that corner, wound one way or the other by the answer to the cut
/// question; with all corners on one side there is nothing to cut.
pub proof fn lemma_cut_single(inside: Seq<CubeVertex>, outside: Seq<CubeVertex>, oriented: bool)
    requires
        inside.len() + outside.len() == 4,
        forall|j: int, k: int| 0 <= j < k < inside.len() ==> inside[j] != inside[k],
        forall|j: int, k: int| 0 <= j < k < outside.len() ==> outside[j] != outside[k],
    ensures
        inside.len() == 1 ==> {
            let (p1, p2, p3) = ((inside[0], outside[0]), (inside[0], outside[1]), (inside[0], outside[2]));
            &&& cut_triangles(inside, outside, oriented).len() == 1
            &&& tiles(
                cut_triangles(inside, outside, oriented),
                if oriented {
                    tri_sides(p2, p1, p3)
                } else {
                    tri_sides(p1, p2, p3)
                },
            )
        },
        inside.len() == 3 ==> {
            let (p1, p2, p3) = ((outside[0], inside[0]), (outside[0], inside[1]), (outside[0], inside[2]));
            &&& cut_triangles(inside, outside, oriented).len() == 1
            &&& tiles(
                cut_triangles(inside, outside, oriented),
                if oriented {
                    tri_sides(p1, p2, p3)
                } else {
                    tri_sides(p2, p1, p3)
                },
            )
        },
        inside.len() == 0 || inside.len() == 4 ==> cut_triangles(inside, outside, oriented).len() == 0,
{
    reveal_with_fuel(side_count, 2);
    reveal_with_fuel(among, 4);
    if inside.len() == 1 || inside.len() == 3 {
        let ps = cut_triangles(inside, outside, oriented);
        let bd = if inside.len() == 1 {
            let (p1, p2, p3) = ((inside[0], outside[0]), (inside[0], outside[1]), (inside[0], outside[2]));
            if oriented {
                tri_sides(p2, p1, p3)
            } else {
                tri_sides(p1, p2, p3)
            }
        } else {
            let (p1, p2, p3) = ((outside[0], inside[0]), (outside[0], inside[1]), (outside[0], inside[2]));
            if oriented {
                tri_sides(p1, p2, p3)
            } else {
                tri_sides(p2, p1, p3)
            }
        };
        assert forall|k: int| 0 <= k < bd.len() implies side_count(ps, #[trigger] bd[k]) == 1 && side_count(
            ps,
            (bd[k].1, bd[k].0),
        ) == 0 by {
        }
        assert forall|j: int, s: ((CubeVertex, CubeVertex), (CubeVertex, CubeVertex))|
            0 <= j < ps.len() && #[trigger] has_side(ps[j], s) implies side_count(ps, s) == 1 && (among(bd, s)
            || side_count(ps, (s.1, s.0)) == 1) by {
        }
    }
}

} // verus!
