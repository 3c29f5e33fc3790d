//! Sharing out units of progress among the pieces of a divided task.
use vstd::prelude::*;

verus! {

/// The share each of `count` pieces may take of `total` units: `total / count`, rounded up.
pub open spec fn per_piece(total: nat, count: nat) -> nat {
    ((total + count - 1) / (count as int)) as nat
}

/// The units left after `i` pieces have each taken up to `per`.
pub open spec fn left_after(total: nat, per: nat, i: nat) -> nat
    decreases i,
{
    if i == 0 {
        total
    } else {
        let r = left_after(total, per, (i - 1) as nat);
        if r <= per {
            0
        } else {
            (r - per) as nat
        }
    }
}

/// The units piece `i` takes: `per`, or what is left when that is less.
pub open spec fn piece(total: nat, per: nat, i: nat) -> nat {
    let r = left_after(total, per, i);
    if r <= per {
        r
    } else {
        per
    }
}

/// The units the first `n` pieces take together.
pub open spec fn pieces_sum(total: nat, per: nat, n: nat) -> nat
    decreases n,
{
    if n == 0 {
        0
    } else {
        pieces_sum(total, per, (n - 1) as nat) + piece(total, per, (n - 1) as nat)
    }
}

/// The units left after `i` pieces are what `i` full shares leave, or none.
pub proof fn lemma_left_after(total: nat, per: nat, i: nat)
    ensures
        left_after(total, per, i) == if per * i >= total {
            0
        } else {
            total - per * i
        },
    decreases i,
{
    if i == 0 {
        assert(per * i == 0) by (nonlinear_arith)
            requires
                i == 0,
        ;
    } else {
        let j = (i - 1) as nat;
        lemma_left_after(total, per, j);
        assert(per * i == per * j + per) by (nonlinear_arith)
            requires
                i == j + 1,
        ;
    }
}

/// What the first `n` pieces take and what is left add up to the total.
proof fn lemma_pieces_sum(total: nat, per: nat, n: nat)
    ensures
        pieces_sum(total, per, n) + left_after(total, per, n) == total,
    decreases n,
{
    if n > 0 {
        lemma_pieces_sum(total, per, (n - 1) as nat);
    }
}

/// Dividing `total` units among `count > 0` pieces hands out every unit: the pieces' shares
/// add up to the total.
pub proof fn lemma_division_conserves(total: nat, count: nat)
    requires
        count > 0,
    ensures
        pieces_sum(total, per_piece(total, count), count) == total,
{
    let per = per_piece(total, count);
    assert(per * count >= total) by (nonlinear_arith)
        requires
            count > 0,
            per == (total + count - 1) / (count as int),
    ;
    lemma_left_after(total, per, count);
    lemma_pieces_sum(total, per, count);
}

/// The units each of `count` pieces takes when `increment` units are divided among them:
/// each takes the rounded-up share while units remain.
pub fn divide_increment(increment: u64, count: u64) -> (r: Vec<u64>)
    requires
        count > 0,
        increment + count - 1 <= u64::MAX,
    ensures
        r.len() == count,
        forall|i: int|
            0 <= i < count ==> #[trigger] r[i] == piece(
                increment as nat,
                per_piece(increment as nat, count as nat),
                i as nat,
            ),
{
    let per = (increment + (count - 1)) / count;
    let ghost p = per_piece(increment as nat, count as nat);
    let mut left = increment;
    let mut r: Vec<u64> = Vec::new();
    let mut i: u64 = 0;
    while i < count
        invariant
            i <= count,
            per == p,
            r.len() == i,
            left == left_after(increment as nat, p, i as nat),
            forall|j: int| 0 <= j < i ==> #[trigger] r[j] == piece(increment as nat, p, j as nat),
        decreases count - i,
    {
        let take = if left <= per { left } else { per };
        r.push(take);
        left = left - take;
        i = i + 1;
    }
    r
}

} // verus!
