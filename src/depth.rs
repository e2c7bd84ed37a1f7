//! Painter's-algorithm ordering: items are drawn from the farthest to the
//! nearest, so that nearer ones cover farther ones.

use vstd::prelude::*;

verus! {

/// `order` lists each of `0..n` exactly once.
pub open spec fn is_permutation(order: Seq<usize>, n: int) -> bool {
    &&& order.len() == n
    &&& forall|i: int| 0 <= i < n ==> #[trigger] order[i] < n
    &&& forall|i: int, j: int| 0 <= i < j < n ==> #[trigger] order[i] != #[trigger] order[j]
}

/// Along `order`, depths never increase, and items of equal depth keep
/// their order in the input.
pub open spec fn is_back_to_front(order: Seq<usize>, depths: Seq<i64>) -> bool {
    forall|i: int, j: int|
        0 <= i < j < order.len() ==> {
            &&& depths[#[trigger] order[i] as int] >= depths[#[trigger] order[j] as int]
            &&& depths[order[i] as int] == depths[order[j] as int] ==> order[i] < order[j]
        }
}

/// The drawing order of items whose depths (greater is farther from the
/// camera) are `depths`: farthest first, and a stable order among equals.
pub fn back_to_front(depths: &Vec<i64>) -> (order: Vec<usize>)
    ensures
        is_permutation(order@, depths@.len() as int),
        is_back_to_front(order@, depths@),
{
    let n = depths.len();
    let mut order: Vec<usize> = Vec::new();
    let mut i: usize = 0;
    while i < n
        invariant
            0 <= i <= n,
            n == depths@.len(),
            is_permutation(order@, i as int),
            is_back_to_front(order@, depths@),
        decreases n - i,
    {
        let d = depths[i];
        let mut p: usize = 0;
        while p < order.len() && depths[order[p]] >= d
            invariant
                0 <= p <= order@.len(),
                n == depths@.len(),
                is_permutation(order@, i as int),
                i < n,
                forall|q: int| 0 <= q < p ==> depths@[#[trigger] order@[q] as int] >= d,
            decreases order@.len() - p,
        {
            p = p + 1;
        }
        let ghost before = order@;
        proof {
            assert forall|q: int| p <= q < before.len() implies depths@[#[trigger] before[q] as int]
                < d by {
                if p < before.len() {
                    assert(depths@[before[p as int] as int] < d);
                    if q > p {
                        assert(depths@[before[p as int] as int] >= depths@[before[q] as int]);
                    }
                }
            }
        }
        order.insert(p, i);
        proof {
            let after = order@;
            assert(after == before.insert(p as int, i));
            assert forall|a: int| 0 <= a < i + 1 implies #[trigger] after[a] < i + 1 by {
                if a < p {
                    assert(after[a] == before[a]);
                } else if a > p {
                    assert(after[a] == before[a - 1]);
                }
            }
            assert forall|a: int, b: int| 0 <= a < b < i + 1 implies #[trigger] after[a]
                != #[trigger] after[b] by {
                if a < p && b < p {
                } else if a < p && b == p {
                } else if a < p {
                    assert(after[b] == before[b - 1]);
                } else if a == p {
                    assert(after[b] == before[b - 1]);
                } else {
                    assert(after[a] == before[a - 1]);
                    assert(after[b] == before[b - 1]);
                }
            }
            assert forall|a: int, b: int| 0 <= a < b < after.len() implies {
                &&& depths@[#[trigger] after[a] as int] >= depths@[#[trigger] after[b] as int]
                &&& depths@[after[a] as int] == depths@[after[b] as int] ==> after[a] < after[b]
            } by {
                if a < p && b < p {
                } else if a < p && b == p {
                    assert(after[a] == before[a]);
                } else if a < p {
                    assert(after[b] == before[b - 1]);
                    assert(after[a] == before[a]);
                } else if a == p {
                    assert(after[b] == before[b - 1]);
                } else {
                    assert(after[a] == before[a - 1]);
                    assert(after[b] == before[b - 1]);
                }
            }
        }
        i = i + 1;
    }
    order
}

} // verus!
