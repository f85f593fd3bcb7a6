//! Ordering splats by their integer view-space depth keys.
use vstd::prelude::*;
use crate::radix::{has_id, lex_lt, radix_sort_keys};

verus! {

/// Fixed-point scale applied to view-space depth before it is truncated to an integer key.
pub const DEPTH_SCALE: i32 = 4096;

/// `a` goes before `b`: a smaller depth key, or an equal key and a smaller index.
pub open spec fn depth_lt(depths: Seq<i32>, a: u32, b: u32) -> bool {
    depths[a as int] < depths[b as int] || (depths[a as int] == depths[b as int] && a < b)
}

/// `order` lists each index of `0..n` exactly once.
pub open spec fn is_index_permutation(order: Seq<u32>, n: int) -> bool {
    &&& order.len() == n
    &&& forall|p: int| 0 <= p < order.len() ==> #[trigger] order[p] < n
    &&& forall|i: int| 0 <= i < n ==> #[trigger] has_id(order, i)
}

/// Depth keys never decrease along `order`.
pub open spec fn ascending_by_depth(depths: Seq<i32>, order: Seq<u32>) -> bool {
    forall|p: int, q: int|
        #![trigger order[p], order[q]]
        0 <= p < q < order.len() ==> depths[order[p] as int] <= depths[order[q] as int]
}

/// Splats with equal depth keys keep their input order.
pub open spec fn stable_by_depth(depths: Seq<i32>, order: Seq<u32>) -> bool {
    forall|p: int, q: int|
        #![trigger order[p], order[q]]
        0 <= p < q < order.len() && depths[order[p] as int] == depths[order[q] as int]
            ==> order[p] < order[q]
}

/// `order` is a stable ascending ordering of the splats by depth key.
pub open spec fn is_depth_order(depths: Seq<i32>, order: Seq<u32>) -> bool {
    &&& is_index_permutation(order, depths.len() as int)
    &&& ascending_by_depth(depths, order)
    &&& stable_by_depth(depths, order)
}

/// The stable ascending ordering by depth key (there is exactly one).
pub open spec fn depth_order(depths: Seq<i32>) -> Seq<u32> {
    choose|order: Seq<u32>| is_depth_order(depths, order)
}

/// `m` is the smallest of the keys.
pub open spec fn is_min_of(depths: Seq<i32>, m: int) -> bool {
    &&& forall|i: int| 0 <= i < depths.len() ==> m <= #[trigger] depths[i]
    &&& exists|i: int| 0 <= i < depths.len() && depths[i] == m
}

/// Each step of `order` goes strictly forward in (depth key, index).
pub open spec fn strictly_by_depth(depths: Seq<i32>, order: Seq<u32>) -> bool {
    forall|p: int, q: int|
        #![trigger order[p], order[q]]
        0 <= p < q < order.len() ==> depth_lt(depths, order[p], order[q])
}

proof fn lemma_depth_order_strict(depths: Seq<i32>, order: Seq<u32>)
    requires
        is_depth_order(depths, order),
    ensures
        strictly_by_depth(depths, order),
{
}

/// Two orderings that are strictly increasing in (depth key, index) and hold the same
/// indices are the same sequence.
proof fn lemma_strict_orders_equal(depths: Seq<i32>, a: Seq<u32>, b: Seq<u32>)
    requires
        strictly_by_depth(depths, a),
        strictly_by_depth(depths, b),
        forall|x: int|
            #![trigger has_id(a, x)]
            #![trigger has_id(b, x)]
            has_id(a, x) <==> has_id(b, x),
    ensures
        a == b,
    decreases a.len(),
{
    if a.len() == 0 {
        if b.len() > 0 {
            assert(has_id(b, b[0] as int));
        }
        assert(a =~= b);
    } else {
        assert(has_id(a, a[0] as int));
        assert(has_id(b, a[0] as int));
        assert(b.len() > 0);
        assert(has_id(b, b[0] as int));
        assert(has_id(a, b[0] as int));
        let q = choose|q: int| 0 <= q < b.len() && b[q] == a[0];
        let p = choose|p: int| 0 <= p < a.len() && a[p] == b[0];
        if a[0] != b[0] {
            assert(depth_lt(depths, a[0], a[p]));
            assert(depth_lt(depths, b[0], b[q]));
        }
        let ta = a.subrange(1, a.len() as int);
        let tb = b.subrange(1, b.len() as int);
        assert forall|x: int| has_id(ta, x) implies has_id(tb, x) by {
            let i = choose|i: int| 0 <= i < ta.len() && ta[i] == x;
            assert(a[i + 1] == x);
            assert(has_id(a, x));
            let r = choose|r: int| 0 <= r < b.len() && b[r] == x;
            if r == 0 {
                assert(depth_lt(depths, a[0], a[i + 1]));
            }
            assert(tb[r - 1] == x);
        }
        assert forall|x: int| has_id(tb, x) implies has_id(ta, x) by {
            let i = choose|i: int| 0 <= i < tb.len() && tb[i] == x;
            assert(b[i + 1] == x);
            assert(has_id(b, x));
            let r = choose|r: int| 0 <= r < a.len() && a[r] == x;
            if r == 0 {
                assert(depth_lt(depths, b[0], b[i + 1]));
            }
            assert(ta[r - 1] == x);
        }
        lemma_strict_orders_equal(depths, ta, tb);
        assert forall|k: int| 0 <= k < a.len() implies a[k] == b[k] by {
            if k > 0 {
                assert(ta[k - 1] == tb[k - 1]);
            }
        }
        assert(a =~= b);
    }
}

/// A stable ascending ordering by depth key is unique.
pub proof fn lemma_depth_order_unique(depths: Seq<i32>, a: Seq<u32>, b: Seq<u32>)
    requires
        is_depth_order(depths, a),
        is_depth_order(depths, b),
    ensures
        a == b,
{
    lemma_depth_order_strict(depths, a);
    lemma_depth_order_strict(depths, b);
    assert forall|x: int|
            #![trigger has_id(a, x)]
            #![trigger has_id(b, x)]
            has_id(a, x) <==> has_id(b, x) by {
        if has_id(a, x) {
            let p = choose|p: int| 0 <= p < a.len() && a[p] == x;
            assert(a[p] < depths.len());
        }
        if has_id(b, x) {
            let p = choose|p: int| 0 <= p < b.len() && b[p] == x;
            assert(b[p] < depths.len());
        }
    }
    lemma_strict_orders_equal(depths, a, b);
}

/// Shifts every depth key by minus the smallest key, so that all keys become
/// non-negative while their order and their equalities are kept.
pub fn bias_depths(depths: &Vec<i32>) -> (keys: Vec<u32>)
    ensures
        keys.len() == depths.len(),
        depths.len() > 0 ==> exists|m: int|
            is_min_of(depths@, m) && forall|i: int|
                0 <= i < depths.len() ==> #[trigger] keys[i] == depths[i] - m,
{
    let n = depths.len();
    let mut keys: Vec<u32> = Vec::with_capacity(n);
    if n == 0 {
        return keys;
    }
    let mut min_depth: i32 = depths[0];
    let ghost mut at: int = 0;
    let mut i: usize = 1;
    while i < n
        invariant
            1 <= i <= n,
            n == depths.len(),
            0 <= at < n,
            depths[at] == min_depth,
            forall|j: int| 0 <= j < i ==> min_depth <= #[trigger] depths[j],
        decreases n - i,
    {
        if depths[i] < min_depth {
            min_depth = depths[i];
            proof {
                at = i as int;
            }
        }
        i += 1;
    }
    let mut i: usize = 0;
    while i < n
        invariant
            i <= n,
            n == depths.len(),
            keys.len() == i,
            forall|j: int| 0 <= j < n ==> min_depth <= #[trigger] depths[j],
            forall|j: int| 0 <= j < i ==> #[trigger] keys[j] == depths[j] - min_depth,
        decreases n - i,
    {
        let key = (depths[i] as i64 - min_depth as i64) as u32;
        keys.push(key);
        i += 1;
    }
    assert(is_min_of(depths@, min_depth as int));
    keys
}

/// Orders the splats by depth key, smallest first, with a four-pass byte-wise radix sort.
/// Splats with equal keys keep their input order.
pub fn radix_sort_depths(depths: &Vec<i32>) -> (order: Vec<u32>)
    requires
        depths.len() <= u32::MAX,
    ensures
        is_index_permutation(order@, depths.len() as int),
        ascending_by_depth(depths@, order@),
        stable_by_depth(depths@, order@),
        forall|p: int, q: int|
            #![trigger order[p], order[q]]
            0 <= p < q < order.len() ==> order[p] != order[q],
        order@ == depth_order(depths@),
{
    let keys = bias_depths(depths);
    let ghost biased = keys@;
    let order = radix_sort_keys(keys);
    proof {
        let n = depths.len() as int;
        if n > 0 {
            let m = choose|m: int|
                is_min_of(depths@, m) && forall|i: int|
                    0 <= i < n ==> #[trigger] biased[i] == depths[i] - m;
            assert forall|p: int, q: int| 0 <= p < q < n implies #[trigger] depth_lt(
                depths@,
                order@[p],
                order@[q],
            ) by {
                assert(lex_lt(
                    biased[order@[p] as int] as int,
                    order@[p],
                    biased[order@[q] as int] as int,
                    order@[q],
                ));
                assert(biased[order@[p] as int] == depths[order@[p] as int] - m);
                assert(biased[order@[q] as int] == depths[order@[q] as int] - m);
            }
        }
        assert(is_depth_order(depths@, order@));
        lemma_depth_order_unique(depths@, order@, depth_order(depths@));
    }
    order
}

/// The ordering of `depths` is the stable ascending one, whichever way it was obtained.
pub proof fn lemma_depth_order_is_chosen(depths: Seq<i32>, order: Seq<u32>)
    requires
        is_depth_order(depths, order),
    ensures
        depth_order(depths) == order,
{
    lemma_depth_order_unique(depths, order, depth_order(depths));
}

/// Sorting depth keys that already ascend gives the identity ordering.
pub proof fn lemma_ascending_depths_keep_order(depths: Seq<i32>, order: Seq<u32>)
    requires
        depths.len() <= u32::MAX,
        forall|i: int, j: int|
            0 <= i < j < depths.len() ==> #[trigger] depths[i] <= #[trigger] depths[j],
        is_depth_order(depths, order),
    ensures
        forall|k: int| 0 <= k < order.len() ==> #[trigger] order[k] == k,
{
    let n = depths.len();
    let identity = Seq::new(n, |i: int| i as u32);
    assert forall|i: int| 0 <= i < n implies #[trigger] has_id(identity, i) by {
        assert(identity[i] == i);
    }
    assert(is_depth_order(depths, identity));
    lemma_depth_order_unique(depths, order, identity);
    assert forall|k: int| 0 <= k < order.len() implies #[trigger] order[k] == k by {
        assert(identity[k] == k);
    }
}

} // verus!
