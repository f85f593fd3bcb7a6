//! Gathering per-splat attribute arrays into a new splat order.
use vstd::prelude::*;
use vstd::arithmetic::div_mod::lemma_fundamental_div_mod_converse;

verus! {

/// `data` holds splats of `stride` components; the result holds at splat `i` the
/// components of splat `order[i]` of `data`.
pub open spec fn gathered<T>(data: Seq<T>, stride: int, order: Seq<u32>) -> Seq<T> {
    Seq::new(
        (order.len() * stride) as nat,
        |k: int| data[order[k / stride] as int * stride + k % stride],
    )
}

/// Copies the attribute array `data`, of `stride` components per splat, into the
/// order `order`: splat `i` of the result is splat `order[i]` of `data`.
pub fn gather_by_order<T: Copy>(data: &Vec<T>, stride: usize, order: &Vec<u32>) -> (r: Vec<T>)
    requires
        stride > 0,
        data.len() == order.len() * stride,
        forall|k: int| 0 <= k < order.len() ==> #[trigger] order[k] < order.len(),
    ensures
        r@ == gathered(data@, stride as int, order@),
{
    let n = order.len();
    let ghost s = stride as int;
    let mut r: Vec<T> = Vec::with_capacity(data.len());
    let mut i: usize = 0;
    while i < n
        invariant
            i <= n,
            n == order.len(),
            s == stride,
            stride > 0,
            data.len() == n * s,
            forall|k: int| 0 <= k < order.len() ==> #[trigger] order[k] < order.len(),
            r.len() == i * s,
            forall|j: int|
                0 <= j < r.len() ==> #[trigger] r[j] == data[order[j / s] as int * s + j % s],
        decreases n - i,
    {
        let src = order[i] as usize;
        assert((src + 1) * s <= n * s && src * s + s <= n * s) by (nonlinear_arith)
            requires
                src < n,
                s > 0,
        ;
        let base = src * stride;
        let mut c: usize = 0;
        while c < stride
            invariant
                i < n,
                c <= stride,
                n == order.len(),
                s == stride,
                stride > 0,
                src == order[i as int],
                base == src * s,
                (src + 1) * s <= n * s,
                data.len() == n * s,
                r.len() == i * s + c,
                forall|j: int|
                    0 <= j < r.len() ==> #[trigger] r[j] == data[order[j / s] as int * s + j % s],
            decreases stride - c,
        {
            proof {
                lemma_fundamental_div_mod_converse(i * s + c, s, i as int, c as int);
                assert((src + 1) * s == src * s + s) by (nonlinear_arith);
            }
            r.push(data[base + c]);
            c += 1;
        }
        assert((i + 1) * s == i * s + s) by (nonlinear_arith);
        i += 1;
    }
    assert(r@ =~= gathered(data@, stride as int, order@));
    r
}

} // verus!
