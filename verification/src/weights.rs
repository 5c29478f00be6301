//! Particle weights: uniform, or normalized likelihoods.
use vstd::prelude::*;

use crate::num::{at_most, is_finite, larger, num, Num, NEG_INFINITY, ONE, ZERO};
use crate::numerics::{
    difference, exp, from_single, from_u64, is_difference, is_exp, is_from_single, is_from_u64,
    is_quotient, is_sum, is_to_single, quotient, sum, to_single, Numerics,
};

verus! {

/// `w` is `x` rounded to the single precision that weights are stored in.
pub open spec fn is_stored<K: Numerics>(x: Num, w: Num) -> bool {
    exists|s: u32| #[trigger] is_to_single::<K>(x, s) && is_from_single::<K>(s, w)
}

fn stored<K: Numerics>(x: Num) -> (w: Num)
    ensures
        is_stored::<K>(x, w),
{
    let s: u32 = to_single::<K>(x);
    from_single::<K>(s)
}

/// `w` is the weight `1 / n`.
pub open spec fn is_uniform_weight<K: Numerics>(n: nat, w: Num) -> bool {
    exists|count: Num, q: Num|
        {
            &&& #[trigger] is_from_u64::<K>(n as u64, count)
            &&& #[trigger] is_quotient::<K>(num(ONE), count, q)
            &&& is_stored::<K>(q, w)
        }
}

/// All of the weights are `1 / n`, `n` their number.
pub open spec fn are_uniform<K: Numerics>(ws: Seq<Num>) -> bool {
    exists|w: Num| #[trigger]
        is_uniform_weight::<K>(ws.len(), w) && forall|i: int|
            0 <= i < ws.len() ==> #[trigger] ws[i] == w
}

/// `n` equal weights.
pub(crate) fn uniform<K: Numerics>(n: usize) -> (ws: Vec<Num>)
    ensures
        ws@.len() == n,
        are_uniform::<K>(ws@),
{
    let count = from_u64::<K>(n as u64);
    let q = quotient::<K>(num(ONE), count);
    assert(is_quotient::<K>(num(ONE), count, q));
    let w = stored::<K>(q);
    let mut ws: Vec<Num> = Vec::new();
    for i in 0..n
        invariant
            ws@.len() == i,
            forall|k: int| 0 <= k < i ==> #[trigger] ws@[k] == w,
    {
        ws.push(w);
    }
    assert(is_uniform_weight::<K>(ws@.len(), w));
    ws
}

/// The largest of the first `n` log-likelihoods, NaNs left out.
pub open spec fn peak(lls: Seq<Num>, n: nat) -> Num
    decreases n,
{
    if n == 0 {
        num(NEG_INFINITY)
    } else {
        larger(peak(lls, (n - 1) as nat), lls[n - 1])
    }
}

/// `e` is `exp(ll - peak)`.
pub open spec fn is_shifted<K: Numerics>(ll: Num, peak: Num, e: Num) -> bool {
    exists|d: Num| #[trigger] is_difference::<K>(ll, peak, d) && is_exp::<K>(d, e)
}

fn shifted<K: Numerics>(ll: Num, peak: Num) -> (e: Num)
    ensures
        is_shifted::<K>(ll, peak, e),
{
    let d = difference::<K>(ll, peak);
    exp::<K>(d)
}

/// `es` is each log-likelihood's `exp(ll - peak)`.
pub open spec fn are_shifted<K: Numerics>(lls: Seq<Num>, es: Seq<Num>) -> bool {
    &&& es.len() == lls.len()
    &&& forall|i: int|
        0 <= i < es.len() ==> is_shifted::<K>(lls[i], peak(lls, lls.len()), #[trigger] es[i])
}

/// `s` is the sum of the first `n` numbers, added from the left.
pub open spec fn is_total<K: Numerics>(es: Seq<Num>, n: nat, s: Num) -> bool
    decreases n,
{
    if n == 0 {
        s == num(ZERO)
    } else {
        exists|prev: Num|
            is_total::<K>(es, (n - 1) as nat, prev) && #[trigger] is_sum::<K>(prev, es[n - 1], s)
    }
}

/// `w` is `e / total`, as stored.
pub open spec fn is_share<K: Numerics>(e: Num, total: Num, w: Num) -> bool {
    exists|q: Num| #[trigger] is_quotient::<K>(e, total, q) && is_stored::<K>(q, w)
}

fn share<K: Numerics>(e: Num, total: Num) -> (w: Num)
    ensures
        is_share::<K>(e, total, w),
{
    let q = quotient::<K>(e, total);
    stored::<K>(q)
}

/// `total` cannot be divided by: it is not positive, or not finite.
pub open spec fn is_degenerate(total: Num) -> bool {
    at_most(total, num(ZERO)) || !is_finite(total)
}

pub(crate) fn degenerate(total: Num) -> (r: bool)
    ensures
        r == is_degenerate(total),
{
    total.at_most(num(ZERO)) || !total.is_finite()
}

/// `ws` is the likelihoods over their total; uniform where that degenerates.
pub open spec fn are_normalized<K: Numerics>(lls: Seq<Num>, ws: Seq<Num>) -> bool {
    exists|es: Seq<Num>, total: Num| #[trigger] are_normalized_by::<K>(lls, es, total, ws)
}

pub open spec fn are_normalized_by<K: Numerics>(
    lls: Seq<Num>,
    es: Seq<Num>,
    total: Num,
    ws: Seq<Num>,
) -> bool {
    &&& are_shifted::<K>(lls, es)
    &&& is_total::<K>(es, es.len(), total)
    &&& ws.len() == lls.len()
    &&& if is_degenerate(total) {
        are_uniform::<K>(ws)
    } else {
        forall|i: int| 0 <= i < ws.len() ==> is_share::<K>(es[i], total, #[trigger] ws[i])
    }
}

/// The weights that log-likelihoods give.
pub(crate) fn normalized<K: Numerics>(lls: &Vec<Num>) -> (ws: Vec<Num>)
    ensures
        are_normalized::<K>(lls@, ws@),
{
    let n = lls.len();
    let mut top = num(NEG_INFINITY);
    for i in 0..n
        invariant
            n == lls@.len(),
            top == peak(lls@, i as nat),
    {
        top = top.max(lls[i]);
    }
    let mut es: Vec<Num> = Vec::new();
    let mut total = num(ZERO);
    for i in 0..n
        invariant
            n == lls@.len(),
            top == peak(lls@, n as nat),
            es@.len() == i,
            forall|k: int| 0 <= k < i ==> is_shifted::<K>(lls@[k], top, #[trigger] es@[k]),
            is_total::<K>(es@, i as nat, total),
    {
        let e = shifted::<K>(lls[i], top);
        let ghost before = es@;
        let ghost prev = total;
        es.push(e);
        total = sum::<K>(total, e);
        proof {
            lemma_total_extends::<K>(before, es@, i as nat, prev);
            assert(is_sum::<K>(prev, es@[(i + 1) - 1], total));
        }
    }
    let ws: Vec<Num> = if degenerate(total) {
        uniform::<K>(n)
    } else {
        shares::<K>(&es, total)
    };
    assert(are_normalized_by::<K>(lls@, es@, total, ws@));
    ws
}

fn shares<K: Numerics>(es: &Vec<Num>, total: Num) -> (ws: Vec<Num>)
    ensures
        ws@.len() == es@.len(),
        forall|i: int| 0 <= i < ws@.len() ==> is_share::<K>(es@[i], total, #[trigger] ws@[i]),
{
    let mut ws: Vec<Num> = Vec::new();
    for i in 0..es.len()
        invariant
            ws@.len() == i,
            forall|k: int| 0 <= k < i ==> is_share::<K>(es@[k], total, #[trigger] ws@[k]),
    {
        ws.push(share::<K>(es[i], total));
    }
    ws
}

/// A sum over the first `n` numbers does not depend on what follows them.
proof fn lemma_total_extends<K: Numerics>(es: Seq<Num>, longer: Seq<Num>, n: nat, s: Num)
    requires
        n <= es.len() <= longer.len(),
        forall|i: int| 0 <= i < n ==> #[trigger] es[i] == longer[i],
        is_total::<K>(es, n, s),
    ensures
        is_total::<K>(longer, n, s),
    decreases n,
{
    if n > 0 {
        let prev = choose|prev: Num|
            is_total::<K>(es, (n - 1) as nat, prev) && #[trigger] is_sum::<K>(prev, es[n - 1], s);
        lemma_total_extends::<K>(es, longer, (n - 1) as nat, prev);
        assert(is_sum::<K>(prev, longer[n - 1], s));
    }
}

} // verus!
