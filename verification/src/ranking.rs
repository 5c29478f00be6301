//! Stable ranking by integer keys.
use vstd::prelude::*;

verus! {

/// `a` comes before `b`: a smaller key, or the same key and an earlier place.
pub open spec fn precedes(keys: Seq<i64>, a: usize, b: usize) -> bool {
    keys[a as int] < keys[b as int] || (keys[a as int] == keys[b as int] && a < b)
}

/// `order` holds the places from `lo` to `hi`, each once, from the smallest key
/// to the largest; equal keys keep their order.
pub open spec fn is_order(keys: Seq<i64>, lo: int, hi: int, order: Seq<usize>) -> bool {
    &&& order.len() == hi - lo
    &&& forall|i: int| 0 <= i < order.len() ==> lo <= #[trigger] order[i] < hi
    &&& forall|i: int, j: int|
        0 <= i < j < order.len() ==> precedes(keys, #[trigger] order[i], #[trigger] order[j])
    &&& forall|p: usize| lo <= p < hi ==> #[trigger] order.contains(p)
}

/// There is one way to rank: two rankings of the same keys are equal.
pub proof fn law_ranking_is_unique(keys: Seq<i64>, a: Seq<usize>, b: Seq<usize>)
    requires
        is_order(keys, 0, keys.len() as int, a),
        is_order(keys, 0, keys.len() as int, b),
    ensures
        a == b,
{
    lemma_same_prefix(keys, a, b, keys.len());
    assert(a =~= b);
}

proof fn lemma_same_prefix(keys: Seq<i64>, a: Seq<usize>, b: Seq<usize>, n: nat)
    requires
        is_order(keys, 0, keys.len() as int, a),
        is_order(keys, 0, keys.len() as int, b),
        n <= keys.len(),
    ensures
        forall|i: int| 0 <= i < n ==> a[i] == b[i],
    decreases n,
{
    if n > 0 {
        lemma_same_prefix(keys, a, b, (n - 1) as nat);
        let i = n - 1;
        assert(b.contains(a[i]));
        assert(a.contains(b[i]));
        let j = choose|j: int| 0 <= j < b.len() && b[j] == a[i];
        let k = choose|k: int| 0 <= k < a.len() && a[k] == b[i];
        if j < i {
            assert(a[j] == b[j]);
            assert(precedes(keys, a[j], a[i]));
        }
        if k < i {
            assert(a[k] == b[k]);
            assert(precedes(keys, b[k], b[i]));
        }
        if j > i && k > i {
            assert(precedes(keys, b[i], b[j]));
            assert(precedes(keys, a[i], a[k]));
        }
    }
}

/// Merges two neighbouring ranked stretches.
fn merge(keys: &Vec<i64>, lo: usize, mid: usize, hi: usize, a: Vec<usize>, b: Vec<usize>) -> (r: Vec<
    usize,
>)
    requires
        lo <= mid <= hi <= keys@.len(),
        is_order(keys@, lo as int, mid as int, a@),
        is_order(keys@, mid as int, hi as int, b@),
    ensures
        is_order(keys@, lo as int, hi as int, r@),
{
    let mut out: Vec<usize> = Vec::new();
    let mut i: usize = 0;
    let mut j: usize = 0;
    let n = a.len();
    let m = b.len();
    while i < n || j < m
        invariant
            lo <= mid <= hi <= keys@.len(),
            n == a@.len(),
            m == b@.len(),
            is_order(keys@, lo as int, mid as int, a@),
            is_order(keys@, mid as int, hi as int, b@),
            i <= n,
            j <= m,
            out@.len() == i + j,
            forall|k: int| 0 <= k < out@.len() ==> lo <= #[trigger] out@[k] < hi,
            forall|k: int, l: int|
                0 <= k < l < out@.len() ==> precedes(
                    keys@,
                    #[trigger] out@[k],
                    #[trigger] out@[l],
                ),
            forall|k: int, l: int|
                0 <= k < out@.len() && i <= l < n ==> precedes(
                    keys@,
                    #[trigger] out@[k],
                    #[trigger] a@[l],
                ),
            forall|k: int, l: int|
                0 <= k < out@.len() && j <= l < m ==> precedes(
                    keys@,
                    #[trigger] out@[k],
                    #[trigger] b@[l],
                ),
            forall|l: int| 0 <= l < i ==> out@.contains(#[trigger] a@[l]),
            forall|l: int| 0 <= l < j ==> out@.contains(#[trigger] b@[l]),
        decreases n - i + m - j,
    {
        let ghost before = out@;
        let from_a = j >= m || (i < n && keys[a[i]] <= keys[b[j]]);
        if from_a {
            let next = a[i];
            assert forall|l: int| j <= l < m implies precedes(keys@, next, #[trigger] b@[l]) by {
                if l > j {
                    assert(precedes(keys@, b@[j as int], b@[l]));
                }
            }
            out.push(next);
            i = i + 1;
        } else {
            let next = b[j];
            assert forall|l: int| i <= l < n implies precedes(keys@, next, #[trigger] a@[l]) by {
                if l > i {
                    assert(precedes(keys@, a@[i as int], a@[l]));
                }
            }
            out.push(next);
            j = j + 1;
        }
        assert(forall|k: int| 0 <= k < before.len() ==> out@[k] == before[k]);
        assert(out@[before.len() as int] == out@.last());
        assert forall|l: int| 0 <= l < i implies out@.contains(#[trigger] a@[l]) by {
            if before.contains(a@[l]) {
                let k = choose|k: int| 0 <= k < before.len() && before[k] == a@[l];
                assert(out@[k] == a@[l]);
            }
        }
        assert forall|l: int| 0 <= l < j implies out@.contains(#[trigger] b@[l]) by {
            if before.contains(b@[l]) {
                let k = choose|k: int| 0 <= k < before.len() && before[k] == b@[l];
                assert(out@[k] == b@[l]);
            }
        }
    }
    assert forall|p: usize| lo <= p < hi implies #[trigger] out@.contains(p) by {
        if p < mid {
            assert(a@.contains(p));
        } else {
            assert(b@.contains(p));
        }
    }
    out
}

fn order_of(keys: &Vec<i64>, lo: usize, hi: usize) -> (r: Vec<usize>)
    requires
        lo <= hi <= keys@.len(),
    ensures
        is_order(keys@, lo as int, hi as int, r@),
    decreases hi - lo,
{
    if lo == hi {
        return Vec::new();
    }
    if hi - lo == 1 {
        let mut one: Vec<usize> = Vec::new();
        one.push(lo);
        assert(one@[0] == lo);
        return one;
    }
    let mid = lo + (hi - lo) / 2;
    let a = order_of(keys, lo, mid);
    let b = order_of(keys, mid, hi);
    merge(keys, lo, mid, hi, a, b)
}

/// The places of `keys`, from the smallest key to the largest.
pub fn ranking(keys: &Vec<i64>) -> (r: Vec<usize>)
    ensures
        is_order(keys@, 0, keys@.len() as int, r@),
{
    order_of(keys, 0, keys.len())
}

} // verus!
