//! Arithmetic that never rounds.
//!
//! Contracts say which operation was applied to which numbers. What the whole
//! of them computes is plain where no operation rounds: each number then
//! stands for a real one. An arithmetic that stops where it would round is of
//! this kind, and so is every run of binary64 arithmetic in which nothing
//! happens to round.
use vstd::prelude::*;

use crate::num::{
    absolute, at_most, is_nan, less, negated, num, Num, HALF, MINUS_HALF, MINUS_ONE, ONE, THREE,
    TWO, ZERO,
};
use crate::numerics::{
    is_composed, is_difference, is_from_single, is_from_u64, is_inverse, is_product, is_quotient,
    is_rotated, is_sum, is_to_index, is_to_single, is_unrotated, is_v_difference, is_v_dot,
    is_v_norm, is_v_norm_squared, is_v_product, is_v_quotient, is_v_sum, is_v_unit, Numerics,
};
use crate::types::{UnitQuaternion, Vector3};

verus! {

/// What the numbers stand for.
pub type Reading = spec_fn(Num) -> real;

/// The order, the signs and the simplest constants are read as they should be.
pub open spec fn reads_numbers(val: Reading) -> bool {
    &&& forall|a: Num, b: Num| #[trigger]
        less(a, b) ==> val(a) < val(b)
    &&& forall|a: Num, b: Num| #[trigger]
        at_most(a, b) ==> val(a) <= val(b)
    &&& forall|a: Num, b: Num|
        !(#[trigger] less(a, b)) && !is_nan(a) && !is_nan(b) ==> val(b) <= val(a)
    &&& forall|a: Num, b: Num|
        !(#[trigger] at_most(a, b)) && !is_nan(a) && !is_nan(b) ==> val(b) < val(a)
    &&& forall|a: Num| val(#[trigger] negated(a)) == -val(a)
    &&& forall|a: Num|
        val(#[trigger] absolute(a)) == if val(a) < 0real {
            -val(a)
        } else {
            val(a)
        }
    &&& val(num(ZERO)) == 0real
    &&& val(num(ONE)) == 1real
    &&& val(num(MINUS_ONE)) == -1real
    &&& val(num(TWO)) == 2real
    &&& val(num(THREE)) == 3real
    &&& val(num(HALF)) == 1real / 2real
    &&& val(num(MINUS_HALF)) == -1real / 2real
}

/// Operations on numbers do not round.
pub open spec fn scalars_are_exact<K: Numerics>(val: Reading) -> bool {
    &&& reads_numbers(val)
    &&& forall|a: Num, b: Num, r: Num| #[trigger]
        is_sum::<K>(a, b, r) ==> !is_nan(r) && val(r) == val(a) + val(b)
    &&& forall|a: Num, b: Num, r: Num| #[trigger]
        is_difference::<K>(a, b, r) ==> !is_nan(r) && val(r) == val(a) - val(b)
    &&& forall|a: Num, b: Num, r: Num| #[trigger]
        is_product::<K>(a, b, r) ==> !is_nan(r) && val(r) == val(a) * val(b)
    &&& forall|a: Num, b: Num, r: Num| #[trigger]
        is_quotient::<K>(a, b, r) && val(b) != 0real ==> !is_nan(r) && val(r) == val(a) / val(b)
    &&& forall|k: u64, r: Num| #[trigger]
        is_from_u64::<K>(k, r) ==> !is_nan(r) && val(r) == k as real
    &&& forall|a: Num, k: usize| #[trigger]
        is_to_index::<K>(a, k) && 0real <= val(a) ==> k as real <= val(a) < k as real + 1real
    &&& forall|a: Num, s: u32, b: Num|
        #[trigger] is_to_single::<K>(a, s) && #[trigger] is_from_single::<K>(s, b) ==> !is_nan(b)
            && val(b) == val(a)
}

/// The squared length of a vector.
pub open spec fn square_of(val: Reading, a: Vector3) -> real {
    val(a.x) * val(a.x) + val(a.y) * val(a.y) + val(a.z) * val(a.z)
}

/// Operations on vectors do not round.
pub open spec fn vectors_are_exact<K: Numerics>(val: Reading) -> bool {
    &&& forall|a: Vector3, b: Vector3, r: Vector3| #[trigger]
        is_v_sum::<K>(a, b, r) ==> {
            &&& val(r.x) == val(a.x) + val(b.x)
            &&& val(r.y) == val(a.y) + val(b.y)
            &&& val(r.z) == val(a.z) + val(b.z)
        }
    &&& forall|a: Vector3, b: Vector3, r: Vector3| #[trigger]
        is_v_difference::<K>(a, b, r) ==> {
            &&& val(r.x) == val(a.x) - val(b.x)
            &&& val(r.y) == val(a.y) - val(b.y)
            &&& val(r.z) == val(a.z) - val(b.z)
        }
    &&& forall|a: Vector3, s: Num, r: Vector3| #[trigger]
        is_v_product::<K>(a, s, r) ==> {
            &&& val(r.x) == val(a.x) * val(s)
            &&& val(r.y) == val(a.y) * val(s)
            &&& val(r.z) == val(a.z) * val(s)
        }
    &&& forall|a: Vector3, s: Num, r: Vector3| #[trigger]
        is_v_quotient::<K>(a, s, r) && val(s) != 0real ==> {
            &&& val(r.x) == val(a.x) / val(s)
            &&& val(r.y) == val(a.y) / val(s)
            &&& val(r.z) == val(a.z) / val(s)
        }
    &&& forall|a: Vector3, b: Vector3, r: Num| #[trigger]
        is_v_dot::<K>(a, b, r) ==> !is_nan(r) && val(r) == val(a.x) * val(b.x) + val(a.y) * val(b.y)
            + val(a.z) * val(b.z)
    &&& forall|a: Vector3, r: Num| #[trigger]
        is_v_norm_squared::<K>(a, r) ==> !is_nan(r) && val(r) == square_of(val, a)
    &&& forall|a: Vector3, r: Num| #[trigger]
        is_v_norm::<K>(a, r) ==> !is_nan(r) && 0real <= val(r) && val(r) * val(r) == square_of(
            val,
            a,
        )
    &&& forall|a: Vector3, r: Num, u: Vector3|
        #[trigger] is_v_norm::<K>(a, r) && #[trigger] is_v_unit::<K>(a, u) && 0real < val(r) ==> {
            &&& val(u.x) == val(a.x) / val(r)
            &&& val(u.y) == val(a.y) / val(r)
            &&& val(u.z) == val(a.z) / val(r)
        }
}

/// The inverse of a rotation undoes it.
pub open spec fn turns_are_undone<K: Numerics>() -> bool {
    &&& forall|q: UnitQuaternion, v: Vector3, w: Vector3, u: Vector3|
        #[trigger] is_rotated::<K>(q, v, w) && #[trigger] is_unrotated::<K>(q, w, u) ==> u == v
    &&& forall|q: UnitQuaternion, v: Vector3, w: Vector3, u: Vector3|
        #[trigger] is_unrotated::<K>(q, v, w) && #[trigger] is_rotated::<K>(q, w, u) ==> u == v
    &&& forall|
        q: UnitQuaternion,
        i: UnitQuaternion,
        p: UnitQuaternion,
        r: UnitQuaternion,
        s: UnitQuaternion,
    |
        #[trigger] is_inverse::<K>(q, i) && #[trigger] is_composed::<K>(q, p, r)
            && #[trigger] is_composed::<K>(i, r, s) ==> s == p
    &&& forall|
        q: UnitQuaternion,
        i: UnitQuaternion,
        p: UnitQuaternion,
        r: UnitQuaternion,
        s: UnitQuaternion,
    |
        #[trigger] is_inverse::<K>(q, i) && #[trigger] is_composed::<K>(i, p, r)
            && #[trigger] is_composed::<K>(q, r, s) ==> s == p
}

/// `f(0) + .. + f(n - 1)`.
pub open spec fn total(n: nat, f: spec_fn(int) -> real) -> real
    decreases n,
{
    if n == 0 {
        0real
    } else {
        total((n - 1) as nat, f) + f(n - 1)
    }
}

/// Equal terms have equal totals.
pub proof fn lemma_total_of_equals(n: nat, f: spec_fn(int) -> real, g: spec_fn(int) -> real)
    requires
        forall|i: int| 0 <= i < n ==> #[trigger] f(i) == g(i),
    ensures
        total(n, f) == total(n, g),
    decreases n,
{
    if n > 0 {
        lemma_total_of_equals((n - 1) as nat, f, g);
    }
}

/// A total with one term more: the term at `k`, those behind it moved on.
pub proof fn lemma_total_with_one_more(
    n: nat,
    k: int,
    f: spec_fn(int) -> real,
    g: spec_fn(int) -> real,
)
    requires
        0 <= k <= n,
        forall|i: int| 0 <= i < k ==> #[trigger] f(i) == g(i),
        forall|i: int| k < i <= n ==> #[trigger] f(i) == g(i - 1),
    ensures
        total(n + 1, f) == total(n, g) + f(k),
    decreases n - k,
{
    if n == k {
        lemma_total_of_equals(n, f, g);
    } else {
        lemma_total_with_one_more((n - 1) as nat, k, f, g);
        assert(f(n as int) == g(n - 1));
    }
}

/// Terms that are not positive have a total that is not above any of them.
pub proof fn lemma_total_is_low(n: nat, f: spec_fn(int) -> real)
    requires
        forall|i: int| 0 <= i < n ==> #[trigger] f(i) <= 0real,
    ensures
        total(n, f) <= 0real,
        forall|i: int| 0 <= i < n ==> total(n, f) <= #[trigger] f(i),
    decreases n,
{
    if n > 0 {
        lemma_total_is_low((n - 1) as nat, f);
        assert forall|i: int| 0 <= i < n implies total(n, f) <= #[trigger] f(i) by {
            assert(f(n - 1) <= 0real);
        }
    }
}

} // verus!
