//! What the constants stand for, and what comparing numbers says.
use vstd::arithmetic::power2::{lemma2_to64, lemma2_to64_rest, lemma_pow2_adds, pow2};
use vstd::prelude::*;

use crate::num::{
    absolute, at_most, clamped, is_finite, is_nan, larger, less, negated, num, smaller, Num, FIVE,
    HALF, INFINITY, MICRO, MILLION, MINUS_HALF, MINUS_ONE, MINUS_P4, MINUS_PI, N255, NANO,
    NEG_INFINITY, NINE, ONE, P02, P03, P05, P1, P2, P3, P4, P65, PI, ROOT3, SIGN, TAU, TEN,
    TEN_THOUSAND, THOUSAND, THREE, TINY_ANGLE, TWO, TWO7, ZERO,
};

verus! {

/// The significant bits of a positive number: a one, and the 52 that are
/// stored.
pub open spec fn fraction(x: Num) -> int {
    0x10_0000_0000_0000 + x.bits % 0x10_0000_0000_0000
}

/// What the significant bits of a positive number are scaled by: 2 to the power
/// `-scale`.
pub open spec fn scale(x: Num) -> int {
    1075 - x.bits / 0x10_0000_0000_0000
}

/// No number with as many bits is nearer to `p / q` than `x`, `x` above 0 and
/// below 2 to the power 53.
pub open spec fn is_nearest(x: Num, p: int, q: int) -> bool {
    let off = fraction(x) * q - p * pow2(scale(x) as nat);
    &&& 0 < scale(x) < 1075 && 0 < q
    &&& -q <= 2 * off <= q
}

/// The constants are the numbers nearest to what they are named for.
pub proof fn law_constants()
    ensures
        is_nearest(num(TINY_ANGLE), 1, 1000000000000),
        is_nearest(num(NANO), 1, 1000000000),
        is_nearest(num(MICRO), 1, 1000000),
        is_nearest(num(P02), 2, 100),
        is_nearest(num(P03), 3, 100),
        is_nearest(num(P05), 5, 100),
        is_nearest(num(P1), 1, 10),
        is_nearest(num(P2), 2, 10),
        is_nearest(num(P3), 3, 10),
        is_nearest(num(P4), 4, 10),
        is_nearest(num(HALF), 1, 2),
        is_nearest(num(P65), 65, 100),
        is_nearest(num(ONE), 1, 1),
        is_nearest(num(ROOT3), 1732, 1000),
        is_nearest(num(TWO), 2, 1),
        is_nearest(num(TWO7), 27, 10),
        is_nearest(num(THREE), 3, 1),
        is_nearest(num(FIVE), 5, 1),
        is_nearest(num(NINE), 9, 1),
        is_nearest(num(TEN), 10, 1),
        is_nearest(num(N255), 255, 1),
        is_nearest(num(THOUSAND), 1000, 1),
        is_nearest(num(TEN_THOUSAND), 10000, 1),
        is_nearest(num(MILLION), 1000000, 1),
        is_nearest(num(PI), 3141592653589793238, 1000000000000000000),
        is_nearest(num(TAU), 6283185307179586476, 1000000000000000000),
        num(ZERO).bits == 0,
        num(MINUS_HALF) == negated(num(HALF)),
        num(MINUS_ONE) == negated(num(ONE)),
        num(MINUS_P4) == negated(num(P4)),
        num(MINUS_PI) == negated(num(PI)),
        num(NEG_INFINITY) == negated(num(INFINITY)),
{
    lemma2_to64();
    lemma2_to64_rest();
    lemma_pow2_adds(46, 46);
    lemma_pow2_adds(41, 41);
    lemma_pow2_adds(36, 36);
}

/// Infinity is above every finite number and below none, and every number that
/// is no NaN is finite or one of the two infinities.
pub proof fn law_infinity(x: Num)
    requires
        !is_nan(x),
    ensures
        is_finite(x) ==> less(x, num(INFINITY)) && less(num(NEG_INFINITY), x),
        !less(num(INFINITY), x) && !less(x, num(NEG_INFINITY)),
        is_finite(x) || x == num(INFINITY) || x == num(NEG_INFINITY),
{
}

/// Numbers without a sign are ordered as their bits are, up to infinity; a
/// number and its negation lie on either side of zero. Beyond infinity all are
/// NaNs.
pub proof fn law_order_by_bits(x: Num, y: Num)
    ensures
        x.bits < y.bits <= INFINITY ==> less(x, y),
        0 < x.bits <= INFINITY ==> less(negated(x), num(ZERO)) && less(num(ZERO), x),
        INFINITY < x.bits < SIGN ==> is_nan(x) && is_nan(negated(x)),
        x.bits <= INFINITY ==> !is_nan(x) && !is_nan(negated(x)),
{
}

/// Of two numbers the larger and the smaller are the two of them; a NaN gives
/// way to the other one. What is held between two bounds stays where it lies
/// between them.
pub proof fn law_choices(x: Num, y: Num, lo: Num, hi: Num)
    ensures
        is_nan(x) ==> larger(x, y) == y && smaller(x, y) == y,
        is_nan(y) && !is_nan(x) ==> larger(x, y) == x && smaller(x, y) == x,
        less(x, y) ==> larger(x, y) == y && smaller(x, y) == x,
        less(y, x) ==> larger(x, y) == x && smaller(x, y) == y,
        at_most(lo, x) && at_most(x, hi) ==> clamped(x, lo, hi) == x,
        less(x, lo) && at_most(lo, hi) ==> clamped(x, lo, hi) == lo,
        less(hi, x) && at_most(lo, hi) ==> clamped(x, lo, hi) == hi,
        is_nan(x) ==> clamped(x, lo, hi) == x,
        !is_nan(x) && !less(x, num(ZERO)) && x.bits != SIGN ==> absolute(x) == x,
        less(x, num(ZERO)) ==> absolute(x) == negated(x),
{
}

/// Calls on numbers give what their names say.
pub proof fn law_number_calls(x: Num, y: Num, z: Num, b: bool, r: Num)
    ensures
        call_ensures(Num::is_nan, (x,), b) ==> b == is_nan(x),
        call_ensures(Num::is_finite, (x,), b) ==> b == is_finite(x),
        call_ensures(Num::less, (x, y), b) ==> b == less(x, y),
        call_ensures(Num::at_most, (x, y), b) ==> b == at_most(x, y),
        call_ensures(Num::neg, (x,), r) ==> r == negated(x),
        call_ensures(Num::abs, (x,), r) ==> r == absolute(x),
        call_ensures(Num::max, (x, y), r) ==> r == larger(x, y),
        call_ensures(Num::min, (x, y), r) ==> r == smaller(x, y),
        call_ensures(Num::clamp, (x, y, z), r) ==> r == clamped(x, y, z),
{
}

} // verus!
