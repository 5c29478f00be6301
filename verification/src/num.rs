//! Binary64 numbers carried as their bit patterns.
//!
//! A [`Num`] is moved, stored, negated and ordered here; what needs rounding
//! (sums, products, roots) is left to a [`Numerics`](crate::numerics::Numerics)
//! implementation.
use vstd::prelude::*;
use vstd::std_specs::cmp::PartialEqSpecImpl;

verus! {

/// The sign bit.
pub const SIGN: u64 = 0x8000_0000_0000_0000;

/// Positive infinity: every larger magnitude is a NaN.
pub const INFINITY: u64 = 0x7FF0_0000_0000_0000;

/// Negative infinity.
pub const NEG_INFINITY: u64 = 0xFFF0_0000_0000_0000;

/// 0.0
pub const ZERO: u64 = 0x0000_0000_0000_0000;

/// 1e-12
pub const TINY_ANGLE: u64 = 0x3D71_9799_812D_EA11;

/// 1e-9
pub const NANO: u64 = 0x3E11_2E0B_E826_D695;

/// 1e-6
pub const MICRO: u64 = 0x3EB0_C6F7_A0B5_ED8D;

/// 0.02
pub const P02: u64 = 0x3F94_7AE1_47AE_147B;

/// 0.03
pub const P03: u64 = 0x3F9E_B851_EB85_1EB8;

/// 0.05
pub const P05: u64 = 0x3FA9_9999_9999_999A;

/// 0.1
pub const P1: u64 = 0x3FB9_9999_9999_999A;

/// 0.2
pub const P2: u64 = 0x3FC9_9999_9999_999A;

/// 0.3
pub const P3: u64 = 0x3FD3_3333_3333_3333;

/// 0.4
pub const P4: u64 = 0x3FD9_9999_9999_999A;

/// -0.4
pub const MINUS_P4: u64 = 0xBFD9_9999_9999_999A;

/// 0.5
pub const HALF: u64 = 0x3FE0_0000_0000_0000;

/// -0.5
pub const MINUS_HALF: u64 = 0xBFE0_0000_0000_0000;

/// 0.65
pub const P65: u64 = 0x3FE4_CCCC_CCCC_CCCD;

/// 1.0
pub const ONE: u64 = 0x3FF0_0000_0000_0000;

/// -1.0
pub const MINUS_ONE: u64 = 0xBFF0_0000_0000_0000;

/// 1.732
pub const ROOT3: u64 = 0x3FFB_B645_A1CA_C083;

/// 2.0
pub const TWO: u64 = 0x4000_0000_0000_0000;

/// 3.0
pub const THREE: u64 = 0x4008_0000_0000_0000;

/// pi
pub const PI: u64 = 0x4009_21FB_5444_2D18;

/// -pi
pub const MINUS_PI: u64 = 0xC009_21FB_5444_2D18;

/// 2.7
pub const TWO7: u64 = 0x4005_9999_9999_999A;

/// 5.0
pub const FIVE: u64 = 0x4014_0000_0000_0000;

/// 2 pi
pub const TAU: u64 = 0x4019_21FB_5444_2D18;

/// 9.0
pub const NINE: u64 = 0x4022_0000_0000_0000;

/// 10.0
pub const TEN: u64 = 0x4024_0000_0000_0000;

/// 255.0
pub const N255: u64 = 0x406F_E000_0000_0000;

/// 1000.0
pub const THOUSAND: u64 = 0x408F_4000_0000_0000;

/// 10000.0
pub const TEN_THOUSAND: u64 = 0x40C3_8800_0000_0000;

/// 1000000.0
pub const MILLION: u64 = 0x412E_8480_0000_0000;

/// A binary64 number, by its bits.
#[derive(Clone, Copy, Debug)]
pub struct Num {
    pub bits: u64,
}

/// `x == y`: the two zeros are equal, a NaN equals nothing.
pub open spec fn same(x: Num, y: Num) -> bool {
    !is_nan(x) && !is_nan(y) && rank(x) == rank(y)
}

impl PartialEq for Num {
    fn eq(&self, other: &Num) -> (r: bool) {
        !self.is_nan() && !other.is_nan() && self.rank() == other.rank()
    }
}

impl PartialEqSpecImpl for Num {
    open spec fn obeys_eq_spec() -> bool {
        true
    }

    open spec fn eq_spec(&self, other: &Num) -> bool {
        same(*self, *other)
    }
}

/// The number with the given bits.
#[verifier::allow_in_spec]
pub fn num(bits: u64) -> Num
    returns
        (Num { bits }),
{
    Num { bits }
}

/// The bits without the sign, as an integer. Magnitudes order like the
/// absolute values that they stand for.
pub open spec fn magnitude(x: Num) -> int {
    if x.bits < SIGN {
        x.bits as int
    } else {
        x.bits - SIGN
    }
}

pub open spec fn is_nan(x: Num) -> bool {
    magnitude(x) > INFINITY
}

/// An integer that orders the numbers that are no NaN; both zeros have rank 0.
pub open spec fn rank(x: Num) -> int {
    if x.bits < SIGN {
        magnitude(x)
    } else {
        -magnitude(x)
    }
}

/// `x < y`: false as soon as one of them is a NaN.
pub open spec fn less(x: Num, y: Num) -> bool {
    !is_nan(x) && !is_nan(y) && rank(x) < rank(y)
}

/// `x <= y`: false as soon as one of them is a NaN.
pub open spec fn at_most(x: Num, y: Num) -> bool {
    !is_nan(x) && !is_nan(y) && rank(x) <= rank(y)
}

pub open spec fn is_finite(x: Num) -> bool {
    magnitude(x) < INFINITY
}

/// `-x`: the sign bit flipped.
pub open spec fn negated(x: Num) -> Num {
    if x.bits < SIGN {
        Num { bits: (x.bits + SIGN) as u64 }
    } else {
        Num { bits: (x.bits - SIGN) as u64 }
    }
}

/// `|x|`: the sign bit cleared.
pub open spec fn absolute(x: Num) -> Num {
    Num { bits: magnitude(x) as u64 }
}

/// The larger of two numbers; a NaN gives way to the other one.
pub open spec fn larger(x: Num, y: Num) -> Num {
    if is_nan(x) || less(x, y) {
        y
    } else {
        x
    }
}

/// The smaller of two numbers; a NaN gives way to the other one.
pub open spec fn smaller(x: Num, y: Num) -> Num {
    if is_nan(x) || less(y, x) {
        y
    } else {
        x
    }
}

/// `x` held between `lo` and `hi`; a NaN stays a NaN.
pub open spec fn clamped(x: Num, lo: Num, hi: Num) -> Num {
    if less(x, lo) {
        lo
    } else if less(hi, x) {
        hi
    } else {
        x
    }
}

impl Num {
    pub fn is_nan(self) -> (r: bool)
        ensures
            r == is_nan(self),
    {
        self.abs().bits > INFINITY
    }

    pub fn is_finite(self) -> (r: bool)
        ensures
            r == is_finite(self),
    {
        self.abs().bits < INFINITY
    }

    pub fn rank(self) -> (r: i64)
        ensures
            r == rank(self),
    {
        if self.bits < SIGN {
            self.bits as i64
        } else {
            -((self.bits - SIGN) as i64)
        }
    }

    pub fn less(self, other: Num) -> (r: bool)
        ensures
            r == less(self, other),
    {
        !self.is_nan() && !other.is_nan() && self.rank() < other.rank()
    }

    pub fn at_most(self, other: Num) -> (r: bool)
        ensures
            r == at_most(self, other),
    {
        !self.is_nan() && !other.is_nan() && self.rank() <= other.rank()
    }

    pub fn neg(self) -> (r: Num)
        ensures
            r == negated(self),
    {
        if self.bits < SIGN {
            Num { bits: self.bits + SIGN }
        } else {
            Num { bits: self.bits - SIGN }
        }
    }

    pub fn abs(self) -> (r: Num)
        ensures
            r == absolute(self),
            r.bits == magnitude(self),
    {
        if self.bits < SIGN {
            self
        } else {
            Num { bits: self.bits - SIGN }
        }
    }

    pub fn max(self, other: Num) -> (r: Num)
        ensures
            r == larger(self, other),
    {
        if self.is_nan() || self.less(other) {
            other
        } else {
            self
        }
    }

    pub fn min(self, other: Num) -> (r: Num)
        ensures
            r == smaller(self, other),
    {
        if self.is_nan() || other.less(self) {
            other
        } else {
            self
        }
    }

    pub fn clamp(self, lo: Num, hi: Num) -> (r: Num)
        ensures
            r == clamped(self, lo, hi),
    {
        if self.less(lo) {
            lo
        } else if hi.less(self) {
            hi
        } else {
            self
        }
    }
}

/// Numbers that are no NaN are totally ordered, up to the two zeros.
pub proof fn law_order_is_total(x: Num, y: Num, z: Num)
    requires
        !is_nan(x),
        !is_nan(y),
    ensures
        !less(x, x),
        at_most(x, y) || at_most(y, x),
        less(x, y) == !at_most(y, x),
        at_most(x, y) && at_most(y, x) ==> x == y || (magnitude(x) == 0 && magnitude(y) == 0),
        less(x, y) && less(y, z) ==> less(x, z),
        at_most(x, y) && at_most(y, z) ==> at_most(x, z),
{
}

/// No comparison with a NaN holds.
pub proof fn law_nan_is_unordered(x: Num, y: Num)
    requires
        is_nan(x),
    ensures
        !less(x, y) && !less(y, x) && !at_most(x, y) && !at_most(y, x),
{
}

/// Negation undoes itself and turns the order round.
pub proof fn law_negation(x: Num, y: Num)
    ensures
        negated(negated(x)) == x,
        is_nan(negated(x)) == is_nan(x),
        less(negated(y), negated(x)) == less(x, y),
{
}

/// The larger and the smaller of two numbers bound both, NaN aside.
pub proof fn law_larger_and_smaller_bound(x: Num, y: Num)
    requires
        !is_nan(x),
        !is_nan(y),
    ensures
        at_most(x, larger(x, y)) && at_most(y, larger(x, y)),
        at_most(smaller(x, y), x) && at_most(smaller(x, y), y),
{
}

} // verus!
