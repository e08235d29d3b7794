//! Single-precision numbers held by their bit patterns.

use vstd::prelude::*;
use vstd::arithmetic::power2::{lemma_pow2_pos, lemma_pow2_strictly_increases, lemma_pow2_unfold, pow2};

verus! {

/// Bit pattern of the sign bit.
pub const SIGN_BIT: u32 = 0x8000_0000;

/// Bit pattern of positive infinity; every larger magnitude is a NaN.
pub const INFINITY_BITS: u32 = 0x7f80_0000;

/// The number of bit patterns that a fraction can take: two to the power
/// of its 23 bits.
pub const FRACTION_SPAN: u32 = 0x0080_0000;

/// A single-precision IEEE 754 number, held by its bit pattern: a sign bit,
/// eight bits of exponent and 23 bits of fraction.
#[derive(Clone, Copy, Debug)]
pub struct Scalar {
    pub bits: u32,
}

/// The size that the bits `magnitude` of exponent and fraction stand for,
/// times two to the power of 149: the fraction alone while the exponent is
/// zero, else the fraction with a leading one, doubled for each step of the
/// exponent above one.
pub open spec fn size_of(magnitude: int) -> int {
    let exponent = magnitude / (FRACTION_SPAN as int);
    let fraction = magnitude % (FRACTION_SPAN as int);
    if exponent == 0 {
        fraction
    } else {
        (FRACTION_SPAN + fraction) * pow2((exponent - 1) as nat)
    }
}

impl Scalar {
    /// The bits without the sign bit.
    pub open spec fn magnitude(self) -> int {
        if self.bits >= SIGN_BIT {
            self.bits - SIGN_BIT
        } else {
            self.bits as int
        }
    }

    /// Whether the sign bit is set.
    pub open spec fn is_negative(self) -> bool {
        self.bits >= SIGN_BIT
    }

    /// Whether the value is not a number.
    pub open spec fn spec_is_nan(self) -> bool {
        self.magnitude() > INFINITY_BITS
    }

    /// The value of the number times two to the power of 149, which is a
    /// whole number for every number. Infinity stands where the next power
    /// of two above the largest number would, at two to the power of 128.
    /// It has no meaning for a NaN.
    pub open spec fn scaled(self) -> int {
        if self.is_negative() {
            -size_of(self.magnitude())
        } else {
            size_of(self.magnitude())
        }
    }

    /// The bits read as a sign and a magnitude. Numbers stand in the order
    /// of their ranks: see `lemma_rank_orders_as_value`.
    pub open spec fn rank(self) -> int {
        if self.is_negative() {
            -self.magnitude()
        } else {
            self.magnitude()
        }
    }

    /// `self < other` as IEEE 754 defines it: by value, and false when
    /// either is a NaN.
    pub open spec fn spec_lt(self, other: Scalar) -> bool {
        !self.spec_is_nan() && !other.spec_is_nan() && self.scaled() < other.scaled()
    }

    /// `self <= other` as IEEE 754 defines it: by value, and false when
    /// either is a NaN.
    pub open spec fn spec_le(self, other: Scalar) -> bool {
        !self.spec_is_nan() && !other.spec_is_nan() && self.scaled() <= other.scaled()
    }

    /// `lo < self < hi`: the value lies in the open interval.
    pub open spec fn spec_between(self, lo: Scalar, hi: Scalar) -> bool {
        lo.spec_lt(self) && self.spec_lt(hi)
    }

    /// `0 < self`.
    pub open spec fn spec_is_positive(self) -> bool {
        !self.spec_is_nan() && self.scaled() > 0
    }

    /// Positive zero.
    pub open spec fn spec_zero() -> Scalar {
        Scalar { bits: 0 }
    }

    /// Positive infinity.
    pub open spec fn spec_infinity() -> Scalar {
        Scalar { bits: INFINITY_BITS }
    }

    /// The number with the opposite sign: the same bits but for the sign bit.
    /// The opposite of a NaN is a NaN, and each zero is the opposite of the
    /// other.
    pub open spec fn spec_neg(self) -> Scalar {
        if self.bits >= SIGN_BIT {
            Scalar { bits: (self.bits - SIGN_BIT) as u32 }
        } else {
            Scalar { bits: (self.bits + SIGN_BIT) as u32 }
        }
    }
}

/// A larger magnitude stands for a larger size.
pub proof fn lemma_size_grows_with_magnitude(m1: int, m2: int)
    requires
        0 <= m1 < m2,
    ensures
        0 <= size_of(m1) < size_of(m2),
{
    let span = FRACTION_SPAN as int;
    let e1 = m1 / span;
    let f1 = m1 % span;
    let e2 = m2 / span;
    let f2 = m2 % span;
    assert(m1 == span * e1 + f1 && 0 <= f1 < span && 0 <= e1) by (nonlinear_arith)
        requires
            span == 0x0080_0000,
            0 <= m1,
            e1 == m1 / span,
            f1 == m1 % span,
    ;
    assert(m2 == span * e2 + f2 && 0 <= f2 < span && 0 <= e2) by (nonlinear_arith)
        requires
            span == 0x0080_0000,
            0 <= m2,
            e2 == m2 / span,
            f2 == m2 % span,
    ;
    assert(e1 < e2 || (e1 == e2 && f1 < f2)) by (nonlinear_arith)
        requires
            span > 0,
            m1 < m2,
            m1 == span * e1 + f1,
            m2 == span * e2 + f2,
            0 <= f1 < span,
            0 <= f2 < span,
    ;
    if e1 == 0 {
        if e2 > 0 {
            let p2 = pow2((e2 - 1) as nat) as int;
            lemma_pow2_pos((e2 - 1) as nat);
            assert((span + f2) * p2 >= span) by (nonlinear_arith)
                requires
                    p2 >= 1,
                    f2 >= 0,
                    span > 0,
            ;
        }
    } else {
        let p1 = pow2((e1 - 1) as nat) as int;
        let p2 = pow2((e2 - 1) as nat) as int;
        lemma_pow2_pos((e1 - 1) as nat);
        assert(0 <= (span + f1) * p1) by (nonlinear_arith)
            requires
                p1 >= 1,
                f1 >= 0,
                span > 0,
        ;
        if e1 == e2 {
            assert((span + f1) * p1 < (span + f2) * p1) by (nonlinear_arith)
                requires
                    p1 >= 1,
                    f1 < f2,
            ;
        } else {
            lemma_pow2_unfold(e1 as nat);
            if e1 < e2 - 1 {
                lemma_pow2_strictly_increases(e1 as nat, (e2 - 1) as nat);
            }
            assert((span + f1) * p1 < (span + f2) * p2) by (nonlinear_arith)
                requires
                    p1 >= 1,
                    2 * p1 <= p2,
                    0 <= f1 < span,
                    0 <= f2,
            ;
        }
    }
}

/// Numbers stand in the order of their bits read as sign and magnitude:
/// one value is below another exactly when its rank is, and two values are
/// equal exactly when the ranks are.
pub proof fn lemma_rank_orders_as_value(a: Scalar, b: Scalar)
    ensures
        a.rank() < b.rank() <==> a.scaled() < b.scaled(),
        a.rank() == b.rank() <==> a.scaled() == b.scaled(),
{
    let ma = a.magnitude();
    let mb = b.magnitude();
    assert(size_of(0) == 0);
    if ma > 0 {
        lemma_size_grows_with_magnitude(0, ma);
    }
    if mb > 0 {
        lemma_size_grows_with_magnitude(0, mb);
    }
    if ma < mb {
        lemma_size_grows_with_magnitude(ma, mb);
    }
    if mb < ma {
        lemma_size_grows_with_magnitude(mb, ma);
    }
}

impl Scalar {
    /// The number with the given bit pattern.
    pub fn from_bits(bits: u32) -> (s: Scalar)
        ensures
            s.bits == bits,
    {
        Scalar { bits }
    }

    /// The bit pattern of the number.
    pub fn to_bits(&self) -> (bits: u32)
        ensures
            bits == self.bits,
    {
        self.bits
    }

    /// Positive zero.
    pub fn zero() -> (s: Scalar)
        ensures
            s == Scalar::spec_zero(),
            !s.spec_is_nan(),
            s.scaled() == 0,
    {
        Scalar { bits: 0 }
    }

    /// Positive infinity, which every other number is below.
    pub fn infinity() -> (s: Scalar)
        ensures
            s == Scalar::spec_infinity(),
            !s.spec_is_nan(),
            forall|t: Scalar| !t.spec_is_nan() ==> #[trigger] t.spec_le(s),
    {
        let s = Scalar { bits: INFINITY_BITS };
        assert forall|t: Scalar| !t.spec_is_nan() implies #[trigger] t.spec_le(s) by {
            lemma_rank_orders_as_value(t, s);
        }
        s
    }

    /// Whether the value is not a number.
    pub fn is_nan(&self) -> (r: bool)
        ensures
            r == self.spec_is_nan(),
    {
        let magnitude: u32 = if self.bits >= SIGN_BIT {
            self.bits - SIGN_BIT
        } else {
            self.bits
        };
        magnitude > INFINITY_BITS
    }

    fn rank_of(&self) -> (p: i64)
        ensures
            p == self.rank(),
    {
        if self.bits >= SIGN_BIT {
            -((self.bits - SIGN_BIT) as i64)
        } else {
            self.bits as i64
        }
    }

    /// `self < other`.
    pub fn lt(&self, other: &Scalar) -> (r: bool)
        ensures
            r == self.spec_lt(*other),
    {
        proof {
            lemma_rank_orders_as_value(*self, *other);
        }
        !self.is_nan() && !other.is_nan() && self.rank_of() < other.rank_of()
    }

    /// `self <= other`.
    pub fn le(&self, other: &Scalar) -> (r: bool)
        ensures
            r == self.spec_le(*other),
    {
        proof {
            lemma_rank_orders_as_value(*self, *other);
        }
        !self.is_nan() && !other.is_nan() && self.rank_of() <= other.rank_of()
    }

    /// `lo < self < hi`.
    pub fn between(&self, lo: &Scalar, hi: &Scalar) -> (r: bool)
        ensures
            r == self.spec_between(*lo, *hi),
    {
        lo.lt(self) && self.lt(hi)
    }

    /// `0 < self`.
    pub fn is_positive(&self) -> (r: bool)
        ensures
            r == self.spec_is_positive(),
    {
        proof {
            lemma_rank_orders_as_value(*self, Scalar::spec_zero());
        }
        !self.is_nan() && self.rank_of() > 0
    }

    /// The number with the opposite sign.
    pub fn neg(&self) -> (r: Scalar)
        ensures
            r == self.spec_neg(),
            r.spec_is_nan() == self.spec_is_nan(),
            r.scaled() == -self.scaled(),
            r.spec_neg() == *self,
    {
        if self.bits >= SIGN_BIT {
            Scalar { bits: self.bits - SIGN_BIT }
        } else {
            Scalar { bits: self.bits + SIGN_BIT }
        }
    }
}

} // verus!
