//! Single-precision numbers as bit patterns: what a pattern stands for, and
//! how two of them are ordered.

use vstd::arithmetic::mul::lemma_mul_strict_inequality;
use vstd::arithmetic::power2::{
    lemma2_to64, lemma_pow2_adds, lemma_pow2_pos, lemma_pow2_strictly_increases, pow2,
};
use vstd::prelude::*;

verus! {

/// The bit that holds the sign.
pub const SIGN_BIT: u32 = 0x8000_0000;

/// The magnitude of an infinity; every larger magnitude is a NaN.
pub const INFINITY_MAGNITUDE: u32 = 0x7f80_0000;

/// Two to the power 23: the number of values that the fraction field takes.
pub const FRACTION_SPAN: u32 = 0x0080_0000;

/// A single-precision number, held as its IEEE-754 bit pattern.
///
/// Derived equality compares the patterns: it tells `0.0` from `-0.0` and
/// finds a NaN equal to itself. The numeric order is `lt` and `gt`.
#[derive(Clone, Copy, Debug, PartialEq, Eq, Structural)]
pub struct Scalar {
    pub bits: u32,
}

impl Scalar {
    /// The sign bit is set.
    pub open spec fn is_negative(self) -> bool {
        self.bits >= SIGN_BIT
    }

    /// The pattern without its sign bit.
    pub open spec fn magnitude(self) -> nat {
        if self.bits >= SIGN_BIT {
            (self.bits - SIGN_BIT) as nat
        } else {
            self.bits as nat
        }
    }

    /// The biased exponent field, 0 to 255.
    pub open spec fn exponent(self) -> nat {
        self.magnitude() / (FRACTION_SPAN as nat)
    }

    /// The fraction field, below two to the power 23.
    pub open spec fn fraction(self) -> nat {
        self.magnitude() % (FRACTION_SPAN as nat)
    }

    /// Not a number: the exponent field is full and the fraction is not 0.
    pub open spec fn spec_is_nan(self) -> bool {
        self.magnitude() > INFINITY_MAGNITUDE
    }

    /// Neither an infinity nor a NaN: the exponent field is not full.
    pub open spec fn spec_is_finite(self) -> bool {
        self.magnitude() < INFINITY_MAGNITUDE
    }

    /// The integer that the fraction field stands for, with the hidden bit
    /// of a normal number.
    pub open spec fn significand(self) -> nat {
        if self.exponent() == 0 {
            self.fraction()
        } else {
            FRACTION_SPAN as nat + self.fraction()
        }
    }

    /// How often the significand is doubled: a subnormal number and the
    /// smallest normal numbers not at all.
    pub open spec fn doublings(self) -> nat {
        if self.exponent() == 0 {
            0
        } else {
            (self.exponent() - 1) as nat
        }
    }

    /// The absolute value, counted in units of two to the power -149, of
    /// which every finite single-precision number is a whole multiple. For
    /// an infinity this is the first power of two beyond all finite values.
    pub open spec fn abs_units(self) -> nat {
        self.significand() * pow2(self.doublings())
    }

    /// The value in units of two to the power -149. Both zeros give 0.
    pub open spec fn units(self) -> int {
        if self.is_negative() {
            -(self.abs_units() as int)
        } else {
            self.abs_units() as int
        }
    }

    /// Numerically less: neither is a NaN, and the first value is the
    /// smaller one.
    pub open spec fn spec_lt(self, other: Scalar) -> bool {
        &&& !self.spec_is_nan()
        &&& !other.spec_is_nan()
        &&& self.units() < other.units()
    }

    /// Numerically greater: `other` is less than `self`.
    pub open spec fn spec_gt(self, other: Scalar) -> bool {
        other.spec_lt(self)
    }

    /// The number 0.
    pub open spec fn spec_zero() -> Scalar {
        Scalar { bits: 0 }
    }

    /// The number 1.
    pub open spec fn spec_one() -> Scalar {
        Scalar { bits: 0x3f80_0000 }
    }

    #[verifier::when_used_as_spec(spec_zero)]
    pub fn zero() -> (s: Scalar)
        ensures
            s == Scalar::spec_zero(),
    {
        Scalar { bits: 0 }
    }

    #[verifier::when_used_as_spec(spec_one)]
    pub fn one() -> (s: Scalar)
        ensures
            s == Scalar::spec_one(),
    {
        Scalar { bits: 0x3f80_0000 }
    }

    /// The number with the given bit pattern.
    pub fn from_bits(bits: u32) -> (s: Scalar)
        ensures
            s.bits == bits,
    {
        Scalar { bits }
    }

    /// The bit pattern of the number.
    pub fn to_bits(self) -> (bits: u32)
        ensures
            bits == self.bits,
    {
        self.bits
    }

    /// The pattern without its sign bit.
    fn magnitude_bits(self) -> (m: u32)
        ensures
            m == self.magnitude(),
            m < SIGN_BIT,
    {
        if self.bits >= SIGN_BIT {
            self.bits - SIGN_BIT
        } else {
            self.bits
        }
    }

    /// Not a number.
    #[verifier::when_used_as_spec(spec_is_nan)]
    pub fn is_nan(self) -> (nan: bool)
        ensures
            nan == self.spec_is_nan(),
    {
        self.magnitude_bits() > INFINITY_MAGNITUDE
    }

    /// Neither an infinity nor a NaN.
    #[verifier::when_used_as_spec(spec_is_finite)]
    pub fn is_finite(self) -> (finite: bool)
        ensures
            finite == self.spec_is_finite(),
    {
        self.magnitude_bits() < INFINITY_MAGNITUDE
    }

    /// Numerically less. A NaN is not less than anything, nor anything
    /// less than a NaN; `-0.0` is not less than `0.0`.
    #[verifier::when_used_as_spec(spec_lt)]
    pub fn lt(self, other: Scalar) -> (less: bool)
        ensures
            less == self.spec_lt(other),
    {
        if self.is_nan() || other.is_nan() {
            return false;
        }
        let a: u32 = self.magnitude_bits();
        let b: u32 = other.magnitude_bits();
        proof {
            let zero = Scalar { bits: 0 };
            lemma_abs_units_order(self, other);
            lemma_abs_units_order(other, self);
            lemma_abs_units_order(zero, self);
            lemma_abs_units_order(zero, other);
        }
        if self.bits >= SIGN_BIT {
            if other.bits >= SIGN_BIT {
                b < a
            } else {
                a != 0 || b != 0
            }
        } else {
            if other.bits >= SIGN_BIT {
                false
            } else {
                a < b
            }
        }
    }

    /// Numerically greater.
    #[verifier::when_used_as_spec(spec_gt)]
    pub fn gt(self, other: Scalar) -> (greater: bool)
        ensures
            greater == self.spec_gt(other),
    {
        other.lt(self)
    }
}

/// The absolute values of two patterns are ordered as their magnitudes are:
/// a larger exponent field outweighs any fraction.
pub proof fn lemma_abs_units_order(a: Scalar, b: Scalar)
    ensures
        a.magnitude() < b.magnitude() ==> a.abs_units() < b.abs_units(),
        a.magnitude() == b.magnitude() ==> a.abs_units() == b.abs_units(),
        a.magnitude() == 0 ==> a.abs_units() == 0,
{
    let span = FRACTION_SPAN as nat;
    if a.magnitude() == 0 {
        assert(a.exponent() == 0 && a.fraction() == 0);
        assert(a.significand() == 0);
        assert(a.abs_units() == 0) by (nonlinear_arith)
            requires
                a.abs_units() == a.significand() * pow2(a.doublings()),
                a.significand() == 0,
        ;
    }
    if a.magnitude() < b.magnitude() {
        let ea = a.exponent();
        let eb = b.exponent();
        let da = a.doublings();
        let db = b.doublings();
        lemma_pow2_pos(da);
        lemma_pow2_pos(db);
        assert(a.magnitude() == span * ea + a.fraction() && b.magnitude() == span * eb
            + b.fraction() && ea <= eb) by (nonlinear_arith)
            requires
                span == 0x80_0000,
                ea == a.magnitude() / span,
                eb == b.magnitude() / span,
                a.fraction() == a.magnitude() % span,
                b.fraction() == b.magnitude() % span,
                a.magnitude() < b.magnitude(),
        ;
        if ea == eb {
            assert(a.significand() < b.significand());
            lemma_mul_strict_inequality(
                a.significand() as int,
                b.significand() as int,
                pow2(da) as int,
            );
        } else {
            // a's value stays below the power of two at which b's exponent starts
            assert(a.significand() < 2 * span);
            assert(b.significand() >= span);
            if ea == 0 {
                assert(a.significand() < span);
                assert(pow2(0) == 1) by {
                    lemma2_to64();
                }
                assert(a.abs_units() < span) by (nonlinear_arith)
                    requires
                        a.abs_units() == a.significand() * pow2(da),
                        pow2(da) == 1,
                        a.significand() < span,
                ;
                assert(b.abs_units() >= span) by (nonlinear_arith)
                    requires
                        b.abs_units() == b.significand() * pow2(db),
                        pow2(db) >= 1,
                        b.significand() >= span,
                ;
            } else {
                assert(da + 1 <= db);
                lemma_pow2_adds(da, 1);
                assert(pow2(1) == 2) by {
                    lemma2_to64();
                }
                if da + 1 < db {
                    lemma_pow2_strictly_increases(da + 1, db);
                }
                assert(2 * pow2(da) <= pow2(db));
                assert(a.abs_units() < b.abs_units()) by (nonlinear_arith)
                    requires
                        a.abs_units() == a.significand() * pow2(da),
                        b.abs_units() == b.significand() * pow2(db),
                        a.significand() < 2 * span,
                        b.significand() >= span,
                        2 * pow2(da) <= pow2(db),
                        pow2(da) > 0,
                ;
            }
        }
    }
}

/// The number 0 is 0 units, and the number 1 is two to the power 149 of
/// them.
pub proof fn lemma_units_of_zero_and_one()
    ensures
        Scalar::zero().units() == 0,
        Scalar::one().units() == pow2(149),
{
    let zero = Scalar::zero();
    let one = Scalar::one();
    lemma_abs_units_order(zero, zero);
    lemma2_to64();
    lemma_pow2_adds(23, 126);
    assert(one.magnitude() == 127 * 0x80_0000);
    assert(one.exponent() == 127 && one.fraction() == 0);
    assert(one.significand() == 0x80_0000 && one.doublings() == 126);
}

} // verus!
