//! Decimal numbers: a signed 96-bit mantissa over a power of ten.
//!
//! A [`Real`] holds the two integers of a `rust_decimal::Decimal` as plain values.
//! Every `Real` is in the range of that type, which the type's invariant states, so
//! a `Real` can always be handed to `rust_decimal` and what comes back is a `Real`.
//!
//! Sums, differences, products and quotients are computed by `rust_decimal`. What it
//! returns is rounded in ways that take pages to state, so it is named here
//! (`dec_add`, `dec_sub`, `dec_mul`, `dec_div`) and not restated; only what it
//! returns for a zero is spelled out. Comparison and `floor` are stated in full.
//! The functions that make those calls are not verified: their contracts are taken
//! on trust. One rule is this module's own: a quotient that overflows is replaced
//! by the bound of its sign, as an overflowing sum, difference or product is by
//! `rust_decimal` itself.

use rust_decimal::Decimal;
use vstd::arithmetic::power::pow;
use vstd::prelude::*;

verus! {

/// Largest magnitude of a mantissa: 2^96 - 1.
pub const MAX_MANTISSA: i128 = 0xFFFF_FFFF_FFFF_FFFF_FFFF_FFFF;

/// Largest scale, the number of decimal places.
pub const MAX_SCALE: u32 = 28;

/// The number `mantissa / 10^scale`, with `|mantissa| <= MAX_MANTISSA` and
/// `scale <= MAX_SCALE`.
#[derive(Clone, Copy, Debug)]
pub struct Real {
    mantissa: i128,
    scale: u32,
}

/// What `Decimal::saturating_add` returns for `a + b`.
pub uninterp spec fn dec_add(a: Real, b: Real) -> Real;

/// What `Decimal::saturating_sub` returns for `a - b`.
pub uninterp spec fn dec_sub(a: Real, b: Real) -> Real;

/// What `Decimal::saturating_mul` returns for `a * b`.
pub uninterp spec fn dec_mul(a: Real, b: Real) -> Real;

/// What `Decimal::checked_div` returns for `a / b`.
pub uninterp spec fn dec_div(a: Real, b: Real) -> Option<Real>;

/// The decimal with the given mantissa and scale.
pub closed spec fn decimal(mantissa: int, scale: nat) -> Real {
    Real { mantissa: mantissa as i128, scale: scale as u32 }
}

/// Whether a mantissa and a scale are those of a decimal.
pub open spec fn representable(mantissa: int, scale: nat) -> bool {
    -MAX_MANTISSA <= mantissa <= MAX_MANTISSA && scale <= MAX_SCALE
}

/// The number one, at scale 0.
pub open spec fn one() -> Real {
    decimal(1, 0)
}

/// One half, at scale 1.
pub open spec fn half() -> Real {
    decimal(5, 1)
}

/// The sum `a + b`. A zero on the left leaves the right operand as it is.
pub open spec fn sum(a: Real, b: Real) -> Real {
    if a.is_zero() {
        b
    } else {
        dec_add(a, b)
    }
}

/// The difference `a - b`. A zero on the left gives the right operand with its sign
/// turned.
pub open spec fn difference(a: Real, b: Real) -> Real {
    if a.is_zero() {
        b.negated()
    } else {
        dec_sub(a, b)
    }
}

/// The product `a * b`. With a zero operand it is the zero of scale 0.
pub open spec fn product(a: Real, b: Real) -> Real {
    if a.is_zero() || b.is_zero() {
        decimal(0, 0)
    } else {
        dec_mul(a, b)
    }
}

/// What a division returns: nothing where the divisor is zero or the quotient
/// overflows, and the zero of scale 0 where the dividend is zero.
pub open spec fn checked_quot(a: Real, b: Real) -> Option<Real> {
    if b.is_zero() {
        None
    } else if a.is_zero() {
        Some(decimal(0, 0))
    } else {
        dec_div(a, b)
    }
}

/// What a division of `a` by `b` comes to, given what it returned: the quotient, or
/// where there is none the bound that has the quotient's sign.
pub open spec fn settled(q: Option<Real>, a: Real, b: Real) -> Real {
    match q {
        Some(v) => v,
        None => if (a.spec_mantissa() < 0) == (b.spec_mantissa() < 0) {
            decimal(MAX_MANTISSA as int, 0)
        } else {
            decimal(-MAX_MANTISSA, 0)
        },
    }
}

/// The quotient `a / b` for a divisor that is not zero. Where the quotient
/// overflows, it is the bound that has the quotient's sign.
pub open spec fn quot(a: Real, b: Real) -> Real {
    settled(checked_quot(a, b), a, b)
}

/// `x` limited to the interval from `lo` to `hi`; the lower bound is tested first.
pub open spec fn clamp_real(x: Real, lo: Real, hi: Real) -> Real {
    if x.spec_lt(lo) {
        lo
    } else if hi.spec_lt(x) {
        hi
    } else {
        x
    }
}

impl Real {
    #[verifier::type_invariant]
    pub closed spec fn in_range(self) -> bool {
        representable(self.mantissa as int, self.scale as nat)
    }

    /// The numerator of the decimal fraction.
    pub closed spec fn spec_mantissa(self) -> int {
        self.mantissa as int
    }

    /// The number of decimal places.
    pub closed spec fn spec_scale(self) -> nat {
        self.scale as nat
    }

    /// Whether the number is zero, at whatever scale.
    pub open spec fn is_zero(self) -> bool {
        self.spec_mantissa() == 0
    }

    /// The number with the opposite sign, at the same scale.
    pub open spec fn negated(self) -> Real {
        decimal(-self.spec_mantissa(), self.spec_scale())
    }

    /// Whether `self` is less than `other` as a number.
    pub open spec fn spec_lt(self, other: Real) -> bool {
        self.spec_mantissa() * pow(10, other.spec_scale()) < other.spec_mantissa() * pow(
            10,
            self.spec_scale(),
        )
    }

    /// The largest integer that is not above the number.
    pub open spec fn spec_floor(self) -> int {
        self.spec_mantissa() / pow(10, self.spec_scale())
    }

    /// The decimal `mantissa / 10^scale`, if it is representable.
    pub fn new(mantissa: i128, scale: u32) -> (r: Option<Real>)
        ensures
            r is Some <==> representable(mantissa as int, scale as nat),
            r matches Some(v) ==> v == decimal(mantissa as int, scale as nat),
    {
        if -MAX_MANTISSA <= mantissa && mantissa <= MAX_MANTISSA && scale <= MAX_SCALE {
            Some(Real { mantissa, scale })
        } else {
            None
        }
    }

    /// The integer `n` as a decimal of scale 0.
    pub fn from_i32(n: i32) -> (r: Real)
        ensures
            r == decimal(n as int, 0),
    {
        Real { mantissa: n as i128, scale: 0 }
    }

    /// The number `tenths / 10`, at scale 1.
    pub fn from_tenths(tenths: i64) -> (r: Real)
        ensures
            r == decimal(tenths as int, 1),
    {
        Real { mantissa: tenths as i128, scale: 1 }
    }

    /// The numerator of the decimal fraction.
    pub fn mantissa(&self) -> (m: i128)
        ensures
            m == self.spec_mantissa(),
            -MAX_MANTISSA <= m <= MAX_MANTISSA,
    {
        proof {
            use_type_invariant(self);
        }
        self.mantissa
    }

    /// The number of decimal places.
    pub fn scale(&self) -> (s: u32)
        ensures
            s == self.spec_scale(),
            s <= MAX_SCALE,
    {
        proof {
            use_type_invariant(self);
        }
        self.scale
    }

    /// The number with the opposite sign, at the same scale.
    pub fn neg(self) -> (r: Real)
        ensures
            r == self.negated(),
    {
        proof {
            use_type_invariant(&self);
        }
        Real { mantissa: -self.mantissa, scale: self.scale }
    }
}

/// A representable pair is read back from the decimal made of it.
pub broadcast proof fn lemma_real_parts(mantissa: int, scale: nat)
    requires
        representable(mantissa, scale),
    ensures
        (#[trigger] decimal(mantissa, scale)).spec_mantissa() == mantissa,
        decimal(mantissa, scale).spec_scale() == scale,
{
}

/// Whether every value of a field is zero.
pub open spec fn all_zero(x: Seq<Real>) -> bool {
    forall|k: int| 0 <= k < x.len() ==> (#[trigger] x[k]).is_zero()
}

/// Arithmetic on zeros gives zero: the negation of a zero, the sum and the
/// difference of two zeros, a product with a zero factor, and a zero divided by a
/// number that is not zero.
pub proof fn lemma_zero_arithmetic(a: Real, b: Real)
    ensures
        a.is_zero() ==> a.negated().is_zero(),
        a.is_zero() && b.is_zero() ==> sum(a, b).is_zero() && difference(a, b).is_zero(),
        a.is_zero() || b.is_zero() ==> product(a, b).is_zero(),
        a.is_zero() && !b.is_zero() ==> quot(a, b).is_zero(),
{
}

/// `Decimal::saturating_add`: the sum, or the nearest bound where it overflows.
/// To a zero on the left the crate adds nothing: it returns the right operand.
#[verifier::external_body]
pub(crate) fn saturating_add(a: Real, b: Real) -> (r: Real)
    ensures
        r == if a.is_zero() {
            b
        } else {
            dec_add(a, b)
        },
{
    let x = Decimal::from_i128_with_scale(a.mantissa, a.scale);
    let y = Decimal::from_i128_with_scale(b.mantissa, b.scale);
    let z = x.saturating_add(y);
    Real { mantissa: z.mantissa(), scale: z.scale() }
}

/// `Decimal::saturating_sub`: the difference, or the nearest bound where it overflows.
/// From a zero on the left the crate returns the right operand with its sign turned.
#[verifier::external_body]
pub(crate) fn saturating_sub(a: Real, b: Real) -> (r: Real)
    ensures
        r == if a.is_zero() {
            b.negated()
        } else {
            dec_sub(a, b)
        },
{
    let x = Decimal::from_i128_with_scale(a.mantissa, a.scale);
    let y = Decimal::from_i128_with_scale(b.mantissa, b.scale);
    let z = x.saturating_sub(y);
    Real { mantissa: z.mantissa(), scale: z.scale() }
}

/// `Decimal::saturating_mul`: the product, or the nearest bound where it overflows.
/// Where either operand is zero the crate returns its constant zero, of scale 0.
#[verifier::external_body]
pub(crate) fn saturating_mul(a: Real, b: Real) -> (r: Real)
    ensures
        r == if a.is_zero() || b.is_zero() {
            decimal(0, 0)
        } else {
            dec_mul(a, b)
        },
{
    let x = Decimal::from_i128_with_scale(a.mantissa, a.scale);
    let y = Decimal::from_i128_with_scale(b.mantissa, b.scale);
    let z = x.saturating_mul(y);
    Real { mantissa: z.mantissa(), scale: z.scale() }
}

/// `Decimal::checked_div`: the quotient, or `None` where the divisor is zero or the
/// quotient overflows. A zero divided by a number that is not zero is the crate's
/// constant zero, of scale 0.
#[verifier::external_body]
pub(crate) fn checked_div(a: Real, b: Real) -> (r: Option<Real>)
    ensures
        r == if b.is_zero() {
            None
        } else if a.is_zero() {
            Some(decimal(0, 0))
        } else {
            dec_div(a, b)
        },
{
    let x = Decimal::from_i128_with_scale(a.mantissa, a.scale);
    let y = Decimal::from_i128_with_scale(b.mantissa, b.scale);
    match x.checked_div(y) {
        Some(z) => Some(Real { mantissa: z.mantissa(), scale: z.scale() }),
        None => None,
    }
}

/// `Decimal`'s `<`, which orders decimals by their value, whatever their scales.
#[verifier::external_body]
pub(crate) fn less_than(a: Real, b: Real) -> (r: bool)
    ensures
        r == a.spec_lt(b),
{
    let x = Decimal::from_i128_with_scale(a.mantissa, a.scale);
    let y = Decimal::from_i128_with_scale(b.mantissa, b.scale);
    x < y
}

/// `Decimal::floor`: the largest integer that is not above the number, at scale 0.
#[verifier::external_body]
pub(crate) fn floor(a: Real) -> (r: Real)
    ensures
        r == decimal(a.spec_floor(), 0),
{
    let z = Decimal::from_i128_with_scale(a.mantissa, a.scale).floor();
    Real { mantissa: z.mantissa(), scale: z.scale() }
}

/// Settles a division of `a` by `b` that returned `q`: the quotient if there is one,
/// else the largest decimal where the operands have the same sign and the
/// smallest where they have not.
pub fn settle(q: Option<Real>, a: Real, b: Real) -> (r: Real)
    ensures
        r == settled(q, a, b),
{
    match q {
        Some(v) => v,
        None => {
            if (a.mantissa() < 0) == (b.mantissa() < 0) {
                Real { mantissa: MAX_MANTISSA, scale: 0 }
            } else {
                Real { mantissa: -MAX_MANTISSA, scale: 0 }
            }
        },
    }
}

/// Divides `a` by `b`. Where the quotient overflows, the result is the bound that
/// has the quotient's sign.
pub fn quotient(a: Real, b: Real) -> (r: Real)
    requires
        !b.is_zero(),
    ensures
        r == quot(a, b),
{
    settle(checked_div(a, b), a, b)
}

/// Limits `x` to the interval from `lo` to `hi`.
pub fn clamp_to(x: Real, lo: Real, hi: Real) -> (r: Real)
    ensures
        r == clamp_real(x, lo, hi),
{
    if less_than(x, lo) {
        lo
    } else if less_than(hi, x) {
        hi
    } else {
        x
    }
}

} // verus!
