//! The saturating fixed-point numbers that the layouts compute with.
use vstd::prelude::*;
use fixed::types::I16F16;

verus! {

/// Number of representable steps per unit in a `Fixed` value (16 fractional bits).
pub const FRAC_ONE: i32 = 65536;

/// Clamps an integer into the range of the 32-bit representation.
pub open spec fn clamp32(x: int) -> int {
    if x > i32::MAX as int {
        i32::MAX as int
    } else if x < i32::MIN as int {
        i32::MIN as int
    } else {
        x
    }
}

/// Integer division rounding toward zero.
pub open spec fn div_toward_zero(a: int, b: int) -> int
    recommends
        b != 0,
{
    let q = if a >= 0 { a } else { -a } / (if b >= 0 { b } else { -b });
    if (a >= 0) == (b > 0) || a == 0 {
        q
    } else {
        -q
    }
}

/// Saturating sum of two representations.
pub open spec fn sat_add(a: int, b: int) -> int {
    clamp32(a + b)
}

/// Saturating difference of two representations.
pub open spec fn sat_sub(a: int, b: int) -> int {
    clamp32(a - b)
}

/// Saturating product: the exact product rounded toward negative infinity.
pub open spec fn sat_mul(a: int, b: int) -> int {
    clamp32((a * b) / (FRAC_ONE as int))
}

/// Saturating quotient: the exact quotient rounded toward zero.
pub open spec fn sat_div(a: int, b: int) -> int
    recommends
        b != 0,
{
    clamp32(div_toward_zero(a * FRAC_ONE as int, b))
}

/// Saturating power by repeated multiplication, starting from one.
pub open spec fn sat_pow(a: int, n: nat) -> int
    decreases n,
{
    if n == 0 {
        FRAC_ONE as int
    } else {
        sat_mul(sat_pow(a, (n - 1) as nat), a)
    }
}

/// A signed fixed-point number with 16 integer and 16 fractional bits.
///
/// All arithmetic saturates, so the extreme representations stand in for
/// infinities: the maximum is +∞ and the minimum is −∞. This is an
/// approximation: comparing against "infinity" is an exact comparison against
/// the extreme value, which ordinary arithmetic can reach.
#[derive(Clone, Copy, Debug, PartialEq, Eq, Structural)]
pub struct Fixed {
    /// The raw representation: the value times 2^16.
    pub bits: i32,
}

/// Relies on `FixedI32::saturating_add`: adds the raw representations, clamping on overflow.
#[verifier::external_body]
fn fixed_saturating_add(a: i32, b: i32) -> (r: i32)
    ensures
        r as int == sat_add(a as int, b as int),
{
    I16F16::from_bits(a).saturating_add(I16F16::from_bits(b)).to_bits()
}

/// Relies on `FixedI32::saturating_sub`: subtracts the raw representations, clamping on overflow.
#[verifier::external_body]
fn fixed_saturating_sub(a: i32, b: i32) -> (r: i32)
    ensures
        r as int == sat_sub(a as int, b as int),
{
    I16F16::from_bits(a).saturating_sub(I16F16::from_bits(b)).to_bits()
}

/// Relies on `FixedI32::saturating_mul`: the widened product shifted right by the
/// fractional bits (rounding down), clamped to the representable range.
#[verifier::external_body]
fn fixed_saturating_mul(a: i32, b: i32) -> (r: i32)
    ensures
        r as int == sat_mul(a as int, b as int),
{
    I16F16::from_bits(a).saturating_mul(I16F16::from_bits(b)).to_bits()
}

/// Relies on `FixedI32::saturating_div`: the widened dividend divided with
/// truncation, clamped to the representable range. It panics on a zero divisor.
#[verifier::external_body]
fn fixed_saturating_div(a: i32, b: i32) -> (r: i32)
    requires
        b != 0,
    ensures
        r as int == sat_div(a as int, b as int),
{
    I16F16::from_bits(a).saturating_div(I16F16::from_bits(b)).to_bits()
}

/// Relies on `FixedI32::abs`: the absolute value of the representation, which
/// cannot be taken of the minimum.
#[verifier::external_body]
fn fixed_abs(a: i32) -> (r: i32)
    requires
        a != i32::MIN,
    ensures
        r as int == (if a < 0 { -(a as int) } else { a as int }),
{
    I16F16::from_bits(a).abs().to_bits()
}

/// Relies on `FixedI32::from_num`: an integer that fits is represented exactly.
#[verifier::external_body]
fn fixed_from_i16(i: i16) -> (r: i32)
    ensures
        r as int == i as int * FRAC_ONE as int,
{
    I16F16::from_num(i).to_bits()
}

impl Fixed {
    /// The value's raw representation as a mathematical integer.
    pub open spec fn val(self) -> int {
        self.bits as int
    }

    /// The largest value, standing in for +∞.
    pub fn max_value() -> (r: Fixed)
        ensures
            r.val() == i32::MAX as int,
    {
        Fixed { bits: i32::MAX }
    }

    /// The smallest value, standing in for −∞.
    pub fn min_value() -> (r: Fixed)
        ensures
            r.val() == i32::MIN as int,
    {
        Fixed { bits: i32::MIN }
    }

    /// Builds a value from an integer.
    pub fn from_num(i: i16) -> (r: Fixed)
        ensures
            r.val() == i as int * FRAC_ONE as int,
    {
        Fixed { bits: fixed_from_i16(i) }
    }

    /// Saturating addition.
    pub fn saturating_add(self, o: Fixed) -> (r: Fixed)
        ensures
            r.val() == sat_add(self.val(), o.val()),
    {
        Fixed { bits: fixed_saturating_add(self.bits, o.bits) }
    }

    /// Saturating subtraction.
    pub fn saturating_sub(self, o: Fixed) -> (r: Fixed)
        ensures
            r.val() == sat_sub(self.val(), o.val()),
    {
        Fixed { bits: fixed_saturating_sub(self.bits, o.bits) }
    }

    /// Saturating multiplication.
    pub fn saturating_mul(self, o: Fixed) -> (r: Fixed)
        ensures
            r.val() == sat_mul(self.val(), o.val()),
    {
        Fixed { bits: fixed_saturating_mul(self.bits, o.bits) }
    }

    /// Saturating division by a non-zero value.
    pub fn saturating_div(self, o: Fixed) -> (r: Fixed)
        requires
            o.val() != 0,
        ensures
            r.val() == sat_div(self.val(), o.val()),
    {
        Fixed { bits: fixed_saturating_div(self.bits, o.bits) }
    }

    /// Absolute value; the minimum (−∞) has none.
    pub fn abs(self) -> (r: Fixed)
        requires
            self.val() != i32::MIN as int,
        ensures
            r.val() == (if self.val() < 0 { -self.val() } else { self.val() }),
    {
        Fixed { bits: fixed_abs(self.bits) }
    }

    /// Raises the value to a power by repeated saturating multiplication.
    pub fn powi(self, y: u32) -> (r: Fixed)
        ensures
            r.val() == sat_pow(self.val(), y as nat),
    {
        let mut result = Fixed::from_num(1);
        let mut i: u32 = 0;
        while i < y
            invariant
                i <= y,
                result.val() == sat_pow(self.val(), i as nat),
            decreases y - i,
        {
            result = result.saturating_mul(self);
            i = i + 1;
        }
        result
    }

    /// The rational `num / denom`.
    pub fn rat(num: i16, denom: i16) -> (r: Fixed)
        requires
            denom != 0,
        ensures
            r.val() == sat_div(num as int * FRAC_ONE as int, denom as int * FRAC_ONE as int),
    {
        Fixed::from_num(num).saturating_div(Fixed::from_num(denom))
    }

    /// Whether this value is strictly less than another.
    pub fn lt(self, o: Fixed) -> (r: bool)
        ensures
            r == (self.val() < o.val()),
    {
        self.bits < o.bits
    }

    /// Whether this value is less than or equal to another.
    pub fn le(self, o: Fixed) -> (r: bool)
        ensures
            r == (self.val() <= o.val()),
    {
        self.bits <= o.bits
    }
}

/// The arithmetic that the layout algorithms need from a number type. Each
/// operation's result is named by a spec function that the implementation
/// defines.
pub trait Num: Sized + Copy {
    /// The stand-in for +∞.
    spec fn infinity_spec() -> Self;

    /// The stand-in for −∞.
    spec fn neg_infinity_spec() -> Self;

    /// The value of a small integer.
    spec fn from_i16_spec(i: i16) -> Self;

    /// The absolute value.
    spec fn abs_spec(self) -> Self;

    /// The `y`-th power.
    spec fn powi_spec(self, y: u32) -> Self;

    /// The rational `num / denom`: the quotient of the two integers' values.
    spec fn rat_spec(num: i16, denom: i16) -> Self;

    /// The stand-in for +∞.
    fn infinity() -> (r: Self)
        ensures
            r == Self::infinity_spec(),
    ;

    /// The stand-in for −∞.
    fn neg_infinity() -> (r: Self)
        ensures
            r == Self::neg_infinity_spec(),
    ;

    /// Converts a small integer.
    fn from(i: i16) -> (r: Self)
        ensures
            r == Self::from_i16_spec(i),
    ;

    /// The absolute value.
    fn abs(self) -> (r: Self)
        ensures
            r == self.abs_spec(),
    ;

    /// Integer power.
    fn powi(self, y: u32) -> (r: Self)
        ensures
            r == self.powi_spec(y),
    ;

    /// The rational `num / denom`.
    fn rat(num: i16, denom: i16) -> (r: Self)
        requires
            denom != 0,
        ensures
            r == Self::rat_spec(num, denom),
    ;
}

impl Num for Fixed {
    open spec fn infinity_spec() -> Fixed {
        Fixed { bits: i32::MAX }
    }

    open spec fn neg_infinity_spec() -> Fixed {
        Fixed { bits: i32::MIN }
    }

    open spec fn from_i16_spec(i: i16) -> Fixed {
        Fixed { bits: (i as int * FRAC_ONE as int) as i32 }
    }

    /// Saturating: the absolute value of −∞ is +∞.
    open spec fn abs_spec(self) -> Fixed {
        Fixed { bits: clamp32(if self.val() < 0 { -self.val() } else { self.val() }) as i32 }
    }

    open spec fn powi_spec(self, y: u32) -> Fixed {
        Fixed { bits: sat_pow(self.val(), y as nat) as i32 }
    }

    /// The saturating quotient of the two integers' fixed-point values.
    open spec fn rat_spec(num: i16, denom: i16) -> Fixed {
        Fixed { bits: sat_div(Self::from_i16_spec(num).val(), Self::from_i16_spec(denom).val()) as i32 }
    }

    fn infinity() -> Fixed {
        Fixed::max_value()
    }

    fn neg_infinity() -> Fixed {
        Fixed::min_value()
    }

    fn from(i: i16) -> Fixed {
        Fixed::from_num(i)
    }

    fn abs(self) -> Fixed {
        if self.bits == i32::MIN {
            Fixed::max_value()
        } else {
            Fixed::abs(self)
        }
    }

    fn powi(self, y: u32) -> Fixed {
        Fixed::powi(self, y)
    }

    fn rat(num: i16, denom: i16) -> Fixed {
        Fixed::rat(num, denom)
    }
}

} // verus!
