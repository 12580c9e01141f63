//! `FixedVec2`: a 2D vector of 32.32 fixed-point components, held as their
//! bits. Rounding, products, quotients and remainders are computed by the
//! `fixed` crate's `I32F32`.

use vstd::prelude::*;

use crate::math::i32f32::{
    I32F32, ceil_raw, floor_raw, half_raw, one_raw, round_raw, trunc_div, trunc_rem,
};
use crate::math::vec::{I64Vec2, IVec2};

verus! {

/// Raw value of the whole-number Euclidean quotient `x div y`.
pub open spec fn whole_div_euclid_raw(x: int, y: int) -> int {
    (x / y) * one_raw()
}

/// Raw value of the whole-number Euclidean quotient of `x` by the whole number `n`.
pub open spec fn whole_div_euclid_int_raw(x: int, n: int) -> int {
    (x / (n * one_raw())) * one_raw()
}

/// Raw value of the product of two fixed-point numbers as the `fixed` crate
/// computes it: `floor(a * b / 2^32)`.
pub open spec fn fixed_mul_raw(a: int, b: int) -> int {
    (a * b) / one_raw()
}

pub open spec fn in_i64(x: int) -> bool {
    i64::MIN <= x <= i64::MAX
}

pub open spec fn in_i128(x: int) -> bool {
    -0x8000_0000_0000_0000_0000_0000_0000_0000 <= x <= 0x7FFF_FFFF_FFFF_FFFF_FFFF_FFFF_FFFF_FFFF
}

/// A 2D vector with fixed-point components.
#[derive(Debug, Default, Clone, Copy, PartialEq, Eq, Structural, PartialOrd, Ord, Hash)]
pub struct FixedVec2 {
    pub x: I32F32,
    pub y: I32F32,
}




/// `I32F32::floor` of the `fixed` crate, on the bits of a 32.32 number:
/// rounds toward negative infinity (it cannot overflow with 32 integer bits).
#[verifier::external_body]
fn fixed_floor(a: i64) -> (r: i64)
    ensures
        r == floor_raw(a as int),
{
    fixed::types::I32F32::from_bits(a).floor().to_bits()
}

/// `I32F32::ceil` of the `fixed` crate: rounds toward positive infinity;
/// it panics (with debug assertions) when the result does not fit.
#[verifier::external_body]
fn fixed_ceil(a: i64) -> (r: i64)
    requires
        ceil_raw(a as int) <= i64::MAX,
    ensures
        r == ceil_raw(a as int),
{
    fixed::types::I32F32::from_bits(a).ceil().to_bits()
}

/// `I32F32::round` of the `fixed` crate: the nearest whole number, ties
/// away from zero; it panics (with debug assertions) when that does not fit.
#[verifier::external_body]
fn fixed_round(a: i64) -> (r: i64)
    requires
        in_i64(round_raw(a as int)),
    ensures
        r == round_raw(a as int),
{
    fixed::types::I32F32::from_bits(a).round().to_bits()
}

/// `I32F32::div_euclid` of the `fixed` crate: the Euclidean quotient as a
/// whole number. It panics on a zero divisor and (with debug assertions)
/// when the quotient rounded toward zero or the whole quotient does not fit.
#[verifier::external_body]
fn fixed_div_euclid(a: i64, b: i64) -> (r: i64)
    requires
        b != 0,
        in_i64(trunc_div(a * one_raw(), b as int)),
        in_i64(whole_div_euclid_raw(a as int, b as int)),
    ensures
        r == whole_div_euclid_raw(a as int, b as int),
{
    fixed::types::I32F32::from_bits(a).div_euclid(fixed::types::I32F32::from_bits(b)).to_bits()
}

/// `I32F32::rem_euclid` of the `fixed` crate: the remainder of Euclidean
/// division, never negative; it panics on a zero divisor.
#[verifier::external_body]
fn fixed_rem_euclid(a: i64, b: i64) -> (r: i64)
    requires
        b != 0,
    ensures
        r == (a as int) % (b as int),
{
    fixed::types::I32F32::from_bits(a).rem_euclid(fixed::types::I32F32::from_bits(b)).to_bits()
}

/// `I32F32::div_euclid_int` of the `fixed` crate: the Euclidean quotient by
/// a whole number, as a whole number. It panics on a zero divisor and (with
/// debug assertions) when the quotient does not fit.
#[verifier::external_body]
fn fixed_div_euclid_int(a: i64, n: i64) -> (r: i64)
    requires
        n != 0,
        in_i64(whole_div_euclid_int_raw(a as int, n as int)),
    ensures
        r == whole_div_euclid_int_raw(a as int, n as int),
{
    fixed::types::I32F32::from_bits(a).div_euclid_int(n).to_bits()
}

/// `I32F32::rem_euclid_int` of the `fixed` crate: the remainder of Euclidean
/// division by a whole number. It panics on a zero divisor and (with debug
/// assertions) when the remainder does not fit.
#[verifier::external_body]
fn fixed_rem_euclid_int(a: i64, n: i64) -> (r: i64)
    requires
        n != 0,
        (a as int) % (n * one_raw()) <= i64::MAX,
    ensures
        r == (a as int) % (n * one_raw()),
{
    fixed::types::I32F32::from_bits(a).rem_euclid_int(n).to_bits()
}

/// `I32F32 * I32F32` of the `fixed` crate: the product rounded toward
/// negative infinity. It forms the product shifted left by 32 bits in 128
/// bits and panics (with debug assertions) when that overflows.
#[verifier::external_body]
fn fixed_mul(a: i64, b: i64) -> (r: i64)
    requires
        in_i128(a * b * one_raw()),
    ensures
        r == fixed_mul_raw(a as int, b as int),
{
    (fixed::types::I32F32::from_bits(a) * fixed::types::I32F32::from_bits(b)).to_bits()
}

/// `I32F32 * i64` of the `fixed` crate: the bits times the whole number; it
/// panics (with debug assertions) on overflow.
#[verifier::external_body]
fn fixed_mul_int(a: i64, n: i64) -> (r: i64)
    requires
        in_i64(a * n),
    ensures
        r == a * n,
{
    (fixed::types::I32F32::from_bits(a) * n).to_bits()
}

/// `I32F32 / I32F32` of the `fixed` crate: the quotient rounded toward zero.
/// It panics on a zero divisor and (with debug assertions) when the
/// quotient does not fit.
#[verifier::external_body]
fn fixed_div(a: i64, b: i64) -> (r: i64)
    requires
        b != 0,
        in_i64(trunc_div(a * one_raw(), b as int)),
    ensures
        r == trunc_div(a * one_raw(), b as int),
{
    (fixed::types::I32F32::from_bits(a) / fixed::types::I32F32::from_bits(b)).to_bits()
}

/// `I32F32 / i64` of the `fixed` crate: the bits divided by the whole number,
/// rounded toward zero. It panics on zero and on overflow.
#[verifier::external_body]
fn fixed_div_int(a: i64, n: i64) -> (r: i64)
    requires
        n != 0,
        in_i64(trunc_div(a as int, n as int)),
    ensures
        r == trunc_div(a as int, n as int),
{
    (fixed::types::I32F32::from_bits(a) / n).to_bits()
}

/// `I32F32 % i64` of the `fixed` crate: the remainder by the whole number,
/// with the sign of the dividend; it panics on zero.
#[verifier::external_body]
fn fixed_rem_int(a: i64, n: i64) -> (r: i64)
    requires
        n != 0,
    ensures
        r == trunc_rem(a as int, n * one_raw()),
{
    (fixed::types::I32F32::from_bits(a) % n).to_bits()
}

impl FixedVec2 {
    pub fn new(x: I32F32, y: I32F32) -> (r: FixedVec2)
        ensures
            r.x == x,
            r.y == y,
    {
        FixedVec2 { x, y }
    }

    pub fn floor(self) -> (r: FixedVec2)
        ensures
            r.x.0 == floor_raw(self.x.0 as int),
            r.y.0 == floor_raw(self.y.0 as int),
    {
        FixedVec2::new(I32F32(fixed_floor(self.x.0)), I32F32(fixed_floor(self.y.0)))
    }

    /// Componentwise ceiling; each component must fit.
    pub fn ceil(self) -> (r: FixedVec2)
        requires
            ceil_raw(self.x.0 as int) <= i64::MAX,
            ceil_raw(self.y.0 as int) <= i64::MAX,
        ensures
            r.x.0 == ceil_raw(self.x.0 as int),
            r.y.0 == ceil_raw(self.y.0 as int),
    {
        FixedVec2::new(I32F32(fixed_ceil(self.x.0)), I32F32(fixed_ceil(self.y.0)))
    }

    /// Componentwise rounding, ties away from zero; each component must fit.
    pub fn round(self) -> (r: FixedVec2)
        requires
            in_i64(round_raw(self.x.0 as int)),
            in_i64(round_raw(self.y.0 as int)),
        ensures
            r.x.0 == round_raw(self.x.0 as int),
            r.y.0 == round_raw(self.y.0 as int),
    {
        FixedVec2::new(I32F32(fixed_round(self.x.0)), I32F32(fixed_round(self.y.0)))
    }

    /// Componentwise Euclidean division with a whole-number quotient; the
    /// divisors must not be zero, and both the exact quotients (rounded
    /// toward zero) and the whole quotients must fit.
    pub fn div_euclid(self, rhs: FixedVec2) -> (r: FixedVec2)
        requires
            rhs.x.0 != 0,
            rhs.y.0 != 0,
            in_i64(trunc_div(self.x.0 * one_raw(), rhs.x.0 as int)),
            in_i64(trunc_div(self.y.0 * one_raw(), rhs.y.0 as int)),
            in_i64(whole_div_euclid_raw(self.x.0 as int, rhs.x.0 as int)),
            in_i64(whole_div_euclid_raw(self.y.0 as int, rhs.y.0 as int)),
        ensures
            r.x.0 == whole_div_euclid_raw(self.x.0 as int, rhs.x.0 as int),
            r.y.0 == whole_div_euclid_raw(self.y.0 as int, rhs.y.0 as int),
    {
        FixedVec2::new(
            I32F32(fixed_div_euclid(self.x.0, rhs.x.0)),
            I32F32(fixed_div_euclid(self.y.0, rhs.y.0)),
        )
    }

    /// Componentwise remainder of Euclidean division; the divisors must not
    /// be zero.
    pub fn rem_euclid(self, rhs: FixedVec2) -> (r: FixedVec2)
        requires
            rhs.x.0 != 0,
            rhs.y.0 != 0,
        ensures
            r.x.0 == (self.x.0 as int) % (rhs.x.0 as int),
            r.y.0 == (self.y.0 as int) % (rhs.y.0 as int),
    {
        FixedVec2::new(
            I32F32(fixed_rem_euclid(self.x.0, rhs.x.0)),
            I32F32(fixed_rem_euclid(self.y.0, rhs.y.0)),
        )
    }

    /// Componentwise Euclidean division by a whole number, with a whole-number
    /// quotient; the divisor must not be zero and the quotients must fit.
    pub fn div_euclid_int(self, rhs: i64) -> (r: FixedVec2)
        requires
            rhs != 0,
            in_i64(whole_div_euclid_int_raw(self.x.0 as int, rhs as int)),
            in_i64(whole_div_euclid_int_raw(self.y.0 as int, rhs as int)),
        ensures
            r.x.0 == whole_div_euclid_int_raw(self.x.0 as int, rhs as int),
            r.y.0 == whole_div_euclid_int_raw(self.y.0 as int, rhs as int),
    {
        FixedVec2::new(
            I32F32(fixed_div_euclid_int(self.x.0, rhs)),
            I32F32(fixed_div_euclid_int(self.y.0, rhs)),
        )
    }

    /// Componentwise remainder of Euclidean division by a whole number; the
    /// divisor must not be zero and the remainders must fit.
    pub fn rem_euclid_int(self, rhs: i64) -> (r: FixedVec2)
        requires
            rhs != 0,
            (self.x.0 as int) % (rhs * one_raw()) <= i64::MAX,
            (self.y.0 as int) % (rhs * one_raw()) <= i64::MAX,
        ensures
            r.x.0 == (self.x.0 as int) % (rhs * one_raw()),
            r.y.0 == (self.y.0 as int) % (rhs * one_raw()),
    {
        FixedVec2::new(
            I32F32(fixed_rem_euclid_int(self.x.0, rhs)),
            I32F32(fixed_rem_euclid_int(self.y.0, rhs)),
        )
    }

    /// Componentwise sum; it must not overflow.
    pub fn add(self, rhs: FixedVec2) -> (r: FixedVec2)
        requires
            in_i64(self.x.0 + rhs.x.0),
            in_i64(self.y.0 + rhs.y.0),
        ensures
            r.x.0 == self.x.0 + rhs.x.0,
            r.y.0 == self.y.0 + rhs.y.0,
    {
        FixedVec2::new(self.x.add(rhs.x), self.y.add(rhs.y))
    }

    /// Adds a whole-number vector; it must not overflow.
    pub fn add_ivec2(self, rhs: IVec2) -> (r: FixedVec2)
        requires
            in_i64(self.x.0 + rhs.x * one_raw()),
            in_i64(self.y.0 + rhs.y * one_raw()),
        ensures
            r.x.0 == self.x.0 + rhs.x * one_raw(),
            r.y.0 == self.y.0 + rhs.y * one_raw(),
    {
        FixedVec2::new(self.x.add_int(rhs.x), self.y.add_int(rhs.y))
    }

    /// Componentwise difference; it must not overflow.
    pub fn sub(self, rhs: FixedVec2) -> (r: FixedVec2)
        requires
            in_i64(self.x.0 - rhs.x.0),
            in_i64(self.y.0 - rhs.y.0),
        ensures
            r.x.0 == self.x.0 - rhs.x.0,
            r.y.0 == self.y.0 - rhs.y.0,
    {
        FixedVec2::new(self.x.sub(rhs.x), self.y.sub(rhs.y))
    }

    /// Subtracts a whole-number vector; it must not overflow.
    pub fn sub_ivec2(self, rhs: IVec2) -> (r: FixedVec2)
        requires
            in_i64(self.x.0 - rhs.x * one_raw()),
            in_i64(self.y.0 - rhs.y * one_raw()),
        ensures
            r.x.0 == self.x.0 - rhs.x * one_raw(),
            r.y.0 == self.y.0 - rhs.y * one_raw(),
    {
        FixedVec2::new(self.x.sub_int(rhs.x), self.y.sub_int(rhs.y))
    }

    /// Scales both components; the intermediate products must not overflow.
    pub fn mul_fixed(self, rhs: I32F32) -> (r: FixedVec2)
        requires
            in_i128(self.x.0 * rhs.0 * one_raw()),
            in_i128(self.y.0 * rhs.0 * one_raw()),
        ensures
            r.x.0 == fixed_mul_raw(self.x.0 as int, rhs.0 as int),
            r.y.0 == fixed_mul_raw(self.y.0 as int, rhs.0 as int),
    {
        FixedVec2::new(I32F32(fixed_mul(self.x.0, rhs.0)), I32F32(fixed_mul(self.y.0, rhs.0)))
    }

    /// Multiplies both components by a whole number; it must not overflow.
    pub fn mul_int(self, rhs: i64) -> (r: FixedVec2)
        requires
            in_i64(self.x.0 * rhs),
            in_i64(self.y.0 * rhs),
        ensures
            r.x.0 == self.x.0 * rhs,
            r.y.0 == self.y.0 * rhs,
    {
        FixedVec2::new(I32F32(fixed_mul_int(self.x.0, rhs)), I32F32(fixed_mul_int(self.y.0, rhs)))
    }

    /// Divides both components, rounding toward zero; the divisor must not be
    /// zero and the quotients must fit.
    pub fn div_fixed(self, rhs: I32F32) -> (r: FixedVec2)
        requires
            rhs.0 != 0,
            in_i64(trunc_div(self.x.0 * one_raw(), rhs.0 as int)),
            in_i64(trunc_div(self.y.0 * one_raw(), rhs.0 as int)),
        ensures
            r.x.0 == trunc_div(self.x.0 * one_raw(), rhs.0 as int),
            r.y.0 == trunc_div(self.y.0 * one_raw(), rhs.0 as int),
    {
        FixedVec2::new(I32F32(fixed_div(self.x.0, rhs.0)), I32F32(fixed_div(self.y.0, rhs.0)))
    }

    /// Divides both components by a whole number, rounding toward zero; the
    /// divisor must not be zero and the result must not overflow.
    pub fn div_int(self, rhs: i64) -> (r: FixedVec2)
        requires
            rhs != 0,
            in_i64(trunc_div(self.x.0 as int, rhs as int)),
            in_i64(trunc_div(self.y.0 as int, rhs as int)),
        ensures
            r.x.0 == trunc_div(self.x.0 as int, rhs as int),
            r.y.0 == trunc_div(self.y.0 as int, rhs as int),
    {
        FixedVec2::new(I32F32(fixed_div_int(self.x.0, rhs)), I32F32(fixed_div_int(self.y.0, rhs)))
    }

    /// Remainder of both components by a whole number, with the sign of the
    /// component; the divisor must not be zero.
    pub fn rem_int(self, rhs: i64) -> (r: FixedVec2)
        requires
            rhs != 0,
        ensures
            r.x.0 == trunc_rem(self.x.0 as int, rhs * one_raw()),
            r.y.0 == trunc_rem(self.y.0 as int, rhs * one_raw()),
    {
        FixedVec2::new(I32F32(fixed_rem_int(self.x.0, rhs)), I32F32(fixed_rem_int(self.y.0, rhs)))
    }
}





/// The whole part of a raw value, rounded toward negative infinity.
fn whole_part(a: i64) -> (r: i64)
    ensures
        r == (a as int) / one_raw(),
        i32::MIN <= r <= i32::MAX,
{
    let q = a.checked_div_euclid(4294967296i64);
    match q {
        Some(v) => v,
        None => 0,
    }
}

impl From<IVec2> for FixedVec2 {
    fn from(value: IVec2) -> (r: FixedVec2) {
        FixedVec2::new(
            I32F32((value.x as i64) * 4294967296i64),
            I32F32((value.y as i64) * 4294967296i64),
        )
    }
}

impl vstd::std_specs::convert::FromSpecImpl<IVec2> for FixedVec2 {
    open spec fn obeys_from_spec() -> bool {
        true
    }

    open spec fn from_spec(value: IVec2) -> FixedVec2 {
        FixedVec2 {
            x: I32F32((value.x * one_raw()) as i64),
            y: I32F32((value.y * one_raw()) as i64),
        }
    }
}

impl From<FixedVec2> for IVec2 {
    fn from(value: FixedVec2) -> (r: IVec2) {
        IVec2::new(whole_part(value.x.0) as i32, whole_part(value.y.0) as i32)
    }
}

impl vstd::std_specs::convert::FromSpecImpl<FixedVec2> for IVec2 {
    open spec fn obeys_from_spec() -> bool {
        true
    }

    open spec fn from_spec(value: FixedVec2) -> IVec2 {
        IVec2 {
            x: ((value.x.0 as int) / one_raw()) as i32,
            y: ((value.y.0 as int) / one_raw()) as i32,
        }
    }
}

impl From<FixedVec2> for I64Vec2 {
    fn from(value: FixedVec2) -> (r: I64Vec2) {
        I64Vec2::new(whole_part(value.x.0), whole_part(value.y.0))
    }
}

impl vstd::std_specs::convert::FromSpecImpl<FixedVec2> for I64Vec2 {
    open spec fn obeys_from_spec() -> bool {
        true
    }

    open spec fn from_spec(value: FixedVec2) -> I64Vec2 {
        I64Vec2 {
            x: ((value.x.0 as int) / one_raw()) as i64,
            y: ((value.y.0 as int) / one_raw()) as i64,
        }
    }
}

impl FixedVec2 {
    /// The vector of the whole numbers `value`; each component must fit in 32
    /// integer bits.
    pub fn from_i64vec2(value: I64Vec2) -> (r: FixedVec2)
        requires
            i32::MIN <= value.x <= i32::MAX,
            i32::MIN <= value.y <= i32::MAX,
        ensures
            r.x.0 == value.x * one_raw(),
            r.y.0 == value.y * one_raw(),
    {
        FixedVec2::new(I32F32(value.x * 4294967296i64), I32F32(value.y * 4294967296i64))
    }
}

proof fn lemma_div_rem_component(x: int, d: int)
    requires
        d != 0,
    ensures
        whole_div_euclid_raw(x, d) % one_raw() == 0,
        0 <= x % d < (if d < 0 {
            -d
        } else {
            d
        }),
        fixed_mul_raw(whole_div_euclid_raw(x, d), d) + x % d == x,
{
    let q = x / d;
    vstd::arithmetic::div_mod::lemma_mod_multiples_basic(q, one_raw());
    vstd::arithmetic::div_mod::lemma_fundamental_div_mod(x, d);
    assert((q * one_raw()) * d == one_raw() * (q * d)) by (nonlinear_arith);
    vstd::arithmetic::div_mod::lemma_div_multiples_vanish(q * d, one_raw());
    assert(d * q == q * d) by (nonlinear_arith);
    assert(0 <= x % d < (if d < 0 {
        -d
    } else {
        d
    })) by (nonlinear_arith)
        requires
            d != 0,
    ;
}

/// Euclidean division of vectors, componentwise: each quotient that
/// `div_euclid` gives is a whole number, each remainder that `rem_euclid`
/// gives is not negative and below the divisor in size, and quotient times
/// divisor (as `mul` rounds it) plus remainder gives the value back.
pub proof fn law_div_rem_euclid(a: FixedVec2, b: FixedVec2)
    requires
        b.x.0 != 0,
        b.y.0 != 0,
    ensures
        whole_div_euclid_raw(a.x.0 as int, b.x.0 as int) % one_raw() == 0,
        whole_div_euclid_raw(a.y.0 as int, b.y.0 as int) % one_raw() == 0,
        0 <= (a.x.0 as int) % (b.x.0 as int) < (if b.x.0 < 0 {
            -b.x.0
        } else {
            b.x.0 as int
        }),
        0 <= (a.y.0 as int) % (b.y.0 as int) < (if b.y.0 < 0 {
            -b.y.0
        } else {
            b.y.0 as int
        }),
        fixed_mul_raw(whole_div_euclid_raw(a.x.0 as int, b.x.0 as int), b.x.0 as int) + (
        a.x.0 as int) % (b.x.0 as int) == a.x.0,
        fixed_mul_raw(whole_div_euclid_raw(a.y.0 as int, b.y.0 as int), b.y.0 as int) + (
        a.y.0 as int) % (b.y.0 as int) == a.y.0,
{
    lemma_div_rem_component(a.x.0 as int, b.x.0 as int);
    lemma_div_rem_component(a.y.0 as int, b.y.0 as int);
}

} // verus!

