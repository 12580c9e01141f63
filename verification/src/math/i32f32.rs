//! `I32F32`: a signed fixed-point number with 32 integer and 32 fractional
//! bits. The raw value `r` stands for `r / 2^32`.

use vstd::prelude::*;

verus! {

/// One whole, in raw units: `2^32`.
pub open spec fn one_raw() -> int {
    0x1_0000_0000
}

/// One half, in raw units: `2^31`.
pub open spec fn half_raw() -> int {
    0x8000_0000
}

/// The largest whole number not above `x`, in raw units.
pub open spec fn floor_raw(x: int) -> int {
    (x / one_raw()) * one_raw()
}

/// The smallest whole number not below `x`, in raw units.
pub open spec fn ceil_raw(x: int) -> int {
    if x % one_raw() == 0 {
        x
    } else {
        floor_raw(x) + one_raw()
    }
}

/// `x` rounded toward zero, in raw units.
pub open spec fn trunc_raw(x: int) -> int {
    if x >= 0 {
        floor_raw(x)
    } else {
        ceil_raw(x)
    }
}

/// `x` rounded to the nearest whole number, ties away from zero, in raw units.
pub open spec fn round_raw(x: int) -> int {
    if x >= 0 {
        floor_raw(x + half_raw())
    } else {
        ceil_raw(x - half_raw())
    }
}

/// Division rounded toward zero, as Rust's `/` on integers.
pub open spec fn trunc_div(x: int, d: int) -> int {
    if x >= 0 && d > 0 {
        x / d
    } else if x < 0 && d < 0 {
        (-x) / (-d)
    } else if x < 0 {
        -((-x) / d)
    } else {
        -(x / (-d))
    }
}

/// Remainder of division rounded toward zero, as Rust's `%` on integers:
/// it has the sign of `x` and the magnitude of `|x| mod |d|`.
pub open spec fn trunc_rem(x: int, d: int) -> int {
    let m = if d < 0 { -d } else { d };
    if x >= 0 {
        x % m
    } else {
        -((-x) % m)
    }
}

/// The raw value of the product of two numbers: `floor(a * b / 2^32)`.
pub open spec fn mul_raw(a: int, b: int) -> int {
    (a * b) / one_raw()
}

proof fn lemma_euclid_div_bound(x: int, d: int)
    requires
        d != 0,
    ensures
        -(if x < 0 { -x } else { x }) <= x / d <= (if x < 0 { -x } else { x }),
{
    vstd::arithmetic::div_mod::lemma_fundamental_div_mod(x, d);
    let q = x / d;
    let r = x % d;
    assert(0 <= r < (if d < 0 { -d } else { d }));
    assert(-(if x < 0 { -x } else { x }) <= q <= (if x < 0 { -x } else { x })) by (nonlinear_arith)
        requires
            x == d * q + r,
            0 <= r < (if d < 0 { -d } else { d }),
            d != 0,
    ;
}

proof fn lemma_trunc_div_bound(x: int, d: int)
    requires
        d != 0,
    ensures
        -(if x < 0 { -x } else { x }) <= trunc_div(x, d) <= (if x < 0 { -x } else { x }),
{
    let ax = if x < 0 { -x } else { x };
    let ad = if d < 0 { -d } else { d };
    lemma_euclid_div_bound(ax, ad);
    assert(ax / ad >= 0) by (nonlinear_arith)
        requires
            ax >= 0,
            ad > 0,
    ;
}

pub proof fn lemma_trunc_rem_bound(x: int, d: int)
    requires
        d != 0,
    ensures
        -(if d < 0 { -d } else { d }) < trunc_rem(x, d) < (if d < 0 { -d } else { d }),
        -(if x < 0 { -x } else { x }) <= trunc_rem(x, d) <= (if x < 0 { -x } else { x }),
{
    let m = if d < 0 { -d } else { d };
    let ax = if x < 0 { -x } else { x };
    vstd::arithmetic::div_mod::lemma_mod_bound(ax, m);
    vstd::arithmetic::div_mod::lemma_fundamental_div_mod(ax, m);
    assert(ax / m >= 0) by (nonlinear_arith)
        requires
            ax >= 0,
            m > 0,
    ;
    assert(ax % m <= ax) by (nonlinear_arith)
        requires
            ax == m * (ax / m) + ax % m,
            ax / m >= 0,
            m > 0,
            ax % m >= 0,
    ;
}

proof fn lemma_mul_fits(a: i64, b: i64)
    ensures
        -0x4000_0000_0000_0000_0000_0000_0000_0000 <= a * b <= 0x4000_0000_0000_0000_0000_0000_0000_0000,
        -0x4000_0000_0000_0000_0000_0000 <= (a * b) / one_raw() <= 0x4000_0000_0000_0000_0000_0000,
{
    assert(-0x4000_0000_0000_0000_0000_0000_0000_0000 <= a * b <= 0x4000_0000_0000_0000_0000_0000_0000_0000) by (nonlinear_arith)
        requires
            -0x8000_0000_0000_0000 <= a <= 0x7FFF_FFFF_FFFF_FFFF,
            -0x8000_0000_0000_0000 <= b <= 0x7FFF_FFFF_FFFF_FFFF,
    ;
    let p = a * b;
    assert(-0x4000_0000_0000_0000_0000_0000 <= p / 0x1_0000_0000 <= 0x4000_0000_0000_0000_0000_0000);
}

/// A signed fixed-point number with 32 integer and 32 fractional bits.
#[derive(Debug, Default, Clone, Copy, PartialEq, Eq, Structural, PartialOrd, Ord, Hash)]
pub struct I32F32(pub i64);

impl I32F32 {
    /// The raw bits of the integer part.
    pub const INT_MASK: i64 = -4294967296;

    /// The raw bits of the fractional part.
    pub const FRAC_MASK: i64 = 0xFFFF_FFFF;

    pub fn zero() -> (r: I32F32)
        ensures
            r.0 == 0,
    {
        I32F32(0)
    }

    pub fn one() -> (r: I32F32)
        ensures
            r.0 == one_raw(),
    {
        I32F32(4294967296)
    }

    pub fn half() -> (r: I32F32)
        ensures
            r.0 == half_raw(),
    {
        I32F32(2147483648)
    }

    pub fn max_value() -> (r: I32F32)
        ensures
            r.0 == i64::MAX,
    {
        I32F32(i64::MAX)
    }

    pub fn min_value() -> (r: I32F32)
        ensures
            r.0 == i64::MIN,
    {
        I32F32(i64::MIN)
    }

    pub fn min_positive() -> (r: I32F32)
        ensures
            r.0 == 1,
    {
        I32F32(1)
    }

    /// The integer part, rounded toward negative infinity.
    pub fn int_part(&self) -> (r: i32)
        ensures
            r == (self.0 as int) / one_raw(),
    {
        let q = self.0.checked_div_euclid(4294967296i64);
        match q {
            Some(v) => v as i32,
            None => 0,
        }
    }

    /// The fractional bits.
    pub fn frac(&self) -> (r: u32)
        ensures
            r == (self.0 as int) % one_raw(),
    {
        let m = self.0.checked_rem_euclid(4294967296i64);
        match m {
            Some(v) => v as u32,
            None => 0,
        }
    }

    /// Rounds toward zero.
    pub fn trunc(self) -> (r: I32F32)
        ensures
            r.0 == trunc_raw(self.0 as int),
    {
        if self.frac() == 0 {
            return self;
        }
        let truncated = self.floor();
        if self.0 < 0 {
            I32F32(truncated.0 + 4294967296i64)
        } else {
            truncated
        }
    }

    /// Rounds toward negative infinity.
    pub fn floor(self) -> (r: I32F32)
        ensures
            r.0 == floor_raw(self.0 as int),
    {
        I32F32(self.0 - self.frac() as i64)
    }

    /// Rounds toward positive infinity; the result must fit.
    pub fn ceil(self) -> (r: I32F32)
        requires
            ceil_raw(self.0 as int) <= i64::MAX,
        ensures
            r.0 == ceil_raw(self.0 as int),
    {
        if self.frac() == 0 {
            return self;
        }
        let truncated = self.trunc();
        if self.0 > 0 {
            I32F32(truncated.0 + 4294967296i64)
        } else {
            truncated
        }
    }

    /// Rounds to the nearest whole number, ties away from zero; adding or
    /// subtracting one half must not overflow.
    pub fn round(self) -> (r: I32F32)
        requires
            self.0 >= 0 ==> self.0 + half_raw() <= i64::MAX,
            self.0 < 0 ==> self.0 - half_raw() >= i64::MIN,
        ensures
            r.0 == round_raw(self.0 as int),
    {
        if self.0 >= 0 {
            I32F32(self.0 + 2147483648i64).trunc()
        } else {
            I32F32(self.0 - 2147483648i64).trunc()
        }
    }

    /// Euclidean division at full precision, truncated to 64 bits.
    pub fn div_euclid(self, rhs: I32F32) -> (r: I32F32)
        requires
            rhs.0 != 0,
        ensures
            r.0 == (((self.0 * one_raw()) / (rhs.0 as int)) as i64),
    {
        let num: i128 = (self.0 as i128) * 4294967296i128;
        proof {
            lemma_euclid_div_bound(num as int, rhs.0 as int);
        }
        let q = num.checked_div_euclid(rhs.0 as i128);
        match q {
            Some(v) => I32F32(v as i64),
            None => I32F32(0),
        }
    }

    /// Euclidean division by a whole number at full precision, truncated to 64 bits.
    pub fn div_euclid_int(self, rhs: i32) -> (r: I32F32)
        requires
            rhs != 0,
        ensures
            r.0 == (((self.0 * one_raw()) / (rhs * one_raw())) as i64),
    {
        self.div_euclid(I32F32::from(rhs))
    }

    /// The remainder of Euclidean division.
    pub fn rem_euclid(self, rhs: I32F32) -> (r: I32F32)
        requires
            rhs.0 != 0,
        ensures
            r.0 == (self.0 as int) % (rhs.0 as int),
    {
        let m = (self.0 as i128).checked_rem_euclid(rhs.0 as i128);
        match m {
            Some(v) => I32F32(v as i64),
            None => I32F32(0),
        }
    }

    /// The remainder of Euclidean division by a whole number.
    pub fn rem_euclid_int(self, rhs: i32) -> (r: I32F32)
        requires
            rhs != 0,
        ensures
            r.0 == (self.0 as int) % (rhs * one_raw()),
    {
        self.rem_euclid(I32F32::from(rhs))
    }
}

impl I32F32 {
    /// Sum; it must fit.
    pub fn add(self, rhs: I32F32) -> (r: I32F32)
        requires
            i64::MIN <= self.0 + rhs.0 <= i64::MAX,
        ensures
            r.0 == self.0 + rhs.0,
    {
        I32F32(self.0 + rhs.0)
    }

    /// Sum with a whole number; it must fit.
    pub fn add_int(self, rhs: i32) -> (r: I32F32)
        requires
            i64::MIN <= self.0 + rhs * one_raw() <= i64::MAX,
        ensures
            r.0 == self.0 + rhs * one_raw(),
    {
        I32F32(self.0 + I32F32::from(rhs).0)
    }

    /// Difference; it must fit.
    pub fn sub(self, rhs: I32F32) -> (r: I32F32)
        requires
            i64::MIN <= self.0 - rhs.0 <= i64::MAX,
        ensures
            r.0 == self.0 - rhs.0,
    {
        I32F32(self.0 - rhs.0)
    }

    /// Difference with a whole number; it must fit.
    pub fn sub_int(self, rhs: i32) -> (r: I32F32)
        requires
            i64::MIN <= self.0 - rhs * one_raw() <= i64::MAX,
        ensures
            r.0 == self.0 - rhs * one_raw(),
    {
        I32F32(self.0 - I32F32::from(rhs).0)
    }

    /// Product rounded toward negative infinity, truncated to 64 bits.
    pub fn mul(self, rhs: I32F32) -> (r: I32F32)
        ensures
            r.0 == (mul_raw(self.0 as int, rhs.0 as int) as i64),
    {
        proof {
            lemma_mul_fits(self.0, rhs.0);
        }
        let p: i128 = (self.0 as i128) * (rhs.0 as i128);
        let q = p.checked_div_euclid(4294967296i128);
        match q {
            Some(v) => I32F32(v as i64),
            None => I32F32(0),
        }
    }

    /// Product with a whole number, truncated to 64 bits.
    pub fn mul_int(self, rhs: i32) -> (r: I32F32)
        ensures
            r.0 == (mul_raw(self.0 as int, rhs * one_raw()) as i64),
    {
        self.mul(I32F32::from(rhs))
    }

    /// Quotient rounded toward zero, truncated to 64 bits; the divisor must
    /// not be zero.
    pub fn div(self, rhs: I32F32) -> (r: I32F32)
        requires
            rhs.0 != 0,
        ensures
            r.0 == (trunc_div(self.0 * one_raw(), rhs.0 as int) as i64),
    {
        let num: i128 = (self.0 as i128) * 4294967296i128;
        proof {
            lemma_trunc_div_bound(num as int, rhs.0 as int);
        }
        let q = num.checked_div(rhs.0 as i128);
        match q {
            Some(v) => I32F32(v as i64),
            None => I32F32(0),
        }
    }

    /// Quotient by a whole number, rounded toward zero and truncated to 64 bits.
    pub fn div_int(self, rhs: i32) -> (r: I32F32)
        requires
            rhs != 0,
        ensures
            r.0 == (trunc_div(self.0 * one_raw(), rhs * one_raw()) as i64),
    {
        self.div(I32F32::from(rhs))
    }

    /// Remainder of division rounded toward zero; the divisor must not be
    /// zero.
    pub fn rem(self, rhs: I32F32) -> (r: I32F32)
        requires
            rhs.0 != 0,
        ensures
            r.0 == trunc_rem(self.0 as int, rhs.0 as int),
    {
        proof {
            lemma_trunc_rem_bound(self.0 as int, rhs.0 as int);
        }
        let m = (self.0 as i128).checked_rem(rhs.0 as i128);
        match m {
            Some(v) => I32F32(v as i64),
            None => I32F32(0),
        }
    }

    /// Remainder of division by a whole number.
    pub fn rem_int(self, rhs: i32) -> (r: I32F32)
        requires
            rhs != 0,
        ensures
            r.0 == trunc_rem(self.0 as int, rhs * one_raw()),
    {
        self.rem(I32F32::from(rhs))
    }

    pub fn add_assign(&mut self, rhs: I32F32)
        requires
            i64::MIN <= old(self).0 + rhs.0 <= i64::MAX,
        ensures
            final(self).0 == old(self).0 + rhs.0,
    {
        *self = self.add(rhs);
    }

    pub fn add_assign_int(&mut self, rhs: i32)
        requires
            i64::MIN <= old(self).0 + rhs * one_raw() <= i64::MAX,
        ensures
            final(self).0 == old(self).0 + rhs * one_raw(),
    {
        *self = self.add_int(rhs);
    }

    pub fn sub_assign(&mut self, rhs: I32F32)
        requires
            i64::MIN <= old(self).0 - rhs.0 <= i64::MAX,
        ensures
            final(self).0 == old(self).0 - rhs.0,
    {
        *self = self.sub(rhs);
    }

    pub fn sub_assign_int(&mut self, rhs: i32)
        requires
            i64::MIN <= old(self).0 - rhs * one_raw() <= i64::MAX,
        ensures
            final(self).0 == old(self).0 - rhs * one_raw(),
    {
        *self = self.sub_int(rhs);
    }

    pub fn mul_assign(&mut self, rhs: I32F32)
        ensures
            final(self).0 == (mul_raw(old(self).0 as int, rhs.0 as int) as i64),
    {
        *self = self.mul(rhs);
    }

    pub fn mul_assign_int(&mut self, rhs: i32)
        ensures
            final(self).0 == (mul_raw(old(self).0 as int, rhs * one_raw()) as i64),
    {
        *self = self.mul_int(rhs);
    }

    pub fn div_assign(&mut self, rhs: I32F32)
        requires
            rhs.0 != 0,
        ensures
            final(self).0 == (trunc_div(old(self).0 * one_raw(), rhs.0 as int) as i64),
    {
        *self = self.div(rhs);
    }

    pub fn div_assign_int(&mut self, rhs: i32)
        requires
            rhs != 0,
        ensures
            final(self).0 == (trunc_div(old(self).0 * one_raw(), rhs * one_raw()) as i64),
    {
        *self = self.div_int(rhs);
    }

    pub fn rem_assign(&mut self, rhs: I32F32)
        requires
            rhs.0 != 0,
        ensures
            final(self).0 == trunc_rem(old(self).0 as int, rhs.0 as int),
    {
        *self = self.rem(rhs);
    }

    pub fn rem_assign_int(&mut self, rhs: i32)
        requires
            rhs != 0,
        ensures
            final(self).0 == trunc_rem(old(self).0 as int, rhs * one_raw()),
    {
        *self = self.rem_int(rhs);
    }

    /// Whether `self` equals the whole number `other`.
    pub fn eq_int(&self, other: &i32) -> (r: bool)
        ensures
            r == (self.0 == *other * one_raw()),
    {
        self.0 == I32F32::from(*other).0
    }

    /// Compares `self` with the whole number `other`.
    pub fn partial_cmp_int(&self, other: &i32) -> (r: Option<core::cmp::Ordering>)
        ensures
            self.0 < *other * one_raw() ==> r == Some(core::cmp::Ordering::Less),
            self.0 == *other * one_raw() ==> r == Some(core::cmp::Ordering::Equal),
            self.0 > *other * one_raw() ==> r == Some(core::cmp::Ordering::Greater),
    {
        let o = I32F32::from(*other).0;
        if self.0 < o {
            Some(core::cmp::Ordering::Less)
        } else if self.0 == o {
            Some(core::cmp::Ordering::Equal)
        } else {
            Some(core::cmp::Ordering::Greater)
        }
    }
}

impl From<I32F32> for i32 {
    fn from(value: I32F32) -> (r: i32) {
        value.int_part()
    }
}

impl vstd::std_specs::convert::FromSpecImpl<I32F32> for i32 {
    open spec fn obeys_from_spec() -> bool {
        true
    }

    open spec fn from_spec(value: I32F32) -> i32 {
        ((value.0 as int) / one_raw()) as i32
    }
}

impl From<i32> for I32F32 {
    fn from(value: i32) -> (r: I32F32) {
        I32F32((value as i64) * 4294967296i64)
    }
}

impl vstd::std_specs::convert::FromSpecImpl<i32> for I32F32 {
    open spec fn obeys_from_spec() -> bool {
        true
    }

    open spec fn from_spec(value: i32) -> I32F32 {
        I32F32((value * one_raw()) as i64)
    }
}

/// A whole number not above `x` and closer than one to it: the floor is
/// the largest whole number not above `x`.
pub proof fn law_floor_bounds(x: int)
    ensures
        floor_raw(x) <= x < floor_raw(x) + one_raw(),
        floor_raw(x) % one_raw() == 0,
{
    vstd::arithmetic::div_mod::lemma_fundamental_div_mod(x, one_raw());
    vstd::arithmetic::div_mod::lemma_mod_multiples_basic(x / one_raw(), one_raw());
}

/// The ceiling is the smallest whole number not below `x`.
pub proof fn law_ceil_bounds(x: int)
    ensures
        ceil_raw(x) - one_raw() < x <= ceil_raw(x),
        ceil_raw(x) % one_raw() == 0,
{
    law_floor_bounds(x);
    if x % one_raw() != 0 {
        vstd::arithmetic::div_mod::lemma_mod_add_multiples_vanish(floor_raw(x), one_raw());
    }
}

/// Rounding moves a value by at most one half.
pub proof fn law_round_nearest(x: int)
    ensures
        -half_raw() <= round_raw(x) - x <= half_raw(),
        round_raw(x) % one_raw() == 0,
{
    law_floor_bounds(x + half_raw());
    law_ceil_bounds(x - half_raw());
}

/// The whole part and the fraction of a value add up to it.
pub proof fn law_whole_and_fraction(x: int)
    ensures
        x == (x / one_raw()) * one_raw() + x % one_raw(),
        0 <= x % one_raw() < one_raw(),
{
    vstd::arithmetic::div_mod::lemma_fundamental_div_mod(x, one_raw());
}

} // verus!
