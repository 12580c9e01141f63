//! `Fixed`: an unsigned fraction in `[0, 1)` stored in 32 bits, where the raw
//! value `r` stands for `r / 2^32`.

use vstd::prelude::*;

use crate::text::{
    decimal, digit_chars, padded, padded_digits, push_decimal, push_digits, trim_trailing_zeros,
    trim_zeros,
};

verus! {

/// The scale of a `Fixed`: a raw value `r` stands for `r / FACTOR`.
pub open spec fn factor() -> nat {
    0x1_0000_0000
}

/// An unsigned fraction in `[0, 1)` with 32 fractional bits.
#[derive(Debug, Default, Clone, Copy, PartialEq, Eq, Structural, PartialOrd, Ord, Hash)]
pub struct Fixed(pub u32);

/// Raw value of the product of two fractions: `floor(a * b / 2^32)`.
pub open spec fn mul_raw(a: u32, b: u32) -> int {
    (a * b) / (factor() as int)
}

/// Raw value of the quotient of two fractions: `floor(a * 2^32 / b)`.
pub open spec fn div_raw(a: u32, b: u32) -> int
    recommends
        b != 0,
{
    (a * factor()) / (b as int)
}

/// `x` truncated to its low 32 bits.
pub open spec fn wrap32(x: int) -> int {
    x % (factor() as int)
}

proof fn lemma_mul_raw_fits(a: u32, b: u32)
    ensures
        0 <= a * b <= 0xFFFF_FFFE_0000_0001,
        0 <= mul_raw(a, b) <= 0xFFFF_FFFE,
{
    assert(0 <= a * b <= 0xFFFF_FFFE_0000_0001) by (nonlinear_arith)
        requires
            a <= 0xFFFF_FFFF,
            b <= 0xFFFF_FFFF,
    ;
}

proof fn lemma_div_raw_bound(a: u32, b: u32)
    requires
        b != 0,
    ensures
        0 <= div_raw(a, b) <= a * factor(),
        div_raw(a, b) <= 0xFFFF_FFFF <==> a < b,
{
    let n = a * factor();
    assert(0 <= n / (b as int) <= n) by (nonlinear_arith)
        requires
            n >= 0,
            b >= 1,
    ;
    if a < b {
        assert(n / (b as int) < factor()) by (nonlinear_arith)
            requires
                n == a * factor(),
                a < b,
                b >= 1,
        ;
    } else {
        assert(n / (b as int) >= factor()) by (nonlinear_arith)
            requires
                n == a * factor(),
                a >= b,
                b >= 1,
        ;
    }
}

proof fn lemma_shr32(x: u64)
    ensures
        x >> 32u64 == x / 0x1_0000_0000,
{
    assert(x >> 32u64 == x / 0x1_0000_0000) by (bit_vector);
}

proof fn lemma_shl32(x: u32)
    ensures
        (x as u64) << 32u64 == x * 0x1_0000_0000,
{
    assert((x as u64) << 32u64 == (x as u64) * 0x1_0000_0000) by (bit_vector)
        requires
            x <= 0xFFFF_FFFF,
    ;
}

proof fn lemma_trunc32(x: u64)
    ensures
        x as u32 == x % 0x1_0000_0000,
{
    assert(x as u32 == x % 0x1_0000_0000) by (bit_vector);
}

impl Fixed {
    /// Zero.
    pub fn zero() -> (r: Fixed)
        ensures
            r.0 == 0,
    {
        Fixed(0)
    }

    /// The largest fraction, `1 - 2^-32`.
    pub fn max_value() -> (r: Fixed)
        ensures
            r.0 == u32::MAX,
    {
        Fixed(4294967295)
    }

    /// The smallest positive fraction, `2^-32`.
    pub fn min_value() -> (r: Fixed)
        ensures
            r.0 == 1,
    {
        Fixed(1)
    }

    /// `2^32`: the number of steps in one whole.
    pub const FACTOR: u64 = 4294967296;

    /// `1 - self`, of a non-zero fraction: the complement of zero, one, is
    /// not a fraction.
    pub fn inverse(self) -> (r: Fixed)
        requires
            self.0 != 0,
        ensures
            r.0 == factor() - self.0,
    {
        Fixed(4294967295u32 - self.0 + 1)
    }

    /// `1 - self`, or `None` for zero.
    pub fn checked_inverse(self) -> (r: Option<Fixed>)
        ensures
            self.0 == 0 ==> r is None,
            self.0 != 0 ==> r == Some(Fixed((factor() - self.0) as u32)),
    {
        if self.0 == 0 {
            None
        } else {
            Some(Fixed(4294967295u32 - self.0 + 1))
        }
    }

    pub fn checked_add(self, rhs: Fixed) -> (r: Option<Fixed>)
        ensures
            self.0 + rhs.0 <= u32::MAX ==> r == Some(Fixed((self.0 + rhs.0) as u32)),
            self.0 + rhs.0 > u32::MAX ==> r is None,
    {
        match self.0.checked_add(rhs.0) {
            Some(v) => Some(Fixed(v)),
            None => None,
        }
    }

    pub fn strict_add(self, rhs: Fixed) -> (r: Fixed)
        requires
            self.0 + rhs.0 <= u32::MAX,
        ensures
            r.0 == self.0 + rhs.0,
    {
        Fixed(self.0 + rhs.0)
    }

    pub fn saturating_add(self, rhs: Fixed) -> (r: Fixed)
        ensures
            r.0 == if self.0 + rhs.0 > u32::MAX { u32::MAX as int } else { self.0 + rhs.0 },
    {
        Fixed(self.0.saturating_add(rhs.0))
    }

    pub fn wrapping_add(self, rhs: Fixed) -> (r: Fixed)
        ensures
            r.0 == wrap32(self.0 + rhs.0),
    {
        let s: u64 = self.0 as u64 + rhs.0 as u64;
        proof {
            lemma_trunc32(s);
        }
        Fixed(s as u32)
    }

    pub fn overflowing_add(self, rhs: Fixed) -> (r: (Fixed, bool))
        ensures
            r.0.0 == wrap32(self.0 + rhs.0),
            r.1 == (self.0 + rhs.0 > u32::MAX),
    {
        let s: u64 = self.0 as u64 + rhs.0 as u64;
        proof {
            lemma_trunc32(s);
        }
        (Fixed(s as u32), s > 4294967295u64)
    }

    /// `self + rhs + carry`, with the carry out.
    pub fn carrying_add(self, rhs: Fixed, carry: bool) -> (r: (Fixed, bool))
        ensures
            r.0.0 == wrap32(self.0 + rhs.0 + if carry { 1int } else { 0int }),
            r.1 == (self.0 + rhs.0 + (if carry { 1int } else { 0int }) > u32::MAX),
    {
        let c: u64 = if carry { 1 } else { 0 };
        let s: u64 = self.0 as u64 + rhs.0 as u64 + c;
        proof {
            lemma_trunc32(s);
        }
        (Fixed(s as u32), s > 4294967295u64)
    }

    pub fn checked_sub(self, rhs: Fixed) -> (r: Option<Fixed>)
        ensures
            self.0 >= rhs.0 ==> r == Some(Fixed((self.0 - rhs.0) as u32)),
            self.0 < rhs.0 ==> r is None,
    {
        match self.0.checked_sub(rhs.0) {
            Some(v) => Some(Fixed(v)),
            None => None,
        }
    }

    pub fn strict_sub(self, rhs: Fixed) -> (r: Fixed)
        requires
            self.0 >= rhs.0,
        ensures
            r.0 == self.0 - rhs.0,
    {
        Fixed(self.0 - rhs.0)
    }

    pub fn saturating_sub(self, rhs: Fixed) -> (r: Fixed)
        ensures
            r.0 == if self.0 < rhs.0 { 0 } else { self.0 - rhs.0 },
    {
        Fixed(self.0.saturating_sub(rhs.0))
    }

    pub fn wrapping_sub(self, rhs: Fixed) -> (r: Fixed)
        ensures
            r.0 == (self.0 - rhs.0) % (factor() as int),
    {
        if self.0 >= rhs.0 {
            Fixed(self.0 - rhs.0)
        } else {
            let d: u64 = 4294967296u64 - rhs.0 as u64 + self.0 as u64;
            assert((self.0 - rhs.0) % (factor() as int) == d) by {
                vstd::arithmetic::div_mod::lemma_mod_add_multiples_vanish(
                    self.0 - rhs.0,
                    factor() as int,
                );
                vstd::arithmetic::div_mod::lemma_small_mod(d as nat, factor());
            }
            Fixed(d as u32)
        }
    }

    pub fn overflowing_sub(self, rhs: Fixed) -> (r: (Fixed, bool))
        ensures
            r.0.0 == (self.0 - rhs.0) % (factor() as int),
            r.1 == (self.0 < rhs.0),
    {
        (self.wrapping_sub(rhs), self.0 < rhs.0)
    }

    /// The product of two fractions, rounded down. It always fits.
    pub fn checked_mul(self, rhs: Fixed) -> (r: Option<Fixed>)
        ensures
            r == Some(Fixed(mul_raw(self.0, rhs.0) as u32)),
    {
        proof {
            lemma_mul_raw_fits(self.0, rhs.0);
        }
        let prod: u64 = (self.0 as u64) * (rhs.0 as u64);
        let shifted = prod >> 32;
        proof {
            lemma_shr32(prod);
        }
        if shifted > u32::MAX as u64 {
            None
        } else {
            Some(Fixed(shifted as u32))
        }
    }

    pub fn strict_mul(self, rhs: Fixed) -> (r: Fixed)
        ensures
            r.0 == mul_raw(self.0, rhs.0),
    {
        proof {
            lemma_mul_raw_fits(self.0, rhs.0);
        }
        match self.checked_mul(rhs) {
            Some(v) => v,
            None => Fixed(0),
        }
    }

    pub fn saturating_mul(self, rhs: Fixed) -> (r: Fixed)
        ensures
            r.0 == mul_raw(self.0, rhs.0),
    {
        proof {
            lemma_mul_raw_fits(self.0, rhs.0);
        }
        let prod: u64 = (self.0 as u64) * (rhs.0 as u64);
        let shifted = prod >> 32;
        proof {
            lemma_shr32(prod);
        }
        if shifted > u32::MAX as u64 {
            Fixed(4294967295u32)
        } else {
            Fixed(shifted as u32)
        }
    }

    pub fn wrapping_mul(self, rhs: Fixed) -> (r: Fixed)
        ensures
            r.0 == mul_raw(self.0, rhs.0),
    {
        proof {
            lemma_mul_raw_fits(self.0, rhs.0);
        }
        let prod: u64 = (self.0 as u64) * (rhs.0 as u64);
        proof {
            lemma_shr32(prod);
        }
        Fixed((prod >> 32) as u32)
    }

    pub fn overflowing_mul(self, rhs: Fixed) -> (r: (Fixed, bool))
        ensures
            r.0.0 == mul_raw(self.0, rhs.0),
            !r.1,
    {
        proof {
            lemma_mul_raw_fits(self.0, rhs.0);
        }
        let prod: u64 = (self.0 as u64) * (rhs.0 as u64);
        let shifted = prod >> 32;
        proof {
            lemma_shr32(prod);
        }
        let overflow = shifted > u32::MAX as u64;
        (Fixed(shifted as u32), overflow)
    }

    /// `self / rhs`; `None` when `rhs` is zero or the quotient is not below one.
    pub fn checked_div(self, rhs: Fixed) -> (r: Option<Fixed>)
        ensures
            rhs.0 == 0 ==> r is None,
            rhs.0 != 0 ==> (div_raw(self.0, rhs.0) <= u32::MAX <==> self.0 < rhs.0),
            rhs.0 != 0 && self.0 < rhs.0 ==> r == Some(Fixed(div_raw(self.0, rhs.0) as u32)),
            rhs.0 != 0 && self.0 >= rhs.0 ==> r is None,
    {
        if rhs.0 == 0 {
            return None;
        }
        proof {
            lemma_div_raw_bound(self.0, rhs.0);
            lemma_shl32(self.0);
        }
        let num = (self.0 as u64) << 32;
        let result = num / rhs.0 as u64;
        if result > u32::MAX as u64 {
            None
        } else {
            Some(Fixed(result as u32))
        }
    }

    pub fn strict_div(self, rhs: Fixed) -> (r: Fixed)
        requires
            rhs.0 != 0,
            self.0 < rhs.0,
        ensures
            r.0 == div_raw(self.0, rhs.0),
    {
        match self.checked_div(rhs) {
            Some(v) => v,
            None => Fixed(0),
        }
    }

    pub fn saturating_div(self, rhs: Fixed) -> (r: Fixed)
        requires
            rhs.0 != 0,
        ensures
            self.0 < rhs.0 ==> r.0 == div_raw(self.0, rhs.0),
            self.0 >= rhs.0 ==> r.0 == u32::MAX,
    {
        proof {
            lemma_div_raw_bound(self.0, rhs.0);
            lemma_shl32(self.0);
        }
        let num = (self.0 as u64) << 32;
        let result = num / rhs.0 as u64;
        if result > u32::MAX as u64 {
            Fixed(4294967295u32)
        } else {
            Fixed(result as u32)
        }
    }

    pub fn wrapping_div(self, rhs: Fixed) -> (r: Fixed)
        requires
            rhs.0 != 0,
        ensures
            r.0 == wrap32(div_raw(self.0, rhs.0)),
    {
        proof {
            lemma_div_raw_bound(self.0, rhs.0);
            lemma_shl32(self.0);
        }
        let num = (self.0 as u64) << 32;
        let q = num / rhs.0 as u64;
        proof {
            lemma_trunc32(q);
        }
        Fixed(q as u32)
    }

    pub fn overflowing_div(self, rhs: Fixed) -> (r: (Fixed, bool))
        requires
            rhs.0 != 0,
        ensures
            r.0.0 == wrap32(div_raw(self.0, rhs.0)),
            r.1 == (self.0 >= rhs.0),
    {
        proof {
            lemma_div_raw_bound(self.0, rhs.0);
            lemma_shl32(self.0);
        }
        let num = (self.0 as u64) << 32;
        let result = num / rhs.0 as u64;
        proof {
            lemma_trunc32(result);
        }
        let overflow = result > u32::MAX as u64;
        (Fixed(result as u32), overflow)
    }

    pub fn checked_mul_u32(self, rhs: u32) -> (r: Option<Fixed>)
        ensures
            self.0 * rhs <= u32::MAX ==> r == Some(Fixed((self.0 * rhs) as u32)),
            self.0 * rhs > u32::MAX ==> r is None,
    {
        match self.0.checked_mul(rhs) {
            Some(v) => Some(Fixed(v)),
            None => None,
        }
    }

    pub fn strict_mul_u32(self, rhs: u32) -> (r: Fixed)
        requires
            self.0 * rhs <= u32::MAX,
        ensures
            r.0 == self.0 * rhs,
    {
        Fixed(self.0 * rhs)
    }

    pub fn saturating_mul_u32(self, rhs: u32) -> (r: Fixed)
        ensures
            r.0 == if self.0 * rhs > u32::MAX { u32::MAX as int } else { self.0 * rhs },
    {
        match self.0.checked_mul(rhs) {
            Some(v) => Fixed(v),
            None => Fixed(4294967295u32),
        }
    }

    pub fn wrapping_mul_u32(self, rhs: u32) -> (r: Fixed)
        ensures
            r.0 == wrap32(self.0 * rhs),
    {
        proof {
            lemma_mul_raw_fits(self.0, rhs);
        }
        let p: u64 = (self.0 as u64) * (rhs as u64);
        proof {
            lemma_trunc32(p);
        }
        Fixed(p as u32)
    }

    pub fn overflowing_mul_u32(self, rhs: u32) -> (r: (Fixed, bool))
        ensures
            r.0.0 == wrap32(self.0 * rhs),
            r.1 == (self.0 * rhs > u32::MAX),
    {
        proof {
            lemma_mul_raw_fits(self.0, rhs);
        }
        let p: u64 = (self.0 as u64) * (rhs as u64);
        proof {
            lemma_trunc32(p);
        }
        (Fixed(p as u32), p > 4294967295u64)
    }

    pub fn checked_div_u32(self, rhs: u32) -> (r: Option<Fixed>)
        ensures
            rhs == 0 ==> r is None,
            rhs != 0 ==> r == Some(Fixed(self.0 / rhs)),
    {
        if rhs == 0 {
            None
        } else {
            Some(Fixed(self.0 / rhs))
        }
    }

    pub fn strict_div_u32(self, rhs: u32) -> (r: Fixed)
        requires
            rhs != 0,
        ensures
            r.0 == self.0 / rhs,
    {
        Fixed(self.0 / rhs)
    }

    pub fn saturating_div_u32(self, rhs: u32) -> (r: Fixed)
        requires
            rhs != 0,
        ensures
            r.0 == self.0 / rhs,
    {
        Fixed(self.0 / rhs)
    }

    pub fn wrapping_div_u32(self, rhs: u32) -> (r: Fixed)
        requires
            rhs != 0,
        ensures
            r.0 == self.0 / rhs,
    {
        Fixed(self.0 / rhs)
    }

    pub fn overflowing_div_u32(self, rhs: u32) -> (r: (Fixed, bool))
        requires
            rhs != 0,
        ensures
            r.0.0 == self.0 / rhs,
            !r.1,
    {
        (Fixed(self.0 / rhs), false)
    }
}

/// `10^p`.
pub open spec fn pow10(p: nat) -> nat
    decreases p,
{
    if p == 0 {
        1
    } else {
        10 * pow10((p - 1) as nat)
    }
}

/// The fraction with raw value `v`, times `10^p`, rounded to the nearest
/// whole number (halves up).
pub open spec fn scaled_decimal(v: u32, p: nat) -> nat {
    ((v * pow10(p) + 0x8000_0000) / 0x1_0000_0000) as nat
}

/// How a fraction with raw value `v` is written: with exactly `p` decimals
/// for a precision `p` (none for zero), or with up to six decimals and no
/// trailing zeros when there is no precision.
pub open spec fn fixed_text(v: u32, precision: Option<nat>) -> Seq<char> {
    let p = match precision {
        Some(p) => p,
        None => 6,
    };
    let scaled = scaled_decimal(v, p);
    let int_part = scaled / pow10(p);
    let frac_part = scaled % pow10(p);
    match precision {
        Some(p) => if p == 0 {
            decimal(int_part)
        } else {
            decimal(int_part) + seq!['.'] + digit_chars(padded_digits(frac_part, p))
        },
        None => if frac_part == 0 {
            decimal(int_part)
        } else {
            decimal(int_part) + seq!['.'] + digit_chars(trim_zeros(padded_digits(frac_part, 6)))
        },
    }
}

proof fn lemma_pow10_bounds(p: nat)
    ensures
        1 <= pow10(p),
        p <= 28 ==> pow10(p) <= pow10(28),
    decreases p,
{
    if p > 0 {
        lemma_pow10_bounds((p - 1) as nat);
    }
    if p <= 28 {
        lemma_pow10_mono(p, 28);
    }
}

proof fn lemma_pow10_mono(a: nat, b: nat)
    requires
        a <= b,
    ensures
        pow10(a) <= pow10(b),
    decreases b,
{
    if a < b {
        lemma_pow10_mono(a, (b - 1) as nat);
    }
}

impl Fixed {
    /// The fraction written in decimal: with exactly `precision` decimals
    /// when one is given, otherwise with up to six and no trailing zeros.
    /// Precisions above 28 are not accepted: the scaling would overflow.
    pub fn to_string_with_precision(&self, precision: Option<usize>) -> (r: String)
        requires
            precision matches Some(p) ==> p <= 28,
        ensures
            r@ == fixed_text(
                self.0,
                match precision {
                    Some(p) => Some(p as nat),
                    None => None::<nat>,
                },
            ),
    {
        let p: usize = match precision {
            Some(p) => p,
            None => 6,
        };
        assert(pow10(28) == 10000000000000000000000000000) by {
            reveal_with_fuel(pow10, 29);
        }
        let mut scale: u128 = 1;
        let mut k: usize = 0;
        while k < p
            invariant
                k <= p <= 28,
                scale == pow10(k as nat),
                pow10(28) == 10000000000000000000000000000,
            decreases p - k,
        {
            proof {
                lemma_pow10_bounds((k + 1) as nat);
            }
            scale = scale * 10;
            k = k + 1;
        }
        proof {
            lemma_pow10_bounds(p as nat);
        }
        let value = self.0 as u128;
        assert(value * scale <= 0xFFFF_FFFF * pow10(28)) by (nonlinear_arith)
            requires
                value <= 0xFFFF_FFFF,
                scale <= pow10(28),
        ;
        let scaled = (value * scale + 2147483648) / 4294967296;
        let int_part = scaled / scale;
        let frac_part = scaled % scale;
        let mut s = String::new();
        push_decimal(&mut s, int_part);
        match precision {
            Some(q) => {
                if q > 0 {
                    s.append(".");
                    proof {
                        reveal_strlit(".");
                    }
                    let ds = padded(frac_part, q);
                    push_digits(&mut s, &ds);
                }
            },
            None => {
                if frac_part != 0 {
                    s.append(".");
                    proof {
                        reveal_strlit(".");
                    }
                    let mut ds = padded(frac_part, 6);
                    let ghost full = ds@;
                    trim_trailing_zeros(&mut ds);
                    proof {
                        assert forall|i: int| 0 <= i < ds@.len() implies #[trigger] ds@[i] < 10 by {
                            assert(ds@[i] == full[i]);
                        }
                    }
                    push_digits(&mut s, &ds);
                }
            },
        }
        s
    }

    /// The fraction written in decimal with up to six decimals and no
    /// trailing zeros.
    pub fn to_string(&self) -> (r: String)
        ensures
            r@ == fixed_text(self.0, None),
    {
        self.to_string_with_precision(None)
    }
}

/// The complement of the complement of a non-zero fraction is the fraction
/// itself, and the complement of a non-zero fraction is non-zero.
pub proof fn law_inverse_twice(x: u32)
    requires
        x != 0,
    ensures
        factor() - x != 0,
        factor() - (factor() - x) == x,
{
}

} // verus!
