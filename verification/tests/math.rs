use necrofactory::math::fixed::Fixed;
use necrofactory::math::fixed_vec2::FixedVec2;
use necrofactory::math::i32f32::I32F32;
use necrofactory::math::vec::{I64Vec2, IVec2};

const ONE: i64 = 1 << 32;
const HALF_FIXED: u32 = 1 << 31;

fn fx(x: i64) -> I32F32 {
    I32F32(x)
}

#[test]
fn fixed_constants() {
    assert_eq!(Fixed::zero().0, 0);
    assert_eq!(Fixed::max_value().0, u32::MAX);
    assert_eq!(Fixed::min_value().0, 1);
    assert_eq!(Fixed::FACTOR, 1u64 << 32);
}

#[test]
fn fixed_inverse_is_one_minus() {
    assert_eq!(Fixed(HALF_FIXED).inverse().0, HALF_FIXED);
    assert_eq!(Fixed(1).inverse().0, u32::MAX);
    assert_eq!(Fixed(3 << 30).inverse().0, 1 << 30);
    assert_eq!(Fixed(0).checked_inverse(), None);
    assert_eq!(Fixed(1 << 30).checked_inverse(), Some(Fixed(3 << 30)));
}

#[test]
fn fixed_inverse_twice_gives_back() {
    for raw in [1u32, 2, 12345, HALF_FIXED, u32::MAX] {
        assert_eq!(Fixed(raw).inverse().inverse(), Fixed(raw));
    }
}

#[test]
fn fixed_addition_variants() {
    let a = Fixed(u32::MAX - 1);
    let b = Fixed(5);
    assert_eq!(a.checked_add(b), None);
    assert_eq!(a.saturating_add(b).0, u32::MAX);
    assert_eq!(a.wrapping_add(b).0, 3);
    assert_eq!(a.overflowing_add(b), (Fixed(3), true));
    assert_eq!(Fixed(2).checked_add(b), Some(Fixed(7)));
    assert_eq!(Fixed(2).strict_add(b).0, 7);
    assert_eq!(Fixed(2).overflowing_add(b), (Fixed(7), false));
    assert_eq!(Fixed(u32::MAX).carrying_add(Fixed(0), true), (Fixed(0), true));
    assert_eq!(Fixed(1).carrying_add(Fixed(1), true), (Fixed(3), false));
}

#[test]
fn fixed_subtraction_variants() {
    let a = Fixed(3);
    let b = Fixed(5);
    assert_eq!(a.checked_sub(b), None);
    assert_eq!(a.saturating_sub(b).0, 0);
    assert_eq!(a.wrapping_sub(b).0, u32::MAX - 1);
    assert_eq!(a.overflowing_sub(b), (Fixed(u32::MAX - 1), true));
    assert_eq!(b.checked_sub(a), Some(Fixed(2)));
    assert_eq!(b.strict_sub(a).0, 2);
}

#[test]
fn fixed_multiplication_rounds_down() {
    let half = Fixed(HALF_FIXED);
    assert_eq!(half.checked_mul(half), Some(Fixed(1 << 30)));
    assert_eq!(half.strict_mul(half).0, 1 << 30);
    assert_eq!(half.saturating_mul(half).0, 1 << 30);
    assert_eq!(half.wrapping_mul(half).0, 1 << 30);
    assert_eq!(half.overflowing_mul(half), (Fixed(1 << 30), false));
    assert_eq!(Fixed(3).checked_mul(Fixed(HALF_FIXED)), Some(Fixed(1)));
    assert_eq!(Fixed(1).checked_mul(Fixed(1)), Some(Fixed(0)));
}

#[test]
fn fixed_division_needs_a_smaller_dividend() {
    let quarter = Fixed(1 << 30);
    let half = Fixed(HALF_FIXED);
    assert_eq!(quarter.checked_div(half), Some(Fixed(HALF_FIXED)));
    assert_eq!(quarter.strict_div(half).0, HALF_FIXED);
    assert_eq!(half.checked_div(quarter), None);
    assert_eq!(half.checked_div(Fixed(0)), None);
    assert_eq!(half.saturating_div(quarter).0, u32::MAX);
    assert_eq!(half.wrapping_div(quarter).0, 0);
    assert_eq!(half.overflowing_div(quarter), (Fixed(0), true));
    assert_eq!(quarter.overflowing_div(half), (Fixed(HALF_FIXED), false));
    assert_eq!(quarter.wrapping_div(half).0, HALF_FIXED);
}

#[test]
fn fixed_whole_number_variants() {
    assert_eq!(Fixed(10).checked_mul_u32(3), Some(Fixed(30)));
    assert_eq!(Fixed(HALF_FIXED).checked_mul_u32(2), None);
    assert_eq!(Fixed(HALF_FIXED).saturating_mul_u32(2).0, u32::MAX);
    assert_eq!(Fixed(HALF_FIXED).wrapping_mul_u32(2).0, 0);
    assert_eq!(Fixed(HALF_FIXED).overflowing_mul_u32(3), (Fixed(HALF_FIXED), true));
    assert_eq!(Fixed(10).strict_mul_u32(3).0, 30);
    assert_eq!(Fixed(10).checked_div_u32(3), Some(Fixed(3)));
    assert_eq!(Fixed(10).checked_div_u32(0), None);
    assert_eq!(Fixed(10).strict_div_u32(4).0, 2);
    assert_eq!(Fixed(10).saturating_div_u32(4).0, 2);
    assert_eq!(Fixed(10).wrapping_div_u32(4).0, 2);
    assert_eq!(Fixed(10).overflowing_div_u32(4), (Fixed(2), false));
}

#[test]
fn fixed_text_default_precision() {
    assert_eq!(Fixed(0).to_string(), "0");
    assert_eq!(Fixed(HALF_FIXED).to_string(), "0.5");
    assert_eq!(Fixed(1 << 30).to_string(), "0.25");
    assert_eq!(Fixed(u32::MAX).to_string(), "1");
    // 2^-32 * 10^6 rounds to zero.
    assert_eq!(Fixed(1).to_string(), "0");
    // 0.1 is not exact in binary; six decimals show it.
    assert_eq!(Fixed(429496730).to_string(), "0.1");
}

#[test]
fn fixed_text_explicit_precision() {
    assert_eq!(Fixed(HALF_FIXED).to_string_with_precision(Some(2)), "0.50");
    assert_eq!(Fixed(HALF_FIXED).to_string_with_precision(Some(0)), "1");
    assert_eq!(Fixed(1 << 30).to_string_with_precision(Some(1)), "0.3");
    assert_eq!(Fixed(1 << 30).to_string_with_precision(Some(3)), "0.250");
    assert_eq!(Fixed(0).to_string_with_precision(Some(4)), "0.0000");
    assert_eq!(Fixed(1).to_string_with_precision(Some(10)), "0.0000000002");
}

#[test]
fn i32f32_constants() {
    assert_eq!(I32F32::zero().0, 0);
    assert_eq!(I32F32::one().0, ONE);
    assert_eq!(I32F32::half().0, ONE / 2);
    assert_eq!(I32F32::max_value().0, i64::MAX);
    assert_eq!(I32F32::min_value().0, i64::MIN);
    assert_eq!(I32F32::min_positive().0, 1);
}

#[test]
fn i32f32_whole_and_fraction() {
    let x = fx(-3 * ONE / 2);
    assert_eq!(x.int_part(), -2);
    assert_eq!(x.frac(), (ONE / 2) as u32);
    let y = fx(5 * ONE + 7);
    assert_eq!(y.int_part(), 5);
    assert_eq!(y.frac(), 7);
}

#[test]
fn i32f32_rounding() {
    let x = fx(5 * ONE / 2);
    assert_eq!(x.floor().0, 2 * ONE);
    assert_eq!(x.ceil().0, 3 * ONE);
    assert_eq!(x.round().0, 3 * ONE);
    assert_eq!(x.trunc().0, 2 * ONE);
    let y = fx(-5 * ONE / 2);
    assert_eq!(y.floor().0, -3 * ONE);
    assert_eq!(y.ceil().0, -2 * ONE);
    assert_eq!(y.round().0, -3 * ONE);
    assert_eq!(y.trunc().0, -2 * ONE);
    let z = fx(7 * ONE);
    assert_eq!(z.floor().0, 7 * ONE);
    assert_eq!(z.ceil().0, 7 * ONE);
    assert_eq!(z.trunc().0, 7 * ONE);
}

#[test]
fn i32f32_rounding_stays_within_a_half() {
    for raw in [-(3 * ONE) + 5, -ONE / 2, -1, 0, 1, ONE / 2 - 1, ONE / 2, 9 * ONE + 12345] {
        let r = fx(raw).round().0;
        assert!((r - raw).abs() <= ONE / 2);
        assert_eq!(r % ONE, 0);
        let f = fx(raw).floor().0;
        assert!(f <= raw && raw < f + ONE);
    }
}

#[test]
fn i32f32_arithmetic() {
    let a = fx(3 * ONE);
    let b = fx(ONE / 2);
    assert_eq!(a.add(b).0, 3 * ONE + ONE / 2);
    assert_eq!(a.sub(b).0, 3 * ONE - ONE / 2);
    assert_eq!(a.mul(b).0, 3 * ONE / 2);
    assert_eq!(a.div(b).0, 6 * ONE);
    assert_eq!(fx(-7 * ONE).div_int(2).0, -7 * ONE / 2);
    assert_eq!(fx(-7 * ONE).rem_int(2).0, -ONE);
    assert_eq!(fx(7 * ONE).rem(fx(2 * ONE)).0, ONE);
    assert_eq!(a.add_int(2).0, 5 * ONE);
    assert_eq!(a.sub_int(5).0, -2 * ONE);
    assert_eq!(a.mul_int(-2).0, -6 * ONE);
    let mut c = a;
    c.add_assign(b);
    c.sub_assign_int(1);
    c.mul_assign_int(2);
    assert_eq!(c.0, 5 * ONE);
    c.div_assign_int(5);
    assert_eq!(c.0, ONE);
    c.rem_assign(fx(ONE));
    assert_eq!(c.0, 0);
}

#[test]
fn i32f32_euclidean_division() {
    let a = fx(-7 * ONE);
    let b = fx(2 * ONE);
    assert_eq!(a.rem_euclid(b).0, ONE);
    assert_eq!(a.rem_euclid_int(2).0, ONE);
    assert_eq!(a.div_euclid(b).0, -7 * ONE / 2);
    assert_eq!(a.div_euclid_int(2).0, -7 * ONE / 2);
    assert_eq!(fx(7 * ONE).div_euclid(b).0, 7 * ONE / 2);
    // The quotient keeps 32 fractional bits, rounded toward negative infinity.
    assert_eq!(fx(-1).div_euclid(fx(3 * ONE)).0, -1);
}

#[test]
fn i32f32_whole_number_conversions() {
    let x: I32F32 = I32F32::from(-4);
    assert_eq!(x.0, -4 * ONE);
    let back: i32 = i32::from(fx(9 * ONE + ONE / 2));
    assert_eq!(back, 9);
    assert!(fx(3 * ONE).eq_int(&3));
    assert!(!fx(3 * ONE + 1).eq_int(&3));
    assert_eq!(fx(ONE).partial_cmp_int(&2), Some(std::cmp::Ordering::Less));
    assert_eq!(fx(2 * ONE).partial_cmp_int(&2), Some(std::cmp::Ordering::Equal));
    assert_eq!(fx(3 * ONE).partial_cmp_int(&2), Some(std::cmp::Ordering::Greater));
}

#[test]
fn fixed_vec2_componentwise() {
    let v = FixedVec2::new(fx(5 * ONE / 2), fx(-5 * ONE / 2));
    assert_eq!(v.floor(), FixedVec2::new(fx(2 * ONE), fx(-3 * ONE)));
    assert_eq!(v.ceil(), FixedVec2::new(fx(3 * ONE), fx(-2 * ONE)));
    assert_eq!(v.round(), FixedVec2::new(fx(3 * ONE), fx(-3 * ONE)));
    let d = FixedVec2::new(fx(2 * ONE), fx(2 * ONE));
    assert_eq!(v.div_euclid(d), FixedVec2::new(fx(ONE), fx(-2 * ONE)));
    assert_eq!(v.rem_euclid(d), FixedVec2::new(fx(ONE / 2), fx(3 * ONE / 2)));
    assert_eq!(v.div_euclid_int(2), FixedVec2::new(fx(ONE), fx(-2 * ONE)));
    assert_eq!(v.rem_euclid_int(2), FixedVec2::new(fx(ONE / 2), fx(3 * ONE / 2)));
}

#[test]
fn fixed_vec2_arithmetic() {
    let v = FixedVec2::new(fx(ONE), fx(2 * ONE));
    let w = FixedVec2::new(fx(ONE / 2), fx(-ONE));
    assert_eq!(v.add(w), FixedVec2::new(fx(3 * ONE / 2), fx(ONE)));
    assert_eq!(v.sub(w), FixedVec2::new(fx(ONE / 2), fx(3 * ONE)));
    assert_eq!(v.add_ivec2(IVec2::new(1, -1)), FixedVec2::new(fx(2 * ONE), fx(ONE)));
    assert_eq!(v.sub_ivec2(IVec2::new(1, -1)), FixedVec2::new(fx(0), fx(3 * ONE)));
    assert_eq!(v.mul_fixed(fx(ONE / 2)), FixedVec2::new(fx(ONE / 2), fx(ONE)));
    assert_eq!(v.mul_int(3), FixedVec2::new(fx(3 * ONE), fx(6 * ONE)));
    assert_eq!(v.div_fixed(fx(ONE / 2)), FixedVec2::new(fx(2 * ONE), fx(4 * ONE)));
    assert_eq!(v.div_int(2), FixedVec2::new(fx(ONE / 2), fx(ONE)));
    assert_eq!(FixedVec2::new(fx(-3 * ONE), fx(3 * ONE)).rem_int(2), FixedVec2::new(fx(-ONE), fx(ONE)));
}

#[test]
fn fixed_vec2_integer_conversions() {
    let v = FixedVec2::from(IVec2::new(3, -4));
    assert_eq!(v, FixedVec2::new(fx(3 * ONE), fx(-4 * ONE)));
    let w = FixedVec2::new(fx(5 * ONE / 2), fx(-5 * ONE / 2));
    assert_eq!(IVec2::from(w), IVec2::new(2, -3));
    assert_eq!(I64Vec2::from(w), I64Vec2::new(2, -3));
    assert_eq!(
        FixedVec2::from_i64vec2(I64Vec2::new(-7, 8)),
        FixedVec2::new(fx(-7 * ONE), fx(8 * ONE))
    );
}

#[test]
fn fixed_vec2_quotient_times_divisor_plus_remainder() {
    let a = FixedVec2::new(fx(15 * ONE / 2), fx(-15 * ONE / 2));
    let b = FixedVec2::new(fx(2 * ONE), fx(-3 * ONE));
    let q = a.div_euclid(b);
    let r = a.rem_euclid(b);
    assert_eq!(q, FixedVec2::new(fx(3 * ONE), fx(3 * ONE)));
    assert_eq!(r, FixedVec2::new(fx(3 * ONE / 2), fx(3 * ONE / 2)));
    assert_eq!(q.x.mul(b.x).add(r.x), a.x);
    assert_eq!(q.y.mul(b.y).add(r.y), a.y);
}

#[test]
fn fixed_vec2_rounding_and_integer_division() {
    let v = FixedVec2::new(fx(-5 * ONE / 2), fx(7 * ONE / 4));
    assert_eq!(v.floor(), FixedVec2::new(fx(-3 * ONE), fx(ONE)));
    assert_eq!(v.ceil(), FixedVec2::new(fx(-2 * ONE), fx(2 * ONE)));
    assert_eq!(v.round(), FixedVec2::new(fx(-3 * ONE), fx(2 * ONE)));
    assert_eq!(v.div_int(2), FixedVec2::new(fx(-5 * ONE / 4), fx(7 * ONE / 8)));
    assert_eq!(v.rem_int(2), FixedVec2::new(fx(-ONE / 2), fx(7 * ONE / 4)));
}
