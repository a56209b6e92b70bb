use text_layout::math::FRAC_ONE;
use text_layout::{Fixed, Num};

fn fx(i: i16) -> Fixed {
    Fixed::from_num(i)
}

#[test]
fn from_num_scales_by_fraction() {
    assert_eq!(fx(3).bits, 3 * FRAC_ONE);
    assert_eq!(fx(-2).bits, -2 * FRAC_ONE);
    assert_eq!(fx(0).bits, 0);
}

#[test]
fn saturating_add_and_sub() {
    assert_eq!(fx(3).saturating_add(fx(2)), fx(5));
    assert_eq!(fx(1).saturating_sub(fx(3)), fx(-2));
    assert_eq!(Fixed::max_value().saturating_add(fx(1)), Fixed::max_value());
    assert_eq!(Fixed::min_value().saturating_sub(fx(1)), Fixed::min_value());
}

#[test]
fn saturating_mul_rounds_down_and_clamps() {
    assert_eq!(fx(3).saturating_mul(fx(2)), fx(6));
    assert_eq!(fx(-3).saturating_mul(fx(2)), fx(-6));
    // 1/65536 * 1/2 rounds toward negative infinity
    assert_eq!(Fixed { bits: 1 }.saturating_mul(Fixed { bits: 32768 }).bits, 0);
    assert_eq!(Fixed { bits: -1 }.saturating_mul(Fixed { bits: 32768 }).bits, -1);
    assert_eq!(Fixed::max_value().saturating_mul(fx(2)), Fixed::max_value());
    assert_eq!(Fixed::max_value().saturating_mul(fx(-2)), Fixed::min_value());
}

#[test]
fn saturating_div_truncates_and_clamps() {
    assert_eq!(fx(1).saturating_div(fx(2)).bits, FRAC_ONE / 2);
    assert_eq!(fx(6).saturating_div(fx(-3)), fx(-2));
    // -1/65536 divided by 2 truncates toward zero
    assert_eq!(Fixed { bits: -1 }.saturating_div(fx(2)).bits, 0);
    assert_eq!(Fixed::max_value().saturating_div(Fixed { bits: FRAC_ONE / 2 }), Fixed::max_value());
    assert_eq!(fx(-1000).saturating_div(Fixed { bits: 1 }), Fixed::min_value());
}

#[test]
fn abs_and_powi() {
    assert_eq!(fx(-5).abs(), fx(5));
    assert_eq!(fx(5).abs(), fx(5));
    assert_eq!(fx(2).powi(3), fx(8));
    assert_eq!(fx(-3).powi(2), fx(9));
    assert_eq!(fx(7).powi(0), fx(1));
    assert_eq!(fx(1000).powi(2), Fixed::max_value());
}

#[test]
fn rationals() {
    assert_eq!(Fixed::rat(1, 2).bits, FRAC_ONE / 2);
    assert_eq!(Fixed::rat(-1, 2).bits, -FRAC_ONE / 2);
    assert_eq!(Fixed::rat(3, 4).bits, 3 * FRAC_ONE / 4);
}

#[test]
fn comparisons() {
    assert!(fx(1).lt(fx(2)));
    assert!(!fx(2).lt(fx(2)));
    assert!(fx(2).le(fx(2)));
    assert!(!fx(3).le(fx(2)));
}

#[test]
fn num_capability() {
    assert_eq!(<Fixed as Num>::infinity(), Fixed::max_value());
    assert_eq!(<Fixed as Num>::neg_infinity(), Fixed::min_value());
    assert_eq!(<Fixed as Num>::from(4), fx(4));
    assert_eq!(<Fixed as Num>::abs(fx(-4)), fx(4));
    assert_eq!(<Fixed as Num>::abs(Fixed::min_value()), Fixed::max_value());
    assert_eq!(<Fixed as Num>::powi(fx(3), 2), fx(9));
    assert_eq!(<Fixed as Num>::rat(1, 4).bits, FRAC_ONE / 4);
}
