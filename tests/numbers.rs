use std::cmp::Ordering;

use simplex::rational::Rational;
use simplex::tax::Tax;

fn q(n: i64, d: i64) -> Rational {
    Rational::new(n, d)
}

fn pair(r: Rational) -> (i64, i64) {
    (r.numer, r.denom)
}

#[test]
fn rational_new_reduces() {
    assert_eq!(pair(q(6, -4)), (-3, 2));
}

#[test]
fn rational_arithmetic_is_exact() {
    assert_eq!(pair(q(1, 2).add(&q(1, 3)).unwrap()), (5, 6));
    assert_eq!(pair(q(1, 2).sub(&q(1, 3)).unwrap()), (1, 6));
    assert_eq!(pair(q(2, 3).mul(&q(3, 4)).unwrap()), (1, 2));
    assert_eq!(pair(q(2, 3).div(&q(4, 9)).unwrap()), (3, 2));
}

#[test]
fn rational_division_by_zero_is_none() {
    assert!(q(1, 2).div(&Rational::zero()).is_none());
}

#[test]
fn rational_overflow_is_none() {
    let big = Rational::from_integer(i64::MAX);
    assert!(big.add(&big).is_none());
    assert!(big.mul(&big).is_none());
}

#[test]
fn rational_compare_by_value() {
    assert_eq!(q(1, 3).compare(&q(1, 2)), Ordering::Less);
    assert_eq!(Rational { numer: 2, denom: 4 }.compare(&q(1, 2)), Ordering::Equal);
    assert_eq!(q(-1, 3).compare(&q(-1, 2)), Ordering::Greater);
}

#[test]
fn penalty_dominates_finite_part() {
    let a = Tax::from_parts(q(-1000, 1), q(2, 1));
    let b = Tax::from_parts(q(1000, 1), q(1, 1));
    assert_eq!(a.compare(&b), Ordering::Greater);
    assert_eq!(b.compare(&a), Ordering::Less);
}

#[test]
fn equal_penalty_compares_finite_part() {
    let a = Tax::from_parts(q(1, 1), q(3, 1));
    let b = Tax::from_parts(q(2, 1), q(3, 1));
    assert_eq!(a.compare(&b), Ordering::Less);
}

#[test]
fn tax_arithmetic_is_componentwise() {
    let a = Tax::from_parts(q(1, 1), q(2, 1));
    let b = Tax::from_parts(q(3, 1), q(-5, 1));
    let s = a.add(&b).unwrap();
    assert_eq!((pair(s.re), pair(s.im)), ((4, 1), (-3, 1)));
    let d = a.sub(&b).unwrap();
    assert_eq!((pair(d.re), pair(d.im)), ((-2, 1), (7, 1)));
    let m = a.mul(&Tax::from_real(q(3, 1))).unwrap();
    assert_eq!((pair(m.re), pair(m.im)), ((3, 1), (6, 1)));
    let v = a.div(&Tax::from_real(q(2, 1))).unwrap();
    assert_eq!((pair(v.re), pair(v.im)), ((1, 2), (1, 1)));
}

#[test]
fn tax_products_of_two_penalties_are_none() {
    assert!(Tax::penalty().mul(&Tax::penalty()).is_none());
    assert!(Tax::one().div(&Tax::penalty()).is_none());
}

#[test]
fn into_tax_moves_finite_part_to_penalty() {
    let t = Tax::from_real(q(5, 1)).into_tax();
    assert_eq!((pair(t.re), pair(t.im)), ((0, 1), (5, 1)));
}

#[test]
fn tax_text_forms() {
    assert_eq!(Tax::zero().to_text(), "0");
    assert_eq!(Tax::from_real(q(5, 1)).to_text(), "5");
    assert_eq!(Tax::from_parts(Rational::zero(), q(3, 1)).to_text(), "3M");
    assert_eq!(Tax::from_parts(q(2, 1), q(3, 1)).to_text(), "2 + 3M");
    assert_eq!(Tax::from_real(q(-1, 2)).to_text(), "-1/2");
}

fn parsed(text: &str) -> Option<((i64, i64), (i64, i64))> {
    Tax::parse(text.as_bytes()).map(|t| (pair(t.re), pair(t.im)))
}

#[test]
fn parse_penalty_literal() {
    assert_eq!(parsed("M"), Some(((0, 1), (1, 1))));
}

#[test]
fn parse_numbers() {
    assert_eq!(parsed("5"), Some(((5, 1), (0, 1))));
    assert_eq!(parsed("+4"), Some(((4, 1), (0, 1))));
    assert_eq!(parsed("-3/6"), Some(((-1, 2), (0, 1))));
    assert_eq!(parsed("10/-4"), Some(((-5, 2), (0, 1))));
}

#[test]
fn parse_rejects_other_text() {
    assert_eq!(parsed(""), None);
    assert_eq!(parsed("abc"), None);
    assert_eq!(parsed("7/0"), None);
    assert_eq!(parsed("1/"), None);
    assert_eq!(parsed("-"), None);
    assert_eq!(parsed("MM"), None);
    assert_eq!(parsed("99999999999999999999"), None);
}

#[test]
fn parse_rejects_unrepresentable_extremes() {
    assert_eq!(parsed("-9223372036854775808"), None);
    assert_eq!(parsed("1/-9223372036854775808"), None);
    assert_eq!(parsed("9223372036854775807"), Some(((i64::MAX, 1), (0, 1))));
}
