use gda::error::GdaError;
use gda::rational::Rational;

#[test]
fn construction_reduces_to_lowest_terms() {
    let r = Rational::new(2, 4).unwrap();
    assert_eq!(r.num(), 1);
    assert_eq!(r.den(), 2);
    let r = Rational::new(-6, 8).unwrap();
    assert_eq!(r.num(), -3);
    assert_eq!(r.den(), 4);
}

#[test]
fn construction_normalizes_sign() {
    let r = Rational::new(1, -2).unwrap();
    assert_eq!(r.num(), -1);
    assert_eq!(r.den(), 2);
    let r = Rational::new(-3, -9).unwrap();
    assert_eq!(r.num(), 1);
    assert_eq!(r.den(), 3);
}

#[test]
fn construction_rejects_zero_denominator() {
    assert_eq!(Rational::new(5, 0), Err(GdaError::InvalidArgument));
}

#[test]
fn addition_is_exact() {
    let a = Rational::new(1, 3).unwrap();
    let b = Rational::new(1, 6).unwrap();
    let s = a.add(b).unwrap();
    assert_eq!(s.num(), 1);
    assert_eq!(s.den(), 2);
}

#[test]
fn subtraction_is_exact() {
    let a = Rational::new(3, 4).unwrap();
    let b = Rational::new(1, 4).unwrap();
    let d = a.subtract(b).unwrap();
    assert_eq!(d.num(), 1);
    assert_eq!(d.den(), 2);
}

#[test]
fn multiplication_is_exact() {
    let a = Rational::new(2, 3).unwrap();
    let b = Rational::new(9, 4).unwrap();
    let p = a.multiply(b).unwrap();
    assert_eq!(p.num(), 3);
    assert_eq!(p.den(), 2);
}

#[test]
fn division_is_exact_and_rejects_zero() {
    let a = Rational::new(1, 2).unwrap();
    let b = Rational::new(-3, 4).unwrap();
    let q = a.divide(b).unwrap();
    assert_eq!(q.num(), -2);
    assert_eq!(q.den(), 3);
    let zero = Rational::from_int(0);
    assert_eq!(a.divide(zero), Err(GdaError::InvalidArgument));
}

#[test]
fn addition_overflow_is_reported() {
    let big = Rational::new(i64::MAX, 1).unwrap();
    assert_eq!(big.add(big), Err(GdaError::Overflow));
}

#[test]
fn comparisons_are_exact() {
    let a = Rational::new(1, 3).unwrap();
    let b = Rational::new(2, 6).unwrap();
    let c = Rational::new(1, 2).unwrap();
    assert!(a.same_value(b));
    assert!(a.less_than(c));
    assert!(!c.less_than(a));
    assert!(a.less_eq(b));
    assert!(c.negate().less_than(a));
    assert_eq!(c.negate().abs().num(), 1);
    assert_eq!(c.negate().abs().den(), 2);
}
