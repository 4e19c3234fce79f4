use gda::error::GdaError;
use gda::linalg::{Matrix2x2f, Vector2f};
use gda::rational::Rational;

fn rat(n: i64, d: i64) -> Rational {
    Rational::new(n, d).unwrap()
}

fn vec2(xn: i64, xd: i64, yn: i64, yd: i64) -> Vector2f {
    Vector2f { x: rat(xn, xd), y: rat(yn, yd) }
}

fn mat2(a: (i64, i64), b: (i64, i64), c: (i64, i64), d: (i64, i64)) -> Matrix2x2f {
    Matrix2x2f { a: rat(a.0, a.1), b: rat(b.0, b.1), c: rat(c.0, c.1), d: rat(d.0, d.1) }
}

#[test]
fn vector_subtract_and_scale() {
    let u = vec2(3, 1, 1, 2);
    let v = vec2(1, 1, 1, 4);
    let d = u.subtract(v).unwrap();
    assert_eq!((d.x.num(), d.x.den()), (2, 1));
    assert_eq!((d.y.num(), d.y.den()), (1, 4));
    let s = u.scale(rat(-2, 1)).unwrap();
    assert_eq!((s.x.num(), s.x.den()), (-6, 1));
    assert_eq!((s.y.num(), s.y.den()), (-1, 1));
}

#[test]
fn dot_product_matches_hand_computation() {
    let u = vec2(1, 2, 3, 1);
    let v = vec2(4, 1, 1, 3);
    // 1/2 * 4 + 3 * 1/3 = 2 + 1 = 3
    let d = u.dot_product(v).unwrap();
    assert_eq!((d.num(), d.den()), (3, 1));
}

#[test]
fn outer_product_entries() {
    let u = vec2(1, 2, 3, 1);
    let m = u.multiply_by_vector_transpose(u).unwrap();
    assert_eq!((m.a.num(), m.a.den()), (1, 4));
    assert_eq!((m.b.num(), m.b.den()), (3, 2));
    assert_eq!((m.c.num(), m.c.den()), (3, 2));
    assert_eq!((m.d.num(), m.d.den()), (9, 1));
}

#[test]
fn row_vector_times_matrix() {
    let u = vec2(1, 1, 2, 1);
    let m = mat2((1, 1), (2, 1), (3, 1), (4, 1));
    // (1*1 + 2*3, 1*2 + 2*4) = (7, 10)
    let r = u.mul_with_matrix2x2f(m).unwrap();
    assert_eq!((r.x.num(), r.x.den()), (7, 1));
    assert_eq!((r.y.num(), r.y.den()), (10, 1));
}

#[test]
fn determinant_exact() {
    let m = mat2((1, 2), (1, 3), (1, 5), (1, 7));
    // 1/14 - 1/15 = 1/210
    let det = m.determinate().unwrap();
    assert_eq!((det.num(), det.den()), (1, 210));
}

#[test]
fn scalar_division_rejects_zero() {
    let m = mat2((1, 1), (0, 1), (0, 1), (1, 1));
    assert!(matches!(m.scalar_div(Rational::from_int(0)), Err(GdaError::InvalidArgument)));
    let h = m.scalar_div(Rational::from_int(2)).unwrap();
    assert_eq!((h.a.num(), h.a.den()), (1, 2));
    assert_eq!((h.d.num(), h.d.den()), (1, 2));
}

#[test]
fn inverse_of_diagonal_matrix() {
    let m = mat2((2, 1), (0, 1), (0, 1), (4, 1));
    let inv = m.inverse().unwrap();
    assert_eq!((inv.a.num(), inv.a.den()), (1, 2));
    assert_eq!((inv.b.num(), inv.b.den()), (0, 1));
    assert_eq!((inv.c.num(), inv.c.den()), (0, 1));
    assert_eq!((inv.d.num(), inv.d.den()), (1, 4));
}

#[test]
fn inverse_rejects_singular_matrix() {
    let m = mat2((1, 1), (2, 1), (2, 1), (4, 1));
    assert!(matches!(m.inverse(), Err(GdaError::DegenerateMatrix)));
}

#[test]
fn inverse_rejects_near_singular_matrix() {
    // determinant 1/10^14, well below the 1/10^12 threshold
    let m = mat2((1, 10_000_000), (0, 1), (0, 1), (1, 10_000_000));
    assert!(matches!(m.inverse(), Err(GdaError::DegenerateMatrix)));
}

#[test]
fn matrix_times_inverse_is_identity() {
    let m = mat2((3, 1), (1, 2), (-1, 1), (5, 4));
    let inv = m.inverse().unwrap();
    let p = m.multiply(inv).unwrap();
    let one = Rational::from_int(1);
    let zero = Rational::from_int(0);
    assert!(p.a.same_value(one));
    assert!(p.b.same_value(zero));
    assert!(p.c.same_value(zero));
    assert!(p.d.same_value(one));
}

#[test]
fn inverse_times_matrix_is_identity() {
    let m = mat2((2, 3), (-5, 1), (1, 7), (4, 1));
    let inv = m.inverse().unwrap();
    let p = inv.multiply(m).unwrap();
    let one = Rational::from_int(1);
    let zero = Rational::from_int(0);
    assert!(p.a.same_value(one));
    assert!(p.b.same_value(zero));
    assert!(p.c.same_value(zero));
    assert!(p.d.same_value(one));
}
