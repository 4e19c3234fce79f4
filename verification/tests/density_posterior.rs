use gda::error::GdaError;
use gda::density::{density_terms, posterior, DensityTerms};
use gda::estimate::{estimate, Observation};
use gda::linalg::{Matrix2x2f, Vector2f};
use gda::rational::Rational;

fn rat(n: i64, d: i64) -> Rational {
    Rational::new(n, d).unwrap()
}

fn int_vec(x: i64, y: i64) -> Vector2f {
    Vector2f { x: Rational::from_int(x), y: Rational::from_int(y) }
}

fn int_obs(x: i64, y: i64, class: i32) -> Observation {
    Observation { x: Rational::from_int(x), y: Rational::from_int(y), class }
}

fn identity() -> Matrix2x2f {
    Matrix2x2f {
        a: Rational::from_int(1),
        b: Rational::from_int(0),
        c: Rational::from_int(0),
        d: Rational::from_int(1),
    }
}

fn to_f64(r: Rational) -> f64 {
    r.num() as f64 / r.den() as f64
}

/// Finishes the density evaluation from its exact terms.
fn density_value(t: &DensityTerms) -> f64 {
    let norm = 1.0 / (2.0 * std::f64::consts::PI * to_f64(t.det).sqrt());
    norm * to_f64(t.quad).exp()
}

fn rat_from_f64(v: f64) -> Rational {
    let scaled = (v * 1e12).round() as i64;
    Rational::new(scaled.max(0), 1_000_000_000_000).unwrap()
}

#[test]
fn quad_is_zero_at_the_mean() {
    let t = density_terms(int_vec(0, 0), int_vec(0, 0), identity()).unwrap();
    assert_eq!((t.det.num(), t.det.den()), (1, 1));
    assert_eq!((t.quad.num(), t.quad.den()), (0, 1));
}

#[test]
fn quad_matches_hand_computed_reference() {
    // diff (1,1), identity covariance: quad = -(1+1)/2 = -1
    let t = density_terms(int_vec(1, 1), int_vec(0, 0), identity()).unwrap();
    assert_eq!((t.quad.num(), t.quad.den()), (-1, 1));
}

#[test]
fn density_fails_on_singular_covariance() {
    let m = Matrix2x2f {
        a: Rational::from_int(1),
        b: Rational::from_int(2),
        c: Rational::from_int(2),
        d: Rational::from_int(4),
    };
    let r = density_terms(int_vec(0, 0), int_vec(0, 0), m);
    assert!(matches!(r, Err(GdaError::DegenerateMatrix)));
}

#[test]
fn density_fails_on_negative_determinant() {
    let m = Matrix2x2f {
        a: Rational::from_int(0),
        b: Rational::from_int(1),
        c: Rational::from_int(1),
        d: Rational::from_int(0),
    };
    let r = density_terms(int_vec(0, 0), int_vec(0, 0), m);
    assert!(matches!(r, Err(GdaError::InvalidArgument)));
}

#[test]
fn density_value_is_strictly_positive() {
    let points = [(0i64, 0i64), (1, 1), (-3, 2), (10, -10)];
    for (x, y) in points {
        let t = density_terms(int_vec(x, y), int_vec(0, 0), identity()).unwrap();
        assert!(density_value(&t) > 0.0);
    }
    let m = Matrix2x2f { a: rat(5, 1), b: rat(1, 2), c: rat(1, 2), d: rat(3, 1) };
    let t = density_terms(int_vec(4, -1), int_vec(1, 1), m).unwrap();
    assert!(density_value(&t) > 0.0);
}

#[test]
fn posterior_scores_and_prediction() {
    let p = posterior(rat(1, 5), rat(3, 5), rat(1, 2)).unwrap();
    assert_eq!((p.joint0.num(), p.joint0.den()), (1, 10));
    assert_eq!((p.joint1.num(), p.joint1.den()), (3, 10));
    assert_eq!(p.predicted, 1);
    assert_eq!((p.post0.num(), p.post0.den()), (1, 4));
    assert_eq!((p.post1.num(), p.post1.den()), (3, 4));
}

#[test]
fn posteriors_sum_to_one_exactly() {
    let p = posterior(rat(7, 13), rat(2, 11), rat(3, 7)).unwrap();
    let s = p.post0.add(p.post1).unwrap();
    assert_eq!((s.num(), s.den()), (1, 1));
}

#[test]
fn exact_ties_go_to_class_zero() {
    let p = posterior(rat(1, 2), rat(1, 2), rat(1, 2)).unwrap();
    assert_eq!(p.predicted, 0);
    assert!(p.joint0.same_value(p.joint1));
}

#[test]
fn posterior_rejects_two_zero_scores() {
    let zero = Rational::from_int(0);
    let r = posterior(zero, zero, rat(1, 2));
    assert!(matches!(r, Err(GdaError::InvalidArgument)));
}

#[test]
fn end_to_end_query_prefers_the_nearer_class() {
    // a dataset whose pooled covariance is invertible
    let data = vec![
        int_obs(0, 0, 0),
        int_obs(1, 1, 0),
        int_obs(5, 5, 1),
        int_obs(6, 4, 1),
    ];
    let p = estimate(&data).unwrap();
    assert_eq!((p.phi.num(), p.phi.den()), (1, 2));
    let q = int_vec(5, 5);
    let t0 = density_terms(q, p.mu0, p.sigma).unwrap();
    let t1 = density_terms(q, p.mu1, p.sigma).unwrap();
    let d0 = rat_from_f64(density_value(&t0));
    let d1 = rat_from_f64(density_value(&t1));
    let post = posterior(d0, d1, p.phi).unwrap();
    assert!(post.joint0.less_than(post.joint1));
    assert_eq!(post.predicted, 1);
}
