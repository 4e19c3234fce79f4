use gda::error::GdaError;
use gda::estimate::{estimate, Observation};
use gda::rational::Rational;

fn rat(n: i64, d: i64) -> Rational {
    Rational::new(n, d).unwrap()
}

fn obs(xn: i64, xd: i64, yn: i64, yd: i64, class: i32) -> Observation {
    Observation { x: rat(xn, xd), y: rat(yn, yd), class }
}

fn int_obs(x: i64, y: i64, class: i32) -> Observation {
    Observation { x: Rational::from_int(x), y: Rational::from_int(y), class }
}

#[test]
fn scenario_two_points_per_class() {
    // dataset {(0,0,0), (0,1,0), (5,5,1), (5,6,1)}
    let data = vec![int_obs(0, 0, 0), int_obs(0, 1, 0), int_obs(5, 5, 1), int_obs(5, 6, 1)];
    let p = estimate(&data).unwrap();
    assert_eq!((p.phi.num(), p.phi.den()), (1, 2));
    assert_eq!((p.mu0.x.num(), p.mu0.x.den()), (0, 1));
    assert_eq!((p.mu0.y.num(), p.mu0.y.den()), (1, 2));
    assert_eq!((p.mu1.x.num(), p.mu1.x.den()), (5, 1));
    assert_eq!((p.mu1.y.num(), p.mu1.y.den()), (11, 2));
    // all x deviations vanish, so only the yy entry of sigma is non-zero:
    // four outer products of (0, +-1/2) summed and divided by 4
    assert_eq!((p.sigma.a.num(), p.sigma.a.den()), (0, 1));
    assert_eq!((p.sigma.b.num(), p.sigma.b.den()), (0, 1));
    assert_eq!((p.sigma.c.num(), p.sigma.c.den()), (0, 1));
    assert_eq!((p.sigma.d.num(), p.sigma.d.den()), (1, 4));
}

#[test]
fn phi_is_the_exact_fraction_of_class_one() {
    let data = vec![
        int_obs(0, 0, 1),
        int_obs(1, 0, 1),
        int_obs(2, 0, 1),
        int_obs(3, 0, 0),
    ];
    let p = estimate(&data).unwrap();
    assert_eq!((p.phi.num(), p.phi.den()), (3, 4));
}

#[test]
fn means_match_hand_computed_reference() {
    let data = vec![
        obs(1, 2, 1, 1, 0),
        obs(3, 2, 2, 1, 0),
        obs(1, 3, 1, 3, 1),
        obs(2, 3, 2, 3, 1),
        obs(3, 3, 3, 3, 1),
    ];
    let p = estimate(&data).unwrap();
    // class 0: mean of 1/2, 3/2 is 1; mean of 1, 2 is 3/2
    assert_eq!((p.mu0.x.num(), p.mu0.x.den()), (1, 1));
    assert_eq!((p.mu0.y.num(), p.mu0.y.den()), (3, 2));
    // class 1: mean of 1/3, 2/3, 1 is 2/3, same for y
    assert_eq!((p.mu1.x.num(), p.mu1.x.den()), (2, 3));
    assert_eq!((p.mu1.y.num(), p.mu1.y.den()), (2, 3));
}

#[test]
fn sigma_is_exactly_symmetric() {
    let data = vec![
        int_obs(0, 0, 0),
        int_obs(1, 3, 0),
        int_obs(4, 1, 1),
        int_obs(6, 2, 1),
        int_obs(5, 0, 1),
    ];
    let p = estimate(&data).unwrap();
    assert!(p.sigma.b.same_value(p.sigma.c));
    assert_eq!((p.sigma.b.num(), p.sigma.b.den()), (p.sigma.c.num(), p.sigma.c.den()));
}

#[test]
fn pooled_covariance_matches_hand_computed_reference() {
    // class 0: (0,0), (2,0); class 1: (0,2), (2,2) — deviations (+-1, 0)
    let data = vec![int_obs(0, 0, 0), int_obs(2, 0, 0), int_obs(0, 2, 1), int_obs(2, 2, 1)];
    let p = estimate(&data).unwrap();
    assert_eq!((p.sigma.a.num(), p.sigma.a.den()), (1, 1));
    assert_eq!((p.sigma.b.num(), p.sigma.b.den()), (0, 1));
    assert_eq!((p.sigma.c.num(), p.sigma.c.den()), (0, 1));
    assert_eq!((p.sigma.d.num(), p.sigma.d.den()), (0, 1));
}

#[test]
fn empty_dataset_is_rejected() {
    let data: Vec<Observation> = vec![];
    assert!(matches!(estimate(&data), Err(GdaError::EmptyDataset)));
}

#[test]
fn single_class_dataset_is_rejected() {
    let data = vec![int_obs(0, 0, 0), int_obs(1, 1, 0)];
    assert!(matches!(estimate(&data), Err(GdaError::EmptyClass)));
}

#[test]
fn out_of_range_class_label_is_rejected() {
    let data = vec![int_obs(0, 0, 0), int_obs(1, 1, 1), int_obs(2, 2, 2)];
    assert!(matches!(estimate(&data), Err(GdaError::InvalidClassLabel)));
}

#[test]
fn negative_class_label_is_rejected() {
    let data = vec![int_obs(0, 0, -1), int_obs(1, 1, 1)];
    assert!(matches!(estimate(&data), Err(GdaError::InvalidClassLabel)));
}
