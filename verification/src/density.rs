//! The exact part of the multivariate Gaussian density, and the posterior
//! combination of densities with the class prior.
//!
//! The density of a query point x under mean mu and covariance sigma is
//! (1 / (2 pi sqrt(det sigma))) * exp(-(1/2) diff^T sigma^-1 diff). The
//! determinant and the exponent are rational and are computed here exactly;
//! the square root, pi and the exponential are irrational, so the caller
//! finishes the evaluation from these two exact terms.

use vstd::prelude::*;
use crate::error::GdaError;
use crate::linalg::{
    Vector2f, Matrix2x2f, Vec2V, Mat2V, vec_minus, vec_apply, vec_dot, mat_det, ndot, napply,
    ndet, det_fits, apply_fits, dot_fits,
};
use crate::rational::{
    Rational, rat_eq, rat_lt, rat_le, rat_plus, rat_minus, rat_times, rat_neg, rat_abs,
    rat_div, rat_norm, rat_fits, lemma_prod_pos, lemma_norm_eq, lemma_rat_plus_cong,
    lemma_rat_times_cong, lemma_rat_div_cong, lemma_rat_eq_trans,
    lemma_rat_eq_sign, lemma_rat_lt_cong, lemma_rat_abs_cong, lemma_rat_neg_cong,
};

verus! {

/// The adjugate of a 2x2 matrix: swap the diagonal, negate the rest.
pub open spec fn mat_adjugate(m: Mat2V) -> Mat2V {
    Mat2V { a: m.d, b: rat_neg(m.b), c: rat_neg(m.c), d: m.a }
}

/// The numerator polynomial of the quadratic form:
/// (x - mu) * adjugate(sigma) * (x - mu), with the row vector convention.
pub open spec fn quad_numerator(x: Vec2V, mu: Vec2V, m: Mat2V) -> (int, int) {
    vec_dot(vec_apply(vec_minus(x, mu), mat_adjugate(m)), vec_minus(x, mu))
}

/// The exact Gaussian exponent -(1/2) diff^T sigma^-1 diff, written with a
/// single division: -(diff adj(sigma) diff) / (2 det(sigma)).
pub open spec fn quad_spec(x: Vec2V, mu: Vec2V, m: Mat2V) -> (int, int) {
    rat_div(rat_neg(quad_numerator(x, mu, m)), rat_times((2, 1), mat_det(m)))
}

/// The stored deviation of the query point from the mean, both
/// coordinates reduced.
pub open spec fn ndiff(x: Vec2V, mu: Vec2V) -> Vec2V {
    Vec2V { x: rat_norm(rat_minus(x.x, mu.x)), y: rat_norm(rat_minus(x.y, mu.y)) }
}

/// Every reduced intermediate of the quadratic-form evaluation is
/// representable: the deviation, the row-vector application against the
/// adjugate, the dot product, twice the determinant, and the final
/// quotient, each reduced as computed.
pub open spec fn density_fits(x: Vec2V, mu: Vec2V, m: Mat2V) -> bool {
    let d = ndiff(x, mu);
    let adj = mat_adjugate(m);
    let w = napply(d, adj);
    let ntd = rat_norm(rat_times((2, 1), ndet(m)));
    &&& rat_fits(rat_norm(rat_minus(x.x, mu.x)))
    &&& rat_fits(rat_norm(rat_minus(x.y, mu.y)))
    &&& apply_fits(d, adj)
    &&& dot_fits(w, d)
    &&& rat_fits(ntd)
    &&& rat_fits(rat_norm(rat_div(rat_neg(ndot(w, d)), ntd)))
}

/// The exact rational terms of a density evaluation: the determinant of
/// the covariance and the exponent of the exponential factor.
#[derive(Clone, Copy, Debug, PartialEq, Eq, Structural)]
pub struct DensityTerms {
    pub det: Rational,
    pub quad: Rational,
}

/// Computes the exact terms of the density of `x` under mean `mu` and
/// covariance `sigma`.
///
/// Fails with `DegenerateMatrix` when the magnitude of the determinant is
/// below 1 / 10^12; with `InvalidArgument` when the determinant is not
/// positive, since the square root of the normalization demands a positive
/// one; and with `Overflow` only when an exact intermediate leaves the
/// representable range.
pub fn density_terms(x: Vector2f, mu: Vector2f, sigma: Matrix2x2f) -> (r: Result<
    DensityTerms,
    GdaError,
>)
    requires
        x.wf(),
        mu.wf(),
        sigma.wf(),
    ensures
        r matches Ok(t) ==> t.det.wf() && t.quad.wf()
            && rat_eq(t.det@, mat_det(sigma@))
            && rat_lt((0int, 1int), mat_det(sigma@))
            && !rat_lt(rat_abs(mat_det(sigma@)), (1int, 1000000000000int))
            && rat_eq(t.quad@, quad_spec(x@, mu@, sigma@)),
        r is Ok <==> det_fits(sigma@) && !rat_lt(rat_abs(mat_det(sigma@)), (
            1int,
            1000000000000int,
        )) && rat_lt((0int, 1int), mat_det(sigma@)) && density_fits(x@, mu@, sigma@),
        r matches Err(e) ==> e == GdaError::DegenerateMatrix || e == GdaError::InvalidArgument
            || e == GdaError::Overflow,
        r matches Err(e) ==> (e == GdaError::DegenerateMatrix <==> det_fits(sigma@) && rat_lt(
            rat_abs(mat_det(sigma@)),
            (1int, 1000000000000int),
        )),
        r matches Err(e) ==> (e == GdaError::InvalidArgument <==> det_fits(sigma@) && !rat_lt(
            rat_abs(mat_det(sigma@)),
            (1int, 1000000000000int),
        ) && rat_le(mat_det(sigma@), (0int, 1int))),
{
    proof {
        lemma_prod_pos(sigma@.a.1, sigma@.d.1);
        lemma_prod_pos(sigma@.b.1, sigma@.c.1);
        lemma_prod_pos(sigma@.a.1 * sigma@.d.1, sigma@.b.1 * sigma@.c.1);
    }
    let det = match sigma.determinate() {
        Ok(v) => v,
        Err(e) => { return Err(e); },
    };
    let eps = Rational::unit_fraction(1000000000000);
    proof {
        lemma_rat_abs_cong(det@, mat_det(sigma@));
        lemma_rat_lt_cong(rat_abs(det@), eps@, rat_abs(mat_det(sigma@)), eps@);
    }
    if det.abs().less_than(eps) {
        return Err(GdaError::DegenerateMatrix);
    }
    let zero = Rational::from_int(0);
    proof {
        lemma_rat_lt_cong(det@, zero@, mat_det(sigma@), (0int, 1int));
        lemma_rat_lt_cong(zero@, det@, (0int, 1int), mat_det(sigma@));
    }
    if det.less_eq(zero) {
        return Err(GdaError::InvalidArgument);
    }
    proof {
        lemma_rat_eq_sign(det@, mat_det(sigma@));
        assert(det@.0 > 0);
    }
    let diff = match x.subtract(mu) {
        Ok(v) => v,
        Err(_) => { return Err(GdaError::Overflow); },
    };
    let ghost dv = vec_minus(x@, mu@);
    proof {
        lemma_prod_pos(x@.x.1, mu@.x.1);
        lemma_prod_pos(x@.y.1, mu@.y.1);
        lemma_norm_eq(rat_minus(x@.x, mu@.x));
        lemma_norm_eq(rat_minus(x@.y, mu@.y));
    }
    let adj = Matrix2x2f { a: sigma.d, b: sigma.b.negate(), c: sigma.c.negate(), d: sigma.a };
    proof {
        assert(adj@ == mat_adjugate(sigma@));
    }
    let w = match diff.mul_with_matrix2x2f(adj) {
        Ok(v) => v,
        Err(_) => { return Err(GdaError::Overflow); },
    };
    let ghost wv = vec_apply(dv, mat_adjugate(sigma@));
    proof {
        // carry the congruence from the stored diff to the exact one
        let av = vec_apply(diff@, adj@);
        lemma_rat_times_cong(diff@.x, adj@.a, dv.x, adj@.a);
        lemma_rat_times_cong(diff@.y, adj@.c, dv.y, adj@.c);
        lemma_rat_plus_cong(
            rat_times(diff@.x, adj@.a),
            rat_times(diff@.y, adj@.c),
            rat_times(dv.x, adj@.a),
            rat_times(dv.y, adj@.c),
        );
        lemma_rat_eq_trans(w@.x, av.x, wv.x);
        lemma_rat_times_cong(diff@.x, adj@.b, dv.x, adj@.b);
        lemma_rat_times_cong(diff@.y, adj@.d, dv.y, adj@.d);
        lemma_rat_plus_cong(
            rat_times(diff@.x, adj@.b),
            rat_times(diff@.y, adj@.d),
            rat_times(dv.x, adj@.b),
            rat_times(dv.y, adj@.d),
        );
        lemma_rat_eq_trans(w@.y, av.y, wv.y);
    }
    let qn = match w.dot_product(diff) {
        Ok(v) => v,
        Err(_) => { return Err(GdaError::Overflow); },
    };
    let ghost qnv = quad_numerator(x@, mu@, sigma@);
    proof {
        lemma_rat_times_cong(w@.x, diff@.x, wv.x, dv.x);
        lemma_rat_times_cong(w@.y, diff@.y, wv.y, dv.y);
        lemma_rat_plus_cong(
            rat_times(w@.x, diff@.x),
            rat_times(w@.y, diff@.y),
            rat_times(wv.x, dv.x),
            rat_times(wv.y, dv.y),
        );
        lemma_rat_eq_trans(qn@, vec_dot(w@, diff@), qnv);
    }
    let two = Rational::from_int(2);
    let two_det = match two.multiply(det) {
        Ok(v) => v,
        Err(_) => { return Err(GdaError::Overflow); },
    };
    proof {
        lemma_rat_times_cong(two@, det@, (2int, 1int), mat_det(sigma@));
        lemma_norm_eq(rat_times(two@, det@));
        lemma_rat_eq_trans(two_det@, rat_times(two@, det@), rat_times((2int, 1int), mat_det(
            sigma@,
        )));
        lemma_rat_eq_sign(two_det@, rat_times((2int, 1int), mat_det(sigma@)));
        assert(rat_times((2int, 1int), mat_det(sigma@)).0 > 0);
    }
    let qneg = qn.negate();
    let quad = match qneg.divide(two_det) {
        Ok(v) => v,
        Err(e) => {
            proof {
                assert(e == GdaError::Overflow);
            }
            return Err(GdaError::Overflow);
        },
    };
    proof {
        lemma_rat_neg_cong(qn@, qnv);
        lemma_rat_div_cong(
            rat_neg(qn@),
            two_det@,
            rat_neg(qnv),
            rat_times((2int, 1int), mat_det(sigma@)),
        );
        lemma_norm_eq(rat_div(rat_neg(qn@), two_det@));
        lemma_rat_eq_trans(quad@, rat_div(rat_neg(qn@), two_det@), quad_spec(x@, mu@, sigma@));
    }
    Ok(DensityTerms { det, quad })
}

/// The outcome of a posterior evaluation: the unnormalized joint scores,
/// the normalized posteriors, and the predicted class.
#[derive(Clone, Copy, Debug, PartialEq, Eq, Structural)]
pub struct Posterior {
    pub joint0: Rational,
    pub joint1: Rational,
    pub post0: Rational,
    pub post1: Rational,
    pub predicted: i32,
}

/// The joint score of class 0: density times the prior 1 - phi.
pub open spec fn joint0_spec(d0: (int, int), phi: (int, int)) -> (int, int) {
    rat_times(d0, rat_minus((1, 1), phi))
}

/// The joint score of class 1: density times the prior phi.
pub open spec fn joint1_spec(d1: (int, int), phi: (int, int)) -> (int, int) {
    rat_times(d1, phi)
}

/// The stored joint score of class 0: density times the reduced prior.
pub open spec fn njoint0(d0: (int, int), phi: (int, int)) -> (int, int) {
    rat_norm(rat_times(d0, rat_norm(rat_minus((1, 1), phi))))
}

/// The stored joint score of class 1.
pub open spec fn njoint1(d1: (int, int), phi: (int, int)) -> (int, int) {
    rat_norm(rat_times(d1, phi))
}

/// The stored sum of the two joint scores.
pub open spec fn njoint_sum(d0: (int, int), d1: (int, int), phi: (int, int)) -> (int, int) {
    rat_norm(rat_plus(njoint0(d0, phi), njoint1(d1, phi)))
}

/// Every reduced intermediate up to the sum of the joint scores is
/// representable.
pub open spec fn joints_fit(d0: (int, int), d1: (int, int), phi: (int, int)) -> bool {
    &&& rat_fits(rat_norm(rat_minus((1, 1), phi)))
    &&& rat_fits(njoint0(d0, phi))
    &&& rat_fits(njoint1(d1, phi))
    &&& rat_fits(njoint_sum(d0, d1, phi))
}

/// Every reduced intermediate of the posterior evaluation is representable:
/// the joint scores, their sum, and the two normalized quotients.
pub open spec fn posterior_fits(d0: (int, int), d1: (int, int), phi: (int, int)) -> bool {
    &&& joints_fit(d0, d1, phi)
    &&& rat_fits(rat_norm(rat_div(njoint0(d0, phi), njoint_sum(d0, d1, phi))))
    &&& rat_fits(rat_norm(rat_div(njoint1(d1, phi), njoint_sum(d0, d1, phi))))
}

/// Combines the two class-conditional densities with the prior into joint
/// scores, a prediction and normalized posteriors.
///
/// The predicted class is the one with the larger joint score, class 0 on
/// exact ties. Fails with `InvalidArgument` when both joint scores are
/// zero, since the posteriors cannot be normalized then, and with
/// `Overflow` only when an exact result leaves the representable range.
/// On success the two normalized posteriors sum to one, exactly.
pub fn posterior(d0: Rational, d1: Rational, phi: Rational) -> (r: Result<Posterior, GdaError>)
    requires
        d0.wf(),
        d1.wf(),
        phi.wf(),
        rat_le((0int, 1int), d0@),
        rat_le((0int, 1int), d1@),
        0 <= phi@.0 <= phi@.1,
    ensures
        r matches Ok(p) ==> p.joint0.wf() && p.joint1.wf() && p.post0.wf() && p.post1.wf()
            && rat_eq(p.joint0@, joint0_spec(d0@, phi@))
            && rat_eq(p.joint1@, joint1_spec(d1@, phi@))
            && p.predicted == (if rat_lt(joint0_spec(d0@, phi@), joint1_spec(d1@, phi@)) {
                1int
            } else {
                0int
            })
            && rat_eq(p.post0@, rat_div(joint0_spec(d0@, phi@), rat_plus(
                joint0_spec(d0@, phi@),
                joint1_spec(d1@, phi@),
            )))
            && rat_eq(p.post1@, rat_div(joint1_spec(d1@, phi@), rat_plus(
                joint0_spec(d0@, phi@),
                joint1_spec(d1@, phi@),
            )))
            && rat_eq(rat_plus(p.post0@, p.post1@), (1int, 1int)),
        r is Ok <==> posterior_fits(d0@, d1@, phi@) && !rat_eq(
            rat_plus(joint0_spec(d0@, phi@), joint1_spec(d1@, phi@)),
            (0int, 1int),
        ),
        r matches Err(e) ==> e == GdaError::InvalidArgument || e == GdaError::Overflow,
        r matches Err(e) ==> (e == GdaError::InvalidArgument <==> joints_fit(d0@, d1@, phi@)
            && rat_eq(
            rat_plus(joint0_spec(d0@, phi@), joint1_spec(d1@, phi@)),
            (0int, 1int),
        )),
{
    let one = Rational::from_int(1);
    let prior0 = match one.subtract(phi) {
        Ok(v) => v,
        Err(_) => { return Err(GdaError::Overflow); },
    };
    let joint0 = match d0.multiply(prior0) {
        Ok(v) => v,
        Err(_) => { return Err(GdaError::Overflow); },
    };
    let joint1 = match d1.multiply(phi) {
        Ok(v) => v,
        Err(_) => { return Err(GdaError::Overflow); },
    };
    let ghost j0 = joint0_spec(d0@, phi@);
    let ghost j1 = joint1_spec(d1@, phi@);
    proof {
        lemma_prod_pos(d0@.1, rat_minus((1int, 1int), phi@).1);
        lemma_prod_pos(d1@.1, phi@.1);
        lemma_norm_eq(rat_minus(one@, phi@));
        lemma_rat_times_cong(d0@, prior0@, d0@, rat_minus((1int, 1int), phi@));
        lemma_norm_eq(rat_times(d0@, prior0@));
        lemma_rat_eq_trans(joint0@, rat_times(d0@, prior0@), j0);
        lemma_norm_eq(rat_times(d1@, phi@));
        assert(rat_eq(joint1@, j1));
        // both joint scores are non-negative
        assert(d0@.0 >= 0 && d1@.0 >= 0);
        assert(rat_minus((1int, 1int), phi@).0 >= 0) by (nonlinear_arith)
            requires
                0 <= phi@.0 <= phi@.1,
        ;
        assert(j0.0 >= 0) by (nonlinear_arith)
            requires
                j0.0 == d0@.0 * rat_minus((1int, 1int), phi@).0,
                d0@.0 >= 0,
                rat_minus((1int, 1int), phi@).0 >= 0,
        ;
        assert(j1.0 >= 0) by (nonlinear_arith)
            requires
                j1.0 == d1@.0 * phi@.0,
                d1@.0 >= 0,
                phi@.0 >= 0,
        ;
        lemma_rat_eq_sign(joint0@, j0);
        lemma_rat_eq_sign(joint1@, j1);
        lemma_rat_lt_cong(joint0@, joint1@, j0, j1);
    }
    let predicted: i32 = if joint0.less_than(joint1) { 1 } else { 0 };
    let sum = match joint0.add(joint1) {
        Ok(v) => v,
        Err(_) => { return Err(GdaError::Overflow); },
    };
    let ghost sv = rat_plus(j0, j1);
    proof {
        lemma_rat_plus_cong(joint0@, joint1@, j0, j1);
        lemma_norm_eq(rat_plus(joint0@, joint1@));
        lemma_rat_eq_trans(sum@, rat_plus(joint0@, joint1@), sv);
        assert(sv.0 >= 0) by (nonlinear_arith)
            requires
                sv.0 == j0.0 * j1.1 + j1.0 * j0.1,
                j0.0 >= 0,
                j1.0 >= 0,
                j0.1 > 0,
                j1.1 > 0,
        ;
        lemma_rat_eq_sign(sum@, sv);
    }
    let zero = Rational::from_int(0);
    if sum.same_value(zero) {
        proof {
            lemma_rat_eq_trans(sv, sum@, (0int, 1int));
        }
        return Err(GdaError::InvalidArgument);
    }
    proof {
        assert(sum@.0 != 0);
        assert(sv.0 != 0) by {
            if sv.0 == 0 {
                assert(rat_eq(sum@, (0int, 1int)));
            }
        }
        assert(sv.0 > 0);
    }
    let post0 = match joint0.divide(sum) {
        Ok(v) => v,
        Err(e) => {
            proof {
                assert(e == GdaError::Overflow);
            }
            return Err(GdaError::Overflow);
        },
    };
    let post1 = match joint1.divide(sum) {
        Ok(v) => v,
        Err(e) => {
            proof {
                assert(e == GdaError::Overflow);
            }
            return Err(GdaError::Overflow);
        },
    };
    proof {
        lemma_rat_eq_sign(sum@, sv);
        lemma_rat_div_cong(joint0@, sum@, j0, sv);
        lemma_norm_eq(rat_div(joint0@, sum@));
        lemma_rat_eq_trans(post0@, rat_div(joint0@, sum@), rat_div(j0, sv));
        lemma_rat_div_cong(joint1@, sum@, j1, sv);
        lemma_norm_eq(rat_div(joint1@, sum@));
        lemma_rat_eq_trans(post1@, rat_div(joint1@, sum@), rat_div(j1, sv));
        // the normalized posteriors sum to one
        lemma_prod_pos(j0.1, sv.0);
        lemma_prod_pos(j1.1, sv.0);
        lemma_posterior_sum_one(j0, j1, sv);
        lemma_rat_plus_cong(post0@, post1@, rat_div(j0, sv), rat_div(j1, sv));
        lemma_rat_eq_trans(
            rat_plus(post0@, post1@),
            rat_plus(rat_div(j0, sv), rat_div(j1, sv)),
            (1int, 1int),
        );
    }
    Ok(Posterior { joint0, joint1, post0, post1, predicted })
}

/// Dividing two scores by their own sum gives shares that add to one.
proof fn lemma_posterior_sum_one(a: (int, int), b: (int, int), s: (int, int))
    requires
        a.1 > 0,
        b.1 > 0,
        s.0 > 0,
        s.1 > 0,
        s == rat_plus(a, b),
    ensures
        rat_eq(rat_plus(rat_div(a, s), rat_div(b, s)), (1int, 1int)),
{
    let a0 = a.0; let a1 = a.1; let b0 = b.0; let b1 = b.1; let s0 = s.0; let s1 = s.1;
    // numerator of the sum of shares: (a0*s1)*(b1*s0) + (b0*s1)*(a1*s0)
    // denominator: (a1*s0)*(b1*s0); equality follows from s0 = value of a+b
    vstd::arithmetic::mul::lemma_mul_is_distributive_add_other_way(s1, a0 * b1, b0 * a1);
    vstd::arithmetic::mul::lemma_mul_is_distributive_add_other_way(
        s0,
        (a0 * b1) * s1,
        (b0 * a1) * s1,
    );
    assert((a0 * s1) * (b1 * s0) == ((a0 * b1) * s1) * s0) by (nonlinear_arith);
    assert((b0 * s1) * (a1 * s0) == ((b0 * a1) * s1) * s0) by (nonlinear_arith);
    assert((a0 * s1) * (b1 * s0) + (b0 * s1) * (a1 * s0) == ((a0 * b1 + b0 * a1) * s1) * s0);
    assert(s0 * (a1 * b1) == (a0 * b1 + b0 * a1) * s1) by {
        assert(s0 == a0 * b1 + b0 * a1 && s1 == a1 * b1);
        assert(s0 * (a1 * b1) == (a1 * b1) * s0) by (nonlinear_arith);
        assert((a0 * b1 + b0 * a1) * s1 == s1 * (a0 * b1 + b0 * a1)) by (nonlinear_arith);
        assert((a1 * b1) * s0 == s1 * (a0 * b1 + b0 * a1)) by (nonlinear_arith)
            requires
                s0 == a0 * b1 + b0 * a1,
                s1 == a1 * b1,
        ;
    }
    assert(((a0 * b1 + b0 * a1) * s1) * s0 == (s0 * (a1 * b1)) * s0) by (nonlinear_arith)
        requires
            (a0 * b1 + b0 * a1) * s1 == s0 * (a1 * b1),
    ;
    assert((s0 * (a1 * b1)) * s0 == (a1 * s0) * (b1 * s0)) by (nonlinear_arith);
}

} // verus!
