//! Maximum-likelihood parameter estimation for the two-class Gaussian
//! discriminant model: class prior, per-class means, and pooled covariance,
//! all computed exactly.

use vstd::prelude::*;
use crate::error::GdaError;
use crate::linalg::{
    Vector2f, Matrix2x2f, Vec2V, Mat2V, vec_outer, mat_plus, vec_dens_pos, mat_dens_pos,
};
use crate::rational::{
    Rational, rat_eq, rat_plus, rat_minus, rat_times, rat_div, rat_norm, rat_fits, rat_le,
    rat_signed, lemma_prod_pos, lemma_norm_eq, lemma_rat_plus_cong, lemma_rat_minus_cong,
    lemma_rat_times_cong, lemma_rat_div_cong, lemma_rat_eq_trans, lemma_rat_eq_sign,
    lemma_rat_lt_cong,
};

verus! {

/// One labeled observation: a point of the plane and its class.
#[derive(Clone, Copy, Debug, PartialEq, Eq, Structural)]
pub struct Observation {
    pub x: Rational,
    pub y: Rational,
    pub class: i32,
}

/// Mathematical value of an observation.
pub ghost struct ObsV {
    pub x: (int, int),
    pub y: (int, int),
    pub class: int,
}

impl View for Observation {
    type V = ObsV;

    open spec fn view(&self) -> ObsV {
        ObsV { x: self.x@, y: self.y@, class: self.class as int }
    }
}

impl Observation {
    /// Both coordinates satisfy the scalar invariant.
    pub open spec fn wf(self) -> bool {
        self.x.wf() && self.y.wf()
    }

    /// Builds an observation from its parts.
    pub fn new(x: Rational, y: Rational, class: i32) -> (r: Observation)
        ensures
            r@ == (ObsV { x: x@, y: y@, class: class as int }),
    {
        Observation { x, y, class }
    }
}

/// Every observation of the sequence satisfies the scalar invariant.
pub open spec fn all_wf(s: Seq<Observation>) -> bool {
    forall|j: int| 0 <= j < s.len() ==> (#[trigger] s[j]).wf()
}

/// Every class label of the sequence is 0 or 1.
pub open spec fn valid_labels(s: Seq<Observation>) -> bool {
    forall|j: int| 0 <= j < s.len() ==> ((#[trigger] s[j])@.class == 0 || s[j]@.class == 1)
}

/// How many observations carry the class label `k`.
pub open spec fn count_label(s: Seq<Observation>, k: int) -> int
    decreases s.len(),
{
    if s.len() == 0 {
        0
    } else {
        count_label(s.drop_last(), k) + if s.last()@.class == k { 1int } else { 0int }
    }
}

/// Exact sum of the x coordinates of the observations labeled `k`.
pub open spec fn sum_x(s: Seq<Observation>, k: int) -> (int, int)
    decreases s.len(),
{
    if s.len() == 0 {
        (0, 1)
    } else {
        let p = sum_x(s.drop_last(), k);
        if s.last()@.class == k { rat_plus(p, s.last()@.x) } else { p }
    }
}

/// Exact sum of the y coordinates of the observations labeled `k`.
pub open spec fn sum_y(s: Seq<Observation>, k: int) -> (int, int)
    decreases s.len(),
{
    if s.len() == 0 {
        (0, 1)
    } else {
        let p = sum_y(s.drop_last(), k);
        if s.last()@.class == k { rat_plus(p, s.last()@.y) } else { p }
    }
}

/// The mean of class `k`: the coordinate sums divided by the class count.
pub open spec fn mu_vec(s: Seq<Observation>, k: int) -> Vec2V {
    Vec2V {
        x: rat_div(sum_x(s, k), (count_label(s, k), 1)),
        y: rat_div(sum_y(s, k), (count_label(s, k), 1)),
    }
}

/// Deviation of one observation from the mean of its own class.
pub open spec fn deviation(o: Observation, mu0: Vec2V, mu1: Vec2V) -> Vec2V {
    let mu = if o@.class == 1 { mu1 } else { mu0 };
    Vec2V { x: rat_minus(o@.x, mu.x), y: rat_minus(o@.y, mu.y) }
}

/// Exact sum of the outer products of the within-class deviations.
pub open spec fn cov_sum(s: Seq<Observation>, mu0: Vec2V, mu1: Vec2V) -> Mat2V
    decreases s.len(),
{
    if s.len() == 0 {
        Mat2V { a: (0, 1), b: (0, 1), c: (0, 1), d: (0, 1) }
    } else {
        let dv = deviation(s.last(), mu0, mu1);
        mat_plus(cov_sum(s.drop_last(), mu0, mu1), vec_outer(dv, dv))
    }
}

/// The pooled covariance: the deviation outer-product sum, with every
/// observation measured against its own class mean, divided by the total
/// sample count.
pub open spec fn sigma_spec(s: Seq<Observation>) -> Mat2V {
    let cov = cov_sum(s, mu_vec(s, 0), mu_vec(s, 1));
    Mat2V {
        a: rat_div(cov.a, (s.len() as int, 1)),
        b: rat_div(cov.b, (s.len() as int, 1)),
        c: rat_div(cov.c, (s.len() as int, 1)),
        d: rat_div(cov.d, (s.len() as int, 1)),
    }
}

// ---------------------------------------------------------------------------
// Stored-result mirrors: the same folds with every stored scalar reduced,
// exactly as the accumulation loops compute them, and the predicates saying
// that every reduced intermediate is representable. Estimation returns Ok
// on a valid dataset exactly when `estimate_fits` holds of it.
// ---------------------------------------------------------------------------

/// The stored x-coordinate sum of class `k`: each addition reduced.
pub open spec fn nsum_x(s: Seq<Observation>, k: int) -> (int, int)
    decreases s.len(),
{
    if s.len() == 0 {
        (0, 1)
    } else {
        let p = nsum_x(s.drop_last(), k);
        if s.last()@.class == k { rat_norm(rat_plus(p, s.last()@.x)) } else { p }
    }
}

/// The stored y-coordinate sum of class `k`: each addition reduced.
pub open spec fn nsum_y(s: Seq<Observation>, k: int) -> (int, int)
    decreases s.len(),
{
    if s.len() == 0 {
        (0, 1)
    } else {
        let p = nsum_y(s.drop_last(), k);
        if s.last()@.class == k { rat_norm(rat_plus(p, s.last()@.y)) } else { p }
    }
}

/// Every reduced partial coordinate sum is representable, in the order the
/// accumulation visits them.
pub open spec fn sums_fit(s: Seq<Observation>) -> bool
    decreases s.len(),
{
    if s.len() == 0 {
        true
    } else {
        let p = s.drop_last();
        let o = s.last();
        sums_fit(p) && if o@.class == 0 {
            rat_fits(rat_norm(rat_plus(nsum_x(p, 0), o@.x))) && rat_fits(
                rat_norm(rat_plus(nsum_y(p, 0), o@.y)),
            )
        } else {
            rat_fits(rat_norm(rat_plus(nsum_x(p, 1), o@.x))) && rat_fits(
                rat_norm(rat_plus(nsum_y(p, 1), o@.y)),
            )
        }
    }
}

/// The stored mean of class `k`: each coordinate sum divided once by the
/// class count and reduced.
pub open spec fn nmu(s: Seq<Observation>, k: int) -> Vec2V {
    Vec2V {
        x: rat_norm(rat_div(nsum_x(s, k), (count_label(s, k), 1))),
        y: rat_norm(rat_div(nsum_y(s, k), (count_label(s, k), 1))),
    }
}

/// Both reduced mean quotients of both classes are representable.
pub open spec fn means_fit(s: Seq<Observation>) -> bool {
    &&& rat_fits(rat_norm(rat_div(nsum_x(s, 0), (count_label(s, 0), 1))))
    &&& rat_fits(rat_norm(rat_div(nsum_y(s, 0), (count_label(s, 0), 1))))
    &&& rat_fits(rat_norm(rat_div(nsum_x(s, 1), (count_label(s, 1), 1))))
    &&& rat_fits(rat_norm(rat_div(nsum_y(s, 1), (count_label(s, 1), 1))))
}

/// The stored covariance accumulator: deviations, outer products and
/// additions reduced as computed, against the stored means.
pub open spec fn ncov(s: Seq<Observation>, mu0: Vec2V, mu1: Vec2V) -> Mat2V
    decreases s.len(),
{
    if s.len() == 0 {
        Mat2V { a: (0, 1), b: (0, 1), c: (0, 1), d: (0, 1) }
    } else {
        let p = ncov(s.drop_last(), mu0, mu1);
        let o = s.last();
        let mu = if o@.class == 1 { mu1 } else { mu0 };
        let dx = rat_norm(rat_minus(o@.x, mu.x));
        let dy = rat_norm(rat_minus(o@.y, mu.y));
        Mat2V {
            a: rat_norm(rat_plus(p.a, rat_norm(rat_times(dx, dx)))),
            b: rat_norm(rat_plus(p.b, rat_norm(rat_times(dx, dy)))),
            c: rat_norm(rat_plus(p.c, rat_norm(rat_times(dy, dx)))),
            d: rat_norm(rat_plus(p.d, rat_norm(rat_times(dy, dy)))),
        }
    }
}

/// Every reduced intermediate of the covariance accumulation is
/// representable.
pub open spec fn ncov_fits(s: Seq<Observation>, mu0: Vec2V, mu1: Vec2V) -> bool
    decreases s.len(),
{
    if s.len() == 0 {
        true
    } else {
        let p = s.drop_last();
        let o = s.last();
        let mu = if o@.class == 1 { mu1 } else { mu0 };
        let dx = rat_norm(rat_minus(o@.x, mu.x));
        let dy = rat_norm(rat_minus(o@.y, mu.y));
        let prev = ncov(p, mu0, mu1);
        &&& ncov_fits(p, mu0, mu1)
        &&& rat_fits(dx)
        &&& rat_fits(dy)
        &&& rat_fits(rat_norm(rat_times(dx, dx)))
        &&& rat_fits(rat_norm(rat_times(dx, dy)))
        &&& rat_fits(rat_norm(rat_times(dy, dx)))
        &&& rat_fits(rat_norm(rat_times(dy, dy)))
        &&& rat_fits(rat_norm(rat_plus(prev.a, rat_norm(rat_times(dx, dx)))))
        &&& rat_fits(rat_norm(rat_plus(prev.b, rat_norm(rat_times(dx, dy)))))
        &&& rat_fits(rat_norm(rat_plus(prev.c, rat_norm(rat_times(dy, dx)))))
        &&& rat_fits(rat_norm(rat_plus(prev.d, rat_norm(rat_times(dy, dy)))))
    }
}

/// Every reduced intermediate of the whole estimation is representable:
/// the prior fraction, the running coordinate sums, the mean quotients,
/// the covariance accumulation against the stored means, and the final
/// division of each covariance entry by the sample count.
pub open spec fn estimate_fits(s: Seq<Observation>) -> bool {
    let m = s.len() as int;
    let cov = ncov(s, nmu(s, 0), nmu(s, 1));
    &&& m <= i64::MAX as int
    &&& rat_fits(rat_norm((count_label(s, 1), m)))
    &&& sums_fit(s)
    &&& means_fit(s)
    &&& ncov_fits(s, nmu(s, 0), nmu(s, 1))
    &&& rat_fits(rat_norm(rat_div(cov.a, (m, 1))))
    &&& rat_fits(rat_norm(rat_div(cov.b, (m, 1))))
    &&& rat_fits(rat_norm(rat_div(cov.c, (m, 1))))
    &&& rat_fits(rat_norm(rat_div(cov.d, (m, 1))))
}

/// The fitted model: prior of class 1, the two class means, and the shared
/// covariance.
#[derive(Clone, Copy, Debug, PartialEq, Eq, Structural)]
pub struct GdaParameters {
    pub phi: Rational,
    pub mu0: Vector2f,
    pub mu1: Vector2f,
    pub sigma: Matrix2x2f,
}

impl GdaParameters {
    /// Every stored scalar satisfies the scalar invariant.
    pub open spec fn wf(self) -> bool {
        self.phi.wf() && self.mu0.wf() && self.mu1.wf() && self.sigma.wf()
    }
}

/// The stored coordinate sums denote the exact ones and keep positive
/// denominators.
proof fn lemma_nsum_eq(s: Seq<Observation>, k: int)
    requires
        all_wf(s),
    ensures
        sum_x(s, k).1 > 0,
        sum_y(s, k).1 > 0,
        nsum_x(s, k).1 > 0,
        nsum_y(s, k).1 > 0,
        rat_eq(nsum_x(s, k), sum_x(s, k)),
        rat_eq(nsum_y(s, k), sum_y(s, k)),
    decreases s.len(),
{
    if s.len() > 0 {
        assert(all_wf(s.drop_last())) by {
            assert(forall|j: int| 0 <= j < s.len() - 1 ==> (#[trigger] s.drop_last()[j]) == s[j]);
        }
        lemma_nsum_eq(s.drop_last(), k);
        let o = s.last();
        assert(o.wf());
        if o@.class == k {
            let px = nsum_x(s.drop_last(), k);
            let py = nsum_y(s.drop_last(), k);
            lemma_prod_pos(sum_x(s.drop_last(), k).1, o@.x.1);
            lemma_prod_pos(sum_y(s.drop_last(), k).1, o@.y.1);
            lemma_rat_plus_cong(px, o@.x, sum_x(s.drop_last(), k), o@.x);
            lemma_norm_eq(rat_plus(px, o@.x));
            lemma_rat_eq_trans(nsum_x(s, k), rat_plus(px, o@.x), sum_x(s, k));
            lemma_rat_plus_cong(py, o@.y, sum_y(s.drop_last(), k), o@.y);
            lemma_norm_eq(rat_plus(py, o@.y));
            lemma_rat_eq_trans(nsum_y(s, k), rat_plus(py, o@.y), sum_y(s, k));
        }
    }
}

/// The deviation outer-product sum over well-formed observations has
/// positive denominators, and its off-diagonal entries are the same pair.
proof fn lemma_cov_sum_props(s: Seq<Observation>, mu0: Vec2V, mu1: Vec2V)
    requires
        all_wf(s),
        vec_dens_pos(mu0),
        vec_dens_pos(mu1),
    ensures
        mat_dens_pos(cov_sum(s, mu0, mu1)),
        cov_sum(s, mu0, mu1).b == cov_sum(s, mu0, mu1).c,
    decreases s.len(),
{
    if s.len() > 0 {
        assert(all_wf(s.drop_last())) by {
            assert(forall|j: int| 0 <= j < s.len() - 1 ==> (#[trigger] s.drop_last()[j]) == s[j]);
        }
        lemma_cov_sum_props(s.drop_last(), mu0, mu1);
        let o = s.last();
        assert(o.wf());
        let dv = deviation(o, mu0, mu1);
        let mu = if o@.class == 1 { mu1 } else { mu0 };
        lemma_prod_pos(o@.x.1, mu.x.1);
        lemma_prod_pos(o@.y.1, mu.y.1);
        lemma_prod_pos(dv.x.1, dv.x.1);
        lemma_prod_pos(dv.x.1, dv.y.1);
        lemma_prod_pos(dv.y.1, dv.x.1);
        lemma_prod_pos(dv.y.1, dv.y.1);
        let prev = cov_sum(s.drop_last(), mu0, mu1);
        lemma_prod_pos(prev.a.1, rat_times(dv.x, dv.x).1);
        lemma_prod_pos(prev.b.1, rat_times(dv.x, dv.y).1);
        lemma_prod_pos(prev.c.1, rat_times(dv.y, dv.x).1);
        lemma_prod_pos(prev.d.1, rat_times(dv.y, dv.y).1);
        crate::rational::lemma_rat_times_comm(dv.x, dv.y);
    }
}

/// The stored covariance accumulator denotes the exact deviation
/// outer-product sum taken against any means that denote the stored ones.
proof fn lemma_ncov_eq(s: Seq<Observation>, mu0: Vec2V, mu1: Vec2V, imu0: Vec2V, imu1: Vec2V)
    requires
        all_wf(s),
        vec_dens_pos(mu0),
        vec_dens_pos(mu1),
        vec_dens_pos(imu0),
        vec_dens_pos(imu1),
        rat_eq(mu0.x, imu0.x),
        rat_eq(mu0.y, imu0.y),
        rat_eq(mu1.x, imu1.x),
        rat_eq(mu1.y, imu1.y),
    ensures
        ncov(s, mu0, mu1).a.1 > 0,
        ncov(s, mu0, mu1).b.1 > 0,
        ncov(s, mu0, mu1).c.1 > 0,
        ncov(s, mu0, mu1).d.1 > 0,
        rat_eq(ncov(s, mu0, mu1).a, cov_sum(s, imu0, imu1).a),
        rat_eq(ncov(s, mu0, mu1).b, cov_sum(s, imu0, imu1).b),
        rat_eq(ncov(s, mu0, mu1).c, cov_sum(s, imu0, imu1).c),
        rat_eq(ncov(s, mu0, mu1).d, cov_sum(s, imu0, imu1).d),
    decreases s.len(),
{
    lemma_cov_sum_props(s, imu0, imu1);
    if s.len() > 0 {
        assert(all_wf(s.drop_last())) by {
            assert(forall|j: int| 0 <= j < s.len() - 1 ==> (#[trigger] s.drop_last()[j]) == s[j]);
        }
        lemma_ncov_eq(s.drop_last(), mu0, mu1, imu0, imu1);
        lemma_cov_sum_props(s.drop_last(), imu0, imu1);
        let o = s.last();
        assert(o.wf());
        let mu = if o@.class == 1 { mu1 } else { mu0 };
        let imu = if o@.class == 1 { imu1 } else { imu0 };
        let dxr = rat_minus(o@.x, mu.x);
        let dyr = rat_minus(o@.y, mu.y);
        let dx = rat_norm(dxr);
        let dy = rat_norm(dyr);
        let idv = deviation(o, imu0, imu1);
        lemma_prod_pos(o@.x.1, mu.x.1);
        lemma_prod_pos(o@.y.1, mu.y.1);
        lemma_prod_pos(o@.x.1, imu.x.1);
        lemma_prod_pos(o@.y.1, imu.y.1);
        // the reduced deviations denote the exact ones
        lemma_rat_minus_cong(o@.x, mu.x, o@.x, imu.x);
        lemma_norm_eq(dxr);
        lemma_rat_eq_trans(dx, dxr, idv.x);
        lemma_rat_minus_cong(o@.y, mu.y, o@.y, imu.y);
        lemma_norm_eq(dyr);
        lemma_rat_eq_trans(dy, dyr, idv.y);
        // the reduced outer-product entries denote the exact ones
        let prev = ncov(s.drop_last(), mu0, mu1);
        let iprev = cov_sum(s.drop_last(), imu0, imu1);
        lemma_step_entry(prev.a, dx, dx, iprev.a, idv.x, idv.x);
        lemma_step_entry(prev.b, dx, dy, iprev.b, idv.x, idv.y);
        lemma_step_entry(prev.c, dy, dx, iprev.c, idv.y, idv.x);
        lemma_step_entry(prev.d, dy, dy, iprev.d, idv.y, idv.y);
    }
}

/// One covariance entry step: the reduced sum of the accumulator and the
/// reduced product denotes the exact sum of their exact counterparts.
proof fn lemma_step_entry(
    acc: (int, int), u: (int, int), v: (int, int), iacc: (int, int), iu: (int, int),
    iv: (int, int),
)
    requires
        acc.1 > 0,
        u.1 > 0,
        v.1 > 0,
        iacc.1 > 0,
        iu.1 > 0,
        iv.1 > 0,
        rat_eq(acc, iacc),
        rat_eq(u, iu),
        rat_eq(v, iv),
    ensures
        rat_norm(rat_plus(acc, rat_norm(rat_times(u, v)))).1 > 0,
        rat_eq(
            rat_norm(rat_plus(acc, rat_norm(rat_times(u, v)))),
            rat_plus(iacc, rat_times(iu, iv)),
        ),
{
    lemma_rat_times_cong(u, v, iu, iv);
    lemma_norm_eq(rat_times(u, v));
    lemma_rat_eq_trans(rat_norm(rat_times(u, v)), rat_times(u, v), rat_times(iu, iv));
    lemma_rat_plus_cong(acc, rat_norm(rat_times(u, v)), iacc, rat_times(iu, iv));
    lemma_norm_eq(rat_plus(acc, rat_norm(rat_times(u, v))));
    lemma_rat_eq_trans(
        rat_norm(rat_plus(acc, rat_norm(rat_times(u, v)))),
        rat_plus(acc, rat_norm(rat_times(u, v))),
        rat_plus(iacc, rat_times(iu, iv)),
    );
}

/// A fitting accumulation still fits on every prefix.
proof fn lemma_sums_fit_prefix(s: Seq<Observation>, j: int)
    requires
        sums_fit(s),
        0 <= j <= s.len(),
    ensures
        sums_fit(s.take(j)),
    decreases s.len(),
{
    if j == s.len() {
        assert(s.take(j) =~= s);
    } else {
        lemma_sums_fit_prefix(s.drop_last(), j);
        assert(s.take(j) =~= s.drop_last().take(j));
    }
}

/// A fitting covariance accumulation still fits on every prefix.
proof fn lemma_ncov_fits_prefix(s: Seq<Observation>, mu0: Vec2V, mu1: Vec2V, j: int)
    requires
        ncov_fits(s, mu0, mu1),
        0 <= j <= s.len(),
    ensures
        ncov_fits(s.take(j), mu0, mu1),
    decreases s.len(),
{
    if j == s.len() {
        assert(s.take(j) =~= s);
    } else {
        lemma_ncov_fits_prefix(s.drop_last(), mu0, mu1, j);
        assert(s.take(j) =~= s.drop_last().take(j));
    }
}

/// Fits the model to the dataset.
///
/// The prior is the fraction of observations labeled 1; each class mean is
/// the arithmetic mean of that class's feature vectors; the covariance is
/// the pooled within-class outer-product sum divided by the total count.
/// The class means are computed before the covariance, which depends on
/// them; the prior is independent of both.
///
/// Errors, each if and only if its condition holds, tested in this order:
/// `EmptyDataset` for an empty dataset; `InvalidClassLabel` when some label
/// lies outside {0, 1}; `EmptyClass` when either class has no observation;
/// `Overflow` exactly when the dataset is valid but some reduced exact
/// intermediate leaves the representable range (`estimate_fits`).
pub fn estimate(data: &Vec<Observation>) -> (r: Result<GdaParameters, GdaError>)
    requires
        all_wf(data@),
    ensures
        (r is Err && r->Err_0 == GdaError::EmptyDataset) <==> data@.len() == 0,
        (r is Err && r->Err_0 == GdaError::InvalidClassLabel) <==> (data@.len() > 0
            && !valid_labels(data@)),
        (r is Err && r->Err_0 == GdaError::EmptyClass) <==> (data@.len() > 0 && valid_labels(
            data@,
        ) && (count_label(data@, 0) == 0 || count_label(data@, 1) == 0)),
        r is Err ==> r->Err_0 == GdaError::EmptyDataset || r->Err_0 == GdaError::InvalidClassLabel
            || r->Err_0 == GdaError::EmptyClass || r->Err_0 == GdaError::Overflow,
        (r is Err && r->Err_0 == GdaError::Overflow) <==> (data@.len() > 0 && valid_labels(data@)
            && count_label(data@, 0) > 0 && count_label(data@, 1) > 0 && !estimate_fits(data@)),
        r is Ok <==> (data@.len() > 0 && valid_labels(data@) && count_label(data@, 0) > 0
            && count_label(data@, 1) > 0 && estimate_fits(data@)),
        r matches Ok(p) ==> {
            &&& p.wf()
            &&& rat_eq(p.phi@, (count_label(data@, 1), data@.len() as int))
            &&& 0 <= p.phi@.0 <= p.phi@.1
            &&& rat_eq(p.mu0@.x, mu_vec(data@, 0).x)
            &&& rat_eq(p.mu0@.y, mu_vec(data@, 0).y)
            &&& rat_eq(p.mu1@.x, mu_vec(data@, 1).x)
            &&& rat_eq(p.mu1@.y, mu_vec(data@, 1).y)
            &&& rat_eq(p.sigma@.a, sigma_spec(data@).a)
            &&& rat_eq(p.sigma@.b, sigma_spec(data@).b)
            &&& rat_eq(p.sigma@.c, sigma_spec(data@).c)
            &&& rat_eq(p.sigma@.d, sigma_spec(data@).d)
            &&& rat_eq(p.sigma@.b, p.sigma@.c)
        },
{
    let ghost s = data@;
    let n = data.len();
    if n == 0 {
        return Err(GdaError::EmptyDataset);
    }
    // validate the labels and count each class
    let mut i: usize = 0;
    let mut c0: usize = 0;
    let mut c1: usize = 0;
    while i < n
        invariant
            n == s.len(),
            s == data@,
            all_wf(s),
            0 <= i <= n,
            c0 as int == count_label(s.take(i as int), 0),
            c1 as int == count_label(s.take(i as int), 1),
            c0 <= i,
            c1 <= i,
            forall|j: int| 0 <= j < i ==> ((#[trigger] s[j])@.class == 0 || s[j]@.class == 1),
        decreases n - i,
    {
        let o = data[i];
        if o.class != 0 && o.class != 1 {
            proof {
                assert(!valid_labels(s));
            }
            return Err(GdaError::InvalidClassLabel);
        }
        proof {
            assert(s.take(i as int + 1).drop_last() =~= s.take(i as int));
            assert(s.take(i as int + 1).last() == s[i as int]);
        }
        if o.class == 0 {
            c0 = c0 + 1;
        } else {
            c1 = c1 + 1;
        }
        i = i + 1;
    }
    proof {
        assert(s.take(n as int) =~= s);
    }
    if c0 == 0 || c1 == 0 {
        return Err(GdaError::EmptyClass);
    }
    if (n as u64) > (i64::MAX as u64) {
        return Err(GdaError::Overflow);
    }
    // the prior of class 1 is the maximum-likelihood Bernoulli estimate
    proof {
        assert(rat_signed((c1 as int, n as int)) == (c1 as int, n as int));
    }
    let phi = match Rational::new(c1 as i64, n as i64) {
        Ok(v) => v,
        Err(e) => {
            proof {
                assert(e == GdaError::Overflow);
            }
            return Err(GdaError::Overflow);
        },
    };
    proof {
        lemma_norm_eq((c1 as int, n as int));
        lemma_rat_eq_sign(phi@, (c1 as int, n as int));
        lemma_rat_lt_cong(phi@, (1int, 1int), (c1 as int, n as int), (1int, 1int));
        assert(rat_le((c1 as int, n as int), (1int, 1int)));
        assert(rat_le(phi@, (1int, 1int)));
    }
    // class means: coordinate sums first, then one division by the count
    let mut sx0 = Rational::from_int(0);
    let mut sy0 = Rational::from_int(0);
    let mut sx1 = Rational::from_int(0);
    let mut sy1 = Rational::from_int(0);
    i = 0;
    while i < n
        invariant
            n == s.len(),
            s == data@,
            all_wf(s),
            0 <= i <= n,
            valid_labels(s),
            c0 as int == count_label(s, 0),
            c1 as int == count_label(s, 1),
            1 <= c0,
            1 <= c1,
            n <= i64::MAX as u64,
            rat_fits(rat_norm((c1 as int, n as int))),
            phi.wf(),
            rat_eq(phi@, (c1 as int, n as int)),
            0 <= phi@.0 <= phi@.1,
            sx0.wf() && sy0.wf() && sx1.wf() && sy1.wf(),
            sx0@ == nsum_x(s.take(i as int), 0),
            sy0@ == nsum_y(s.take(i as int), 0),
            sx1@ == nsum_x(s.take(i as int), 1),
            sy1@ == nsum_y(s.take(i as int), 1),
            sums_fit(s.take(i as int)),
        decreases n - i,
    {
        let o = data[i];
        proof {
            assert(s.take(i as int + 1).drop_last() =~= s.take(i as int));
            assert(s.take(i as int + 1).last() == s[i as int]);
            assert(o.wf());
        }
        if o.class == 0 {
            let sx0n = match sx0.add(o.x) {
                Ok(v) => v,
                Err(_) => {
                    proof {
                        assert(!sums_fit(s)) by {
                            if sums_fit(s) {
                                lemma_sums_fit_prefix(s, i as int + 1);
                            }
                        }
                    }
                    return Err(GdaError::Overflow);
                },
            };
            let sy0n = match sy0.add(o.y) {
                Ok(v) => v,
                Err(_) => {
                    proof {
                        assert(!sums_fit(s)) by {
                            if sums_fit(s) {
                                lemma_sums_fit_prefix(s, i as int + 1);
                            }
                        }
                    }
                    return Err(GdaError::Overflow);
                },
            };
            sx0 = sx0n;
            sy0 = sy0n;
        } else {
            let sx1n = match sx1.add(o.x) {
                Ok(v) => v,
                Err(_) => {
                    proof {
                        assert(!sums_fit(s)) by {
                            if sums_fit(s) {
                                lemma_sums_fit_prefix(s, i as int + 1);
                            }
                        }
                    }
                    return Err(GdaError::Overflow);
                },
            };
            let sy1n = match sy1.add(o.y) {
                Ok(v) => v,
                Err(_) => {
                    proof {
                        assert(!sums_fit(s)) by {
                            if sums_fit(s) {
                                lemma_sums_fit_prefix(s, i as int + 1);
                            }
                        }
                    }
                    return Err(GdaError::Overflow);
                },
            };
            sx1 = sx1n;
            sy1 = sy1n;
        }
        i = i + 1;
    }
    proof {
        assert(s.take(n as int) =~= s);
        lemma_nsum_eq(s, 0);
        lemma_nsum_eq(s, 1);
    }
    let c0r = Rational::from_int(c0 as i64);
    let c1r = Rational::from_int(c1 as i64);
    let mu0 = match mean_of(sx0, sy0, c0r, Ghost(s), Ghost(0int)) {
        Ok(v) => v,
        Err(_) => { return Err(GdaError::Overflow); },
    };
    let mu1 = match mean_of(sx1, sy1, c1r, Ghost(s), Ghost(1int)) {
        Ok(v) => v,
        Err(_) => { return Err(GdaError::Overflow); },
    };
    // pooled covariance: every observation against its own class mean
    let ghost imu0 = mu_vec(s, 0);
    let ghost imu1 = mu_vec(s, 1);
    proof {
        lemma_prod_pos(sum_x(s, 0).1, c0 as int);
        lemma_prod_pos(sum_y(s, 0).1, c0 as int);
        lemma_prod_pos(sum_x(s, 1).1, c1 as int);
        lemma_prod_pos(sum_y(s, 1).1, c1 as int);
    }
    let mut acc = Matrix2x2f::zero_matrix();
    i = 0;
    while i < n
        invariant
            n == s.len(),
            s == data@,
            all_wf(s),
            0 <= i <= n,
            valid_labels(s),
            c0 as int == count_label(s, 0),
            c1 as int == count_label(s, 1),
            1 <= c0,
            1 <= c1,
            n <= i64::MAX as u64,
            rat_fits(rat_norm((c1 as int, n as int))),
            sums_fit(s),
            means_fit(s),
            phi.wf(),
            rat_eq(phi@, (c1 as int, n as int)),
            0 <= phi@.0 <= phi@.1,
            acc.wf(),
            mu0.wf() && mu1.wf(),
            mu0@ == nmu(s, 0),
            mu1@ == nmu(s, 1),
            imu0 == mu_vec(s, 0),
            imu1 == mu_vec(s, 1),
            rat_eq(mu0@.x, imu0.x) && rat_eq(mu0@.y, imu0.y),
            rat_eq(mu1@.x, imu1.x) && rat_eq(mu1@.y, imu1.y),
            vec_dens_pos(imu0) && vec_dens_pos(imu1),
            acc@.a == ncov(s.take(i as int), nmu(s, 0), nmu(s, 1)).a,
            acc@.b == ncov(s.take(i as int), nmu(s, 0), nmu(s, 1)).b,
            acc@.c == ncov(s.take(i as int), nmu(s, 0), nmu(s, 1)).c,
            acc@.d == ncov(s.take(i as int), nmu(s, 0), nmu(s, 1)).d,
            ncov_fits(s.take(i as int), nmu(s, 0), nmu(s, 1)),
        decreases n - i,
    {
        let o = data[i];
        proof {
            assert(s.take(i as int + 1).drop_last() =~= s.take(i as int));
            assert(s.take(i as int + 1).last() == s[i as int]);
            assert(o.wf());
        }
        let mu = if o.class == 1 { mu1 } else { mu0 };
        let point = Vector2f { x: o.x, y: o.y };
        let dev = match point.subtract(mu) {
            Ok(v) => v,
            Err(_) => {
                proof {
                    assert(!ncov_fits(s, nmu(s, 0), nmu(s, 1))) by {
                        if ncov_fits(s, nmu(s, 0), nmu(s, 1)) {
                            lemma_ncov_fits_prefix(s, nmu(s, 0), nmu(s, 1), i as int + 1);
                        }
                    }
                }
                return Err(GdaError::Overflow);
            },
        };
        let outer = match dev.multiply_by_vector_transpose(dev) {
            Ok(v) => v,
            Err(_) => {
                proof {
                    assert(!ncov_fits(s, nmu(s, 0), nmu(s, 1))) by {
                        if ncov_fits(s, nmu(s, 0), nmu(s, 1)) {
                            lemma_ncov_fits_prefix(s, nmu(s, 0), nmu(s, 1), i as int + 1);
                        }
                    }
                }
                return Err(GdaError::Overflow);
            },
        };
        let accn = match acc.add(outer) {
            Ok(v) => v,
            Err(_) => {
                proof {
                    assert(!ncov_fits(s, nmu(s, 0), nmu(s, 1))) by {
                        if ncov_fits(s, nmu(s, 0), nmu(s, 1)) {
                            lemma_ncov_fits_prefix(s, nmu(s, 0), nmu(s, 1), i as int + 1);
                        }
                    }
                }
                return Err(GdaError::Overflow);
            },
        };
        acc = accn;
        i = i + 1;
    }
    proof {
        assert(s.take(n as int) =~= s);
        lemma_ncov_eq(s, mu0@, mu1@, imu0, imu1);
    }
    let m_rat = Rational::from_int(n as i64);
    let sigma = match acc.scalar_div(m_rat) {
        Ok(v) => v,
        Err(e) => {
            proof {
                assert(e == GdaError::Overflow);
            }
            return Err(GdaError::Overflow);
        },
    };
    proof {
        let cov = cov_sum(s, imu0, imu1);
        let m_pair = (n as int, 1int);
        lemma_cov_sum_props(s, imu0, imu1);
        lemma_rat_div_cong(acc@.a, m_rat@, cov.a, m_pair);
        lemma_norm_eq(rat_div(acc@.a, m_rat@));
        lemma_rat_eq_trans(sigma@.a, rat_div(acc@.a, m_rat@), rat_div(cov.a, m_pair));
        lemma_rat_div_cong(acc@.b, m_rat@, cov.b, m_pair);
        lemma_norm_eq(rat_div(acc@.b, m_rat@));
        lemma_rat_eq_trans(sigma@.b, rat_div(acc@.b, m_rat@), rat_div(cov.b, m_pair));
        lemma_rat_div_cong(acc@.c, m_rat@, cov.c, m_pair);
        lemma_norm_eq(rat_div(acc@.c, m_rat@));
        lemma_rat_eq_trans(sigma@.c, rat_div(acc@.c, m_rat@), rat_div(cov.c, m_pair));
        lemma_rat_div_cong(acc@.d, m_rat@, cov.d, m_pair);
        lemma_norm_eq(rat_div(acc@.d, m_rat@));
        lemma_rat_eq_trans(sigma@.d, rat_div(acc@.d, m_rat@), rat_div(cov.d, m_pair));
        // symmetry: the two off-diagonal spec entries are the same pair
        lemma_prod_pos(cov.b.1, n as int);
        lemma_rat_eq_trans(sigma@.b, rat_div(cov.b, m_pair), sigma@.c);
    }
    Ok(GdaParameters { phi, mu0, mu1, sigma })
}

/// Divides the two coordinate sums of class `k` by the class count,
/// producing the class mean. Succeeds exactly when both reduced quotients
/// are representable.
fn mean_of(
    sx: Rational,
    sy: Rational,
    c: Rational,
    Ghost(s): Ghost<Seq<Observation>>,
    Ghost(k): Ghost<int>,
) -> (r: Result<Vector2f, GdaError>)
    requires
        all_wf(s),
        sx.wf(),
        sy.wf(),
        c.wf(),
        c@ == (count_label(s, k), 1int),
        count_label(s, k) > 0,
        sx@ == nsum_x(s, k),
        sy@ == nsum_y(s, k),
    ensures
        r matches Ok(v) ==> v.wf() && v@ == nmu(s, k) && rat_eq(v@.x, mu_vec(s, k).x) && rat_eq(
            v@.y,
            mu_vec(s, k).y,
        ),
        r is Ok <==> rat_fits(rat_norm(rat_div(nsum_x(s, k), (count_label(s, k), 1))))
            && rat_fits(rat_norm(rat_div(nsum_y(s, k), (count_label(s, k), 1)))),
        r matches Err(e) ==> e == GdaError::Overflow,
{
    proof {
        lemma_nsum_eq(s, k);
    }
    let mx = match sx.divide(c) {
        Ok(v) => v,
        Err(e) => {
            proof {
                assert(e == GdaError::Overflow);
            }
            return Err(GdaError::Overflow);
        },
    };
    let my = match sy.divide(c) {
        Ok(v) => v,
        Err(e) => {
            proof {
                assert(e == GdaError::Overflow);
            }
            return Err(GdaError::Overflow);
        },
    };
    proof {
        let cnt = (count_label(s, k), 1int);
        lemma_rat_div_cong(sx@, c@, sum_x(s, k), cnt);
        lemma_norm_eq(rat_div(sx@, c@));
        lemma_rat_eq_trans(mx@, rat_div(sx@, c@), rat_div(sum_x(s, k), cnt));
        lemma_rat_div_cong(sy@, c@, sum_y(s, k), cnt);
        lemma_norm_eq(rat_div(sy@, c@));
        lemma_rat_eq_trans(my@, rat_div(sy@, c@), rat_div(sum_y(s, k), cnt));
    }
    Ok(Vector2f { x: mx, y: my })
}

} // verus!
