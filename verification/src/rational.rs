//! Exact rational scalars.
//!
//! Every quantity of the estimation pipeline is a ratio of two integers, so
//! the whole pipeline can be carried out exactly in rational arithmetic.
//! A value is stored as a reduced fraction with an `i64` numerator and a
//! positive `i64` denominator; intermediate products are taken in `i128`,
//! where they cannot overflow, and the reduced result is checked back into
//! the `i64` range. An operation fails with `Overflow` exactly when the
//! reduced exact result does not fit.
//!
//! Specifications speak about pairs `(int, int)` of mathematical integers:
//! `(n, d)` stands for the rational number n/d, and two pairs denote the
//! same number when they agree under cross multiplication.

use vstd::prelude::*;
use vstd::arithmetic::div_mod::{lemma_fundamental_div_mod, lemma_div_multiples_vanish};
use vstd::arithmetic::mul::{
    lemma_mul_is_distributive_add_other_way, lemma_mul_is_distributive_sub_other_way,
};
use crate::error::GdaError;

verus! {

/// Magnitude of a mathematical integer.
pub open spec fn int_abs(n: int) -> int {
    if n < 0 { -n } else { n }
}

/// Greatest common divisor, by Euclid's recursion.
pub open spec fn gcd(a: nat, b: nat) -> nat
    decreases b,
{
    if b == 0 { a } else { gcd(b, a % b) }
}

/// `d` divides `x`.
pub open spec fn divides(d: int, x: int) -> bool {
    exists|k: int| x == #[trigger] (k * d)
}

/// The gcd divides both arguments and is positive when either is.
pub proof fn lemma_gcd_divides(a: nat, b: nat)
    ensures
        divides(gcd(a, b) as int, a as int),
        divides(gcd(a, b) as int, b as int),
        a > 0 || b > 0 ==> gcd(a, b) >= 1,
    decreases b,
{
    if b == 0 {
        assert(a as int == 1 * (a as int));
        assert(b as int == 0 * (a as int));
    } else {
        lemma_gcd_divides(b, a % b);
        let g = gcd(b, a % b) as int;
        let k1 = choose|k: int| b as int == #[trigger] (k * g);
        let k2 = choose|k: int| (a % b) as int == #[trigger] (k * g);
        lemma_fundamental_div_mod(a as int, b as int);
        let q = a as int / b as int;
        assert(a as int == q * (k1 * g) + k2 * g) by {
            assert(a as int == (b as int) * q + (a % b) as int);
            assert((b as int) * q == q * (b as int)) by (nonlinear_arith);
        }
        assert(q * (k1 * g) + k2 * g == (q * k1 + k2) * g) by (nonlinear_arith);
        assert(a as int == (q * k1 + k2) * g);
    }
}

/// The two pairs denote the same rational number.
pub open spec fn rat_eq(p: (int, int), q: (int, int)) -> bool {
    p.0 * q.1 == q.0 * p.1
}

/// The number denoted by `p` is strictly below the one denoted by `q`
/// (meaningful when both denominators are positive).
pub open spec fn rat_lt(p: (int, int), q: (int, int)) -> bool {
    p.0 * q.1 < q.0 * p.1
}

/// Non-strict comparison of the denoted numbers.
pub open spec fn rat_le(p: (int, int), q: (int, int)) -> bool {
    p.0 * q.1 <= q.0 * p.1
}

/// Exact sum of two pairs, over the common denominator.
pub open spec fn rat_plus(p: (int, int), q: (int, int)) -> (int, int) {
    (p.0 * q.1 + q.0 * p.1, p.1 * q.1)
}

/// Exact difference of two pairs.
pub open spec fn rat_minus(p: (int, int), q: (int, int)) -> (int, int) {
    (p.0 * q.1 - q.0 * p.1, p.1 * q.1)
}

/// Exact product of two pairs.
pub open spec fn rat_times(p: (int, int), q: (int, int)) -> (int, int) {
    (p.0 * q.0, p.1 * q.1)
}

/// Exact negation.
pub open spec fn rat_neg(p: (int, int)) -> (int, int) {
    (-p.0, p.1)
}

/// Exact magnitude.
pub open spec fn rat_abs(p: (int, int)) -> (int, int) {
    (int_abs(p.0), p.1)
}

/// Flip both signs if needed so that the denominator comes out positive.
pub open spec fn rat_signed(p: (int, int)) -> (int, int) {
    if p.1 < 0 { (-p.0, -p.1) } else { p }
}

/// Exact quotient of two pairs, with the denominator kept positive.
pub open spec fn rat_div(p: (int, int), q: (int, int)) -> (int, int) {
    rat_signed((p.0 * q.1, p.1 * q.0))
}

/// The pair in lowest terms: both components divided by their gcd.
pub open spec fn rat_norm(p: (int, int)) -> (int, int) {
    let g = gcd(int_abs(p.0) as nat, p.1 as nat) as int;
    (p.0 / g, p.1 / g)
}

/// The pair fits the stored representation: an `i64` numerator away from
/// `i64::MIN`, and a positive `i64` denominator.
pub open spec fn rat_fits(p: (int, int)) -> bool {
    &&& -(i64::MAX as int) <= p.0 <= i64::MAX as int
    &&& 1 <= p.1 <= i64::MAX as int
}

/// An exact rational scalar in lowest terms with a positive denominator.
#[derive(Clone, Copy, Debug, PartialEq, Eq, Structural)]
pub struct Rational {
    num: i64,
    den: i64,
}

impl View for Rational {
    type V = (int, int);

    closed spec fn view(&self) -> (int, int) {
        (self.num as int, self.den as int)
    }
}

/// Bound on a product of two bounded factors.
pub proof fn lemma_prod_bound(x: int, y: int, m: int) by (nonlinear_arith)
    requires
        0 <= m,
        -m <= x <= m,
        -m <= y <= m,
    ensures
        -(m * m) <= x * y <= m * m,
{
}

/// A product of two positive factors is positive.
pub proof fn lemma_prod_pos(x: int, y: int) by (nonlinear_arith)
    requires
        1 <= x,
        1 <= y,
    ensures
        1 <= x * y,
{
}

/// Euclid's algorithm.
fn gcd_u128(a: u128, b: u128) -> (g: u128)
    ensures
        g as nat == gcd(a as nat, b as nat),
{
    let mut x: u128 = a;
    let mut y: u128 = b;
    while y != 0
        invariant
            gcd(x as nat, y as nat) == gcd(a as nat, b as nat),
        decreases y,
    {
        let r: u128 = x % y;
        proof {
            assert(gcd(x as nat, y as nat) == gcd(y as nat, (x % y) as nat));
        }
        x = y;
        y = r;
    }
    x
}

impl Rational {
    /// The representation invariant: reduced form is not claimed, only the
    /// ranges that keep every intermediate product inside `i128`.
    pub open spec fn wf(self) -> bool {
        &&& 1 <= self@.1 <= i64::MAX as int
        &&& -(i64::MAX as int) <= self@.0 <= i64::MAX as int
    }

    /// Numerator of the stored fraction.
    pub fn num(self) -> (r: i64)
        ensures
            r as int == self@.0,
    {
        self.num
    }

    /// Denominator of the stored fraction.
    pub fn den(self) -> (r: i64)
        ensures
            r as int == self@.1,
    {
        self.den
    }

    /// The integer `n` as a rational, for `n` away from `i64::MIN`.
    pub fn from_int(n: i64) -> (r: Rational)
        requires
            -i64::MAX <= n,
        ensures
            r.wf(),
            r@ == (n as int, 1int),
    {
        Rational { num: n, den: 1 }
    }

    /// The unit fraction 1/d for a positive integer d.
    pub fn unit_fraction(d: i64) -> (r: Rational)
        requires
            1 <= d,
        ensures
            r.wf(),
            r@ == (1int, d as int),
    {
        Rational { num: 1, den: d }
    }

    /// Builds the reduced rational n/d from `i128` parts.
    /// Fails with `Overflow` exactly when the reduced fraction does not fit.
    fn from_parts_i128(n: i128, d: i128) -> (r: Result<Rational, GdaError>)
        requires
            1 <= d,
            -i128::MAX <= n,
        ensures
            r matches Ok(v) ==> v.wf() && v@ == rat_norm((n as int, d as int)),
            r is Ok <==> rat_fits(rat_norm((n as int, d as int))),
            r matches Err(e) ==> e == GdaError::Overflow,
    {
        let neg: bool = n < 0;
        let mag: i128 = if neg { -n } else { n };
        let a: u128 = mag as u128;
        let b: u128 = d as u128;
        let g: u128 = gcd_u128(a, b);
        proof {
            lemma_gcd_divides(a as nat, b as nat);
        }
        let q: u128 = a / g;
        let t: u128 = b / g;
        proof {
            let gi = g as int;
            let ka = choose|k: int| a as int == #[trigger] (k * gi);
            let kb = choose|k: int| b as int == #[trigger] (k * gi);
            lemma_div_multiples_vanish(ka, gi);
            lemma_div_multiples_vanish(kb, gi);
            assert(gi * ka == ka * gi) by (nonlinear_arith);
            assert(gi * kb == kb * gi) by (nonlinear_arith);
            assert(q as int == ka);
            assert(t as int == kb);
            // the reduced numerator keeps the sign of n
            if neg {
                lemma_div_multiples_vanish(-ka, gi);
                assert(gi * (-ka) == (-ka) * gi) by (nonlinear_arith);
                assert(-(ka * gi) == (-ka) * gi) by (nonlinear_arith);
                assert((n as int) == (-ka) * gi);
                assert((n as int) / gi == -ka);
            }
            assert(rat_norm((n as int, d as int)).0 == if neg { -(q as int) } else { q as int });
            assert(rat_norm((n as int, d as int)).1 == t as int);
            // t >= 1 because t * g == b >= 1
            assert(kb >= 1) by (nonlinear_arith)
                requires
                    kb * gi == b as int,
                    b as int >= 1,
                    gi >= 1,
            ;
        }
        if q <= i64::MAX as u128 && t <= i64::MAX as u128 {
            let num: i64 = if neg { -(q as i64) } else { q as i64 };
            let den: i64 = t as i64;
            Ok(Rational { num, den })
        } else {
            Err(GdaError::Overflow)
        }
    }

    /// Builds the rational n/d, normalizing the sign and reducing.
    /// Fails with `InvalidArgument` when `d == 0`, and with `Overflow`
    /// exactly when the reduced fraction does not fit.
    pub fn new(n: i64, d: i64) -> (r: Result<Rational, GdaError>)
        ensures
            r matches Ok(v) ==> v.wf() && v@ == rat_norm(rat_signed((n as int, d as int))),
            r is Ok <==> d != 0 && rat_fits(rat_norm(rat_signed((n as int, d as int)))),
            r matches Err(e) ==> (e == GdaError::InvalidArgument <==> d == 0),
            r matches Err(e) ==> e == GdaError::InvalidArgument || e == GdaError::Overflow,
    {
        if d == 0 {
            return Err(GdaError::InvalidArgument);
        }
        let n128: i128 = n as i128;
        let d128: i128 = d as i128;
        if d128 < 0 {
            Self::from_parts_i128(-n128, -d128)
        } else {
            Self::from_parts_i128(n128, d128)
        }
    }

    /// Exact sum; fails with `Overflow` exactly when the reduced exact sum
    /// does not fit.
    pub fn add(self, other: Rational) -> (r: Result<Rational, GdaError>)
        requires
            self.wf(),
            other.wf(),
        ensures
            r matches Ok(v) ==> v.wf() && v@ == rat_norm(rat_plus(self@, other@)),
            r is Ok <==> rat_fits(rat_norm(rat_plus(self@, other@))),
            r matches Err(e) ==> e == GdaError::Overflow,
    {
        let n1: i128 = self.num as i128;
        let d1: i128 = self.den as i128;
        let n2: i128 = other.num as i128;
        let d2: i128 = other.den as i128;
        proof {
            lemma_prod_bound(n1 as int, d2 as int, i64::MAX as int);
            lemma_prod_bound(n2 as int, d1 as int, i64::MAX as int);
            lemma_prod_bound(d1 as int, d2 as int, i64::MAX as int);
            lemma_prod_pos(d1 as int, d2 as int);
        }
        let p1: i128 = n1 * d2;
        let p2: i128 = n2 * d1;
        let num: i128 = p1 + p2;
        let den: i128 = d1 * d2;
        Self::from_parts_i128(num, den)
    }

    /// Exact difference; fails with `Overflow` exactly when the reduced
    /// exact difference does not fit.
    pub fn subtract(self, other: Rational) -> (r: Result<Rational, GdaError>)
        requires
            self.wf(),
            other.wf(),
        ensures
            r matches Ok(v) ==> v.wf() && v@ == rat_norm(rat_minus(self@, other@)),
            r is Ok <==> rat_fits(rat_norm(rat_minus(self@, other@))),
            r matches Err(e) ==> e == GdaError::Overflow,
    {
        let n1: i128 = self.num as i128;
        let d1: i128 = self.den as i128;
        let n2: i128 = other.num as i128;
        let d2: i128 = other.den as i128;
        proof {
            lemma_prod_bound(n1 as int, d2 as int, i64::MAX as int);
            lemma_prod_bound(n2 as int, d1 as int, i64::MAX as int);
            lemma_prod_bound(d1 as int, d2 as int, i64::MAX as int);
            lemma_prod_pos(d1 as int, d2 as int);
        }
        let p1: i128 = n1 * d2;
        let p2: i128 = n2 * d1;
        let num: i128 = p1 - p2;
        let den: i128 = d1 * d2;
        Self::from_parts_i128(num, den)
    }

    /// Exact product; fails with `Overflow` exactly when the reduced exact
    /// product does not fit.
    pub fn multiply(self, other: Rational) -> (r: Result<Rational, GdaError>)
        requires
            self.wf(),
            other.wf(),
        ensures
            r matches Ok(v) ==> v.wf() && v@ == rat_norm(rat_times(self@, other@)),
            r is Ok <==> rat_fits(rat_norm(rat_times(self@, other@))),
            r matches Err(e) ==> e == GdaError::Overflow,
    {
        let n1: i128 = self.num as i128;
        let d1: i128 = self.den as i128;
        let n2: i128 = other.num as i128;
        let d2: i128 = other.den as i128;
        proof {
            lemma_prod_bound(n1 as int, n2 as int, i64::MAX as int);
            lemma_prod_bound(d1 as int, d2 as int, i64::MAX as int);
            lemma_prod_pos(d1 as int, d2 as int);
        }
        let num: i128 = n1 * n2;
        let den: i128 = d1 * d2;
        Self::from_parts_i128(num, den)
    }

    /// Exact quotient. Fails with `InvalidArgument` when the divisor is
    /// zero, and with `Overflow` exactly when the reduced exact quotient
    /// does not fit.
    pub fn divide(self, other: Rational) -> (r: Result<Rational, GdaError>)
        requires
            self.wf(),
            other.wf(),
        ensures
            r matches Ok(v) ==> v.wf() && v@ == rat_norm(rat_div(self@, other@)),
            r is Ok <==> other@.0 != 0 && rat_fits(rat_norm(rat_div(self@, other@))),
            r matches Err(e) ==> (e == GdaError::InvalidArgument <==> other@.0 == 0),
            r matches Err(e) ==> e == GdaError::InvalidArgument || e == GdaError::Overflow,
    {
        if other.num == 0 {
            return Err(GdaError::InvalidArgument);
        }
        let n1: i128 = self.num as i128;
        let d1: i128 = self.den as i128;
        let n2: i128 = other.num as i128;
        let d2: i128 = other.den as i128;
        proof {
            lemma_prod_bound(n1 as int, d2 as int, i64::MAX as int);
            lemma_prod_bound(d1 as int, n2 as int, i64::MAX as int);
        }
        let num: i128 = n1 * d2;
        let den: i128 = d1 * n2;
        if den < 0 {
            Self::from_parts_i128(-num, -den)
        } else {
            proof {
                assert(den as int >= 1) by (nonlinear_arith)
                    requires
                        den as int == d1 as int * n2 as int,
                        den as int >= 0,
                        d1 as int >= 1,
                        n2 as int != 0,
                ;
            }
            Self::from_parts_i128(num, den)
        }
    }

    /// Exact negation; never fails.
    pub fn negate(self) -> (r: Rational)
        requires
            self.wf(),
        ensures
            r.wf(),
            r@ == rat_neg(self@),
    {
        Rational { num: -self.num, den: self.den }
    }

    /// Exact magnitude; never fails.
    pub fn abs(self) -> (r: Rational)
        requires
            self.wf(),
        ensures
            r.wf(),
            r@ == rat_abs(self@),
    {
        if self.num < 0 {
            Rational { num: -self.num, den: self.den }
        } else {
            self
        }
    }

    /// Exact strict comparison of the denoted numbers.
    pub fn less_than(self, other: Rational) -> (r: bool)
        requires
            self.wf(),
            other.wf(),
        ensures
            r == rat_lt(self@, other@),
    {
        let n1: i128 = self.num as i128;
        let d1: i128 = self.den as i128;
        let n2: i128 = other.num as i128;
        let d2: i128 = other.den as i128;
        proof {
            lemma_prod_bound(n1 as int, d2 as int, i64::MAX as int);
            lemma_prod_bound(n2 as int, d1 as int, i64::MAX as int);
        }
        n1 * d2 < n2 * d1
    }

    /// Exact non-strict comparison of the denoted numbers.
    pub fn less_eq(self, other: Rational) -> (r: bool)
        requires
            self.wf(),
            other.wf(),
        ensures
            r == rat_le(self@, other@),
    {
        let n1: i128 = self.num as i128;
        let d1: i128 = self.den as i128;
        let n2: i128 = other.num as i128;
        let d2: i128 = other.den as i128;
        proof {
            lemma_prod_bound(n1 as int, d2 as int, i64::MAX as int);
            lemma_prod_bound(n2 as int, d1 as int, i64::MAX as int);
        }
        n1 * d2 <= n2 * d1
    }

    /// Whether the two scalars denote the same number.
    pub fn same_value(self, other: Rational) -> (r: bool)
        requires
            self.wf(),
            other.wf(),
        ensures
            r == rat_eq(self@, other@),
    {
        let n1: i128 = self.num as i128;
        let d1: i128 = self.den as i128;
        let n2: i128 = other.num as i128;
        let d2: i128 = other.den as i128;
        proof {
            lemma_prod_bound(n1 as int, d2 as int, i64::MAX as int);
            lemma_prod_bound(n2 as int, d1 as int, i64::MAX as int);
        }
        n1 * d2 == n2 * d1
    }
}

// ---------------------------------------------------------------------------
// Reasoning principles: rational equality is an equivalence compatible with
// the arithmetic, and reduction preserves the denoted number.
// ---------------------------------------------------------------------------

#[verifier::rlimit(60)]
proof fn lemma_eq_trans_core(a0: int, a1: int, b0: int, b1: int, c0: int, c1: int) by (nonlinear_arith)
    requires
        a1 > 0,
        b1 > 0,
        c1 > 0,
        a0 * b1 == b0 * a1,
        b0 * c1 == c0 * b1,
    ensures
        a0 * c1 == c0 * a1,
{
}

/// Rational equality is transitive over positive denominators.
pub proof fn lemma_rat_eq_trans(a: (int, int), b: (int, int), c: (int, int))
    requires
        a.1 > 0,
        b.1 > 0,
        c.1 > 0,
        rat_eq(a, b),
        rat_eq(b, c),
    ensures
        rat_eq(a, c),
{
    lemma_eq_trans_core(a.0, a.1, b.0, b.1, c.0, c.1);
}

/// Reduction keeps the denoted number and a positive denominator.
pub proof fn lemma_norm_eq(p: (int, int))
    requires
        p.1 > 0,
    ensures
        rat_norm(p).1 > 0,
        rat_eq(rat_norm(p), p),
        rat_eq(p, rat_norm(p)),
{
    let g = gcd(int_abs(p.0) as nat, p.1 as nat) as int;
    lemma_gcd_divides(int_abs(p.0) as nat, p.1 as nat);
    assert(g >= 1);
    let ka = choose|k: int| int_abs(p.0) == #[trigger] (k * g);
    let kb = choose|k: int| p.1 == #[trigger] (k * g);
    lemma_div_multiples_vanish(kb, g);
    assert(g * kb == kb * g) by (nonlinear_arith);
    assert(p.1 / g == kb);
    assert(kb >= 1) by (nonlinear_arith)
        requires
            kb * g == p.1,
            p.1 >= 1,
            g >= 1,
    ;
    if p.0 >= 0 {
        lemma_div_multiples_vanish(ka, g);
        assert(g * ka == ka * g) by (nonlinear_arith);
        assert(p.0 / g == ka);
        assert(ka * g * kb == kb * g * ka) by (nonlinear_arith);
        assert(rat_norm(p).0 * p.1 == p.0 * rat_norm(p).1) by (nonlinear_arith)
            requires
                rat_norm(p).0 == ka,
                rat_norm(p).1 == kb,
                p.0 == ka * g,
                p.1 == kb * g,
        ;
    } else {
        lemma_div_multiples_vanish(-ka, g);
        assert(g * (-ka) == (-ka) * g) by (nonlinear_arith);
        assert(p.0 == (-ka) * g) by {
            assert(int_abs(p.0) == ka * g);
            assert(-(ka * g) == (-ka) * g) by (nonlinear_arith);
        }
        assert(p.0 / g == -ka);
        assert(rat_norm(p).0 * p.1 == p.0 * rat_norm(p).1) by (nonlinear_arith)
            requires
                rat_norm(p).0 == -ka,
                rat_norm(p).1 == kb,
                p.0 == (-ka) * g,
                p.1 == kb * g,
        ;
    }
}

#[verifier::rlimit(60)]
proof fn lemma_sign_core(a0: int, a1: int, b0: int, b1: int) by (nonlinear_arith)
    requires
        a1 > 0,
        b1 > 0,
        a0 * b1 == b0 * a1,
    ensures
        a0 > 0 <==> b0 > 0,
        a0 == 0 <==> b0 == 0,
        a0 >= 0 <==> b0 >= 0,
{
}

/// Equal rationals have numerators of the same sign.
pub proof fn lemma_rat_eq_sign(a: (int, int), b: (int, int))
    requires
        a.1 > 0,
        b.1 > 0,
        rat_eq(a, b),
    ensures
        a.0 > 0 <==> b.0 > 0,
        a.0 == 0 <==> b.0 == 0,
        a.0 >= 0 <==> b.0 >= 0,
{
    lemma_sign_core(a.0, a.1, b.0, b.1);
}

proof fn lemma_plus_cong_core(
    a0: int, a1: int, b0: int, b1: int, c0: int, c1: int, e0: int, e1: int,
)
    requires
        a0 * c1 == c0 * a1,
        b0 * e1 == e0 * b1,
    ensures
        (a0 * b1 + b0 * a1) * (c1 * e1) == (c0 * e1 + e0 * c1) * (a1 * b1),
{
    lemma_mul_is_distributive_add_other_way(c1 * e1, a0 * b1, b0 * a1);
    assert((a0 * b1) * (c1 * e1) == (a0 * c1) * (b1 * e1)) by (nonlinear_arith);
    assert((b0 * a1) * (c1 * e1) == (b0 * e1) * (a1 * c1)) by (nonlinear_arith);
    lemma_mul_is_distributive_add_other_way(a1 * b1, c0 * e1, e0 * c1);
    assert((c0 * e1) * (a1 * b1) == (c0 * a1) * (b1 * e1)) by (nonlinear_arith);
    assert((e0 * c1) * (a1 * b1) == (e0 * b1) * (a1 * c1)) by (nonlinear_arith);
    assert((a0 * c1) * (b1 * e1) == (c0 * a1) * (b1 * e1)) by (nonlinear_arith)
        requires
            a0 * c1 == c0 * a1,
    ;
    assert((b0 * e1) * (a1 * c1) == (e0 * b1) * (a1 * c1)) by (nonlinear_arith)
        requires
            b0 * e1 == e0 * b1,
    ;
}

/// Addition respects rational equality.
pub proof fn lemma_rat_plus_cong(a: (int, int), b: (int, int), c: (int, int), e: (int, int))
    requires
        a.1 > 0,
        b.1 > 0,
        c.1 > 0,
        e.1 > 0,
        rat_eq(a, c),
        rat_eq(b, e),
    ensures
        rat_eq(rat_plus(a, b), rat_plus(c, e)),
        rat_plus(a, b).1 > 0,
        rat_plus(c, e).1 > 0,
{
    lemma_plus_cong_core(a.0, a.1, b.0, b.1, c.0, c.1, e.0, e.1);
    lemma_prod_pos(a.1, b.1);
    lemma_prod_pos(c.1, e.1);
}

proof fn lemma_minus_cong_core(
    a0: int, a1: int, b0: int, b1: int, c0: int, c1: int, e0: int, e1: int,
)
    requires
        a0 * c1 == c0 * a1,
        b0 * e1 == e0 * b1,
    ensures
        (a0 * b1 - b0 * a1) * (c1 * e1) == (c0 * e1 - e0 * c1) * (a1 * b1),
{
    lemma_mul_is_distributive_sub_other_way(c1 * e1, a0 * b1, b0 * a1);
    assert((a0 * b1) * (c1 * e1) == (a0 * c1) * (b1 * e1)) by (nonlinear_arith);
    assert((b0 * a1) * (c1 * e1) == (b0 * e1) * (a1 * c1)) by (nonlinear_arith);
    lemma_mul_is_distributive_sub_other_way(a1 * b1, c0 * e1, e0 * c1);
    assert((c0 * e1) * (a1 * b1) == (c0 * a1) * (b1 * e1)) by (nonlinear_arith);
    assert((e0 * c1) * (a1 * b1) == (e0 * b1) * (a1 * c1)) by (nonlinear_arith);
    assert((a0 * c1) * (b1 * e1) == (c0 * a1) * (b1 * e1)) by (nonlinear_arith)
        requires
            a0 * c1 == c0 * a1,
    ;
    assert((b0 * e1) * (a1 * c1) == (e0 * b1) * (a1 * c1)) by (nonlinear_arith)
        requires
            b0 * e1 == e0 * b1,
    ;
}

/// Subtraction respects rational equality.
pub proof fn lemma_rat_minus_cong(a: (int, int), b: (int, int), c: (int, int), e: (int, int))
    requires
        a.1 > 0,
        b.1 > 0,
        c.1 > 0,
        e.1 > 0,
        rat_eq(a, c),
        rat_eq(b, e),
    ensures
        rat_eq(rat_minus(a, b), rat_minus(c, e)),
        rat_minus(a, b).1 > 0,
        rat_minus(c, e).1 > 0,
{
    lemma_minus_cong_core(a.0, a.1, b.0, b.1, c.0, c.1, e.0, e.1);
    lemma_prod_pos(a.1, b.1);
    lemma_prod_pos(c.1, e.1);
}

proof fn lemma_times_cong_core(
    a0: int, a1: int, b0: int, b1: int, c0: int, c1: int, e0: int, e1: int,
)
    requires
        a0 * c1 == c0 * a1,
        b0 * e1 == e0 * b1,
    ensures
        (a0 * b0) * (c1 * e1) == (c0 * e0) * (a1 * b1),
{
    assert((a0 * b0) * (c1 * e1) == (a0 * c1) * (b0 * e1)) by (nonlinear_arith);
    assert((c0 * e0) * (a1 * b1) == (c0 * a1) * (e0 * b1)) by (nonlinear_arith);
    assert((a0 * c1) * (b0 * e1) == (c0 * a1) * (e0 * b1)) by (nonlinear_arith)
        requires
            a0 * c1 == c0 * a1,
            b0 * e1 == e0 * b1,
    ;
}

/// Multiplication respects rational equality.
pub proof fn lemma_rat_times_cong(a: (int, int), b: (int, int), c: (int, int), e: (int, int))
    requires
        a.1 > 0,
        b.1 > 0,
        c.1 > 0,
        e.1 > 0,
        rat_eq(a, c),
        rat_eq(b, e),
    ensures
        rat_eq(rat_times(a, b), rat_times(c, e)),
        rat_times(a, b).1 > 0,
        rat_times(c, e).1 > 0,
{
    lemma_times_cong_core(a.0, a.1, b.0, b.1, c.0, c.1, e.0, e.1);
    lemma_prod_pos(a.1, b.1);
    lemma_prod_pos(c.1, e.1);
}

proof fn lemma_div_cong_core(
    a0: int, a1: int, b0: int, b1: int, c0: int, c1: int, e0: int, e1: int,
)
    requires
        a0 * c1 == c0 * a1,
        b0 * e1 == e0 * b1,
    ensures
        (a0 * b1) * (c1 * e0) == (c0 * e1) * (a1 * b0),
{
    assert((a0 * b1) * (c1 * e0) == (a0 * c1) * (b1 * e0)) by (nonlinear_arith);
    assert((c0 * e1) * (a1 * b0) == (c0 * a1) * (e1 * b0)) by (nonlinear_arith);
    assert(b1 * e0 == e1 * b0) by (nonlinear_arith)
        requires
            b0 * e1 == e0 * b1,
    ;
    assert((a0 * c1) * (b1 * e0) == (c0 * a1) * (e1 * b0)) by (nonlinear_arith)
        requires
            a0 * c1 == c0 * a1,
            b1 * e0 == e1 * b0,
    ;
}

/// Division by an equal positive divisor respects rational equality.
pub proof fn lemma_rat_div_cong(a: (int, int), b: (int, int), c: (int, int), e: (int, int))
    requires
        a.1 > 0,
        b.1 > 0,
        c.1 > 0,
        e.1 > 0,
        b.0 > 0,
        e.0 > 0,
        rat_eq(a, c),
        rat_eq(b, e),
    ensures
        rat_eq(rat_div(a, b), rat_div(c, e)),
        rat_div(a, b).1 > 0,
        rat_div(c, e).1 > 0,
{
    lemma_div_cong_core(a.0, a.1, b.0, b.1, c.0, c.1, e.0, e.1);
    lemma_prod_pos(a.1, b.0);
    lemma_prod_pos(c.1, e.0);
}

proof fn lemma_lt_cong_core(
    a0: int, a1: int, b0: int, b1: int, c0: int, c1: int, e0: int, e1: int,
)
    requires
        a1 > 0,
        b1 > 0,
        c1 > 0,
        e1 > 0,
        a0 * c1 == c0 * a1,
        b0 * e1 == e0 * b1,
    ensures
        (a0 * b1 < b0 * a1) <==> (c0 * e1 < e0 * c1),
        (a0 * b1 <= b0 * a1) <==> (c0 * e1 <= e0 * c1),
{
    assert(c1 * e1 > 0) by (nonlinear_arith)
        requires
            c1 > 0,
            e1 > 0,
    ;
    assert(a1 * b1 > 0) by (nonlinear_arith)
        requires
            a1 > 0,
            b1 > 0,
    ;
    // scale both comparisons by the positive products of denominators
    assert((a0 * b1) * (c1 * e1) == (a0 * c1) * (b1 * e1)) by (nonlinear_arith);
    assert((b0 * a1) * (c1 * e1) == (b0 * e1) * (a1 * c1)) by (nonlinear_arith);
    assert((c0 * e1) * (a1 * b1) == (c0 * a1) * (b1 * e1)) by (nonlinear_arith);
    assert((e0 * c1) * (a1 * b1) == (e0 * b1) * (a1 * c1)) by (nonlinear_arith);
    assert((a0 * c1) * (b1 * e1) == (c0 * a1) * (b1 * e1)) by (nonlinear_arith)
        requires
            a0 * c1 == c0 * a1,
    ;
    assert((b0 * e1) * (a1 * c1) == (e0 * b1) * (a1 * c1)) by (nonlinear_arith)
        requires
            b0 * e1 == e0 * b1,
    ;
    assert((a0 * b1 < b0 * a1) <==> ((a0 * b1) * (c1 * e1) < (b0 * a1) * (c1 * e1)))
        by (nonlinear_arith)
        requires
            c1 * e1 > 0,
    ;
    assert((c0 * e1 < e0 * c1) <==> ((c0 * e1) * (a1 * b1) < (e0 * c1) * (a1 * b1)))
        by (nonlinear_arith)
        requires
            a1 * b1 > 0,
    ;
    assert((a0 * b1 <= b0 * a1) <==> ((a0 * b1) * (c1 * e1) <= (b0 * a1) * (c1 * e1)))
        by (nonlinear_arith)
        requires
            c1 * e1 > 0,
    ;
    assert((c0 * e1 <= e0 * c1) <==> ((c0 * e1) * (a1 * b1) <= (e0 * c1) * (a1 * b1)))
        by (nonlinear_arith)
        requires
            a1 * b1 > 0,
    ;
}

/// Order respects rational equality.
pub proof fn lemma_rat_lt_cong(a: (int, int), b: (int, int), c: (int, int), e: (int, int))
    requires
        a.1 > 0,
        b.1 > 0,
        c.1 > 0,
        e.1 > 0,
        rat_eq(a, c),
        rat_eq(b, e),
    ensures
        rat_lt(a, b) <==> rat_lt(c, e),
        rat_le(a, b) <==> rat_le(c, e),
{
    lemma_lt_cong_core(a.0, a.1, b.0, b.1, c.0, c.1, e.0, e.1);
}


/// Pair-level associativity of exact multiplication.
pub proof fn lemma_rat_times_assoc(p: (int, int), q: (int, int), t: (int, int))
    ensures
        rat_times(rat_times(p, q), t) == rat_times(p, rat_times(q, t)),
{
    vstd::arithmetic::mul::lemma_mul_is_associative(p.0, q.0, t.0);
    vstd::arithmetic::mul::lemma_mul_is_associative(p.1, q.1, t.1);
}

/// Pair-level commutativity of exact multiplication.
pub proof fn lemma_rat_times_comm(p: (int, int), q: (int, int))
    ensures
        rat_times(p, q) == rat_times(q, p),
{
    vstd::arithmetic::mul::lemma_mul_is_commutative(p.0, q.0);
    vstd::arithmetic::mul::lemma_mul_is_commutative(p.1, q.1);
}

/// Multiplying by a negated factor negates the exact product.
pub proof fn lemma_rat_times_neg(p: (int, int), q: (int, int))
    ensures
        rat_times(p, rat_neg(q)) == rat_neg(rat_times(p, q)),
{
    assert(p.0 * (-q.0) == -(p.0 * q.0)) by (nonlinear_arith);
}

/// Swaps the last two factors of a three-factor product.
proof fn lemma_swap_last(a: int, b: int, c: int)
    ensures
        (a * b) * c == (a * c) * b,
{
    vstd::arithmetic::mul::lemma_mul_is_associative(a, b, c);
    vstd::arithmetic::mul::lemma_mul_is_commutative(b, c);
    vstd::arithmetic::mul::lemma_mul_is_associative(a, c, b);
}

/// A six-factor product, reassociated the way the distributivity proof
/// groups it on each side.
proof fn lemma_monomial_shuffle(a: int, b: int, c: int, d: int, e: int, f: int)
    ensures
        ((a * b) * c) * ((d * e) * (f * e)) == ((a * c) * (f * e)) * ((d * b) * e),
{
    lemma_swap_last(a, b, c);
    // both sides reassociate to (a*c) * (b * ((d*f) ... )) style blocks
    vstd::arithmetic::mul::lemma_mul_is_associative(a * c, b, (d * e) * (f * e));
    vstd::arithmetic::mul::lemma_mul_is_associative(a * c, f * e, (d * b) * e);
    // b * ((d*e)*(f*e)) == (f*e) * ((d*b)*e)
    vstd::arithmetic::mul::lemma_mul_is_associative(d, e, f * e);
    vstd::arithmetic::mul::lemma_mul_is_associative(e, f, e);
    vstd::arithmetic::mul::lemma_mul_is_commutative(e, f);
    vstd::arithmetic::mul::lemma_mul_is_associative(f, e, e);
    // now e * (f * e) == f * (e * e), hence (d*e)*(f*e) == d * (f * (e*e))
    vstd::arithmetic::mul::lemma_mul_is_associative(d, f, e * e);
    // so b * ((d*e)*(f*e)) == b * ((d*f)*(e*e))
    vstd::arithmetic::mul::lemma_mul_is_commutative(b, (d * f) * (e * e));
    vstd::arithmetic::mul::lemma_mul_is_associative(d * f, e * e, b);
    // right side: (f*e) * ((d*b)*e) == ((d*b)*e) * (f*e) == (d*b) * (e * (f*e))
    vstd::arithmetic::mul::lemma_mul_is_commutative(f * e, (d * b) * e);
    vstd::arithmetic::mul::lemma_mul_is_associative(d * b, e, f * e);
    // e * (f*e) == f * (e*e) again closes the right side
    vstd::arithmetic::mul::lemma_mul_is_associative(d * b, f, e * e);
    // (d*b)*f == (d*f)*b
    lemma_swap_last(d, b, f);
    vstd::arithmetic::mul::lemma_mul_is_associative(d * f, b, e * e);
    // (d*f) * (b * (e*e)) == (d*f) * ((e*e) * b)
    vstd::arithmetic::mul::lemma_mul_is_commutative(b, e * e);
    vstd::arithmetic::mul::lemma_mul_is_associative(d * f, e * e, b);
}

/// Multiplication distributes over addition, up to rational equality.
pub proof fn lemma_rat_times_distrib(u: (int, int), v: (int, int), t: (int, int))
    requires
        u.1 > 0,
        v.1 > 0,
        t.1 > 0,
    ensures
        rat_eq(rat_times(rat_plus(u, v), t), rat_plus(rat_times(u, t), rat_times(v, t))),
        rat_times(rat_plus(u, v), t).1 > 0,
        rat_plus(rat_times(u, t), rat_times(v, t)).1 > 0,
{
    let u0 = u.0; let u1 = u.1; let v0 = v.0; let v1 = v.1; let t0 = t.0; let t1 = t.1;
    lemma_prod_pos(u1, v1);
    lemma_prod_pos(u1 * v1, t1);
    lemma_prod_pos(u1, t1);
    lemma_prod_pos(v1, t1);
    lemma_prod_pos(u1 * t1, v1 * t1);
    // cross-multiplied goal, split into the two matching monomials
    lemma_mul_is_distributive_add_other_way(t0, u0 * v1, v0 * u1);
    lemma_mul_is_distributive_add_other_way(
        (u1 * t1) * (v1 * t1),
        (u0 * v1) * t0,
        (v0 * u1) * t0,
    );
    lemma_mul_is_distributive_add_other_way(
        (u1 * v1) * t1,
        (u0 * t0) * (v1 * t1),
        (v0 * t0) * (u1 * t1),
    );
    lemma_monomial_shuffle(u0, v1, t0, u1, t1, v1);
    vstd::arithmetic::mul::lemma_mul_is_commutative(u1 * t1, v1 * t1);
    lemma_monomial_shuffle(v0, u1, t0, v1, t1, u1);
    vstd::arithmetic::mul::lemma_mul_is_commutative(v1, u1);
}

/// A common non-zero factor on the right cancels, up to rational equality.
pub proof fn lemma_rat_cancel_right(x: (int, int), y: (int, int), t: (int, int))
    requires
        x.1 > 0,
        y.1 > 0,
        t.1 > 0,
        t.0 != 0,
        rat_eq(rat_times(x, t), rat_times(y, t)),
    ensures
        rat_eq(x, y),
{
    let x0 = x.0; let x1 = x.1; let y0 = y.0; let y1 = y.1; let t0 = t.0; let t1 = t.1;
    assert((x0 * t0) * (y1 * t1) == (x0 * y1) * (t0 * t1)) by (nonlinear_arith);
    assert((y0 * t0) * (x1 * t1) == (y0 * x1) * (t0 * t1)) by (nonlinear_arith);
    assert(x0 * y1 == y0 * x1) by (nonlinear_arith)
        requires
            (x0 * y1) * (t0 * t1) == (y0 * x1) * (t0 * t1),
            t0 != 0,
            t1 > 0,
    ;
}

/// Magnitude respects rational equality.
pub proof fn lemma_rat_abs_cong(a: (int, int), b: (int, int))
    requires
        a.1 > 0,
        b.1 > 0,
        rat_eq(a, b),
    ensures
        rat_eq(rat_abs(a), rat_abs(b)),
{
    lemma_sign_core(a.0, a.1, b.0, b.1);
    if a.0 >= 0 {
        assert(rat_abs(a) == a && rat_abs(b) == b);
    } else {
        assert(rat_abs(a) == rat_neg(a) && rat_abs(b) == rat_neg(b));
        assert((-a.0) * b.1 == (-b.0) * a.1) by (nonlinear_arith)
            requires
                a.0 * b.1 == b.0 * a.1,
        ;
    }
}


/// Dividing and then multiplying by the same non-zero rational gives back
/// the dividend, up to rational equality.
pub proof fn lemma_rat_div_times(p: (int, int), q: (int, int))
    requires
        p.1 > 0,
        q.1 > 0,
        q.0 != 0,
    ensures
        rat_div(p, q).1 > 0,
        rat_eq(rat_times(rat_div(p, q), q), p),
{
    let p0 = p.0; let p1 = p.1; let q0 = q.0; let q1 = q.1;
    if q0 > 0 {
        lemma_prod_pos(p1, q0);
        assert(((p0 * q1) * q0) * p1 == p0 * ((p1 * q0) * q1)) by (nonlinear_arith);
    } else {
        assert(-(p1 * q0) > 0) by (nonlinear_arith)
            requires
                p1 > 0,
                q0 < 0,
        ;
        assert(((-(p0 * q1)) * q0) * p1 == p0 * ((-(p1 * q0)) * q1)) by (nonlinear_arith);
    }
}


/// Negation respects rational equality.
pub proof fn lemma_rat_neg_cong(a: (int, int), b: (int, int))
    requires
        rat_eq(a, b),
    ensures
        rat_eq(rat_neg(a), rat_neg(b)),
{
    assert((-a.0) * b.1 == -(a.0 * b.1)) by (nonlinear_arith);
    assert((-b.0) * a.1 == -(b.0 * a.1)) by (nonlinear_arith);
}

} // verus!
