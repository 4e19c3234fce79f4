//! Fixed-size 2-vectors and 2x2 matrices over exact rational scalars,
//! with the operations the estimation pipeline needs: difference, scaling,
//! dot product, outer product, row-vector application, accumulation,
//! scalar division, determinant and inverse.

use vstd::prelude::*;
use crate::error::GdaError;
use crate::rational::{
    Rational, rat_eq, rat_lt, rat_plus, rat_minus, rat_times, rat_neg, rat_abs, rat_div,
    rat_norm, rat_fits, lemma_prod_pos, lemma_norm_eq, lemma_rat_plus_cong,
    lemma_rat_minus_cong, lemma_rat_times_cong, lemma_rat_eq_trans, lemma_rat_eq_sign,
    lemma_rat_lt_cong, lemma_rat_abs_cong, lemma_rat_div_times, lemma_rat_times_assoc,
    lemma_rat_times_comm, lemma_rat_times_neg, lemma_rat_times_distrib, lemma_rat_cancel_right,
};

verus! {

/// Mathematical value of a 2-vector: two rational pairs.
pub ghost struct Vec2V {
    pub x: (int, int),
    pub y: (int, int),
}

/// Mathematical value of a 2x2 matrix laid out as rows [a b; c d].
pub ghost struct Mat2V {
    pub a: (int, int),
    pub b: (int, int),
    pub c: (int, int),
    pub d: (int, int),
}

/// All denominators of the vector value are positive.
pub open spec fn vec_dens_pos(v: Vec2V) -> bool {
    v.x.1 > 0 && v.y.1 > 0
}

/// All denominators of the matrix value are positive.
pub open spec fn mat_dens_pos(m: Mat2V) -> bool {
    m.a.1 > 0 && m.b.1 > 0 && m.c.1 > 0 && m.d.1 > 0
}

/// Component-wise difference.
pub open spec fn vec_minus(u: Vec2V, v: Vec2V) -> Vec2V {
    Vec2V { x: rat_minus(u.x, v.x), y: rat_minus(u.y, v.y) }
}

/// Dot product u.x*v.x + u.y*v.y.
pub open spec fn vec_dot(u: Vec2V, v: Vec2V) -> (int, int) {
    rat_plus(rat_times(u.x, v.x), rat_times(u.y, v.y))
}

/// Outer product of a column vector and a row vector.
pub open spec fn vec_outer(u: Vec2V, v: Vec2V) -> Mat2V {
    Mat2V {
        a: rat_times(u.x, v.x),
        b: rat_times(u.x, v.y),
        c: rat_times(u.y, v.x),
        d: rat_times(u.y, v.y),
    }
}

/// The row vector u times the matrix m.
pub open spec fn vec_apply(u: Vec2V, m: Mat2V) -> Vec2V {
    Vec2V {
        x: rat_plus(rat_times(u.x, m.a), rat_times(u.y, m.c)),
        y: rat_plus(rat_times(u.x, m.b), rat_times(u.y, m.d)),
    }
}

/// Entry-wise matrix sum.
pub open spec fn mat_plus(m: Mat2V, n: Mat2V) -> Mat2V {
    Mat2V {
        a: rat_plus(m.a, n.a),
        b: rat_plus(m.b, n.b),
        c: rat_plus(m.c, n.c),
        d: rat_plus(m.d, n.d),
    }
}

/// Determinant a*d - b*c.
pub open spec fn mat_det(m: Mat2V) -> (int, int) {
    rat_minus(rat_times(m.a, m.d), rat_times(m.b, m.c))
}

/// Matrix product, rows of `m` against columns of `n`.
pub open spec fn mat_mul(m: Mat2V, n: Mat2V) -> Mat2V {
    Mat2V {
        a: rat_plus(rat_times(m.a, n.a), rat_times(m.b, n.c)),
        b: rat_plus(rat_times(m.a, n.b), rat_times(m.b, n.d)),
        c: rat_plus(rat_times(m.c, n.a), rat_times(m.d, n.c)),
        d: rat_plus(rat_times(m.c, n.b), rat_times(m.d, n.d)),
    }
}

/// The identity matrix as a value.
pub open spec fn mat_identity() -> Mat2V {
    Mat2V { a: (1, 1), b: (0, 1), c: (0, 1), d: (1, 1) }
}

/// `n` inverts `m`: each entry of `n` times det(m) equals the matching
/// entry of the adjugate of `m`.
pub open spec fn mat_inverts(n: Mat2V, m: Mat2V) -> bool {
    &&& rat_eq(rat_times(n.a, mat_det(m)), m.d)
    &&& rat_eq(rat_times(n.b, mat_det(m)), rat_neg(m.b))
    &&& rat_eq(rat_times(n.c, mat_det(m)), rat_neg(m.c))
    &&& rat_eq(rat_times(n.d, mat_det(m)), m.a)
}

// ---------------------------------------------------------------------------
// Stored-result mirrors. Each executable operation reduces every scalar it
// stores, so its result and its success are functions of the inputs alone:
// these spec functions repeat the computation, reduction included, and the
// fits predicates say that every reduced intermediate is representable.
// An operation returns Ok exactly when its fits predicate holds.
// ---------------------------------------------------------------------------

/// The stored dot product: each factor and the sum reduced as computed.
pub open spec fn ndot(u: Vec2V, v: Vec2V) -> (int, int) {
    rat_norm(rat_plus(rat_norm(rat_times(u.x, v.x)), rat_norm(rat_times(u.y, v.y))))
}

/// Every reduced intermediate of the dot product is representable.
pub open spec fn dot_fits(u: Vec2V, v: Vec2V) -> bool {
    &&& rat_fits(rat_norm(rat_times(u.x, v.x)))
    &&& rat_fits(rat_norm(rat_times(u.y, v.y)))
    &&& rat_fits(ndot(u, v))
}

/// The stored row-vector application, componentwise.
pub open spec fn napply(u: Vec2V, m: Mat2V) -> Vec2V {
    Vec2V {
        x: rat_norm(rat_plus(rat_norm(rat_times(u.x, m.a)), rat_norm(rat_times(u.y, m.c)))),
        y: rat_norm(rat_plus(rat_norm(rat_times(u.x, m.b)), rat_norm(rat_times(u.y, m.d)))),
    }
}

/// Every reduced intermediate of the row-vector application is representable.
pub open spec fn apply_fits(u: Vec2V, m: Mat2V) -> bool {
    &&& rat_fits(rat_norm(rat_times(u.x, m.a)))
    &&& rat_fits(rat_norm(rat_times(u.y, m.c)))
    &&& rat_fits(rat_norm(rat_times(u.x, m.b)))
    &&& rat_fits(rat_norm(rat_times(u.y, m.d)))
    &&& rat_fits(napply(u, m).x)
    &&& rat_fits(napply(u, m).y)
}

/// The stored determinant: both products and the difference reduced.
pub open spec fn ndet(m: Mat2V) -> (int, int) {
    rat_norm(rat_minus(rat_norm(rat_times(m.a, m.d)), rat_norm(rat_times(m.b, m.c))))
}

/// Every reduced intermediate of the determinant is representable.
pub open spec fn det_fits(m: Mat2V) -> bool {
    &&& rat_fits(rat_norm(rat_times(m.a, m.d)))
    &&& rat_fits(rat_norm(rat_times(m.b, m.c)))
    &&& rat_fits(ndet(m))
}

/// Every reduced entry of the inverse is representable: each adjugate
/// entry divided by the stored determinant.
pub open spec fn inverse_fits(m: Mat2V) -> bool {
    &&& rat_fits(rat_norm(rat_div(m.d, ndet(m))))
    &&& rat_fits(rat_norm(rat_div(rat_neg(m.b), ndet(m))))
    &&& rat_fits(rat_norm(rat_div(rat_neg(m.c), ndet(m))))
    &&& rat_fits(rat_norm(rat_div(m.a, ndet(m))))
}

/// A 2-vector of exact rational coordinates.
#[derive(Clone, Copy, Debug, PartialEq, Eq, Structural)]
pub struct Vector2f {
    pub x: Rational,
    pub y: Rational,
}

impl View for Vector2f {
    type V = Vec2V;

    open spec fn view(&self) -> Vec2V {
        Vec2V { x: self.x@, y: self.y@ }
    }
}

/// A 2x2 matrix of exact rational entries, laid out as rows [a b; c d].
#[derive(Clone, Copy, Debug, PartialEq, Eq, Structural)]
pub struct Matrix2x2f {
    pub a: Rational,
    pub b: Rational,
    pub c: Rational,
    pub d: Rational,
}

impl View for Matrix2x2f {
    type V = Mat2V;

    open spec fn view(&self) -> Mat2V {
        Mat2V { a: self.a@, b: self.b@, c: self.c@, d: self.d@ }
    }
}

impl Vector2f {
    /// All coordinates satisfy the scalar invariant.
    pub open spec fn wf(self) -> bool {
        self.x.wf() && self.y.wf()
    }

    /// Builds a vector from its two coordinates.
    pub fn from_coords(x: Rational, y: Rational) -> (r: Vector2f)
        ensures
            r@ == (Vec2V { x: x@, y: y@ }),
    {
        Vector2f { x, y }
    }

    /// The zero vector.
    pub fn zero() -> (r: Vector2f)
        ensures
            r.wf(),
            r@ == (Vec2V { x: (0int, 1int), y: (0int, 1int) }),
    {
        Vector2f { x: Rational::from_int(0), y: Rational::from_int(0) }
    }

    /// Component-wise difference, each coordinate in reduced form.
    pub fn subtract(self, other: Vector2f) -> (r: Result<Vector2f, GdaError>)
        requires
            self.wf(),
            other.wf(),
        ensures
            r matches Ok(v) ==> v.wf()
                && v@.x == rat_norm(rat_minus(self@.x, other@.x))
                && v@.y == rat_norm(rat_minus(self@.y, other@.y)),
            r is Ok <==> rat_fits(rat_norm(rat_minus(self@.x, other@.x)))
                && rat_fits(rat_norm(rat_minus(self@.y, other@.y))),
            r matches Err(e) ==> e == GdaError::Overflow,
    {
        let x = match self.x.subtract(other.x) {
            Ok(v) => v,
            Err(e) => { return Err(e); },
        };
        let y = match self.y.subtract(other.y) {
            Ok(v) => v,
            Err(e) => { return Err(e); },
        };
        Ok(Vector2f { x, y })
    }

    /// Component-wise sum, used to accumulate running totals.
    pub fn add(self, other: Vector2f) -> (r: Result<Vector2f, GdaError>)
        requires
            self.wf(),
            other.wf(),
        ensures
            r matches Ok(v) ==> v.wf()
                && v@.x == rat_norm(rat_plus(self@.x, other@.x))
                && v@.y == rat_norm(rat_plus(self@.y, other@.y)),
            r is Ok <==> rat_fits(rat_norm(rat_plus(self@.x, other@.x)))
                && rat_fits(rat_norm(rat_plus(self@.y, other@.y))),
            r matches Err(e) ==> e == GdaError::Overflow,
    {
        let x = match self.x.add(other.x) {
            Ok(v) => v,
            Err(e) => { return Err(e); },
        };
        let y = match self.y.add(other.y) {
            Ok(v) => v,
            Err(e) => { return Err(e); },
        };
        Ok(Vector2f { x, y })
    }

    /// Component-wise multiplication by the scalar `k`.
    pub fn scale(self, k: Rational) -> (r: Result<Vector2f, GdaError>)
        requires
            self.wf(),
            k.wf(),
        ensures
            r matches Ok(v) ==> v.wf()
                && v@.x == rat_norm(rat_times(self@.x, k@))
                && v@.y == rat_norm(rat_times(self@.y, k@)),
            r is Ok <==> rat_fits(rat_norm(rat_times(self@.x, k@)))
                && rat_fits(rat_norm(rat_times(self@.y, k@))),
            r matches Err(e) ==> e == GdaError::Overflow,
    {
        let x = match self.x.multiply(k) {
            Ok(v) => v,
            Err(e) => { return Err(e); },
        };
        let y = match self.y.multiply(k) {
            Ok(v) => v,
            Err(e) => { return Err(e); },
        };
        Ok(Vector2f { x, y })
    }

    /// Dot product of the two vectors.
    pub fn dot_product(self, other: Vector2f) -> (r: Result<Rational, GdaError>)
        requires
            self.wf(),
            other.wf(),
        ensures
            r matches Ok(v) ==> v.wf() && v@ == ndot(self@, other@) && rat_eq(
                v@,
                vec_dot(self@, other@),
            ),
            r is Ok <==> dot_fits(self@, other@),
            r matches Err(e) ==> e == GdaError::Overflow,
    {
        let tx = match self.x.multiply(other.x) {
            Ok(v) => v,
            Err(e) => { return Err(e); },
        };
        let ty = match self.y.multiply(other.y) {
            Ok(v) => v,
            Err(e) => { return Err(e); },
        };
        let s = match tx.add(ty) {
            Ok(v) => v,
            Err(e) => { return Err(e); },
        };
        proof {
            let px = rat_times(self@.x, other@.x);
            let py = rat_times(self@.y, other@.y);
            lemma_prod_pos(self@.x.1, other@.x.1);
            lemma_prod_pos(self@.y.1, other@.y.1);
            lemma_norm_eq(px);
            lemma_norm_eq(py);
            lemma_rat_plus_cong(tx@, ty@, px, py);
            lemma_norm_eq(rat_plus(tx@, ty@));
            lemma_rat_eq_trans(s@, rat_plus(tx@, ty@), rat_plus(px, py));
        }
        Ok(s)
    }

    /// Outer product: the matrix of pairwise coordinate products.
    pub fn multiply_by_vector_transpose(self, other: Vector2f) -> (r: Result<
        Matrix2x2f,
        GdaError,
    >)
        requires
            self.wf(),
            other.wf(),
        ensures
            r matches Ok(m) ==> m.wf()
                && m@.a == rat_norm(rat_times(self@.x, other@.x))
                && m@.b == rat_norm(rat_times(self@.x, other@.y))
                && m@.c == rat_norm(rat_times(self@.y, other@.x))
                && m@.d == rat_norm(rat_times(self@.y, other@.y)),
            r is Ok <==> rat_fits(rat_norm(rat_times(self@.x, other@.x)))
                && rat_fits(rat_norm(rat_times(self@.x, other@.y)))
                && rat_fits(rat_norm(rat_times(self@.y, other@.x)))
                && rat_fits(rat_norm(rat_times(self@.y, other@.y))),
            r matches Err(e) ==> e == GdaError::Overflow,
    {
        let a = match self.x.multiply(other.x) {
            Ok(v) => v,
            Err(e) => { return Err(e); },
        };
        let b = match self.x.multiply(other.y) {
            Ok(v) => v,
            Err(e) => { return Err(e); },
        };
        let c = match self.y.multiply(other.x) {
            Ok(v) => v,
            Err(e) => { return Err(e); },
        };
        let d = match self.y.multiply(other.y) {
            Ok(v) => v,
            Err(e) => { return Err(e); },
        };
        Ok(Matrix2x2f { a, b, c, d })
    }

    /// The row vector times the matrix.
    pub fn mul_with_matrix2x2f(self, matrix: Matrix2x2f) -> (r: Result<Vector2f, GdaError>)
        requires
            self.wf(),
            matrix.wf(),
        ensures
            r matches Ok(v) ==> v.wf() && v@ == napply(self@, matrix@)
                && rat_eq(v@.x, vec_apply(self@, matrix@).x)
                && rat_eq(v@.y, vec_apply(self@, matrix@).y),
            r is Ok <==> apply_fits(self@, matrix@),
            r matches Err(e) ==> e == GdaError::Overflow,
    {
        let xa = match self.x.multiply(matrix.a) {
            Ok(v) => v,
            Err(e) => { return Err(e); },
        };
        let yc = match self.y.multiply(matrix.c) {
            Ok(v) => v,
            Err(e) => { return Err(e); },
        };
        let xb = match self.x.multiply(matrix.b) {
            Ok(v) => v,
            Err(e) => { return Err(e); },
        };
        let yd = match self.y.multiply(matrix.d) {
            Ok(v) => v,
            Err(e) => { return Err(e); },
        };
        let rx = match xa.add(yc) {
            Ok(v) => v,
            Err(e) => { return Err(e); },
        };
        let ry = match xb.add(yd) {
            Ok(v) => v,
            Err(e) => { return Err(e); },
        };
        proof {
            let pa = rat_times(self@.x, matrix@.a);
            let pc = rat_times(self@.y, matrix@.c);
            let pb = rat_times(self@.x, matrix@.b);
            let pd = rat_times(self@.y, matrix@.d);
            lemma_prod_pos(self@.x.1, matrix@.a.1);
            lemma_prod_pos(self@.y.1, matrix@.c.1);
            lemma_prod_pos(self@.x.1, matrix@.b.1);
            lemma_prod_pos(self@.y.1, matrix@.d.1);
            lemma_norm_eq(pa);
            lemma_norm_eq(pc);
            lemma_norm_eq(pb);
            lemma_norm_eq(pd);
            lemma_rat_plus_cong(xa@, yc@, pa, pc);
            lemma_norm_eq(rat_plus(xa@, yc@));
            lemma_rat_eq_trans(rx@, rat_plus(xa@, yc@), rat_plus(pa, pc));
            lemma_rat_plus_cong(xb@, yd@, pb, pd);
            lemma_norm_eq(rat_plus(xb@, yd@));
            lemma_rat_eq_trans(ry@, rat_plus(xb@, yd@), rat_plus(pb, pd));
        }
        Ok(Vector2f { x: rx, y: ry })
    }
}

impl Matrix2x2f {
    /// All entries satisfy the scalar invariant.
    pub open spec fn wf(self) -> bool {
        self.a.wf() && self.b.wf() && self.c.wf() && self.d.wf()
    }

    /// The zero matrix.
    pub fn zero_matrix() -> (r: Matrix2x2f)
        ensures
            r.wf(),
            r@ == (Mat2V {
                a: (0int, 1int),
                b: (0int, 1int),
                c: (0int, 1int),
                d: (0int, 1int),
            }),
    {
        Matrix2x2f {
            a: Rational::from_int(0),
            b: Rational::from_int(0),
            c: Rational::from_int(0),
            d: Rational::from_int(0),
        }
    }

    /// Entry-wise sum, used to accumulate running totals.
    pub fn add(self, other: Matrix2x2f) -> (r: Result<Matrix2x2f, GdaError>)
        requires
            self.wf(),
            other.wf(),
        ensures
            r matches Ok(m) ==> m.wf()
                && m@.a == rat_norm(rat_plus(self@.a, other@.a))
                && m@.b == rat_norm(rat_plus(self@.b, other@.b))
                && m@.c == rat_norm(rat_plus(self@.c, other@.c))
                && m@.d == rat_norm(rat_plus(self@.d, other@.d)),
            r is Ok <==> rat_fits(rat_norm(rat_plus(self@.a, other@.a)))
                && rat_fits(rat_norm(rat_plus(self@.b, other@.b)))
                && rat_fits(rat_norm(rat_plus(self@.c, other@.c)))
                && rat_fits(rat_norm(rat_plus(self@.d, other@.d))),
            r matches Err(e) ==> e == GdaError::Overflow,
    {
        let a = match self.a.add(other.a) {
            Ok(v) => v,
            Err(e) => { return Err(e); },
        };
        let b = match self.b.add(other.b) {
            Ok(v) => v,
            Err(e) => { return Err(e); },
        };
        let c = match self.c.add(other.c) {
            Ok(v) => v,
            Err(e) => { return Err(e); },
        };
        let d = match self.d.add(other.d) {
            Ok(v) => v,
            Err(e) => { return Err(e); },
        };
        Ok(Matrix2x2f { a, b, c, d })
    }

    /// Divides every entry by the scalar `k`.
    /// Fails with `InvalidArgument` exactly when `k` denotes zero.
    pub fn scalar_div(self, k: Rational) -> (r: Result<Matrix2x2f, GdaError>)
        requires
            self.wf(),
            k.wf(),
        ensures
            r matches Ok(m) ==> m.wf()
                && m@.a == rat_norm(rat_div(self@.a, k@))
                && m@.b == rat_norm(rat_div(self@.b, k@))
                && m@.c == rat_norm(rat_div(self@.c, k@))
                && m@.d == rat_norm(rat_div(self@.d, k@)),
            r is Ok <==> k@.0 != 0 && rat_fits(rat_norm(rat_div(self@.a, k@)))
                && rat_fits(rat_norm(rat_div(self@.b, k@)))
                && rat_fits(rat_norm(rat_div(self@.c, k@)))
                && rat_fits(rat_norm(rat_div(self@.d, k@))),
            r matches Err(e) ==> (e == GdaError::InvalidArgument <==> k@.0 == 0),
            r matches Err(e) ==> e == GdaError::InvalidArgument || e == GdaError::Overflow,
    {
        let a = match self.a.divide(k) {
            Ok(v) => v,
            Err(e) => { return Err(e); },
        };
        let b = match self.b.divide(k) {
            Ok(v) => v,
            Err(e) => { return Err(e); },
        };
        let c = match self.c.divide(k) {
            Ok(v) => v,
            Err(e) => { return Err(e); },
        };
        let d = match self.d.divide(k) {
            Ok(v) => v,
            Err(e) => { return Err(e); },
        };
        Ok(Matrix2x2f { a, b, c, d })
    }

    /// Determinant a*d - b*c.
    pub fn determinate(self) -> (r: Result<Rational, GdaError>)
        requires
            self.wf(),
        ensures
            r matches Ok(v) ==> v.wf() && v@ == ndet(self@) && rat_eq(v@, mat_det(self@)),
            r is Ok <==> det_fits(self@),
            r matches Err(e) ==> e == GdaError::Overflow,
    {
        let t1 = match self.a.multiply(self.d) {
            Ok(v) => v,
            Err(e) => { return Err(e); },
        };
        let t2 = match self.b.multiply(self.c) {
            Ok(v) => v,
            Err(e) => { return Err(e); },
        };
        let det = match t1.subtract(t2) {
            Ok(v) => v,
            Err(e) => { return Err(e); },
        };
        proof {
            let p1 = rat_times(self@.a, self@.d);
            let p2 = rat_times(self@.b, self@.c);
            lemma_prod_pos(self@.a.1, self@.d.1);
            lemma_prod_pos(self@.b.1, self@.c.1);
            lemma_norm_eq(p1);
            lemma_norm_eq(p2);
            lemma_rat_minus_cong(t1@, t2@, p1, p2);
            lemma_norm_eq(rat_minus(t1@, t2@));
            lemma_rat_eq_trans(det@, rat_minus(t1@, t2@), rat_minus(p1, p2));
        }
        Ok(det)
    }

    /// Matrix product, rows of `self` against columns of `other`.
    pub fn multiply(self, other: Matrix2x2f) -> (r: Result<Matrix2x2f, GdaError>)
        requires
            self.wf(),
            other.wf(),
        ensures
            r matches Ok(m) ==> m.wf()
                && rat_eq(m@.a, mat_mul(self@, other@).a)
                && rat_eq(m@.b, mat_mul(self@, other@).b)
                && rat_eq(m@.c, mat_mul(self@, other@).c)
                && rat_eq(m@.d, mat_mul(self@, other@).d),
            r is Ok <==> apply_fits((Vec2V { x: self@.a, y: self@.b }), other@) && apply_fits(
                (Vec2V { x: self@.c, y: self@.d }),
                other@,
            ),
            r matches Err(e) ==> e == GdaError::Overflow,
    {
        let row0 = Vector2f { x: self.a, y: self.b };
        let row1 = Vector2f { x: self.c, y: self.d };
        let r0 = match row0.mul_with_matrix2x2f(other) {
            Ok(v) => v,
            Err(e) => { return Err(e); },
        };
        let r1 = match row1.mul_with_matrix2x2f(other) {
            Ok(v) => v,
            Err(e) => { return Err(e); },
        };
        Ok(Matrix2x2f { a: r0.x, b: r0.y, c: r1.x, d: r1.y })
    }

    /// Standard 2x2 inverse via the adjugate.
    /// Fails with `DegenerateMatrix` when the magnitude of the determinant
    /// is below 1 / 10^12, rather than dividing by a near-zero number.
    pub fn inverse(self) -> (r: Result<Matrix2x2f, GdaError>)
        requires
            self.wf(),
        ensures
            r matches Ok(m) ==> m.wf() && mat_inverts(m@, self@),
            r matches Ok(m) ==> !rat_lt(rat_abs(mat_det(self@)), (1int, 1000000000000int)),
            r is Ok <==> det_fits(self@) && !rat_lt(
                rat_abs(mat_det(self@)),
                (1int, 1000000000000int),
            ) && inverse_fits(self@),
            rat_eq(mat_det(self@), (0int, 1int)) ==> !(r is Ok),
            r matches Err(e) ==> e == GdaError::DegenerateMatrix || e == GdaError::Overflow,
            r matches Err(e) ==> (e == GdaError::DegenerateMatrix <==> det_fits(self@)
                && rat_lt(rat_abs(mat_det(self@)), (1int, 1000000000000int))),
    {
        proof {
            lemma_prod_pos(self@.a.1, self@.d.1);
            lemma_prod_pos(self@.b.1, self@.c.1);
            lemma_prod_pos(self@.a.1 * self@.d.1, self@.b.1 * self@.c.1);
        }
        let det = match self.determinate() {
            Ok(v) => v,
            Err(e) => { return Err(e); },
        };
        let eps = Rational::unit_fraction(1000000000000);
        proof {
            lemma_rat_abs_cong(det@, mat_det(self@));
            lemma_rat_lt_cong(rat_abs(det@), eps@, rat_abs(mat_det(self@)), eps@);
            if rat_eq(mat_det(self@), (0int, 1int)) {
                lemma_rat_eq_sign(mat_det(self@), (0int, 1int));
            }
        }
        if det.abs().less_than(eps) {
            return Err(GdaError::DegenerateMatrix);
        }
        proof {
            assert(det@.0 != 0) by {
                if det@.0 == 0 {
                    assert(rat_abs(det@) == (0int, det@.1));
                    assert(rat_lt(rat_abs(det@), eps@));
                }
            }
            lemma_rat_eq_sign(det@, mat_det(self@));
        }
        let na = match self.d.divide(det) {
            Ok(v) => v,
            Err(e) => {
                proof { assert(e == GdaError::Overflow); }
                return Err(e);
            },
        };
        let nbneg = self.b.negate();
        let nb = match nbneg.divide(det) {
            Ok(v) => v,
            Err(e) => {
                proof { assert(e == GdaError::Overflow); }
                return Err(e);
            },
        };
        let ncneg = self.c.negate();
        let nc = match ncneg.divide(det) {
            Ok(v) => v,
            Err(e) => {
                proof { assert(e == GdaError::Overflow); }
                return Err(e);
            },
        };
        let nd = match self.a.divide(det) {
            Ok(v) => v,
            Err(e) => {
                proof { assert(e == GdaError::Overflow); }
                return Err(e);
            },
        };
        proof {
            let t = mat_det(self@);
            lemma_entry_inverts(na@, self@.d, det@, t);
            lemma_entry_inverts(nb@, rat_neg(self@.b), det@, t);
            lemma_entry_inverts(nc@, rat_neg(self@.c), det@, t);
            lemma_entry_inverts(nd@, self@.a, det@, t);
        }
        Ok(Matrix2x2f { a: na, b: nb, c: nc, d: nd })
    }
}

/// An inverse entry computed as p / det also inverts against any rational
/// equal to det: times(entry, t) is equal to p.
proof fn lemma_entry_inverts(entry: (int, int), p: (int, int), detv: (int, int), t: (int, int))
    requires
        p.1 > 0,
        detv.1 > 0,
        t.1 > 0,
        detv.0 != 0,
        t.0 != 0,
        rat_eq(detv, t),
        entry == rat_norm(rat_div(p, detv)),
    ensures
        entry.1 > 0,
        rat_eq(rat_times(entry, t), p),
{
    lemma_rat_div_times(p, detv);
    lemma_norm_eq(rat_div(p, detv));
    lemma_rat_times_cong(entry, t, rat_div(p, detv), detv);
    lemma_rat_eq_trans(rat_times(entry, t), rat_times(rat_div(p, detv), detv), p);
}

/// For a matrix with non-zero determinant, the product with its inverse is
/// the identity matrix: a consequence of the adjugate formula, stated and
/// proved exactly, entry by entry.
pub proof fn lemma_inverse_identity(m: Mat2V, n: Mat2V)
    requires
        mat_dens_pos(m),
        mat_dens_pos(n),
        mat_det(m).0 != 0,
        mat_inverts(n, m),
    ensures
        rat_eq(mat_mul(m, n).a, mat_identity().a),
        rat_eq(mat_mul(m, n).b, mat_identity().b),
        rat_eq(mat_mul(m, n).c, mat_identity().c),
        rat_eq(mat_mul(m, n).d, mat_identity().d),
{
    let t = mat_det(m);
    lemma_prod_pos(m.a.1, m.d.1);
    lemma_prod_pos(m.b.1, m.c.1);
    lemma_prod_pos(m.a.1 * m.d.1, m.b.1 * m.c.1);
    // entry (0,0): m.a*n.a + m.b*n.c scales by det to m.a*m.d - m.b*m.c = det
    lemma_identity_entry_diag(m.a, m.b, n.a, n.c, m.d, m.c, t);
    assert(rat_eq(mat_mul(m, n).a, (1int, 1int)));
    // entry (1,1): m.c*n.b + m.d*n.d scales by det to m.d*m.a - m.c*m.b = det
    lemma_identity_entry_diag(m.d, m.c, n.d, n.b, m.a, m.b, t);
    lemma_rat_plus_comm_pair(rat_times(m.d, n.d), rat_times(m.c, n.b));
    assert(rat_eq(mat_mul(m, n).d, (1int, 1int)));
    // entry (0,1): m.a*n.b + m.b*n.d scales by det to -(m.a*m.b) + m.b*m.a = 0
    lemma_identity_entry_off(m.a, m.b, n.b, n.d, t);
    assert(rat_eq(mat_mul(m, n).b, (0int, 1int)));
    // entry (1,0): m.c*n.a + m.d*n.c scales by det to m.c*m.d - m.d*m.c = 0
    lemma_identity_entry_off_rev(m.c, m.d, n.a, n.c, t);
    assert(rat_eq(mat_mul(m, n).c, (0int, 1int)));
}

/// With the inverse on the left, the product is the identity as well:
/// the same adjugate relations, read along the rows of the inverse.
pub proof fn lemma_inverse_left_identity(m: Mat2V, n: Mat2V)
    requires
        mat_dens_pos(m),
        mat_dens_pos(n),
        mat_det(m).0 != 0,
        mat_inverts(n, m),
    ensures
        rat_eq(mat_mul(n, m).a, mat_identity().a),
        rat_eq(mat_mul(n, m).b, mat_identity().b),
        rat_eq(mat_mul(n, m).c, mat_identity().c),
        rat_eq(mat_mul(n, m).d, mat_identity().d),
{
    let t = mat_det(m);
    lemma_prod_pos(m.a.1, m.d.1);
    lemma_prod_pos(m.b.1, m.c.1);
    lemma_prod_pos(m.a.1 * m.d.1, m.b.1 * m.c.1);
    // entry (0,0): n.a*m.a + n.b*m.c, commuted factor by factor
    lemma_rat_times_comm(n.a, m.a);
    lemma_rat_times_comm(n.b, m.c);
    lemma_rat_times_comm(m.c, m.b);
    assert(t == rat_minus(rat_times(m.a, m.d), rat_times(m.c, m.b)));
    lemma_identity_entry_diag(m.a, m.c, n.a, n.b, m.d, m.b, t);
    assert(rat_eq(mat_mul(n, m).a, (1int, 1int)));
    // entry (0,1): n.a*m.b + n.b*m.d
    lemma_rat_times_comm(n.a, m.b);
    lemma_rat_times_comm(n.b, m.d);
    lemma_identity_entry_off_rev(m.b, m.d, n.a, n.b, t);
    assert(rat_eq(mat_mul(n, m).b, (0int, 1int)));
    // entry (1,0): n.c*m.a + n.d*m.c
    lemma_rat_times_comm(n.c, m.a);
    lemma_rat_times_comm(n.d, m.c);
    lemma_identity_entry_off(m.a, m.c, n.c, n.d, t);
    assert(rat_eq(mat_mul(n, m).c, (0int, 1int)));
    // entry (1,1): n.c*m.b + n.d*m.d, with the positive term brought first
    lemma_rat_times_comm(n.c, m.b);
    lemma_rat_times_comm(n.d, m.d);
    lemma_rat_times_comm(m.d, m.a);
    assert(t == rat_minus(rat_times(m.d, m.a), rat_times(m.b, m.c)));
    lemma_identity_entry_diag(m.d, m.b, n.d, n.c, m.a, m.c, t);
    lemma_rat_plus_comm_pair(rat_times(m.d, n.d), rat_times(m.b, n.c));
    assert(rat_eq(mat_mul(n, m).d, (1int, 1int)));
}

/// Exact sums of pairs commute.
proof fn lemma_rat_plus_comm_pair(p: (int, int), q: (int, int))
    ensures
        rat_plus(p, q) == rat_plus(q, p),
{
    vstd::arithmetic::mul::lemma_mul_is_commutative(p.1, q.1);
}

/// Diagonal entry of the product with the inverse: with
/// times(na, t) ~ w and times(nc, t) ~ -z and w*x... the combination
/// x*na + y*nc times t collapses to x*w - y*z, which is t itself when
/// (x, y, w, z) are the matching matrix entries.
proof fn lemma_identity_entry_diag(
    x: (int, int), y: (int, int), na: (int, int), nc: (int, int), w: (int, int), z: (int, int),
    t: (int, int),
)
    requires
        x.1 > 0,
        y.1 > 0,
        na.1 > 0,
        nc.1 > 0,
        w.1 > 0,
        z.1 > 0,
        t.1 > 0,
        t.0 != 0,
        rat_eq(rat_times(na, t), w),
        rat_eq(rat_times(nc, t), rat_neg(z)),
        t == rat_minus(rat_times(x, w), rat_times(y, z)),
    ensures
        rat_eq(rat_plus(rat_times(x, na), rat_times(y, nc)), (1int, 1int)),
{
    let u = rat_times(x, na);
    let v = rat_times(y, nc);
    lemma_prod_pos(x.1, na.1);
    lemma_prod_pos(y.1, nc.1);
    lemma_prod_pos(na.1, t.1);
    lemma_prod_pos(nc.1, t.1);
    lemma_prod_pos(x.1, w.1);
    lemma_prod_pos(y.1, z.1);
    lemma_rat_times_distrib(u, v, t);
    // times(u, t) == times(x, times(na, t)) ~ times(x, w)
    lemma_rat_times_assoc(x, na, t);
    lemma_rat_times_cong(x, rat_times(na, t), x, w);
    // times(v, t) == times(y, times(nc, t)) ~ times(y, -z) == -(times(y, z))
    lemma_rat_times_assoc(y, nc, t);
    lemma_rat_times_cong(y, rat_times(nc, t), y, rat_neg(z));
    lemma_rat_times_neg(y, z);
    // combine the two sides
    lemma_rat_plus_cong(
        rat_times(u, t),
        rat_times(v, t),
        rat_times(x, w),
        rat_neg(rat_times(y, z)),
    );
    lemma_plus_neg_is_minus(rat_times(x, w), rat_times(y, z));
    lemma_prod_pos(x.1 * w.1, y.1 * z.1);
    lemma_rat_eq_trans(
        rat_plus(rat_times(u, t), rat_times(v, t)),
        rat_plus(rat_times(x, w), rat_neg(rat_times(y, z))),
        t,
    );
    lemma_rat_eq_trans(
        rat_times(rat_plus(u, v), t),
        rat_plus(rat_times(u, t), rat_times(v, t)),
        t,
    );
    // t is one times t
    assert(rat_times((1int, 1int), t) == t);
    lemma_prod_pos(u.1, v.1);
    lemma_rat_cancel_right(rat_plus(u, v), (1int, 1int), t);
}

/// Off-diagonal entry, first row: x*nb + y*nd times t collapses to
/// x*(-y) + y*x, which is zero.
proof fn lemma_identity_entry_off(
    x: (int, int), y: (int, int), nb: (int, int), nd: (int, int), t: (int, int),
)
    requires
        x.1 > 0,
        y.1 > 0,
        nb.1 > 0,
        nd.1 > 0,
        t.1 > 0,
        t.0 != 0,
        rat_eq(rat_times(nb, t), rat_neg(y)),
        rat_eq(rat_times(nd, t), x),
    ensures
        rat_eq(rat_plus(rat_times(x, nb), rat_times(y, nd)), (0int, 1int)),
{
    let u = rat_times(x, nb);
    let v = rat_times(y, nd);
    lemma_prod_pos(x.1, nb.1);
    lemma_prod_pos(y.1, nd.1);
    lemma_prod_pos(nb.1, t.1);
    lemma_prod_pos(nd.1, t.1);
    lemma_prod_pos(x.1, y.1);
    lemma_rat_times_distrib(u, v, t);
    lemma_rat_times_assoc(x, nb, t);
    lemma_rat_times_cong(x, rat_times(nb, t), x, rat_neg(y));
    lemma_rat_times_neg(x, y);
    lemma_rat_times_assoc(y, nd, t);
    lemma_rat_times_cong(y, rat_times(nd, t), y, x);
    lemma_rat_times_comm(y, x);
    lemma_rat_plus_cong(
        rat_times(u, t),
        rat_times(v, t),
        rat_neg(rat_times(x, y)),
        rat_times(x, y),
    );
    lemma_plus_neg_left_zero(rat_times(x, y));
    lemma_rat_eq_trans(
        rat_plus(rat_times(u, t), rat_times(v, t)),
        rat_plus(rat_neg(rat_times(x, y)), rat_times(x, y)),
        (0int, 1int),
    );
    lemma_rat_eq_trans(
        rat_times(rat_plus(u, v), t),
        rat_plus(rat_times(u, t), rat_times(v, t)),
        (0int, 1int),
    );
    assert(rat_eq((0int, 1int), rat_times((0int, 1int), t)));
    lemma_rat_eq_trans(rat_times(rat_plus(u, v), t), (0int, 1int), rat_times((0int, 1int), t));
    lemma_prod_pos(u.1, v.1);
    lemma_rat_cancel_right(rat_plus(u, v), (0int, 1int), t);
}

/// Off-diagonal entry, second row: x*na + y*nc times t collapses to
/// x*y + y*(-x), which is zero.
proof fn lemma_identity_entry_off_rev(
    x: (int, int), y: (int, int), na: (int, int), nc: (int, int), t: (int, int),
)
    requires
        x.1 > 0,
        y.1 > 0,
        na.1 > 0,
        nc.1 > 0,
        t.1 > 0,
        t.0 != 0,
        rat_eq(rat_times(na, t), y),
        rat_eq(rat_times(nc, t), rat_neg(x)),
    ensures
        rat_eq(rat_plus(rat_times(x, na), rat_times(y, nc)), (0int, 1int)),
{
    let u = rat_times(x, na);
    let v = rat_times(y, nc);
    lemma_prod_pos(x.1, na.1);
    lemma_prod_pos(y.1, nc.1);
    lemma_prod_pos(na.1, t.1);
    lemma_prod_pos(nc.1, t.1);
    lemma_prod_pos(x.1, y.1);
    lemma_prod_pos(y.1, x.1);
    lemma_rat_times_distrib(u, v, t);
    lemma_rat_times_assoc(x, na, t);
    lemma_rat_times_cong(x, rat_times(na, t), x, y);
    lemma_rat_times_assoc(y, nc, t);
    lemma_rat_times_cong(y, rat_times(nc, t), y, rat_neg(x));
    lemma_rat_times_neg(y, x);
    lemma_rat_plus_cong(
        rat_times(u, t),
        rat_times(v, t),
        rat_times(x, y),
        rat_neg(rat_times(y, x)),
    );
    lemma_rat_times_comm(y, x);
    lemma_plus_neg_right_zero(rat_times(x, y));
    lemma_rat_eq_trans(
        rat_plus(rat_times(u, t), rat_times(v, t)),
        rat_plus(rat_times(x, y), rat_neg(rat_times(y, x))),
        (0int, 1int),
    );
    lemma_rat_eq_trans(
        rat_times(rat_plus(u, v), t),
        rat_plus(rat_times(u, t), rat_times(v, t)),
        (0int, 1int),
    );
    assert(rat_eq((0int, 1int), rat_times((0int, 1int), t)));
    lemma_rat_eq_trans(rat_times(rat_plus(u, v), t), (0int, 1int), rat_times((0int, 1int), t));
    lemma_prod_pos(u.1, v.1);
    lemma_rat_cancel_right(rat_plus(u, v), (0int, 1int), t);
}

/// The sum of a pair and its matching pair, with the matrix entries of the
/// determinant, collapses: plus(x*w, -(y*z)) is the pair minus(x*w, y*z).
proof fn lemma_plus_neg_is_minus(p: (int, int), q: (int, int))
    ensures
        rat_eq(rat_plus(p, rat_neg(q)), rat_minus(p, q)),
        rat_plus(p, rat_neg(q)).1 == rat_minus(p, q).1,
{
    assert((-q.0) * p.1 == -(q.0 * p.1)) by (nonlinear_arith);
}

/// The sum of the negation of a pair and the pair itself denotes zero.
proof fn lemma_plus_neg_left_zero(p: (int, int))
    ensures
        rat_eq(rat_plus(rat_neg(p), p), (0int, 1int)),
{
    assert((-p.0) * p.1 == -(p.0 * p.1)) by (nonlinear_arith);
}

/// The sum of a pair and its negation denotes zero.
proof fn lemma_plus_neg_right_zero(p: (int, int))
    ensures
        rat_eq(rat_plus(p, rat_neg(p)), (0int, 1int)),
{
    assert((-p.0) * p.1 == -(p.0 * p.1)) by (nonlinear_arith);
}


} // verus!
