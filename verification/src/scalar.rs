//! Fixed-point complex scalars.
//!
//! An amplitude is a pair of 64-bit integers `(re, im)`, each standing for
//! the real number `x / SCALE`. All operations round by truncating division
//! toward zero, so every operation has an exact integer specification.

use vstd::prelude::*;

verus! {

/// One amplitude unit: the integer standing for the real value 1.0.
pub const SCALE: i64 = 134217728;

/// Comparison tolerance: just under 1/10000 in amplitude units.
pub const TOL: i64 = 13421;

/// Largest magnitude a stored matrix or register component may have.
/// Keeping components within this bound makes every product of two stored
/// components fit in an `i64` after rescaling.
pub const CX_MAX: i64 = 17592186044416;

/// Mathematical model of an amplitude: an unbounded integer pair, each
/// coordinate standing for `x / SCALE`.
pub ghost struct Cv {
    pub re: int,
    pub im: int,
}

/// An amplitude: a complex number with fixed-point coordinates.
#[derive(Clone, Copy, Debug, PartialEq, Eq, Structural)]
pub struct Cx {
    pub re: i64,
    pub im: i64,
}

impl View for Cx {
    type V = Cv;

    open spec fn view(&self) -> Cv {
        Cv { re: self.re as int, im: self.im as int }
    }
}

/// Truncating division toward zero, the rounding used by every scalar
/// operation.
pub open spec fn divt(x: int, d: int) -> int {
    if x >= 0 {
        x / d
    } else {
        -((-x) / d)
    }
}

pub open spec fn c_zero() -> Cv {
    Cv { re: 0, im: 0 }
}

pub open spec fn c_one() -> Cv {
    Cv { re: SCALE as int, im: 0 }
}

pub open spec fn c_i() -> Cv {
    Cv { re: 0, im: SCALE as int }
}

pub open spec fn c_add(a: Cv, b: Cv) -> Cv {
    Cv { re: a.re + b.re, im: a.im + b.im }
}

pub open spec fn c_sub(a: Cv, b: Cv) -> Cv {
    Cv { re: a.re - b.re, im: a.im - b.im }
}

pub open spec fn c_neg(a: Cv) -> Cv {
    Cv { re: -a.re, im: -a.im }
}

pub open spec fn c_conj(a: Cv) -> Cv {
    Cv { re: a.re, im: -a.im }
}

/// The product of two amplitudes, each coordinate rescaled by one
/// truncating division.
pub open spec fn c_mul(a: Cv, b: Cv) -> Cv {
    Cv {
        re: divt(a.re * b.re - a.im * b.im, SCALE as int),
        im: divt(a.re * b.im + a.im * b.re, SCALE as int),
    }
}

/// Squared modulus before rescaling (scale is SCALE squared).
pub open spec fn c_abs_sq_raw(a: Cv) -> int {
    a.re * a.re + a.im * a.im
}

/// Squared modulus in amplitude units: the Born probability weight.
pub open spec fn c_prob(a: Cv) -> int {
    divt(c_abs_sq_raw(a), SCALE as int)
}

pub open spec fn c_bounded(a: Cv, m: int) -> bool {
    -m <= a.re <= m && -m <= a.im <= m
}

pub open spec fn c_is_zero(a: Cv) -> bool {
    a.re == 0 && a.im == 0
}

impl Cx {
    pub open spec fn wf(self) -> bool {
        c_bounded(self@, CX_MAX as int)
    }

    pub fn zero() -> (r: Cx)
        ensures
            r@ == c_zero(),
            r.wf(),
    {
        Cx { re: 0, im: 0 }
    }

    pub fn one() -> (r: Cx)
        ensures
            r@ == c_one(),
            r.wf(),
    {
        Cx { re: SCALE, im: 0 }
    }

    pub fn imaginary_unit() -> (r: Cx)
        ensures
            r@ == c_i(),
            r.wf(),
    {
        Cx { re: 0, im: SCALE }
    }

    pub fn new(re: i64, im: i64) -> (r: Cx)
        ensures
            r@ == (Cv { re: re as int, im: im as int }),
    {
        Cx { re, im }
    }

    pub fn is_zero(&self) -> (r: bool)
        ensures
            r == c_is_zero(self@),
    {
        self.re == 0 && self.im == 0
    }

    pub fn add(self, b: Cx) -> (r: Cx)
        requires
            self.wf(),
            b.wf(),
        ensures
            r@ == c_add(self@, b@),
    {
        Cx { re: self.re + b.re, im: self.im + b.im }
    }

    pub fn sub(self, b: Cx) -> (r: Cx)
        requires
            self.wf(),
            b.wf(),
        ensures
            r@ == c_sub(self@, b@),
    {
        Cx { re: self.re - b.re, im: self.im - b.im }
    }

    pub fn neg(self) -> (r: Cx)
        requires
            self.wf(),
        ensures
            r@ == c_neg(self@),
    {
        Cx { re: -self.re, im: -self.im }
    }

    pub fn conj(self) -> (r: Cx)
        requires
            self.wf(),
        ensures
            r@ == c_conj(self@),
    {
        Cx { re: self.re, im: -self.im }
    }

    pub fn mul(self, b: Cx) -> (r: Cx)
        requires
            self.wf(),
            b.wf(),
        ensures
            r@ == c_mul(self@, b@),
    {
        let ar = self.re as i128;
        let ai = self.im as i128;
        let br = b.re as i128;
        let bi = b.im as i128;
        proof {
            let m = CX_MAX as int;
            lemma_mul_bound(ar as int, br as int, m, m);
            lemma_mul_bound(ai as int, bi as int, m, m);
            lemma_mul_bound(ar as int, bi as int, m, m);
            lemma_mul_bound(ai as int, br as int, m, m);
        }
        let re_raw: i128 = ar * br - ai * bi;
        let im_raw: i128 = ar * bi + ai * br;
        proof {
            let m2 = 2 * (CX_MAX as int) * (CX_MAX as int);
            lemma_divt_quotient_bound(re_raw as int, SCALE as int, m2);
            lemma_divt_quotient_bound(im_raw as int, SCALE as int, m2);
        }
        let re_s: i128 = div_scale(re_raw);
        let im_s: i128 = div_scale(im_raw);
        Cx { re: re_s as i64, im: im_s as i64 }
    }

    /// The multiplicative inverse: the conjugate divided by the squared
    /// modulus, each coordinate rescaled. None exactly when the value is
    /// zero or the inverse leaves the stored-component bound.
    pub fn inv(self) -> (r: Option<Cx>)
        requires
            self.wf(),
        ensures
            match r {
                Some(v) => {
                    &&& !c_is_zero(self@)
                    &&& v@.re == divt(
                        self@.re * (SCALE as int) * (SCALE as int),
                        c_abs_sq_raw(self@),
                    )
                    &&& v@.im == divt(
                        -self@.im * (SCALE as int) * (SCALE as int),
                        c_abs_sq_raw(self@),
                    )
                    &&& v.wf()
                },
                None => c_is_zero(self@) || !c_bounded(
                    Cv {
                        re: divt(self@.re * (SCALE as int) * (SCALE as int), c_abs_sq_raw(self@)),
                        im: divt(-self@.im * (SCALE as int) * (SCALE as int), c_abs_sq_raw(self@)),
                    },
                    CX_MAX as int,
                ),
            },
    {
        if self.re == 0 && self.im == 0 {
            return None;
        }
        proof {
            let m = CX_MAX as int;
            lemma_mul_bound(self@.re, self@.re, m, m);
            lemma_mul_bound(self@.im, self@.im, m, m);
            lemma_square_nonneg(self@.re);
            lemma_square_nonneg(self@.im);
            assert(self@.re != 0 || self@.im != 0);
            assert(self@.re != 0 ==> self@.re * self@.re >= 1) by (nonlinear_arith);
            assert(self@.im != 0 ==> self@.im * self@.im >= 1) by (nonlinear_arith);
            lemma_mul_bound(self@.re * (SCALE as int), SCALE as int, m * (SCALE as int), SCALE as int);
            lemma_mul_bound(self@.re, SCALE as int, m, SCALE as int);
            lemma_mul_bound(self@.im, SCALE as int, m, SCALE as int);
            lemma_mul_bound(-(self@.im) * (SCALE as int), SCALE as int, m * (SCALE as int), SCALE as int);
            assert(-(self@.im) * (SCALE as int) == -(self@.im * (SCALE as int)))
                by (nonlinear_arith);
        }
        let raw: i128 = (self.re as i128) * (self.re as i128) + (self.im as i128) * (
        self.im as i128);
        let num_re: i128 = (self.re as i128) * (SCALE as i128) * (SCALE as i128);
        let num_im: i128 = -(self.im as i128) * (SCALE as i128) * (SCALE as i128);
        let vr: i128 = div_trunc(num_re, raw);
        let vi: i128 = div_trunc(num_im, raw);
        proof {
            assert(self@.re * (SCALE as int) * (SCALE as int) == (self@.re * (SCALE as int)) * (
            SCALE as int)) by (nonlinear_arith);
            assert(-self@.im * (SCALE as int) * (SCALE as int) == (-(self@.im) * (SCALE as int))
                * (SCALE as int)) by (nonlinear_arith);
        }
        if vr > CX_MAX as i128 || vr < -(CX_MAX as i128) || vi > CX_MAX as i128 || vi < -(
        CX_MAX as i128) {
            return None;
        }
        Some(Cx { re: vr as i64, im: vi as i64 })
    }

    /// Squared modulus in amplitude units.
    pub fn prob(self) -> (r: i64)
        requires
            self.wf(),
        ensures
            r == c_prob(self@),
            r >= 0,
    {
        let ar = self.re as i128;
        let ai = self.im as i128;
        proof {
            let m = CX_MAX as int;
            lemma_mul_bound(ar as int, ar as int, m, m);
            lemma_mul_bound(ai as int, ai as int, m, m);
            lemma_square_nonneg(ar as int);
            lemma_square_nonneg(ai as int);
        }
        let raw: i128 = ar * ar + ai * ai;
        proof {
            let m2 = 2 * (CX_MAX as int) * (CX_MAX as int);
            lemma_divt_quotient_bound(raw as int, SCALE as int, m2);
            lemma_divt_nonneg(raw as int, SCALE as int);
        }
        let s: i128 = div_scale(raw);
        s as i64
    }
}

/// Truncating division toward zero by an arbitrary positive divisor.
pub fn div_trunc(x: i128, d: i128) -> (r: i128)
    requires
        1 <= d,
        -0x4000_0000_0000_0000_0000_0000_0000_0000 < x,
    ensures
        r == divt(x as int, d as int),
        x >= 0 ==> 0 <= r <= x,
        x < 0 ==> x <= r <= 0,
{
    if x >= 0 {
        let q: u128 = (x as u128) / (d as u128);
        proof {
            lemma_div_shrinks(x as int, d as int);
        }
        q as i128
    } else {
        let nx: i128 = -x;
        let q: u128 = (nx as u128) / (d as u128);
        proof {
            lemma_div_shrinks(nx as int, d as int);
        }
        -(q as i128)
    }
}

/// Truncating division of an intermediate product by SCALE.
pub fn div_scale(x: i128) -> (r: i128)
    requires
        -0x4000_0000_0000_0000_0000_0000_0000_0000 < x,
    ensures
        r == divt(x as int, SCALE as int),
        x >= 0 ==> 0 <= r <= x,
        x < 0 ==> x <= r <= 0,
{
    if x >= 0 {
        let q: u128 = (x as u128) / (SCALE as u128);
        proof {
            lemma_div_shrinks(x as int, SCALE as int);
        }
        q as i128
    } else {
        let nx: i128 = -x;
        let q: u128 = (nx as u128) / (SCALE as u128);
        proof {
            lemma_div_shrinks(nx as int, SCALE as int);
        }
        -(q as i128)
    }
}

proof fn lemma_square_nonneg(x: int)
    ensures
        x * x >= 0,
{
    if x < 0 {
        assert(x * x == (-x) * (-x)) by (nonlinear_arith);
        assert((-x) * (-x) >= 0) by (nonlinear_arith);
    } else {
        assert(x * x >= 0) by (nonlinear_arith);
    }
}

proof fn lemma_div_shrinks(x: int, d: int)
    requires
        x >= 0,
        d >= 1,
    ensures
        0 <= x / d <= x,
{
    assert(0 <= x / d <= x) by (nonlinear_arith)
        requires
            x >= 0,
            d >= 1,
    ;
}

pub proof fn lemma_divt_nonneg(x: int, d: int)
    requires
        x >= 0,
        d >= 1,
    ensures
        0 <= divt(x, d) <= x,
{
    lemma_div_shrinks(x, d);
}

pub proof fn lemma_divt_neg(x: int, d: int)
    requires
        x <= 0,
        d >= 1,
    ensures
        x <= divt(x, d) <= 0,
{
    lemma_div_shrinks(-x, d);
}

/// |a| <= m1 and |b| <= m2 bound the product by m1 * m2.
pub proof fn lemma_mul_bound(a: int, b: int, m1: int, m2: int)
    requires
        0 <= m1,
        0 <= m2,
        -m1 <= a <= m1,
        -m2 <= b <= m2,
    ensures
        -(m1 * m2) <= a * b <= m1 * m2,
{
    assert(-(m1 * m2) <= a * b <= m1 * m2) by (nonlinear_arith)
        requires
            0 <= m1,
            0 <= m2,
            -m1 <= a <= m1,
            -m2 <= b <= m2,
    ;
}

/// A bound on the dividend gives the rescaled bound on the quotient.
pub proof fn lemma_divt_quotient_bound(x: int, d: int, m: int)
    requires
        d >= 1,
        0 <= m,
        -m <= x <= m,
    ensures
        -(m / d) <= divt(x, d) <= m / d,
{
    if x >= 0 {
        assert(0 <= x / d <= m / d) by (nonlinear_arith)
            requires
                d >= 1,
                0 <= x <= m,
        ;
    } else {
        assert(0 <= (-x) / d <= m / d) by (nonlinear_arith)
            requires
                d >= 1,
                0 <= -x <= m,
        ;
    }
}

/// A square is never negative.
pub proof fn lemma_square_nonneg_pub2(x: int)
    ensures
        x * x >= 0,
{
    lemma_square_nonneg(x);
}

/// Truncating division leaves a remainder smaller than the divisor.
pub proof fn lemma_divt_remainder(v: int, d: int)
    requires
        d >= 1,
    ensures
        -(d - 1) <= v - divt(v, d) * d <= d - 1,
{
    if v >= 0 {
        vstd::arithmetic::div_mod::lemma_fundamental_div_mod(v, d);
        vstd::arithmetic::div_mod::lemma_mod_bound(v, d);
        assert(d * (v / d) == (v / d) * d) by (nonlinear_arith);
    } else {
        vstd::arithmetic::div_mod::lemma_fundamental_div_mod(-v, d);
        vstd::arithmetic::div_mod::lemma_mod_bound(-v, d);
        assert(d * ((-v) / d) == ((-v) / d) * d) by (nonlinear_arith);
        assert((-((-v) / d)) * d == -(((-v) / d) * d)) by (nonlinear_arith);
    }
}

/// One grouped product coordinate is within 17 double-scale units of the
/// exact triple product: the real-part pattern.
proof fn lemma_group_err_re(
    pr: int,
    pi: int,
    zr: int,
    zi: int,
    er: int,
    ei: int,
    lr: int,
    s: int,
    b: int,
)
    requires
        s >= 1,
        b == 8 * s,
        -(s - 1) <= er - pr * s <= s - 1,
        -(s - 1) <= ei - pi * s <= s - 1,
        -(s - 1) <= (pr * zr - pi * zi) - lr * s <= s - 1,
        -b <= zr <= b,
        -b <= zi <= b,
    ensures
        -(17 * (s * s)) <= s * (s * lr) - (er * zr - ei * zi) <= 17 * (s * s),
{
    let d1 = er - pr * s;
    let d2 = ei - pi * s;
    let d3 = (pr * zr - pi * zi) - lr * s;
    lemma_mul_bound(d1, zr, s, b);
    lemma_mul_bound(d2, zi, s, b);
    lemma_mul_bound(s, d3, s, s);
    assert(s * b == 8 * (s * s)) by (nonlinear_arith)
        requires
            b == 8 * s,
    ;
    assert(s * (s * lr) == s * (pr * zr) - s * (pi * zi) - s * d3) by (nonlinear_arith)
        requires
            s * lr == pr * zr - pi * zi - d3,
    ;
    assert(s * (pr * zr) == (s * pr) * zr) by (nonlinear_arith);
    assert(s * (pi * zi) == (s * pi) * zi) by (nonlinear_arith);
    assert((s * pr) * zr == er * zr - d1 * zr) by (nonlinear_arith)
        requires
            s * pr == er - d1,
    ;
    assert((s * pi) * zi == ei * zi - d2 * zi) by (nonlinear_arith)
        requires
            s * pi == ei - d2,
    ;
}

/// The companion imaginary-part pattern.
proof fn lemma_group_err_im(
    pr: int,
    pi: int,
    zr: int,
    zi: int,
    er: int,
    ei: int,
    li: int,
    s: int,
    b: int,
)
    requires
        s >= 1,
        b == 8 * s,
        -(s - 1) <= er - pr * s <= s - 1,
        -(s - 1) <= ei - pi * s <= s - 1,
        -(s - 1) <= (pr * zi + pi * zr) - li * s <= s - 1,
        -b <= zr <= b,
        -b <= zi <= b,
    ensures
        -(17 * (s * s)) <= s * (s * li) - (er * zi + ei * zr) <= 17 * (s * s),
{
    let d1 = er - pr * s;
    let d2 = ei - pi * s;
    let d3 = (pr * zi + pi * zr) - li * s;
    lemma_mul_bound(d1, zi, s, b);
    lemma_mul_bound(d2, zr, s, b);
    lemma_mul_bound(s, d3, s, s);
    assert(s * b == 8 * (s * s)) by (nonlinear_arith)
        requires
            b == 8 * s,
    ;
    assert(s * (s * li) == s * (pr * zi) + s * (pi * zr) - s * d3) by (nonlinear_arith)
        requires
            s * li == pr * zi + pi * zr - d3,
    ;
    assert(s * (pr * zi) == (s * pr) * zi) by (nonlinear_arith);
    assert(s * (pi * zr) == (s * pi) * zr) by (nonlinear_arith);
    assert((s * pr) * zi == er * zi - d1 * zi) by (nonlinear_arith)
        requires
            s * pr == er - d1,
    ;
    assert((s * pi) * zr == ei * zr - d2 * zr) by (nonlinear_arith)
        requires
            s * pi == ei - d2,
    ;
}

/// Values whose double-scale images are each within 17 units of a common
/// target differ by at most 34.
proof fn lemma_double_scale_close(u: int, v: int, t: int, s: int)
    requires
        s >= 1,
        -(17 * (s * s)) <= s * (s * u) - t <= 17 * (s * s),
        -(17 * (s * s)) <= s * (s * v) - t <= 17 * (s * s),
    ensures
        -34 <= u - v <= 34,
{
    assert(s * (s * u) - s * (s * v) == (s * s) * (u - v)) by (nonlinear_arith);
    assert(-34 <= u - v <= 34) by (nonlinear_arith)
        requires
            s >= 1,
            -(34 * (s * s)) <= (s * s) * (u - v) <= 34 * (s * s),
    ;
}

/// The exact triple product does not depend on the grouping: the real
/// coordinate, expanded monomial by monomial.
proof fn lemma_triple_re(xr: int, xi: int, yr: int, yi: int, zr: int, zi: int)
    ensures
        (xr * yr - xi * yi) * zr - (xr * yi + xi * yr) * zi == (yr * zr - yi * zi) * xr - (yr * zi
            + yi * zr) * xi,
{
    assert((xr * yr - xi * yi) * zr == (xr * yr) * zr - (xi * yi) * zr) by (nonlinear_arith);
    assert((xr * yi + xi * yr) * zi == (xr * yi) * zi + (xi * yr) * zi) by (nonlinear_arith);
    assert((yr * zr - yi * zi) * xr == (yr * zr) * xr - (yi * zi) * xr) by (nonlinear_arith);
    assert((yr * zi + yi * zr) * xi == (yr * zi) * xi + (yi * zr) * xi) by (nonlinear_arith);
    assert((xr * yr) * zr == (yr * zr) * xr) by (nonlinear_arith);
    assert((xi * yi) * zr == (yi * zr) * xi) by (nonlinear_arith);
    assert((xr * yi) * zi == (yi * zi) * xr) by (nonlinear_arith);
    assert((xi * yr) * zi == (yr * zi) * xi) by (nonlinear_arith);
}

/// The same for the imaginary coordinate.
proof fn lemma_triple_im(xr: int, xi: int, yr: int, yi: int, zr: int, zi: int)
    ensures
        (xr * yr - xi * yi) * zi + (xr * yi + xi * yr) * zr == (yr * zr - yi * zi) * xi + (yr * zi
            + yi * zr) * xr,
{
    assert((xr * yr - xi * yi) * zi == (xr * yr) * zi - (xi * yi) * zi) by (nonlinear_arith);
    assert((xr * yi + xi * yr) * zr == (xr * yi) * zr + (xi * yr) * zr) by (nonlinear_arith);
    assert((yr * zr - yi * zi) * xi == (yr * zr) * xi - (yi * zi) * xi) by (nonlinear_arith);
    assert((yr * zi + yi * zr) * xr == (yr * zi) * xr + (yi * zr) * xr) by (nonlinear_arith);
    assert((xr * yr) * zi == (yr * zi) * xr) by (nonlinear_arith);
    assert((xi * yi) * zi == (yi * zi) * xi) by (nonlinear_arith);
    assert((xr * yi) * zr == (yi * zr) * xr) by (nonlinear_arith);
    assert((xi * yr) * zr == (yr * zr) * xi) by (nonlinear_arith);
}

/// Multiplication of amplitudes is associative within a few units for
/// values of modest magnitude (at most eight): regrouping a triple
/// product moves each coordinate by at most 34, far below the comparison
/// tolerance.
pub proof fn lemma_c_mul_assoc_close(x: Cv, y: Cv, z: Cv)
    requires
        c_bounded(x, 0x4000_0000),
        c_bounded(y, 0x4000_0000),
        c_bounded(z, 0x4000_0000),
    ensures
        c_bounded(c_sub(c_mul(c_mul(x, y), z), c_mul(x, c_mul(y, z))), 34),
{
    let s = SCALE as int;
    let b = 0x4000_0000int;
    assert(b == 8 * s);
    let exr = x.re * y.re - x.im * y.im;
    let exi = x.re * y.im + x.im * y.re;
    let fyr = y.re * z.re - y.im * z.im;
    let fyi = y.re * z.im + y.im * z.re;
    let tr = exr * z.re - exi * z.im;
    let ti = exr * z.im + exi * z.re;
    lemma_triple_re(x.re, x.im, y.re, y.im, z.re, z.im);
    lemma_triple_im(x.re, x.im, y.re, y.im, z.re, z.im);
    let p = c_mul(x, y);
    let q = c_mul(y, z);
    let lhs = c_mul(p, z);
    let rhs = c_mul(x, q);
    lemma_divt_remainder(exr, s);
    lemma_divt_remainder(exi, s);
    lemma_divt_remainder(fyr, s);
    lemma_divt_remainder(fyi, s);
    lemma_divt_remainder(p.re * z.re - p.im * z.im, s);
    lemma_divt_remainder(p.re * z.im + p.im * z.re, s);
    lemma_divt_remainder(x.re * q.re - x.im * q.im, s);
    lemma_divt_remainder(x.re * q.im + x.im * q.re, s);
    assert(x.re * q.re == q.re * x.re && x.im * q.im == q.im * x.im && x.re * q.im == q.im * x.re
        && x.im * q.re == q.re * x.im) by (nonlinear_arith);
    lemma_group_err_re(p.re, p.im, z.re, z.im, exr, exi, lhs.re, s, b);
    lemma_group_err_im(p.re, p.im, z.re, z.im, exr, exi, lhs.im, s, b);
    lemma_group_err_re(q.re, q.im, x.re, x.im, fyr, fyi, rhs.re, s, b);
    lemma_group_err_im(q.re, q.im, x.re, x.im, fyr, fyi, rhs.im, s, b);
    lemma_double_scale_close(lhs.re, rhs.re, tr, s);
    lemma_double_scale_close(lhs.im, rhs.im, ti, s);
}

/// Multiplying by zero gives exactly zero.
pub proof fn lemma_c_mul_zero(a: Cv)
    ensures
        c_mul(c_zero(), a) == c_zero(),
        c_mul(a, c_zero()) == c_zero(),
{
    assert(a.re * 0 == 0) by (nonlinear_arith);
    assert(a.im * 0 == 0) by (nonlinear_arith);
    assert(0 * a.re == 0) by (nonlinear_arith);
    assert(0 * a.im == 0) by (nonlinear_arith);
    assert(divt(0, SCALE as int) == 0);
}

/// Multiplying by one is exact.
pub proof fn lemma_c_mul_one(a: Cv)
    ensures
        c_mul(c_one(), a) == a,
        c_mul(a, c_one()) == a,
{
    let s = SCALE as int;
    assert(s * a.re == a.re * s) by (nonlinear_arith);
    assert(s * a.im == a.im * s) by (nonlinear_arith);
    assert(a.re * 0 == 0) by (nonlinear_arith);
    assert(a.im * 0 == 0) by (nonlinear_arith);
    assert(0 * a.re == 0) by (nonlinear_arith);
    lemma_divt_exact_multiple(a.re, s);
    lemma_divt_exact_multiple(a.im, s);
}

/// divt(k * d, d) == k: rescaling an exact multiple loses nothing.
pub proof fn lemma_divt_exact_multiple(k: int, d: int)
    requires
        d >= 1,
    ensures
        divt(k * d, d) == k,
{
    if k >= 0 {
        assert(k * d >= 0) by (nonlinear_arith)
            requires
                k >= 0,
                d >= 1,
        ;
        assert((k * d) / d == k) by (nonlinear_arith)
            requires
                d >= 1,
        ;
    } else {
        assert(k * d <= 0) by (nonlinear_arith)
            requires
                k <= 0,
                d >= 1,
        ;
        assert(-(k * d) == (-k) * d) by (nonlinear_arith);
        assert(((-k) * d) / d == -k) by (nonlinear_arith)
            requires
                d >= 1,
        ;
    }
}

} // verus!
