//! Single qubits.
//!
//! A qubit is a two-dimensional complex vector: the amplitudes of the
//! basis states 0 and 1. Measurement draws once from the trusted random
//! source and decides by the Born weight of the 0 amplitude.

use vstd::prelude::*;

use crate::phase::isqrt128;
use crate::phase::sqrt_v;
use crate::scalar::c_abs_sq_raw;
use crate::scalar::c_is_zero;
use crate::scalar::c_one;
use crate::scalar::c_prob;
use crate::scalar::c_sub;
use crate::scalar::c_zero;
use crate::scalar::divt;
use crate::scalar::Cv;
use crate::scalar::Cx;
use crate::scalar::CX_MAX;
use crate::scalar::SCALE;
use crate::scalar::TOL;
use crate::QError;

verus! {

/// A measurement outcome: the index of the collapsed basis state.
pub type Measurement = u8;

/// A two-dimensional complex unit vector: amplitudes of basis 0 and 1.
#[derive(Clone, Copy, Debug, PartialEq, Eq, Structural)]
pub struct Qubit {
    pub amp0: Cx,
    pub amp1: Cx,
}

/// The value a component takes after dividing by the vector norm: the
/// component is rescaled by SCALE and divided by the floor square root of
/// the raw squared norm.
pub open spec fn normalized_component(x: int, raw: int) -> int {
    divt(x * (SCALE as int), sqrt_v(raw))
}

impl Qubit {
    pub open spec fn wf(self) -> bool {
        self.amp0.wf() && self.amp1.wf()
    }

    /// The raw squared norm of the two amplitudes (scale SCALE squared).
    pub open spec fn norm_raw(self) -> int {
        c_abs_sq_raw(self.amp0@) + c_abs_sq_raw(self.amp1@)
    }

    /// Wrap two amplitudes assumed to form a unit vector.
    pub fn new(amp0: Cx, amp1: Cx) -> (q: Qubit)
        requires
            amp0.wf(),
            amp1.wf(),
        ensures
            q.amp0 == amp0,
            q.amp1 == amp1,
            q.wf(),
    {
        Qubit { amp0, amp1 }
    }

    /// Divide a two-dimensional vector by its norm. Fails exactly when
    /// both amplitudes are zero.
    pub fn new_normalize(amp0: Cx, amp1: Cx) -> (r: Result<Qubit, QError>)
        requires
            amp0.wf(),
            amp1.wf(),
        ensures
            match r {
                Ok(q) => {
                    &&& q.wf()
                    &&& !(c_is_zero(amp0@) && c_is_zero(amp1@))
                    &&& {
                        let raw = c_abs_sq_raw(amp0@) + c_abs_sq_raw(amp1@);
                        &&& q.amp0@.re == normalized_component(amp0@.re, raw)
                        &&& q.amp0@.im == normalized_component(amp0@.im, raw)
                        &&& q.amp1@.re == normalized_component(amp1@.re, raw)
                        &&& q.amp1@.im == normalized_component(amp1@.im, raw)
                        &&& (raw >= 0x1_0000_0000 ==> -((TOL as int) * (SCALE as int)) < q.norm_raw()
                            - (SCALE as int) * (SCALE as int) < (TOL as int) * (SCALE as int))
                    }
                },
                Err(e) => {
                    &&& e == QError::ZeroNorm
                    &&& c_is_zero(amp0@)
                    &&& c_is_zero(amp1@)
                },
            },
    {
        match normalize_pair(amp0, amp1) {
            Some((a, b)) => Ok(Qubit { amp0: a, amp1: b }),
            None => Err(QError::ZeroNorm),
        }
    }

    /// The basis state 0: amplitude one on component 0.
    pub fn basis_0() -> (q: Qubit)
        ensures
            q.wf(),
            q.amp0@ == c_one(),
            q.amp1@ == c_zero(),
    {
        Qubit { amp0: Cx::one(), amp1: Cx::zero() }
    }

    /// The basis state 1: amplitude one on component 1.
    pub fn basis_1() -> (q: Qubit)
        ensures
            q.wf(),
            q.amp0@ == c_zero(),
            q.amp1@ == c_one(),
    {
        Qubit { amp0: Cx::zero(), amp1: Cx::one() }
    }

    /// The balanced superposition: both components 1, then normalized.
    pub fn half_half() -> (q: Qubit)
        ensures
            q.wf(),
            q.amp0@.re == normalized_component(SCALE as int, 2 * (SCALE as int) * (SCALE as int)),
            q.amp0@.im == 0,
            q.amp1@ == q.amp0@,
    {
        let one: Cx = Cx::one();
        match Qubit::new_normalize(one, one) {
            Ok(q) => {
                proof {
                    assert((SCALE as int) * (SCALE as int) + 0 * 0 + ((SCALE as int) * (
                    SCALE as int) + 0 * 0) == 2 * (SCALE as int) * (SCALE as int))
                        by (nonlinear_arith);
                    assert(2 * (SCALE as int) * (SCALE as int) >= 1) by (nonlinear_arith)
                        requires
                            SCALE >= 1,
                    ;
                    crate::phase::lemma_sqrt_v_pos(2 * (SCALE as int) * (SCALE as int));
                    crate::scalar::lemma_divt_exact_multiple(0, sqrt_v(2 * (SCALE as int) * (
                    SCALE as int)));
                }
                q
            },
            Err(_) => vstd::pervasive::unreached(),
        }
    }

    /// Whether the two qubits agree within the tolerance, by Euclidean
    /// distance of their state vectors.
    pub fn almost_equals(&self, rhs: &Qubit) -> (r: bool)
        requires
            self.wf(),
            rhs.wf(),
        ensures
            r == (c_abs_sq_raw(c_sub(self.amp0@, rhs.amp0@)) + c_abs_sq_raw(
                c_sub(self.amp1@, rhs.amp1@),
            ) < (TOL as int) * (TOL as int)),
    {
        let d0r: i128 = (self.amp0.re as i128) - (rhs.amp0.re as i128);
        let d0i: i128 = (self.amp0.im as i128) - (rhs.amp0.im as i128);
        let d1r: i128 = (self.amp1.re as i128) - (rhs.amp1.re as i128);
        let d1i: i128 = (self.amp1.im as i128) - (rhs.amp1.im as i128);
        proof {
            let m = 2 * (CX_MAX as int);
            crate::scalar::lemma_mul_bound(d0r as int, d0r as int, m, m);
            crate::scalar::lemma_mul_bound(d0i as int, d0i as int, m, m);
            crate::scalar::lemma_mul_bound(d1r as int, d1r as int, m, m);
            crate::scalar::lemma_mul_bound(d1i as int, d1i as int, m, m);
            assert((TOL as int) * (TOL as int) == 180123241) by (nonlinear_arith)
                requires
                    TOL == 13421,
            ;
        }
        let s: i128 = d0r * d0r + d0i * d0i + (d1r * d1r + d1i * d1i);
        s < (TOL as i128) * (TOL as i128)
    }

    pub fn get_state(&self) -> (r: (Cx, Cx))
        ensures
            r.0 == self.amp0,
            r.1 == self.amp1,
    {
        (self.amp0, self.amp1)
    }

    pub fn change_state(&mut self, amp0: Cx, amp1: Cx)
        requires
            amp0.wf(),
            amp1.wf(),
        ensures
            final (self).amp0 == amp0,
            final (self).amp1 == amp1,
            final (self).wf(),
    {
        self.amp0 = amp0;
        self.amp1 = amp1;
    }

    /// Measure the qubit: draw once from the random source and collapse.
    /// Whatever is drawn, the outcome is 0 or 1 with the matching basis
    /// state; a certain qubit measures deterministically.
    pub fn measure(&self) -> (r: (Measurement, Qubit))
        requires
            self.wf(),
        ensures
            r.0 == 0 || r.0 == 1,
            r.0 == 0 ==> r.1.amp0@ == c_one() && r.1.amp1@ == c_zero(),
            r.0 == 1 ==> r.1.amp0@ == c_zero() && r.1.amp1@ == c_one(),
            c_prob(self.amp0@) >= SCALE ==> r.0 == 0,
            c_prob(self.amp0@) == 0 ==> r.0 == 1,
    {
        let r: i64 = crate::rng::draw_unit();
        let p0: i64 = self.amp0.prob();
        if r < p0 {
            (0, Qubit::basis_0())
        } else {
            (1, Qubit::basis_1())
        }
    }
}

/// Divide two amplitudes by their common norm; None when it is zero.
fn normalize_pair(amp0: Cx, amp1: Cx) -> (r: Option<(Cx, Cx)>)
    requires
        amp0.wf(),
        amp1.wf(),
    ensures
        match r {
            Some((a, b)) => {
                &&& a.wf()
                &&& b.wf()
                &&& !(c_is_zero(amp0@) && c_is_zero(amp1@))
                &&& {
                    let raw = c_abs_sq_raw(amp0@) + c_abs_sq_raw(amp1@);
                    &&& a@.re == normalized_component(amp0@.re, raw)
                    &&& a@.im == normalized_component(amp0@.im, raw)
                    &&& b@.re == normalized_component(amp1@.re, raw)
                    &&& b@.im == normalized_component(amp1@.im, raw)
                    &&& (raw >= 0x1_0000_0000 ==> -((TOL as int) * (SCALE as int)) < c_abs_sq_raw(
                        a@,
                    ) + c_abs_sq_raw(b@) - (SCALE as int) * (SCALE as int) < (TOL as int) * (
                    SCALE as int))
                }
            },
            None => c_is_zero(amp0@) && c_is_zero(amp1@),
        },
{
    proof {
        crate::scalar::lemma_mul_bound(amp0@.re, amp0@.re, CX_MAX as int, CX_MAX as int);
        crate::scalar::lemma_mul_bound(amp0@.im, amp0@.im, CX_MAX as int, CX_MAX as int);
        crate::scalar::lemma_mul_bound(amp1@.re, amp1@.re, CX_MAX as int, CX_MAX as int);
        crate::scalar::lemma_mul_bound(amp1@.im, amp1@.im, CX_MAX as int, CX_MAX as int);
        lemma_square_nonneg_pub(amp0@.re);
        lemma_square_nonneg_pub(amp0@.im);
        lemma_square_nonneg_pub(amp1@.re);
        lemma_square_nonneg_pub(amp1@.im);
    }
    let r0: i128 = (amp0.re as i128) * (amp0.re as i128) + (amp0.im as i128) * (amp0.im as i128);
    let r1: i128 = (amp1.re as i128) * (amp1.re as i128) + (amp1.im as i128) * (amp1.im as i128);
    let raw: i128 = r0 + r1;
    if raw == 0 {
        proof {
            lemma_zero_sum_squares(amp0@.re, amp0@.im, amp1@.re, amp1@.im);
        }
        return None;
    }
    let d: u64 = isqrt128(raw as u128);
    proof {
        assert(d >= 1) by {
            if d == 0 {
                assert((0int + 1) * (0int + 1) > raw as int);
            }
        }
    }
    let a = scale_component(amp0.re, d, raw as u128);
    let ai = scale_component(amp0.im, d, raw as u128);
    let b = scale_component(amp1.re, d, raw as u128);
    let bi = scale_component(amp1.im, d, raw as u128);
    proof {
        if raw >= 0x1_0000_0000 {
            assert(d as int >= 65536) by {
                if (d as int) < 65536 {
                    assert(((d as int) + 1) * ((d as int) + 1) <= 65536 * 65536)
                        by (nonlinear_arith)
                        requires
                            0 <= (d as int) + 1 <= 65536,
                    ;
                }
            }
            lemma_normalized_norm_close(
                amp0@.re,
                amp0@.im,
                amp1@.re,
                amp1@.im,
                raw as int,
                d as int,
                a as int,
                ai as int,
                b as int,
                bi as int,
            );
        }
    }
    Some((Cx::new(a, ai), Cx::new(b, bi)))
}

/// The square of a scaled difference is controlled by the difference.
proof fn lemma_sq_close(a: int, b: int, d: int, bb: int)
    requires
        d >= 1,
        bb >= 0,
        -(d - 1) <= a - b <= d - 1,
        -bb <= b <= bb,
    ensures
        -(d * (d + 2 * bb)) <= a * a - b * b <= d * (d + 2 * bb),
{
    crate::scalar::lemma_mul_bound(a - b, a + b, d, d + 2 * bb);
    assert((a - b) * (a + b) == a * a - b * b) by (nonlinear_arith);
}

/// Dividing a two-norm by its floor square root leaves the squared norm
/// within the tolerance of one, once the input norm is not tiny.
proof fn lemma_normalized_norm_close(
    x0r: int,
    x0i: int,
    x1r: int,
    x1i: int,
    raw: int,
    d: int,
    q0r: int,
    q0i: int,
    q1r: int,
    q1i: int,
)
    requires
        raw == x0r * x0r + x0i * x0i + (x1r * x1r + x1i * x1i),
        crate::phase::is_floor_sqrt(raw, d),
        d >= 65536,
        q0r == divt(x0r * (SCALE as int), d),
        q0i == divt(x0i * (SCALE as int), d),
        q1r == divt(x1r * (SCALE as int), d),
        q1i == divt(x1i * (SCALE as int), d),
    ensures
        -((TOL as int) * (SCALE as int)) < (q0r * q0r + q0i * q0i + (q1r * q1r + q1i * q1i)) - (
        SCALE as int) * (SCALE as int) < (TOL as int) * (SCALE as int),
{
    let s = SCALE as int;
    crate::scalar::lemma_divt_remainder(x0r * s, d);
    crate::scalar::lemma_divt_remainder(x0i * s, d);
    crate::scalar::lemma_divt_remainder(x1r * s, d);
    crate::scalar::lemma_divt_remainder(x1i * s, d);
    lemma_square_nonneg_pub(x0r);
    lemma_square_nonneg_pub(x0i);
    lemma_square_nonneg_pub(x1r);
    lemma_square_nonneg_pub(x1i);
    assert(-d <= x0r <= d && -d <= x0i <= d && -d <= x1r <= d && -d <= x1i <= d)
        by (nonlinear_arith)
        requires
            x0r * x0r <= raw,
            x0i * x0i <= raw,
            x1r * x1r <= raw,
            x1i * x1i <= raw,
            raw < (d + 1) * (d + 1),
            d >= 0,
    ;
    let bb = d * s;
    assert(-bb <= x0r * s <= bb && -bb <= x0i * s <= bb && -bb <= x1r * s <= bb && -bb <= x1i * s
        <= bb) by (nonlinear_arith)
        requires
            -d <= x0r <= d,
            -d <= x0i <= d,
            -d <= x1r <= d,
            -d <= x1i <= d,
            s >= 1,
            bb == d * s,
    ;
    lemma_sq_close(q0r * d, x0r * s, d, bb);
    lemma_sq_close(q0i * d, x0i * s, d, bb);
    lemma_sq_close(q1r * d, x1r * s, d, bb);
    lemma_sq_close(q1i * d, x1i * s, d, bb);
    assert((q0r * d) * (q0r * d) == (q0r * q0r) * (d * d) && (q0i * d) * (q0i * d) == (q0i * q0i)
        * (d * d) && (q1r * d) * (q1r * d) == (q1r * q1r) * (d * d) && (q1i * d) * (q1i * d) == (
    q1i * q1i) * (d * d)) by (nonlinear_arith);
    assert((x0r * s) * (x0r * s) == (x0r * x0r) * (s * s) && (x0i * s) * (x0i * s) == (x0i * x0i)
        * (s * s) && (x1r * s) * (x1r * s) == (x1r * x1r) * (s * s) && (x1i * s) * (x1i * s) == (
    x1i * x1i) * (s * s)) by (nonlinear_arith);
    let qn = q0r * q0r + q0i * q0i + (q1r * q1r + q1i * q1i);
    assert((q0r * q0r) * (d * d) + (q0i * q0i) * (d * d) + ((q1r * q1r) * (d * d) + (q1i * q1i) * (
    d * d)) == qn * (d * d)) by (nonlinear_arith)
        requires
            qn == q0r * q0r + q0i * q0i + (q1r * q1r + q1i * q1i),
    ;
    assert((x0r * x0r) * (s * s) + (x0i * x0i) * (s * s) + ((x1r * x1r) * (s * s) + (x1i * x1i) * (
    s * s)) == raw * (s * s)) by (nonlinear_arith)
        requires
            raw == x0r * x0r + x0i * x0i + (x1r * x1r + x1i * x1i),
    ;
    assert(-(4 * (d * (d + 2 * bb))) <= qn * (d * d) - raw * (s * s) <= 4 * (d * (d + 2 * bb)));
    assert(0 <= raw - d * d <= 2 * d) by (nonlinear_arith)
        requires
            d * d <= raw < (d + 1) * (d + 1),
    ;
    crate::scalar::lemma_mul_bound(raw - d * d, s * s, 2 * d, s * s);
    assert((raw - d * d) * (s * s) == raw * (s * s) - (d * d) * (s * s)) by (nonlinear_arith);
    assert(qn * (d * d) - (s * s) * (d * d) == (qn - s * s) * (d * d)) by (nonlinear_arith);
    assert((d * d) * (s * s) == (s * s) * (d * d)) by (nonlinear_arith);
    assert(-(4 * (d * (d + 2 * bb)) + 2 * d * (s * s)) <= (qn - s * s) * (d * d) <= 4 * (d * (d + 2
        * bb)) + 2 * d * (s * s)) by (nonlinear_arith)
        requires
            -(4 * (d * (d + 2 * bb))) <= qn * (d * d) - raw * (s * s) <= 4 * (d * (d + 2 * bb)),
            -(2 * d * (s * s)) <= raw * (s * s) - (d * d) * (s * s) <= 2 * d * (s * s),
            qn * (d * d) - (s * s) * (d * d) == (qn - s * s) * (d * d),
            (d * d) * (s * s) == (s * s) * (d * d),
    ;
    assert(-((TOL as int) * s) < qn - s * s < (TOL as int) * s) by (nonlinear_arith)
        requires
            -(4 * (d * (d + 2 * (d * s))) + 2 * d * (s * s)) <= (qn - s * s) * (d * d) <= 4 * (d * (
            d + 2 * (d * s))) + 2 * d * (s * s),
            bb == d * s,
            d >= 65536,
            s == 134217728,
            TOL == 13421,
    ;
}

/// One normalized component: x * SCALE / d, where d is the floor square
/// root of `raw` and x * x is at most `raw`.
pub(crate) fn scale_component(x: i64, d: u64, raw: u128) -> (r: i64)
    requires
        1 <= d,
        d as int == sqrt_v(raw as int),
        crate::phase::is_floor_sqrt(raw as int, d as int),
        x * x <= raw as int,
        -CX_MAX <= x <= CX_MAX,
    ensures
        r as int == normalized_component(x as int, raw as int),
        -SCALE <= r <= SCALE,
{
    proof {
        assert(-(d as int) <= x <= d as int) by (nonlinear_arith)
            requires
                x * x <= raw as int,
                (raw as int) < ((d as int) + 1) * ((d as int) + 1),
                0 <= d,
        ;
        crate::scalar::lemma_mul_bound(x as int, SCALE as int, CX_MAX as int, SCALE as int);
        lemma_scaled_quotient_bound(x as int, d as int);
    }
    let num: i128 = (x as i128) * (SCALE as i128);
    if num >= 0 {
        let q: u128 = (num as u128) / (d as u128);
        q as i64
    } else {
        let q: u128 = ((-num) as u128) / (d as u128);
        -(q as i64)
    }
}

/// |x| <= d makes |x * SCALE / d| at most SCALE.
proof fn lemma_scaled_quotient_bound(x: int, d: int)
    requires
        1 <= d,
        -d <= x <= d,
    ensures
        -(SCALE as int) <= divt(x * (SCALE as int), d) <= SCALE as int,
        divt(x * (SCALE as int), d) == (if x >= 0 {
            (x * (SCALE as int)) / d
        } else {
            -((-(x * (SCALE as int))) / d)
        }),
{
    let s = SCALE as int;
    if x >= 0 {
        assert(x * s >= 0) by (nonlinear_arith)
            requires
                x >= 0,
                s > 0,
        ;
        assert((x * s) / d <= s) by (nonlinear_arith)
            requires
                1 <= d,
                0 <= x <= d,
                s > 0,
        ;
        crate::scalar::lemma_divt_nonneg(x * s, d);
    } else {
        assert(x * s <= 0 && -(x * s) == (-x) * s) by (nonlinear_arith)
            requires
                x < 0,
                s > 0,
        ;
        assert(((-x) * s) / d <= s) by (nonlinear_arith)
            requires
                1 <= d,
                0 <= -x <= d,
                s > 0,
        ;
        crate::scalar::lemma_divt_neg(x * s, d);
    }
}

proof fn lemma_square_nonneg_pub(x: int)
    ensures
        x * x >= 0,
        x != 0 ==> x * x >= 1,
{
    assert(x * x >= 0 && (x != 0 ==> x * x >= 1)) by (nonlinear_arith);
}

/// A zero sum of squares forces every term to zero.
proof fn lemma_zero_sum_squares(a: int, b: int, c: int, d: int)
    requires
        a * a + b * b + (c * c + d * d) == 0,
    ensures
        a == 0 && b == 0 && c == 0 && d == 0,
{
    lemma_square_nonneg_pub(a);
    lemma_square_nonneg_pub(b);
    lemma_square_nonneg_pub(c);
    lemma_square_nonneg_pub(d);
}

} // verus!
