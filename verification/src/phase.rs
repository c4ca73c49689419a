//! Dyadic phase factors.
//!
//! The simulator only ever needs phases that are dyadic fractions of a full
//! turn: `tau * num / 2^p`. The fixed-point value of `e^(i*tau/2^p)` is
//! derived from the exact anchors 1, -1, i by the half-angle rule
//! `cos(t/2) = sqrt((1 + cos t)/2)`, computed with a verified integer square
//! root; general numerators are integer powers of these roots.

use vstd::prelude::*;

use crate::scalar::c_bounded;
use crate::scalar::c_conj;
use crate::scalar::c_mul;
use crate::scalar::c_one;
use crate::scalar::Cv;
use crate::scalar::Cx;
use crate::scalar::CX_MAX;
use crate::scalar::SCALE;

verus! {

/// r is the integer square root of x, rounded down.
pub open spec fn is_floor_sqrt(x: int, r: int) -> bool {
    0 <= r && r * r <= x < (r + 1) * (r + 1)
}

/// The integer square root, rounded down.
pub closed spec fn sqrt_v(x: int) -> int {
    choose|r: int| is_floor_sqrt(x, r)
}

/// Every nonnegative integer has a floor square root.
pub proof fn lemma_sqrt_exists(x: int) -> (r: int)
    requires
        x >= 0,
    ensures
        is_floor_sqrt(x, r),
    decreases x,
{
    if x == 0 {
        assert(is_floor_sqrt(0, 0)) by (nonlinear_arith);
        0
    } else {
        let p = lemma_sqrt_exists(x - 1);
        if (p + 1) * (p + 1) <= x {
            assert(is_floor_sqrt(x, p + 1)) by (nonlinear_arith)
                requires
                    0 <= p,
                    (p + 1) * (p + 1) <= x,
                    x - 1 < (p + 1) * (p + 1),
            ;
            p + 1
        } else {
            p
        }
    }
}

/// The floor square root is unique, so any witness equals sqrt_v.
pub proof fn lemma_sqrt_v_is(x: int, r: int)
    requires
        is_floor_sqrt(x, r),
    ensures
        sqrt_v(x) == r,
{
    let r2 = sqrt_v(x);
    assert(is_floor_sqrt(x, r2)) by {
        assert(exists|q: int| is_floor_sqrt(x, q));
    }
    assert(r == r2) by (nonlinear_arith)
        requires
            0 <= r,
            r * r <= x < (r + 1) * (r + 1),
            0 <= r2,
            r2 * r2 <= x < (r2 + 1) * (r2 + 1),
    ;
}

pub proof fn lemma_sqrt_v_pos(x: int)
    requires
        x >= 1,
    ensures
        sqrt_v(x) >= 1,
        is_floor_sqrt(x, sqrt_v(x)),
{
    let r = lemma_sqrt_exists(x);
    lemma_sqrt_v_is(x, r);
    if r == 0 {
        assert((0int + 1) * (0int + 1) == 1);
    }
}

pub proof fn lemma_sqrt_v_bound(x: int, m: int)
    requires
        0 <= x,
        0 <= m,
        x <= m * m,
    ensures
        0 <= sqrt_v(x) <= m,
{
    let r = lemma_sqrt_exists(x);
    lemma_sqrt_v_is(x, r);
    assert(r <= m) by (nonlinear_arith)
        requires
            0 <= r,
            0 <= m,
            r * r <= x,
            x <= m * m,
    ;
}

/// Integer square root, rounded down, by binary search.
pub fn isqrt64(x: u64) -> (r: u64)
    ensures
        is_floor_sqrt(x as int, r as int),
        r as int == sqrt_v(x as int),
{
    let mut lo: u64 = 0;
    let mut hi: u64 = 4294967296;
    proof {
        assert((4294967296int + 1) * (4294967296int + 1) > x as int) by (nonlinear_arith)
            requires
                x as int <= 0xffff_ffff_ffff_ffff,
        ;
    }
    while lo < hi
        invariant
            lo <= hi <= 4294967296,
            (lo as int) * (lo as int) <= x as int,
            (x as int) < ((hi as int) + 1) * ((hi as int) + 1),
        decreases hi - lo,
    {
        let mid: u64 = lo + (hi - lo + 1) / 2;
        proof {
            crate::scalar::lemma_mul_bound(mid as int, mid as int, 4294967296, 4294967296);
        }
        let sq: u128 = (mid as u128) * (mid as u128);
        if sq <= x as u128 {
            lo = mid;
        } else {
            hi = mid - 1;
        }
    }
    proof {
        lemma_sqrt_v_is(x as int, lo as int);
    }
    lo
}

/// Integer square root of a wide value, rounded down, by binary search.
pub fn isqrt128(x: u128) -> (r: u64)
    requires
        x < 0x4000_0000_0000_0000_0000_0000_0000_0000,
    ensures
        is_floor_sqrt(x as int, r as int),
        r as int == sqrt_v(x as int),
{
    let mut lo: u64 = 0;
    let mut hi: u64 = 9223372036854775808;
    proof {
        assert((9223372036854775808int + 1) * (9223372036854775808int + 1) > x as int)
            by (nonlinear_arith)
            requires
                (x as int) < 0x4000_0000_0000_0000_0000_0000_0000_0000,
        ;
    }
    while lo < hi
        invariant
            lo <= hi <= 9223372036854775808,
            (lo as int) * (lo as int) <= x as int,
            (x as int) < ((hi as int) + 1) * ((hi as int) + 1),
        decreases hi - lo,
    {
        let mid: u64 = lo + (hi - lo + 1) / 2;
        proof {
            crate::scalar::lemma_mul_bound(
                mid as int,
                mid as int,
                9223372036854775808,
                9223372036854775808,
            );
        }
        let sq: u128 = (mid as u128) * (mid as u128);
        if sq <= x {
            lo = mid;
        } else {
            hi = mid - 1;
        }
    }
    proof {
        lemma_sqrt_v_is(x as int, lo as int);
    }
    lo
}

/// The value of e^(i * tau / 2^p): exact for a whole, half or quarter turn,
/// then halved step by step with floor square roots.
pub open spec fn root_v(p: nat) -> Cv
    decreases p,
{
    if p == 0 {
        Cv { re: SCALE as int, im: 0 }
    } else if p == 1 {
        Cv { re: -(SCALE as int), im: 0 }
    } else if p == 2 {
        Cv { re: 0, im: SCALE as int }
    } else {
        let c = root_v((p - 1) as nat);
        Cv {
            re: sqrt_v((SCALE as int + c.re) * (SCALE as int) / 2),
            im: sqrt_v((SCALE as int - c.re) * (SCALE as int) / 2),
        }
    }
}

/// From the quarter turn on, both coordinates of a root lie in [0, SCALE].
pub proof fn lemma_root_v_bounded(p: nat)
    ensures
        c_bounded(root_v(p), SCALE as int),
        p >= 2 ==> 0 <= root_v(p).re <= SCALE as int && 0 <= root_v(p).im <= SCALE as int,
    decreases p,
{
    let s = SCALE as int;
    if p <= 2 {
    } else {
        lemma_root_v_bounded((p - 1) as nat);
        let c = root_v((p - 1) as nat);
        assert(0 <= (s + c.re) * s / 2 <= s * s) by (nonlinear_arith)
            requires
                0 <= c.re <= s,
                s == SCALE as int,
        ;
        assert(0 <= (s - c.re) * s / 2 <= s * s) by (nonlinear_arith)
            requires
                0 <= c.re <= s,
                s == SCALE as int,
        ;
        lemma_sqrt_v_bound((s + c.re) * s / 2, s);
        lemma_sqrt_v_bound((s - c.re) * s / 2, s);
    }
}

/// The fixed-point value of e^(i * tau / 2^p).
pub fn unit_root(p: u32) -> (r: Cx)
    ensures
        r@ == root_v(p as nat),
        r.wf(),
{
    proof {
        lemma_root_v_bounded(p as nat);
    }
    if p == 0 {
        Cx::one()
    } else if p == 1 {
        Cx::new(-SCALE, 0)
    } else {
        let mut k: u32 = 2;
        let mut c: Cx = Cx::imaginary_unit();
        while k < p
            invariant
                2 <= k <= p,
                c@ == root_v(k as nat),
                0 <= c.re <= SCALE,
                0 <= c.im <= SCALE,
            decreases p - k,
        {
            proof {
                let s = SCALE as int;
                assert((s + c.re) * s / 2 <= s * s && (s - c.re) * s / 2 <= s * s && (s + c.re)
                    * s >= 0 && (s - c.re) * s >= 0 && (s + c.re) * s <= 0x80_0000_0000_0000 && (s
                    - c.re) * s <= 0x80_0000_0000_0000) by (nonlinear_arith)
                    requires
                        0 <= c.re <= s,
                        s == SCALE as int,
                ;
            }
            let a: u64 = (((SCALE + c.re) as u64) * (SCALE as u64)) / 2;
            let b: u64 = (((SCALE - c.re) as u64) * (SCALE as u64)) / 2;
            let hc: u64 = isqrt64(a);
            let hs: u64 = isqrt64(b);
            proof {
                lemma_sqrt_v_bound(a as int, SCALE as int);
                lemma_sqrt_v_bound(b as int, SCALE as int);
                lemma_root_v_bounded((k + 1) as nat);
            }
            c = Cx::new(hc as i64, hs as i64);
            k = k + 1;
        }
        c
    }
}

/// c raised to the e-th power, one rescaling multiplication at a time.
pub open spec fn cpow_v(c: Cv, e: nat) -> Cv
    decreases e,
{
    if e == 0 {
        c_one()
    } else {
        c_mul(cpow_v(c, (e - 1) as nat), c)
    }
}

/// Whether every power of c up to e stays within the stored-component bound.
pub open spec fn cpow_ok(c: Cv, e: nat) -> bool
    decreases e,
{
    if e == 0 {
        true
    } else {
        cpow_ok(c, (e - 1) as nat) && c_bounded(cpow_v(c, e), CX_MAX as int)
    }
}

/// c raised to the e-th power; None exactly when some intermediate power
/// leaves the stored-component bound.
pub fn cpow(c: Cx, e: u64) -> (r: Option<Cx>)
    requires
        c.wf(),
    ensures
        match r {
            Some(v) => v@ == cpow_v(c@, e as nat) && v.wf() && cpow_ok(c@, e as nat),
            None => !cpow_ok(c@, e as nat),
        },
{
    let mut acc: Cx = Cx::one();
    let mut i: u64 = 0;
    while i < e
        invariant
            i <= e,
            c.wf(),
            acc.wf(),
            acc@ == cpow_v(c@, i as nat),
            cpow_ok(c@, i as nat),
        decreases e - i,
    {
        let next = acc.mul(c);
        if next.re > CX_MAX || next.re < -CX_MAX || next.im > CX_MAX || next.im < -CX_MAX {
            proof {
                lemma_cpow_ok_fails(c@, (i + 1) as nat, e as nat);
            }
            return None;
        }
        acc = next;
        i = i + 1;
    }
    Some(acc)
}

/// If the bound fails at step k, it fails for every larger exponent.
proof fn lemma_cpow_ok_fails(c: Cv, k: nat, e: nat)
    requires
        k <= e,
        !cpow_ok(c, k),
    ensures
        !cpow_ok(c, e),
    decreases e,
{
    if e > k {
        lemma_cpow_ok_fails(c, k, (e - 1) as nat);
    }
}

/// The value of e^(i * tau * num / 2^p): a power of the 2^p-th root of
/// unity, conjugated for negative numerators.
pub open spec fn phase_v(num: int, p: nat) -> Cv {
    if num >= 0 {
        cpow_v(root_v(p), num as nat)
    } else {
        c_conj(cpow_v(root_v(p), (-num) as nat))
    }
}

pub open spec fn phase_ok(num: int, p: nat) -> bool {
    if num >= 0 {
        cpow_ok(root_v(p), num as nat)
    } else {
        cpow_ok(root_v(p), (-num) as nat)
    }
}

/// The fixed-point value of e^(i * tau * num / 2^p); None exactly when an
/// intermediate power leaves the stored-component bound.
pub fn phase_factor(num: i64, p: u32) -> (r: Option<Cx>)
    requires
        -0x1000_0000_0000_0000 <= num <= 0x1000_0000_0000_0000,
    ensures
        match r {
            Some(v) => v@ == phase_v(num as int, p as nat) && v.wf() && phase_ok(
                num as int,
                p as nat,
            ),
            None => !phase_ok(num as int, p as nat),
        },
{
    let root = unit_root(p);
    proof {
        lemma_root_v_bounded(p as nat);
    }
    if num >= 0 {
        cpow(root, num as u64)
    } else {
        let w = cpow(root, (-num) as u64);
        match w {
            Some(v) => Some(v.conj()),
            None => None,
        }
    }
}

} // verus!
