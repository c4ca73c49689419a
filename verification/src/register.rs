//! Quantum registers.
//!
//! A register of n qubits is a complex vector of length 2^n, unit norm up
//! to rounding. Basis ordering is lexicographic-big-endian over qubit
//! indices: qubit 0 is the most significant bit of the basis index.
//! Measurement draws once from the trusted random source; the walk that
//! interprets the draw is verified for every drawn value.

use vstd::prelude::*;

use vstd::arithmetic::power2::lemma2_to64;
use vstd::arithmetic::power2::lemma_pow2_adds;
use vstd::arithmetic::power2::lemma_pow2_strictly_increases;
use vstd::arithmetic::power2::lemma_pow2_unfold;
use vstd::arithmetic::power2::pow2;

use crate::matrix::TERM_BOUND;
use crate::qubit::Qubit;
use crate::scalar::c_abs_sq_raw;
use crate::scalar::c_bounded;
use crate::scalar::c_mul;
use crate::scalar::c_one;
use crate::scalar::c_prob;
use crate::scalar::c_sub;
use crate::scalar::c_zero;
use crate::scalar::Cv;
use crate::scalar::Cx;
use crate::scalar::CX_MAX;
use crate::scalar::SCALE;
use crate::scalar::TOL;
use crate::QError;

verus! {

/// Most qubits a register may have: keeps every index computation within
/// the matrix side bound.
pub const QUBIT_MAX: usize = 20;

/// A unit-norm complex vector of length 2^n_qubits.
#[derive(Clone, Debug)]
pub struct QuantumRegister {
    pub n_qubits: usize,
    pub amps: Vec<Cx>,
}

/// 2^n as a machine integer.
pub fn pow2_checked(n: usize) -> (r: usize)
    requires
        n <= QUBIT_MAX,
    ensures
        r == pow2(n as nat),
        1 <= r <= 1048576,
{
    proof {
        lemma2_to64();
        if (n as nat) < 20 {
            lemma_pow2_strictly_increases(n as nat, 20);
        }
    }
    let mut r: usize = 1;
    let mut i: usize = 0;
    while i < n
        invariant
            i <= n <= QUBIT_MAX,
            r == pow2(i as nat),
            r <= 1048576,
        decreases n - i,
    {
        proof {
            lemma_pow2_unfold((i + 1) as nat);
            lemma2_to64();
            if ((i + 1) as nat) < 20 {
                lemma_pow2_strictly_increases((i + 1) as nat, 20);
            }
        }
        r = r * 2;
        i = i + 1;
    }
    r
}

/// The amplitude a list of qubits gives basis index i: the product of one
/// component per qubit, chosen by the matching bit of i (big-endian).
pub open spec fn qubits_amp(qs: Seq<Qubit>, i: int) -> Cv
    decreases qs.len(),
{
    if qs.len() == 0 {
        if i == 0 {
            c_one()
        } else {
            c_zero()
        }
    } else {
        let q = qs.last();
        let comp = if i % 2 == 1 {
            q.amp1@
        } else {
            q.amp0@
        };
        c_mul(qubits_amp(qs.drop_last(), i / 2), comp)
    }
}

impl QuantumRegister {
    pub open spec fn wf(self) -> bool {
        &&& self.n_qubits <= QUBIT_MAX
        &&& self.amps.len() == pow2(self.n_qubits as nat)
        &&& forall|i: int| 0 <= i < self.amps.len() ==> (#[trigger] self.amps[i]).wf()
    }

    /// The amplitude at a basis index, zero out of range.
    pub open spec fn at(self, i: int) -> Cv {
        if 0 <= i < self.amps.len() {
            self.amps[i]@
        } else {
            c_zero()
        }
    }

    pub open spec fn spec_len(self) -> int {
        self.amps.len() as int
    }

    /// The register is exactly the basis state k.
    pub open spec fn is_basis(self, k: int) -> bool {
        forall|i: int|
            0 <= i < self.spec_len() ==> self.at(i) == (if i == k {
                c_one()
            } else {
                c_zero()
            })
    }

    /// Cumulative Born weight of the first `hi` basis states.
    pub open spec fn cum_prob(self, hi: nat) -> int
        decreases hi,
    {
        if hi == 0 {
            0
        } else {
            self.cum_prob((hi - 1) as nat) + c_prob(self.at(hi - 1))
        }
    }

    /// Raw squared norm of the state vector (scale SCALE squared).
    pub open spec fn norm_raw(self, hi: nat) -> int
        decreases hi,
    {
        if hi == 0 {
            0
        } else {
            self.norm_raw((hi - 1) as nat) + c_abs_sq_raw(self.at(hi - 1))
        }
    }

    /// The basis state v of an n-qubit register: a one at index v.
    pub fn from_int(n_qubits: usize, v: usize) -> (r: QuantumRegister)
        requires
            n_qubits <= QUBIT_MAX,
            v < pow2(n_qubits as nat),
        ensures
            r.wf(),
            r.n_qubits == n_qubits,
            r.is_basis(v as int),
            r.spec_len() == pow2(n_qubits as nat),
    {
        let len: usize = pow2_checked(n_qubits);
        let mut amps: Vec<Cx> = Vec::new();
        let mut i: usize = 0;
        while i < len
            invariant
                i <= len,
                v < len,
                amps.len() == i,
                forall|t: int|
                    0 <= t < i ==> (#[trigger] amps[t])@ == (if t == v {
                        c_one()
                    } else {
                        c_zero()
                    }) && amps[t].wf(),
            decreases len - i,
        {
            if i == v {
                amps.push(Cx::one());
            } else {
                amps.push(Cx::zero());
            }
            i = i + 1;
        }
        QuantumRegister { n_qubits, amps }
    }

    /// The basis state k, written |k>.
    pub fn basis(n_qubits: usize, k: usize) -> (r: QuantumRegister)
        requires
            n_qubits <= QUBIT_MAX,
            k < pow2(n_qubits as nat),
        ensures
            r.wf(),
            r.n_qubits == n_qubits,
            r.is_basis(k as int),
            r.spec_len() == pow2(n_qubits as nat),
    {
        QuantumRegister::from_int(n_qubits, k)
    }

    /// An n-qubit register in the all-zeros state.
    pub fn new_with_size(vec_size: usize) -> (r: QuantumRegister)
        requires
            vec_size <= QUBIT_MAX,
        ensures
            r.wf(),
            r.n_qubits == vec_size,
            r.is_basis(0),
    {
        proof {
            vstd::arithmetic::power2::lemma_pow2_pos(vec_size as nat);
        }
        QuantumRegister::from_int(vec_size, 0)
    }

    /// A one-qubit register holding the given qubit.
    pub fn singleton(q: Qubit) -> (r: QuantumRegister)
        requires
            q.wf(),
        ensures
            r.wf(),
            r.n_qubits == 1,
            r.at(0) == q.amp0@,
            r.at(1) == q.amp1@,
    {
        proof {
            lemma2_to64();
        }
        let mut amps: Vec<Cx> = Vec::new();
        amps.push(q.amp0);
        amps.push(q.amp1);
        QuantumRegister { n_qubits: 1, amps }
    }

    /// The state vector of a qubit list: the Kronecker product of the
    /// individual states, qubit 0 as the high-order factor, so index 0 is
    /// |00...0> and index 2^n - 1 is |11...1>. Fails exactly when an
    /// accumulated product leaves the stored-component bound.
    pub fn create_state_vector_qubits(vec: &Vec<Qubit>) -> (r: Result<Vec<Cx>, QError>)
        requires
            vec@.len() <= QUBIT_MAX,
            forall|t: int| 0 <= t < vec@.len() ==> (#[trigger] vec@[t]).wf(),
        ensures
            match r {
                Ok(amps) => {
                    &&& amps@.len() == pow2(vec@.len() as nat)
                    &&& forall|i: int|
                        0 <= i < amps@.len() ==> (#[trigger] amps@[i])@ == qubits_amp(vec@, i)
                            && amps@[i].wf()
                },
                Err(e) => {
                    &&& e == QError::Overflow
                    &&& exists|t: int, u: int|
                        0 <= t <= vec@.len() && 0 <= u < pow2(t as nat) && !c_bounded(
                            #[trigger] qubits_amp(vec@.take(t), u),
                            CX_MAX as int,
                        )
                },
            },
    {
        let mut cur: Vec<Cx> = Vec::new();
        cur.push(Cx::one());
        proof {
            lemma2_to64();
            assert(vec@.take(0) =~= Seq::<Qubit>::empty());
        }
        let mut t: usize = 0;
        while t < vec.len()
            invariant
                t <= vec@.len() <= QUBIT_MAX,
                forall|u: int| 0 <= u < vec@.len() ==> (#[trigger] vec@[u]).wf(),
                cur@.len() == pow2(t as nat),
                cur@.len() <= 1048576,
                forall|i: int|
                    0 <= i < cur@.len() ==> (#[trigger] cur@[i])@ == qubits_amp(vec@.take(t as int), i)
                        && cur@[i].wf(),
            decreases vec@.len() - t,
        {
            let q: Qubit = vec[t];
            let m: usize = cur.len();
            let mut next: Vec<Cx> = Vec::new();
            let mut i: usize = 0;
            proof {
                lemma_pow2_unfold((t + 1) as nat);
                lemma2_to64();
                if ((t + 1) as nat) < 20 {
                    lemma_pow2_strictly_increases((t + 1) as nat, 20);
                }
                assert(vec@.take(t + 1).drop_last() =~= vec@.take(t as int));
                assert(vec@.take(t + 1).last() == vec@[t as int]);
            }
            while i < m
                invariant
                    i <= m,
                    m == cur@.len(),
                    m == pow2(t as nat),
                    m <= 1048576,
                    t < vec@.len(),
                    q == vec@[t as int],
                    q.wf(),
                    forall|u: int| 0 <= u < cur@.len() ==> (#[trigger] cur@[u]).wf(),
                    vec@.take(t + 1).drop_last() == vec@.take(t as int),
                    vec@.take(t + 1).last() == q,
                    next@.len() == 2 * i,
                    forall|u: int|
                        0 <= u < next@.len() ==> (#[trigger] next@[u])@ == qubits_amp(
                            vec@.take(t + 1),
                            u,
                        ) && next@[u].wf(),
                    forall|u: int|
                        0 <= u < cur@.len() ==> (#[trigger] cur@[u])@ == qubits_amp(
                            vec@.take(t as int),
                            u,
                        ),
                decreases m - i,
            {
                let a: Cx = cur[i];
                let w0 = a.mul(q.amp0);
                let w1 = a.mul(q.amp1);
                if w0.re > CX_MAX || w0.re < -CX_MAX || w0.im > CX_MAX || w0.im < -CX_MAX
                    || w1.re > CX_MAX || w1.re < -CX_MAX || w1.im > CX_MAX || w1.im < -CX_MAX {
                    proof {
                        assert((2 * i) / 2 == i as int && (2 * i) % 2 == 0 && (2 * i + 1) / 2
                            == i as int && (2 * i + 1) % 2 == 1) by {
                            vstd::arithmetic::div_mod::lemma_fundamental_div_mod_converse(
                                2 * (i as int),
                                2,
                                i as int,
                                0,
                            );
                            vstd::arithmetic::div_mod::lemma_fundamental_div_mod_converse(
                                2 * (i as int) + 1,
                                2,
                                i as int,
                                1,
                            );
                        }
                        lemma_pow2_unfold((t + 1) as nat);
                        assert(w0@ == qubits_amp(vec@.take(t + 1), 2 * (i as int)));
                        assert(w1@ == qubits_amp(vec@.take(t + 1), 2 * (i as int) + 1));
                        if !c_bounded(w0@, CX_MAX as int) {
                            assert(0 <= t + 1 <= vec@.len() && 0 <= 2 * (i as int) < pow2(
                                (t + 1) as nat,
                            ) && !c_bounded(
                                qubits_amp(vec@.take(t + 1), 2 * (i as int)),
                                CX_MAX as int,
                            ));
                        } else {
                            assert(0 <= t + 1 <= vec@.len() && 0 <= 2 * (i as int) + 1 < pow2(
                                (t + 1) as nat,
                            ) && !c_bounded(
                                qubits_amp(vec@.take(t + 1), 2 * (i as int) + 1),
                                CX_MAX as int,
                            ));
                        }
                    }
                    return Err(QError::Overflow);
                }
                proof {
                    assert((2 * i) / 2 == i as int && (2 * i) % 2 == 0 && (2 * i + 1) / 2
                        == i as int && (2 * i + 1) % 2 == 1) by {
                        vstd::arithmetic::div_mod::lemma_fundamental_div_mod_converse(
                            2 * (i as int),
                            2,
                            i as int,
                            0,
                        );
                        vstd::arithmetic::div_mod::lemma_fundamental_div_mod_converse(
                            2 * (i as int) + 1,
                            2,
                            i as int,
                            1,
                        );
                    }
                }
                next.push(w0);
                next.push(w1);
                i = i + 1;
            }
            cur = next;
            t = t + 1;
        }
        proof {
            assert(vec@.take(vec@.len() as int) =~= vec@);
        }
        Ok(cur)
    }

    /// A register initialized from a list of qubits.
    pub fn new_with_qubits(vec: Vec<Qubit>) -> (r: Result<QuantumRegister, QError>)
        requires
            vec@.len() <= QUBIT_MAX,
            forall|t: int| 0 <= t < vec@.len() ==> (#[trigger] vec@[t]).wf(),
        ensures
            match r {
                Ok(reg) => {
                    &&& reg.wf()
                    &&& reg.n_qubits == vec@.len()
                    &&& forall|i: int| 0 <= i < reg.spec_len() ==> reg.at(i) == qubits_amp(vec@, i)
                },
                Err(e) => {
                    &&& e == QError::Overflow
                    &&& exists|t: int, u: int|
                        0 <= t <= vec@.len() && 0 <= u < pow2(t as nat) && !c_bounded(
                            #[trigger] qubits_amp(vec@.take(t), u),
                            CX_MAX as int,
                        )
                },
            },
    {
        let n: usize = vec.len();
        match QuantumRegister::create_state_vector_qubits(&vec) {
            Ok(amps) => Ok(QuantumRegister { n_qubits: n, amps }),
            Err(e) => Err(e),
        }
    }

    /// A copy of this register with the same amplitudes.
    pub fn duplicate(&self) -> (r: QuantumRegister)
        requires
            self.wf(),
        ensures
            r.wf(),
            r.n_qubits == self.n_qubits,
            r.spec_len() == self.spec_len(),
            forall|i: int| 0 <= i < r.spec_len() ==> r.at(i) == self.at(i),
    {
        let n: usize = self.amps.len();
        let mut amps: Vec<Cx> = Vec::new();
        let mut i: usize = 0;
        while i < n
            invariant
                i <= n,
                n == self.amps.len(),
                self.wf(),
                amps@.len() == i,
                forall|t: int| 0 <= t < i ==> amps@[t] == self.amps@[t],
            decreases n - i,
        {
            amps.push(self.amps[i]);
            i = i + 1;
        }
        proof {
            assert(amps@ =~= self.amps@);
        }
        QuantumRegister { n_qubits: self.n_qubits, amps }
    }

    /// The number of qubits.
    pub fn get_size(&self) -> (s: usize)
        ensures
            s == self.n_qubits,
    {
        self.n_qubits
    }

    /// The underlying amplitude vector.
    pub fn get_state_vector(&self) -> (v: &Vec<Cx>)
        ensures
            v == self.amps,
    {
        &self.amps
    }

    /// Replace the state vector.
    pub fn set_register(&mut self, amps: Vec<Cx>)
        requires
            amps@.len() == old(self).amps@.len(),
            forall|i: int| 0 <= i < amps@.len() ==> (#[trigger] amps@[i]).wf(),
        ensures
            final (self).amps == amps,
            final (self).n_qubits == old(self).n_qubits,
            old(self).wf() ==> final (self).wf(),
    {
        self.amps = amps;
    }

    /// Kronecker product of two registers; `self` is the high-order
    /// (leftmost) factor.
    pub fn tensor_product(&self, rhs: &QuantumRegister) -> (r: Result<QuantumRegister, QError>)
        requires
            self.wf(),
            rhs.wf(),
            self.n_qubits + rhs.n_qubits <= QUBIT_MAX,
        ensures
            match r {
                Ok(p) => {
                    &&& p.wf()
                    &&& p.n_qubits == self.n_qubits + rhs.n_qubits
                    &&& forall|i: int|
                        0 <= i < p.spec_len() ==> p.at(i) == c_mul(
                            self.at(i / rhs.spec_len()),
                            rhs.at(i % rhs.spec_len()),
                        )
                },
                Err(e) => {
                    &&& e == QError::Overflow
                    &&& exists|i: int|
                        0 <= i < self.spec_len() * rhs.spec_len() && !c_bounded(
                            #[trigger] c_mul(
                                self.at(i / rhs.spec_len()),
                                rhs.at(i % rhs.spec_len()),
                            ),
                            CX_MAX as int,
                        )
                },
            },
    {
        let n: usize = self.amps.len();
        let m: usize = rhs.amps.len();
        proof {
            lemma_pow2_adds(self.n_qubits as nat, rhs.n_qubits as nat);
            lemma2_to64();
            if ((self.n_qubits + rhs.n_qubits) as nat) < 20 {
                lemma_pow2_strictly_increases((self.n_qubits + rhs.n_qubits) as nat, 20);
            }
        }
        let mut amps: Vec<Cx> = Vec::new();
        let mut i: usize = 0;
        while i < n
            invariant
                i <= n,
                n == self.amps.len(),
                m == rhs.amps.len(),
                1 <= m,
                n * m <= 1048576,
                self.wf(),
                rhs.wf(),
                amps@.len() == i * m,
                forall|u: int|
                    0 <= u < amps@.len() ==> (#[trigger] amps@[u])@ == c_mul(
                        self.at(u / (m as int)),
                        rhs.at(u % (m as int)),
                    ) && amps@[u].wf(),
            decreases n - i,
        {
            let mut k: usize = 0;
            proof {
                assert((i + 1) * m == i * m + m) by (nonlinear_arith);
                assert(i * m + m <= n * m) by (nonlinear_arith)
                    requires
                        i < n,
                        m >= 1,
                ;
            }
            while k < m
                invariant
                    k <= m,
                    i < n,
                    n == self.amps.len(),
                    m == rhs.amps.len(),
                    1 <= m,
                    i * m + m <= n * m <= 1048576,
                    self.wf(),
                    rhs.wf(),
                    amps@.len() == i * m + k,
                    forall|u: int|
                        0 <= u < amps@.len() ==> (#[trigger] amps@[u])@ == c_mul(
                            self.at(u / (m as int)),
                            rhs.at(u % (m as int)),
                        ) && amps@[u].wf(),
                decreases m - k,
            {
                let w = self.amps[i].mul(rhs.amps[k]);
                if w.re > CX_MAX || w.re < -CX_MAX || w.im > CX_MAX || w.im < -CX_MAX {
                    proof {
                        let gi = (i * m + k) as int;
                        vstd::arithmetic::div_mod::lemma_fundamental_div_mod_converse(
                            gi,
                            m as int,
                            i as int,
                            k as int,
                        );
                        assert(0 <= gi < n * m) by (nonlinear_arith)
                            requires
                                0 <= i < n,
                                0 <= k < m,
                                gi == (i as int) * (m as int) + k,
                        ;
                        assert(0 <= gi < self.spec_len() * rhs.spec_len() && !c_bounded(
                            c_mul(self.at(gi / rhs.spec_len()), rhs.at(gi % rhs.spec_len())),
                            CX_MAX as int,
                        ));
                    }
                    return Err(QError::Overflow);
                }
                proof {
                    vstd::arithmetic::div_mod::lemma_fundamental_div_mod_converse(
                        (i * m + k) as int,
                        m as int,
                        i as int,
                        k as int,
                    );
                }
                amps.push(w);
                k = k + 1;
            }
            i = i + 1;
        }
        proof {
            lemma_pow2_adds(self.n_qubits as nat, rhs.n_qubits as nat);
        }
        Ok(QuantumRegister { n_qubits: self.n_qubits + rhs.n_qubits, amps })
    }

    /// Whether the two registers agree within the tolerance, by Euclidean
    /// distance of the state vectors.
    pub fn almost_equals(&self, rhs: &QuantumRegister) -> (r: bool)
        requires
            self.wf(),
            rhs.wf(),
            self.n_qubits == rhs.n_qubits,
        ensures
            r == (dist_raw(*self, *rhs, self.spec_len() as nat) < (TOL as int) * (TOL as int)),
    {
        let n: usize = self.amps.len();
        let mut sum: i128 = 0;
        let mut i: usize = 0;
        proof {
            self.lemma_len_bound();
            assert((TOL as int) * (TOL as int) == 180123241) by (nonlinear_arith)
                requires
                    TOL == 13421,
            ;
        }
        while i < n
            invariant
                i <= n,
                n == self.amps.len(),
                n == rhs.amps.len(),
                n <= 1048576,
                self.wf(),
                rhs.wf(),
                sum == dist_raw(*self, *rhs, i as nat),
                0 <= sum,
            decreases n - i,
        {
            proof {
                lemma_dist_raw_bound(*self, *rhs, i as nat);
                assert((i as int) * (8 * (CX_MAX as int) * (CX_MAX as int)) <= 1048576 * (8 * (
                CX_MAX as int) * (CX_MAX as int))) by (nonlinear_arith)
                    requires
                        0 <= i <= 1048576,
                        CX_MAX > 0,
                ;
            }
            let a: Cx = self.amps[i];
            let b: Cx = rhs.amps[i];
            let dr: i128 = (a.re as i128) - (b.re as i128);
            let di: i128 = (a.im as i128) - (b.im as i128);
            proof {
                let m = 2 * (CX_MAX as int);
                crate::scalar::lemma_mul_bound(dr as int, dr as int, m, m);
                crate::scalar::lemma_mul_bound(di as int, di as int, m, m);
                crate::scalar::lemma_square_nonneg_pub2(dr as int);
                crate::scalar::lemma_square_nonneg_pub2(di as int);
            }
            sum = sum + (dr * dr + di * di);
            i = i + 1;
        }
        sum < (TOL as i128) * (TOL as i128)
    }

    /// The raw squared norm of the state vector.
    pub fn norm_sq_raw(&self) -> (r: i128)
        requires
            self.wf(),
        ensures
            r == self.norm_raw(self.spec_len() as nat),
            r >= 0,
    {
        let n: usize = self.amps.len();
        proof {
            self.lemma_len_bound();
        }
        let mut sum: i128 = 0;
        let mut i: usize = 0;
        while i < n
            invariant
                i <= n,
                n == self.amps.len(),
                n <= 1048576,
                self.wf(),
                sum == self.norm_raw(i as nat),
                0 <= sum,
            decreases n - i,
        {
            proof {
                lemma_norm_raw_bound(*self, i as nat);
                assert((i as int) * (2 * (CX_MAX as int) * (CX_MAX as int)) <= 1048576 * (2 * (
                CX_MAX as int) * (CX_MAX as int))) by (nonlinear_arith)
                    requires
                        0 <= i <= 1048576,
                        CX_MAX > 0,
                ;
            }
            let a: Cx = self.amps[i];
            proof {
                let m = CX_MAX as int;
                crate::scalar::lemma_mul_bound(a.re as int, a.re as int, m, m);
                crate::scalar::lemma_mul_bound(a.im as int, a.im as int, m, m);
                crate::scalar::lemma_square_nonneg_pub2(a.re as int);
                crate::scalar::lemma_square_nonneg_pub2(a.im as int);
            }
            sum = sum + ((a.re as i128) * (a.re as i128) + (a.im as i128) * (a.im as i128));
            i = i + 1;
        }
        sum
    }

    /// v is the outcome the Born walk yields for the draw d: the
    /// cumulative weights up to v do not exceed d, and the weight through
    /// v does (or v is the last state).
    pub open spec fn measured_outcome(self, d: int, v: int) -> bool {
        &&& 0 <= d < SCALE
        &&& 0 <= v < self.spec_len()
        &&& forall|j: int| 0 <= j < v ==> #[trigger] self.cum_prob((j + 1) as nat) <= d
        &&& (self.cum_prob((v + 1) as nat) > d || v == self.spec_len() - 1)
    }

    /// Interpret one uniform draw r from [0, SCALE): walk the basis
    /// states accumulating Born weights until the cumulative weight first
    /// exceeds r; collapse to that state. If the weights never exceed r
    /// (possible only for a register of deficient norm) the last state is
    /// returned. A register that is exactly a basis state collapses to
    /// that state for every draw.
    pub fn measure_with(&self, r: i64) -> (res: (u64, QuantumRegister))
        requires
            self.wf(),
            0 <= r < SCALE,
        ensures
            res.0 < self.spec_len(),
            res.1.wf(),
            res.1.n_qubits == self.n_qubits,
            res.1.is_basis(res.0 as int),
            forall|j: int| 0 <= j < res.0 ==> #[trigger] self.cum_prob((j + 1) as nat) <= r,
            self.cum_prob((res.0 + 1) as nat) > r || res.0 == self.spec_len() - 1,
            self.measured_outcome(r as int, res.0 as int),
            forall|k0: int|
                0 <= k0 < self.spec_len() && #[trigger] self.is_basis(k0) ==> res.0 == k0,
    {
        let n: usize = self.amps.len();
        proof {
            self.lemma_len_bound();
            vstd::arithmetic::power2::lemma_pow2_pos(self.n_qubits as nat);
        }
        let mut cum: i128 = 0;
        let mut found: bool = false;
        let mut outcome: usize = n - 1;
        let mut i: usize = 0;
        while i < n
            invariant
                i <= n,
                n == self.amps.len(),
                1 <= n <= 1048576,
                self.wf(),
                0 <= r < SCALE,
                cum == self.cum_prob(i as nat),
                0 <= cum,
                !found ==> outcome == n - 1,
                !found ==> forall|j: int| 0 <= j < i ==> #[trigger] self.cum_prob((j + 1) as nat) <= r,
                found ==> outcome < i && self.cum_prob((outcome + 1) as nat) > r && forall|j: int|
                    0 <= j < outcome ==> #[trigger] self.cum_prob((j + 1) as nat) <= r,
            decreases n - i,
        {
            proof {
                lemma_cum_prob_bound(*self, i as nat);
                assert((i as int) * (TERM_BOUND as int) <= 1048576 * (TERM_BOUND as int))
                    by (nonlinear_arith)
                    requires
                        0 <= i <= 1048576,
                        TERM_BOUND > 0,
                ;
            }
            let p: i64 = self.amps[i].prob();
            proof {
                crate::scalar::lemma_mul_bound(
                    self.amps[i as int]@.re,
                    self.amps[i as int]@.re,
                    CX_MAX as int,
                    CX_MAX as int,
                );
                crate::scalar::lemma_mul_bound(
                    self.amps[i as int]@.im,
                    self.amps[i as int]@.im,
                    CX_MAX as int,
                    CX_MAX as int,
                );
                crate::scalar::lemma_divt_quotient_bound(
                    c_abs_sq_raw(self.amps[i as int]@),
                    SCALE as int,
                    2 * (CX_MAX as int) * (CX_MAX as int),
                );
            }
            cum = cum + (p as i128);
            if !found && cum > r as i128 {
                found = true;
                outcome = i;
            }
            i = i + 1;
        }
        let collapsed = QuantumRegister::from_int(self.n_qubits, outcome);
        proof {
            assert forall|k0: int|
                0 <= k0 < self.spec_len() && #[trigger] self.is_basis(k0) implies outcome == k0 by {
                lemma_cum_prob_basis(*self, k0, (k0 + 1) as nat);
                if (outcome as int) < k0 {
                    lemma_cum_prob_basis(*self, k0, (outcome + 1) as nat);
                } else if (outcome as int) > k0 {
                    assert(self.cum_prob((k0 + 1) as nat) <= r);
                }
            }
        }
        (outcome as u64, collapsed)
    }

    /// Measure the register: draw once from the random source and
    /// collapse by the Born rule.
    pub fn measure(&self) -> (res: (u64, QuantumRegister))
        requires
            self.wf(),
        ensures
            res.0 < self.spec_len(),
            res.1.wf(),
            res.1.n_qubits == self.n_qubits,
            res.1.is_basis(res.0 as int),
            exists|d: int| #[trigger] self.measured_outcome(d, res.0 as int),
            forall|k0: int|
                0 <= k0 < self.spec_len() && #[trigger] self.is_basis(k0) ==> res.0 == k0,
    {
        let r: i64 = crate::rng::draw_unit();
        let res = self.measure_with(r);
        proof {
            assert(self.measured_outcome(r as int, res.0 as int));
        }
        res
    }
}

/// Raw squared Euclidean distance of the first `hi` amplitudes.
pub open spec fn dist_raw(a: QuantumRegister, b: QuantumRegister, hi: nat) -> int
    decreases hi,
{
    if hi == 0 {
        0
    } else {
        dist_raw(a, b, (hi - 1) as nat) + c_abs_sq_raw(c_sub(a.at(hi - 1), b.at(hi - 1)))
    }
}

proof fn lemma_dist_raw_bound(a: QuantumRegister, b: QuantumRegister, hi: nat)
    requires
        a.wf(),
        b.wf(),
    ensures
        0 <= dist_raw(a, b, hi),
        dist_raw(a, b, hi) <= hi * (8 * (CX_MAX as int) * (CX_MAX as int)),
    decreases hi,
{
    if hi > 0 {
        lemma_dist_raw_bound(a, b, (hi - 1) as nat);
        let d = c_sub(a.at(hi - 1), b.at(hi - 1));
        a.lemma_at_bounded(hi - 1);
        b.lemma_at_bounded(hi - 1);
        assert(0 <= c_abs_sq_raw(d) <= 8 * (CX_MAX as int) * (CX_MAX as int)) by (nonlinear_arith)
            requires
                -2 * (CX_MAX as int) <= d.re <= 2 * (CX_MAX as int),
                -2 * (CX_MAX as int) <= d.im <= 2 * (CX_MAX as int),
                c_abs_sq_raw(d) == d.re * d.re + d.im * d.im,
        ;
        assert((hi - 1) * (8 * (CX_MAX as int) * (CX_MAX as int)) + 8 * (CX_MAX as int) * (
        CX_MAX as int) == hi * (8 * (CX_MAX as int) * (CX_MAX as int))) by (nonlinear_arith);
    }
}

proof fn lemma_norm_raw_bound(a: QuantumRegister, hi: nat)
    requires
        a.wf(),
    ensures
        0 <= a.norm_raw(hi),
        a.norm_raw(hi) <= hi * (2 * (CX_MAX as int) * (CX_MAX as int)),
    decreases hi,
{
    if hi > 0 {
        lemma_norm_raw_bound(a, (hi - 1) as nat);
        let d = a.at(hi - 1);
        a.lemma_at_bounded(hi - 1);
        assert(0 <= c_abs_sq_raw(d) <= 2 * (CX_MAX as int) * (CX_MAX as int)) by (nonlinear_arith)
            requires
                -(CX_MAX as int) <= d.re <= CX_MAX as int,
                -(CX_MAX as int) <= d.im <= CX_MAX as int,
                c_abs_sq_raw(d) == d.re * d.re + d.im * d.im,
        ;
        assert((hi - 1) * (2 * (CX_MAX as int) * (CX_MAX as int)) + 2 * (CX_MAX as int) * (
        CX_MAX as int) == hi * (2 * (CX_MAX as int) * (CX_MAX as int))) by (nonlinear_arith);
    }
}

proof fn lemma_cum_prob_bound(a: QuantumRegister, hi: nat)
    requires
        a.wf(),
    ensures
        0 <= a.cum_prob(hi),
        a.cum_prob(hi) <= hi * (TERM_BOUND as int),
    decreases hi,
{
    if hi > 0 {
        lemma_cum_prob_bound(a, (hi - 1) as nat);
        let d = a.at(hi - 1);
        a.lemma_at_bounded(hi - 1);
        crate::scalar::lemma_mul_bound(d.re, d.re, CX_MAX as int, CX_MAX as int);
        crate::scalar::lemma_mul_bound(d.im, d.im, CX_MAX as int, CX_MAX as int);
        crate::scalar::lemma_square_nonneg_pub2(d.re);
        crate::scalar::lemma_square_nonneg_pub2(d.im);
        crate::scalar::lemma_divt_quotient_bound(
            c_abs_sq_raw(d),
            SCALE as int,
            2 * (CX_MAX as int) * (CX_MAX as int),
        );
        crate::scalar::lemma_divt_nonneg(c_abs_sq_raw(d), SCALE as int);
        assert(2 * (CX_MAX as int) * (CX_MAX as int) / (SCALE as int) == TERM_BOUND as int)
            by (nonlinear_arith)
            requires
                CX_MAX == 17592186044416,
                SCALE == 134217728,
                TERM_BOUND == 4611686018427387904,
        ;
        assert((hi - 1) * (TERM_BOUND as int) + (TERM_BOUND as int) == hi * (TERM_BOUND as int))
            by (nonlinear_arith);
    }
}

/// For a basis register at k, the cumulative weight is 0 up to and
/// including k, and SCALE past it.
proof fn lemma_cum_prob_basis(a: QuantumRegister, k: int, hi: nat)
    requires
        a.is_basis(k),
        0 <= k < a.spec_len(),
        hi <= a.spec_len(),
    ensures
        a.cum_prob(hi) == (if hi <= k {
            0int
        } else {
            SCALE as int
        }),
    decreases hi,
{
    if hi > 0 {
        lemma_cum_prob_basis(a, k, (hi - 1) as nat);
        if hi - 1 == k {
            crate::scalar::lemma_divt_exact_multiple(SCALE as int, SCALE as int);
            assert(c_abs_sq_raw(c_one()) == (SCALE as int) * (SCALE as int));
        } else {
            assert(a.at(hi - 1) == c_zero());
        }
    }
}

impl QuantumRegister {
    /// A well-formed register has at most 2^20 amplitudes.
    pub proof fn lemma_len_bound(self)
        requires
            self.wf(),
        ensures
            self.spec_len() <= 1048576,
            self.spec_len() >= 1,
    {
        lemma2_to64();
        vstd::arithmetic::power2::lemma_pow2_pos(self.n_qubits as nat);
        if (self.n_qubits as nat) < 20 {
            lemma_pow2_strictly_increases(self.n_qubits as nat, 20);
        }
    }

    /// Every amplitude of a well-formed register is bounded.
    pub proof fn lemma_at_bounded(self, i: int)
        requires
            self.wf(),
        ensures
            c_bounded(self.at(i), CX_MAX as int),
    {
    }
}

} // verus!
