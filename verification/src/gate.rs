//! Quantum gates.
//!
//! A gate is a unitary matrix of side 2^k acting on k qubits. Named gates
//! are factory functions returning such a value; composition, Kronecker
//! product and application to a register are pure operations on it.

use vstd::prelude::*;

use vstd::arithmetic::power2::lemma2_to64;
use vstd::arithmetic::power2::lemma_pow2_adds;
use vstd::arithmetic::power2::pow2;

use crate::bits::is_qubit_perm;
use crate::bits::qperm_map;
use crate::matrix::mm_at;
use crate::matrix::row_find;
use crate::matrix::row_wf;
use crate::matrix::Row;
use crate::matrix::SparseMatrix;
use crate::phase::phase_ok;
use crate::phase::phase_v;
use crate::phase::root_v;
use crate::phase::unit_root;
use crate::register::QuantumRegister;
use crate::register::QUBIT_MAX;
use crate::scalar::c_bounded;
use crate::scalar::c_conj;
use crate::scalar::c_is_zero;
use crate::scalar::c_mul;
use crate::scalar::c_neg;
use crate::scalar::c_one;
use crate::scalar::c_zero;
use crate::scalar::Cv;
use crate::scalar::Cx;
use crate::scalar::CX_MAX;
use crate::scalar::SCALE;
use crate::unitary::SquareMatrix;
use crate::QError;

verus! {

/// The real value 1/sqrt 2 as an amplitude: the Hadamard coefficient.
pub open spec fn inv_sqrt2_v() -> Cv {
    Cv { re: root_v(3).re, im: 0 }
}

/// A unitary acting on a fixed number of qubits.
#[derive(Clone, Debug)]
pub struct QuantumGate {
    pub matrix: SquareMatrix,
    pub n_qubits: usize,
}

/// Two-entry row holding the given values at columns 0 and 1.
fn row2(a: Cx, b: Cx) -> (r: Row)
    requires
        a.wf(),
        b.wf(),
    ensures
        row_wf(r@, 2),
        forall|j: int|
            #![trigger row_find(r@, j)]
            row_find(r@, j) == (if j == 0 {
                a@
            } else if j == 1 {
                b@
            } else {
                c_zero()
            }),
{
    let mut row: Row = Vec::new();
    let ghost r0 = row@;
    if !(a.re == 0 && a.im == 0) {
        row.push((0, a));
    }
    let ghost r1 = row@;
    if !(b.re == 0 && b.im == 0) {
        row.push((1, b));
    }
    proof {
        assert forall|j: int| true implies row_find(row@, j) == (if j == 0 {
            a@
        } else if j == 1 {
            b@
        } else {
            c_zero()
        }) by {
            if !c_is_zero(a@) {
                crate::matrix::lemma_row_find_push(r0, (0, a), j);
            }
            if !c_is_zero(b@) {
                crate::matrix::lemma_row_find_push(r1, (1, b), j);
            }
        }
    }
    row
}

impl QuantumGate {
    pub open spec fn wf(self) -> bool {
        &&& self.matrix.wf()
        &&& 1 <= self.n_qubits <= QUBIT_MAX
        &&& self.matrix.spec_size() == pow2(self.n_qubits as nat)
    }

    /// The matrix coefficient at (i, j).
    pub open spec fn at(self, i: int, j: int) -> Cv {
        self.matrix.at(i, j)
    }

    pub open spec fn spec_size(self) -> int {
        self.matrix.spec_size()
    }

    pub fn get_n_qubits(&self) -> (n: usize)
        ensures
            n == self.n_qubits,
    {
        self.n_qubits
    }

    pub fn get_matrix(&self) -> (m: &SquareMatrix)
        ensures
            m == self.matrix,
    {
        &self.matrix
    }

    /// The identity gate on k qubits.
    pub fn identity(k: usize) -> (g: QuantumGate)
        requires
            1 <= k <= QUBIT_MAX,
        ensures
            g.wf(),
            g.n_qubits == k,
            forall|i: int, j: int|
                0 <= i < g.spec_size() && 0 <= j < g.spec_size() ==> g.at(i, j) == (if i == j {
                    c_one()
                } else {
                    c_zero()
                }),
    {
        let size: usize = crate::register::pow2_checked(k);
        QuantumGate { matrix: SquareMatrix::identity(size), n_qubits: k }
    }

    /// The X gate: swaps the two basis states of one qubit.
    pub fn not() -> (g: QuantumGate)
        ensures
            g.wf(),
            g.n_qubits == 1,
            g.at(0, 0) == c_zero(),
            g.at(0, 1) == c_one(),
            g.at(1, 0) == c_one(),
            g.at(1, 1) == c_zero(),
    {
        proof {
            lemma2_to64();
        }
        let mut perm: Vec<usize> = Vec::new();
        perm.push(1);
        perm.push(0);
        match SquareMatrix::permutation(perm) {
            Ok(m) => QuantumGate { matrix: m, n_qubits: 1 },
            Err(_) => vstd::pervasive::unreached(),
        }
    }

    /// The Hadamard gate: (1/sqrt 2) [[1, 1], [1, -1]].
    pub fn hadamard() -> (g: QuantumGate)
        ensures
            g.wf(),
            g.n_qubits == 1,
            g.at(0, 0) == inv_sqrt2_v(),
            g.at(0, 1) == inv_sqrt2_v(),
            g.at(1, 0) == inv_sqrt2_v(),
            g.at(1, 1) == c_neg(inv_sqrt2_v()),
            inv_sqrt2_v().im == 0,
            inv_sqrt2_v().re >= 1,
    {
        proof {
            lemma2_to64();
            crate::phase::lemma_root_v_bounded(3);
            reveal_with_fuel(crate::phase::root_v, 4);
            assert(root_v(2) == (Cv { re: 0int, im: SCALE as int }));
            assert((SCALE as int + 0) * (SCALE as int) / 2 >= 1) by (nonlinear_arith)
                requires
                    SCALE == 134217728,
            ;
            crate::phase::lemma_sqrt_v_pos((SCALE as int + 0) * (SCALE as int) / 2);
            assert(root_v(3).re == crate::phase::sqrt_v((SCALE as int + 0) * (SCALE as int) / 2));
        }
        let h: Cx = unit_root(3);
        let hr: Cx = Cx::new(h.re, 0);
        let hn: Cx = Cx::new(-h.re, 0);
        let mut rows: Vec<Row> = Vec::new();
        rows.push(row2(hr, hr));
        rows.push(row2(hr, hn));
        let m = SparseMatrix { size: 2, rows };
        QuantumGate { matrix: SquareMatrix::new_unchecked(m), n_qubits: 1 }
    }

    /// The controlled-NOT gate on two qubits: control is qubit 0, target
    /// qubit 1, so basis states 2 and 3 swap.
    pub fn cnot() -> (g: QuantumGate)
        ensures
            g.wf(),
            g.n_qubits == 2,
            forall|i: int, j: int|
                0 <= i < 4 && 0 <= j < 4 ==> g.at(i, j) == (if (i == 0 && j == 0) || (i == 1 && j
                    == 1) || (i == 2 && j == 3) || (i == 3 && j == 2) {
                    c_one()
                } else {
                    c_zero()
                }),
    {
        proof {
            lemma2_to64();
        }
        let mut perm: Vec<usize> = Vec::new();
        perm.push(0);
        perm.push(1);
        perm.push(3);
        perm.push(2);
        match SquareMatrix::permutation(perm) {
            Ok(m) => QuantumGate { matrix: m, n_qubits: 2 },
            Err(_) => vstd::pervasive::unreached(),
        }
    }

    /// The controlled phase shift by the angle tau * num / 2^p: the
    /// amplitude of basis state 3 is multiplied by e^(i tau num / 2^p).
    /// Fails exactly when the phase power computation leaves the stored
    /// bound.
    pub fn controlled_phase_shift(num: i64, p: u32) -> (r: Result<QuantumGate, QError>)
        requires
            -0x1000_0000_0000_0000 <= num <= 0x1000_0000_0000_0000,
        ensures
            match r {
                Ok(g) => {
                    &&& g.wf()
                    &&& g.n_qubits == 2
                    &&& phase_ok(num as int, p as nat)
                    &&& forall|i: int, j: int|
                        0 <= i < 4 && 0 <= j < 4 ==> g.at(i, j) == (if i == j {
                            if i == 3 {
                                phase_v(num as int, p as nat)
                            } else {
                                c_one()
                            }
                        } else {
                            c_zero()
                        })
                },
                Err(e) => {
                    &&& e == QError::Overflow
                    &&& !phase_ok(num as int, p as nat)
                },
            },
    {
        proof {
            lemma2_to64();
        }
        let pf: Cx = match crate::phase::phase_factor(num, p) {
            Some(v) => v,
            None => {
                return Err(QError::Overflow);
            },
        };
        let one: Cx = Cx::one();
        let mut values: Vec<Cx> = Vec::new();
        values.push(one);
        values.push(one);
        values.push(one);
        values.push(pf);
        let m = SparseMatrix::diagonal(&values);
        Ok(QuantumGate { matrix: SquareMatrix::new_unchecked(m), n_qubits: 2 })
    }

    /// The global rotation by tau * num / 2^p on k qubits: e^(i angle)
    /// times the identity.
    pub fn global_rotation(k: usize, num: i64, p: u32) -> (r: Result<QuantumGate, QError>)
        requires
            1 <= k <= QUBIT_MAX,
            -0x1000_0000_0000_0000 <= num <= 0x1000_0000_0000_0000,
        ensures
            match r {
                Ok(g) => {
                    &&& g.wf()
                    &&& g.n_qubits == k
                    &&& phase_ok(num as int, p as nat)
                    &&& forall|i: int, j: int|
                        0 <= i < g.spec_size() && 0 <= j < g.spec_size() ==> g.at(i, j) == (if i
                            == j {
                            phase_v(num as int, p as nat)
                        } else {
                            c_zero()
                        })
                },
                Err(e) => {
                    &&& e == QError::Overflow
                    &&& !phase_ok(num as int, p as nat)
                },
            },
    {
        let pf: Cx = match crate::phase::phase_factor(num, p) {
            Some(v) => v,
            None => {
                return Err(QError::Overflow);
            },
        };
        let size: usize = crate::register::pow2_checked(k);
        let mut values: Vec<Cx> = Vec::new();
        let mut i: usize = 0;
        while i < size
            invariant
                i <= size,
                values@.len() == i,
                pf.wf(),
                forall|t: int| 0 <= t < i ==> values@[t] == pf,
            decreases size - i,
        {
            values.push(pf);
            i = i + 1;
        }
        let m = SparseMatrix::diagonal(&values);
        Ok(QuantumGate { matrix: SquareMatrix::new_unchecked(m), n_qubits: k })
    }

    /// Kronecker product of two gates; `self` is the high-order factor.
    pub fn tensor_product(&self, rhs: &QuantumGate) -> (r: Result<QuantumGate, QError>)
        requires
            self.wf(),
            rhs.wf(),
            self.n_qubits + rhs.n_qubits <= QUBIT_MAX,
        ensures
            match r {
                Ok(g) => {
                    &&& g.wf()
                    &&& g.n_qubits == self.n_qubits + rhs.n_qubits
                    &&& g.spec_size() == self.spec_size() * rhs.spec_size()
                    &&& forall|i: int, j: int|
                        0 <= i < g.spec_size() && 0 <= j < g.spec_size() ==> g.at(i, j) == c_mul(
                            self.at(i / rhs.spec_size(), j / rhs.spec_size()),
                            rhs.at(i % rhs.spec_size(), j % rhs.spec_size()),
                        )
                },
                Err(e) => {
                    &&& e == QError::Overflow
                    &&& exists|i: int, j: int|
                        0 <= i < self.spec_size() * rhs.spec_size() && 0 <= j < self.spec_size()
                            * rhs.spec_size() && !c_bounded(
                            #[trigger] c_mul(
                                self.at(i / rhs.spec_size(), j / rhs.spec_size()),
                                rhs.at(i % rhs.spec_size(), j % rhs.spec_size()),
                            ),
                            CX_MAX as int,
                        )
                },
            },
    {
        proof {
            lemma_pow2_adds(self.n_qubits as nat, rhs.n_qubits as nat);
            lemma2_to64();
            if ((self.n_qubits + rhs.n_qubits) as nat) < 20 {
                vstd::arithmetic::power2::lemma_pow2_strictly_increases(
                    (self.n_qubits + rhs.n_qubits) as nat,
                    20,
                );
            }
        }
        match self.matrix.tensor_product(&rhs.matrix) {
            Ok(m) => Ok(QuantumGate { matrix: m, n_qubits: self.n_qubits + rhs.n_qubits }),
            Err(e) => {
                proof {
                    let m = rhs.spec_size();
                    let (i, j) = choose|i: int, j: int|
                        0 <= i < self.matrix.spec_size() * rhs.matrix.spec_size() && 0 <= j
                            < self.matrix.spec_size() * rhs.matrix.spec_size() && !c_bounded(
                            #[trigger] c_mul(
                                self.matrix.at(i / rhs.matrix.spec_size(), j / rhs.matrix.spec_size()),
                                rhs.matrix.at(i % rhs.matrix.spec_size(), j % rhs.matrix.spec_size()),
                            ),
                            CX_MAX as int,
                        );
                    assert(0 <= i < self.spec_size() * m && 0 <= j < self.spec_size() * m
                        && !c_bounded(
                        c_mul(self.at(i / m, j / m), rhs.at(i % m, j % m)),
                        CX_MAX as int,
                    ));
                }
                Err(e)
            },
        }
    }

    /// Matrix product of two gates on the same qubits: apply `rhs` first,
    /// then `self`.
    pub fn compose(&self, rhs: &QuantumGate) -> (r: Result<QuantumGate, QError>)
        requires
            self.wf(),
            rhs.wf(),
            self.n_qubits == rhs.n_qubits,
        ensures
            match r {
                Ok(g) => {
                    &&& g.wf()
                    &&& g.n_qubits == self.n_qubits
                    &&& forall|i: int, k: int|
                        0 <= i < g.spec_size() && 0 <= k < g.spec_size() ==> g.at(i, k) == mm_at(
                            self.matrix.matrix,
                            rhs.matrix.matrix,
                            i,
                            k,
                        )
                },
                Err(e) => {
                    &&& e == QError::Overflow
                    &&& exists|i: int, k: int|
                        0 <= i < self.spec_size() && 0 <= k < self.spec_size() && !c_bounded(
                            #[trigger] mm_at(self.matrix.matrix, rhs.matrix.matrix, i, k),
                            CX_MAX as int,
                        )
                },
            },
    {
        match self.matrix.multiply(&rhs.matrix) {
            Ok(m) => Ok(QuantumGate { matrix: m, n_qubits: self.n_qubits }),
            Err(e) => Err(e),
        }
    }

    /// The inverse gate: for a unitary, the conjugate transpose.
    pub fn reverse(&self) -> (g: QuantumGate)
        requires
            self.wf(),
        ensures
            g.wf(),
            g.n_qubits == self.n_qubits,
            forall|i: int, j: int|
                0 <= i < g.spec_size() && 0 <= j < g.spec_size() ==> g.at(i, j) == c_conj(
                    self.at(j, i),
                ),
    {
        QuantumGate { matrix: self.matrix.invert(), n_qubits: self.n_qubits }
    }

    /// Whether the two gates' matrices agree entrywise within the
    /// tolerance.
    pub fn almost_equals(&self, rhs: &QuantumGate) -> (r: bool)
        requires
            self.wf(),
            rhs.wf(),
        ensures
            r == self.matrix.matrix.approx_eq(rhs.matrix.matrix),
    {
        self.matrix.matrix.almost_equals(&rhs.matrix.matrix)
    }
}

} // verus!

verus! {

/// Partial matrix-vector product: the sum over j < hi of m(i, j) * v(j).
pub open spec fn mv_sum(m: SquareMatrix, v: QuantumRegister, i: int, hi: nat) -> Cv
    decreases hi,
{
    if hi == 0 {
        c_zero()
    } else {
        crate::scalar::c_add(mv_sum(m, v, i, (hi - 1) as nat), c_mul(m.at(i, hi - 1), v.at(hi - 1)))
    }
}

/// Component i of the matrix-vector product m * v.
pub open spec fn mv_at(m: SquareMatrix, v: QuantumRegister, i: int) -> Cv {
    mv_sum(m, v, i, m.spec_size() as nat)
}

/// The same component summed over the stored entries of one matrix row.
pub open spec fn row_vec_sum(r: Seq<(usize, Cx)>, v: QuantumRegister) -> Cv
    decreases r.len(),
{
    if r.len() == 0 {
        c_zero()
    } else {
        crate::scalar::c_add(
            row_vec_sum(r.drop_last(), v),
            c_mul(r.last().1@, v.at(r.last().0 as int)),
        )
    }
}

/// Raw squared norm of the first hi components of m * v.
pub open spec fn mv_norm_raw(m: SquareMatrix, v: QuantumRegister, hi: nat) -> int
    decreases hi,
{
    if hi == 0 {
        0
    } else {
        mv_norm_raw(m, v, (hi - 1) as nat) + crate::scalar::c_abs_sq_raw(mv_at(m, v, hi - 1))
    }
}

/// Where a stretch of the matrix row is zero, partial sums agree.
proof fn lemma_mv_sum_gap(m: SquareMatrix, v: QuantumRegister, i: int, lo: nat, hi: nat)
    requires
        lo <= hi,
        forall|j: int| lo <= j < hi ==> m.at(i, j) == c_zero(),
    ensures
        mv_sum(m, v, i, hi) == mv_sum(m, v, i, lo),
    decreases hi - lo,
{
    if hi > lo {
        lemma_mv_sum_gap(m, v, i, lo, (hi - 1) as nat);
        crate::scalar::lemma_c_mul_zero(v.at(hi - 1));
    }
}

/// The sum over the first t stored entries of row i equals the range sum
/// up to the t-th stored column (or the full side).
proof fn lemma_row_vec_sum_take(m: SquareMatrix, v: QuantumRegister, i: int, t: int)
    requires
        m.wf(),
        0 <= i < m.spec_size(),
        0 <= t <= m.matrix.rows[i]@.len(),
    ensures
        row_vec_sum(m.matrix.rows[i]@.take(t), v) == mv_sum(
            m,
            v,
            i,
            if t < m.matrix.rows[i]@.len() {
                m.matrix.rows[i]@[t].0 as nat
            } else {
                m.spec_size() as nat
            },
        ),
    decreases t,
{
    let r = m.matrix.rows[i]@;
    let bound: nat = if t < r.len() {
        r[t].0 as nat
    } else {
        m.spec_size() as nat
    };
    if t == 0 {
        assert(r.take(0) =~= Seq::<(usize, Cx)>::empty());
        assert forall|j: int| 0 <= j < bound implies m.at(i, j) == c_zero() by {
            if crate::matrix::row_has(r, j) {
                let u = choose|u: int| 0 <= u < r.len() && r[u].0 == j;
                assert(u == 0 || r[0].0 < r[u].0);
                assert(false);
            }
            crate::matrix::lemma_row_find_absent(r, j);
        }
        lemma_mv_sum_gap(m, v, i, 0, bound);
    } else {
        lemma_row_vec_sum_take(m, v, i, t - 1);
        let prev: nat = r[t - 1].0 as nat;
        assert(r.take(t).drop_last() =~= r.take(t - 1));
        assert(r.take(t).last() == r[t - 1]);
        crate::matrix::lemma_row_find_present(r, m.spec_size(), t - 1);
        assert(m.at(i, prev as int) == r[t - 1].1@);
        assert(mv_sum(m, v, i, (prev + 1) as nat) == crate::scalar::c_add(
            mv_sum(m, v, i, prev),
            c_mul(m.at(i, prev as int), v.at(prev as int)),
        ));
        assert forall|j: int| prev + 1 <= j < bound implies m.at(i, j) == c_zero() by {
            if crate::matrix::row_has(r, j) {
                let u = choose|u: int| 0 <= u < r.len() && r[u].0 == j;
                if u <= t - 1 {
                    assert(u == t - 1 || r[u].0 < r[t - 1].0);
                    assert(false);
                } else {
                    assert(t < r.len() && (t == u || r[t].0 < r[u].0));
                    assert(false);
                }
            }
            crate::matrix::lemma_row_find_absent(r, j);
        }
        lemma_mv_sum_gap(m, v, i, (prev + 1) as nat, bound);
    }
}

/// A row's vector sum is bounded by its length times the term bound.
proof fn lemma_row_vec_sum_bound(r: Seq<(usize, Cx)>, n: int, v: QuantumRegister)
    requires
        row_wf(r, n),
        v.wf(),
    ensures
        c_bounded(row_vec_sum(r, v), r.len() * (crate::matrix::TERM_BOUND as int)),
    decreases r.len(),
{
    if r.len() == 0 {
    } else {
        assert(row_wf(r.drop_last(), n));
        lemma_row_vec_sum_bound(r.drop_last(), n, v);
        v.lemma_at_bounded(r.last().0 as int);
        crate::matrix::lemma_c_mul_term_bound(r.last().1@, v.at(r.last().0 as int));
        assert((r.len() - 1) * (crate::matrix::TERM_BOUND as int) + (
        crate::matrix::TERM_BOUND as int) == r.len() * (crate::matrix::TERM_BOUND as int))
            by (nonlinear_arith);
    }
}

/// Each term of the squared norm is at most the whole.
proof fn lemma_mv_norm_term(m: SquareMatrix, v: QuantumRegister, i: int, hi: nat)
    requires
        0 <= i < hi,
    ensures
        crate::scalar::c_abs_sq_raw(mv_at(m, v, i)) <= mv_norm_raw(m, v, hi),
        0 <= mv_norm_raw(m, v, hi),
    decreases hi,
{
    let a = mv_at(m, v, hi - 1);
    crate::scalar::lemma_square_nonneg_pub2(a.re);
    crate::scalar::lemma_square_nonneg_pub2(a.im);
    if i < hi - 1 {
        lemma_mv_norm_term(m, v, i, (hi - 1) as nat);
    } else {
        lemma_mv_norm_nonneg(m, v, (hi - 1) as nat);
    }
}

proof fn lemma_mv_norm_nonneg(m: SquareMatrix, v: QuantumRegister, hi: nat)
    ensures
        0 <= mv_norm_raw(m, v, hi),
    decreases hi,
{
    if hi > 0 {
        lemma_mv_norm_nonneg(m, v, (hi - 1) as nat);
        let a = mv_at(m, v, hi - 1);
        crate::scalar::lemma_square_nonneg_pub2(a.re);
        crate::scalar::lemma_square_nonneg_pub2(a.im);
    }
}

impl QuantumGate {
    /// Apply this gate to a register: the matrix-vector product, then
    /// division by its norm. Fails with Overflow exactly when a product
    /// component leaves the stored bound, and with ZeroNorm exactly when
    /// the product vanishes.
    pub fn apply(&self, reg: &QuantumRegister) -> (r: Result<QuantumRegister, QError>)
        requires
            self.wf(),
            reg.wf(),
            self.n_qubits == reg.n_qubits,
        ensures
            match r {
                Ok(out) => {
                    &&& out.wf()
                    &&& out.n_qubits == reg.n_qubits
                    &&& forall|i: int|
                        0 <= i < out.spec_len() ==> c_bounded(
                            #[trigger] mv_at(self.matrix, *reg, i),
                            CX_MAX as int,
                        )
                    &&& mv_norm_raw(self.matrix, *reg, self.spec_size() as nat) > 0
                    &&& forall|i: int|
                        0 <= i < out.spec_len() ==> #[trigger] out.at(i) == (Cv {
                            re: crate::qubit::normalized_component(
                                mv_at(self.matrix, *reg, i).re,
                                mv_norm_raw(self.matrix, *reg, self.spec_size() as nat),
                            ),
                            im: crate::qubit::normalized_component(
                                mv_at(self.matrix, *reg, i).im,
                                mv_norm_raw(self.matrix, *reg, self.spec_size() as nat),
                            ),
                        })
                },
                Err(e) => {
                    &&& (e == QError::Overflow || e == QError::ZeroNorm)
                    &&& e == QError::Overflow ==> exists|i: int|
                        0 <= i < self.spec_size() && !c_bounded(
                            #[trigger] mv_at(self.matrix, *reg, i),
                            CX_MAX as int,
                        )
                    &&& e == QError::ZeroNorm ==> mv_norm_raw(
                        self.matrix,
                        *reg,
                        self.spec_size() as nat,
                    ) == 0
                },
            },
    {
        let n: usize = reg.amps.len();
        proof {
            reg.lemma_len_bound();
        }
        let mut y: Vec<Cx> = Vec::new();
        let mut i: usize = 0;
        while i < n
            invariant
                i <= n,
                n == reg.amps.len(),
                n == self.spec_size(),
                n <= 1048576,
                self.wf(),
                reg.wf(),
                y@.len() == i,
                forall|t: int|
                    0 <= t < i ==> (#[trigger] y@[t])@ == mv_at(self.matrix, *reg, t) && y@[t].wf(),
            decreases n - i,
        {
            let row: &Row = &self.matrix.matrix.rows[i];
            let ghost rv = row@;
            proof {
                crate::matrix::lemma_row_len_bound(rv, n as int);
                assert(rv.take(0) =~= Seq::<(usize, Cx)>::empty());
            }
            let mut acc_re: i128 = 0;
            let mut acc_im: i128 = 0;
            let mut k: usize = 0;
            while k < row.len()
                invariant
                    k <= rv.len(),
                    rv == row@,
                    rv.len() <= n,
                    i < n,
                    n == reg.amps.len(),
                    n == self.spec_size(),
                    n <= 1048576,
                    self.wf(),
                    reg.wf(),
                    rv == self.matrix.matrix.rows[i as int]@,
                    row_wf(rv, n as int),
                    acc_re == row_vec_sum(rv.take(k as int), *reg).re,
                    acc_im == row_vec_sum(rv.take(k as int), *reg).im,
                decreases rv.len() - k,
            {
                let (j, a): (usize, Cx) = row[k];
                proof {
                    crate::matrix::lemma_row_find_present(rv, n as int, k as int);
                    lemma_row_vec_sum_bound(rv.take(k as int), n as int, *reg);
                    crate::matrix::lemma_c_mul_term_bound(a@, reg.at(j as int));
                    assert((k as int) * (crate::matrix::TERM_BOUND as int) <= 1048576 * (
                    crate::matrix::TERM_BOUND as int)) by (nonlinear_arith)
                        requires
                            0 <= k <= 1048576,
                            crate::matrix::TERM_BOUND > 0,
                    ;
                    assert(rv.take(k + 1).drop_last() =~= rv.take(k as int));
                    assert(rv.take(k + 1).last() == rv[k as int]);
                }
                let w = a.mul(reg.amps[j]);
                acc_re = acc_re + (w.re as i128);
                acc_im = acc_im + (w.im as i128);
                k = k + 1;
            }
            proof {
                assert(rv.take(rv.len() as int) =~= rv);
                lemma_row_vec_sum_take(self.matrix, *reg, i as int, rv.len() as int);
            }
            if acc_re > CX_MAX as i128 || acc_re < -(CX_MAX as i128) || acc_im > CX_MAX as i128
                || acc_im < -(CX_MAX as i128) {
                proof {
                    assert(exists|t: int|
                        0 <= t < self.spec_size() && !c_bounded(
                            #[trigger] mv_at(self.matrix, *reg, t),
                            CX_MAX as int,
                        )) by {
                        assert(0 <= i < self.spec_size() && !c_bounded(
                            mv_at(self.matrix, *reg, i as int),
                            CX_MAX as int,
                        ));
                    }
                }
                return Err(QError::Overflow);
            }
            y.push(Cx::new(acc_re as i64, acc_im as i64));
            i = i + 1;
        }
        let mut raw: i128 = 0;
        let mut t: usize = 0;
        while t < n
            invariant
                t <= n,
                n <= 1048576,
                y@.len() == n,
                n == self.spec_size(),
                forall|u: int|
                    0 <= u < n ==> (#[trigger] y@[u])@ == mv_at(self.matrix, *reg, u)
                        && y@[u].wf(),
                raw == mv_norm_raw(self.matrix, *reg, t as nat),
                0 <= raw,
            decreases n - t,
        {
            let a: Cx = y[t];
            proof {
                let m = CX_MAX as int;
                crate::scalar::lemma_mul_bound(a.re as int, a.re as int, m, m);
                crate::scalar::lemma_mul_bound(a.im as int, a.im as int, m, m);
                crate::scalar::lemma_square_nonneg_pub2(a.re as int);
                crate::scalar::lemma_square_nonneg_pub2(a.im as int);
                assert forall|u: int| 0 <= u < t implies c_bounded(
                    #[trigger] mv_at(self.matrix, *reg, u),
                    CX_MAX as int,
                ) by {
                    assert(y@[u]@ == mv_at(self.matrix, *reg, u) && y@[u].wf());
                }
                lemma_mv_norm_bound_step(self.matrix, *reg, t as nat);
                assert((t as int) * (2 * (CX_MAX as int) * (CX_MAX as int)) <= 1048576 * (2 * (
                CX_MAX as int) * (CX_MAX as int))) by (nonlinear_arith)
                    requires
                        0 <= t <= 1048576,
                        CX_MAX > 0,
                ;
            }
            raw = raw + ((a.re as i128) * (a.re as i128) + (a.im as i128) * (a.im as i128));
            t = t + 1;
        }
        if raw == 0 {
            return Err(QError::ZeroNorm);
        }
        proof {
            assert forall|u: int| 0 <= u < n implies c_bounded(
                #[trigger] mv_at(self.matrix, *reg, u),
                CX_MAX as int,
            ) by {
                assert(y@[u]@ == mv_at(self.matrix, *reg, u) && y@[u].wf());
            }
            lemma_mv_norm_bound_step(self.matrix, *reg, n as nat);
            assert((n as int) * (2 * (CX_MAX as int) * (CX_MAX as int)) <= 1048576 * (2 * (
            CX_MAX as int) * (CX_MAX as int))) by (nonlinear_arith)
                requires
                    0 <= n <= 1048576,
                    CX_MAX > 0,
            ;
        }
        let d: u64 = crate::phase::isqrt128(raw as u128);
        proof {
            assert(d >= 1) by {
                if d == 0 {
                    assert((0int + 1) * (0int + 1) > raw as int);
                }
            }
        }
        let mut out: Vec<Cx> = Vec::new();
        let mut u: usize = 0;
        while u < n
            invariant
                u <= n,
                y@.len() == n,
                n == self.spec_size(),
                n == reg.amps.len(),
                self.wf(),
                reg.wf(),
                1 <= d,
                raw > 0,
                raw == mv_norm_raw(self.matrix, *reg, n as nat),
                d as int == crate::phase::sqrt_v(raw as int),
                crate::phase::is_floor_sqrt(raw as int, d as int),
                forall|w: int|
                    0 <= w < n ==> (#[trigger] y@[w])@ == mv_at(self.matrix, *reg, w)
                        && y@[w].wf(),
                out@.len() == u,
                forall|w: int|
                    0 <= w < u ==> (#[trigger] out@[w])@ == (Cv {
                        re: crate::qubit::normalized_component(
                            mv_at(self.matrix, *reg, w).re,
                            raw as int,
                        ),
                        im: crate::qubit::normalized_component(
                            mv_at(self.matrix, *reg, w).im,
                            raw as int,
                        ),
                    }) && out@[w].wf(),
            decreases n - u,
        {
            let a: Cx = y[u];
            proof {
                lemma_mv_norm_term(self.matrix, *reg, u as int, n as nat);
                let q = mv_at(self.matrix, *reg, u as int);
                crate::scalar::lemma_square_nonneg_pub2(q.re);
                crate::scalar::lemma_square_nonneg_pub2(q.im);
                assert(q.re * q.re <= crate::scalar::c_abs_sq_raw(q));
                assert(q.im * q.im <= crate::scalar::c_abs_sq_raw(q));
            }
            let zr: i64 = crate::qubit::scale_component(a.re, d, raw as u128);
            let zi: i64 = crate::qubit::scale_component(a.im, d, raw as u128);
            out.push(Cx::new(zr, zi));
            u = u + 1;
        }
        Ok(QuantumRegister { n_qubits: reg.n_qubits, amps: out })
    }
}

/// While every product component is bounded, so is the running norm.
proof fn lemma_mv_norm_bound_step(m: SquareMatrix, v: QuantumRegister, t: nat)
    requires
        forall|u: int| 0 <= u < t ==> c_bounded(#[trigger] mv_at(m, v, u), CX_MAX as int),
    ensures
        0 <= mv_norm_raw(m, v, t),
        mv_norm_raw(m, v, t) <= t * (2 * (CX_MAX as int) * (CX_MAX as int)),
    decreases t,
{
    if t > 0 {
        lemma_mv_norm_bound_step(m, v, (t - 1) as nat);
        let a = mv_at(m, v, t - 1);
        crate::scalar::lemma_square_nonneg_pub2(a.re);
        crate::scalar::lemma_square_nonneg_pub2(a.im);
        crate::scalar::lemma_mul_bound(a.re, a.re, CX_MAX as int, CX_MAX as int);
        crate::scalar::lemma_mul_bound(a.im, a.im, CX_MAX as int, CX_MAX as int);
        assert((t - 1) * (2 * (CX_MAX as int) * (CX_MAX as int)) + 2 * (CX_MAX as int) * (
        CX_MAX as int) == t * (2 * (CX_MAX as int) * (CX_MAX as int))) by (nonlinear_arith);
    }
}

} // verus!

verus! {

/// Compute the basis-index image of b under the qubit permutation pi:
/// take the bits of b, scatter bit s to position pi[s], read the result
/// back as an index.
fn qperm_apply(pi: &Vec<usize>, b: usize, n: usize, size: usize) -> (r: usize)
    requires
        crate::bits::is_qubit_perm(pi@, n as int),
        n == pi@.len(),
        1 <= n <= QUBIT_MAX,
        size == pow2(n as nat),
        size <= 1048576,
        b < size,
    ensures
        r as int == qperm_map(pi@, b as int),
        r < size,
{
    let mut w: Vec<bool> = Vec::new();
    let mut cur: usize = b;
    let mut s: usize = 0;
    proof {
        assert(crate::bits::bits_of(b as int, 0) =~= Seq::<bool>::empty());
        assert(pow2(0) == 1) by {
            lemma2_to64();
        }
        assert((b as int) / 1 == b as int) by (nonlinear_arith);
    }
    while s < n
        invariant
            s <= n,
            b < size,
            w@ == crate::bits::bits_of(b as int, s as nat),
            w@.len() == s,
            cur as int == (b as int) / (pow2(s as nat) as int),
        decreases n - s,
    {
        proof {
            crate::bits::lemma_bits_snoc(b as int, s as nat);
            crate::bits::lemma_bits_len(b as int, s as nat);
            vstd::arithmetic::power2::lemma_pow2_pos(s as nat);
            vstd::arithmetic::power2::lemma_pow2_unfold((s + 1) as nat);
            vstd::arithmetic::div_mod::lemma_div_denominator(b as int, pow2(s as nat) as int, 2);
            vstd::arithmetic::mul::lemma_mul_is_commutative(pow2(s as nat) as int, 2);
        }
        w.push(cur % 2 == 1);
        cur = cur / 2;
        s = s + 1;
    }
    let mut w2: Vec<bool> = Vec::new();
    let mut z: usize = 0;
    while z < n
        invariant
            z <= n,
            w2@.len() == z,
            forall|t: int| 0 <= t < z ==> !(#[trigger] w2@[t]),
        decreases n - z,
    {
        w2.push(false);
        z = z + 1;
    }
    proof {
        assert(w2@ =~= crate::bits::scatter(w@, pi@, 0));
    }
    let mut s2: usize = 0;
    while s2 < n
        invariant
            s2 <= n,
            n == pi@.len(),
            w@.len() == n,
            crate::bits::is_qubit_perm(pi@, n as int),
            w2@.len() == n,
            w2@ == crate::bits::scatter(w@, pi@, s2 as nat),
        decreases n - s2,
    {
        let t: usize = pi[s2];
        let bit: bool = w[s2];
        w2[t] = bit;
        s2 = s2 + 1;
    }
    let ghost full = w2@;
    let mut y: usize = 0;
    let mut s3: usize = n;
    proof {
        assert(full.subrange(n as int, n as int) =~= Seq::<bool>::empty());
    }
    while s3 > 0
        invariant
            s3 <= n,
            full == w2@,
            w2@.len() == n,
            n <= QUBIT_MAX,
            size == pow2(n as nat),
            size <= 1048576,
            y as int == crate::bits::from_bits(full.subrange(s3 as int, n as int)),
            0 <= y,
            (y as int) < pow2((n - s3) as nat),
        decreases s3,
    {
        proof {
            vstd::arithmetic::power2::lemma_pow2_unfold((n - s3 + 1) as nat);
            if ((n - s3 + 1) as nat) < (n as nat) {
                vstd::arithmetic::power2::lemma_pow2_strictly_increases(
                    (n - s3 + 1) as nat,
                    n as nat,
                );
            }
            assert(full.subrange(s3 - 1, n as int).drop_first() =~= full.subrange(
                s3 as int,
                n as int,
            ));
        }
        s3 = s3 - 1;
        let bit: bool = w2[s3];
        y = 2 * y + (if bit {
            1
        } else {
            0
        });
    }
    proof {
        assert(full.subrange(0, n as int) =~= full);
        crate::bits::lemma_scatter_len(w@, pi@, n as nat);
        crate::bits::lemma_qperm_map_bound(pi@, b as int, n as int);
    }
    y
}

impl QuantumGate {
    /// The basis-permutation gate of a qubit permutation: bit s of each
    /// basis index moves to position pi[s] (positions read little-endian
    /// from the index).
    pub fn permutation(pi: Vec<usize>) -> (g: QuantumGate)
        requires
            crate::bits::is_qubit_perm(pi@, pi@.len() as int),
            1 <= pi@.len() <= QUBIT_MAX,
        ensures
            g.wf(),
            g.n_qubits == pi@.len(),
            forall|b: int, c: int|
                0 <= b < g.spec_size() && 0 <= c < g.spec_size() ==> g.at(b, c) == (if c
                    == qperm_map(pi@, b) {
                    c_one()
                } else {
                    c_zero()
                }),
    {
        let n: usize = pi.len();
        let size: usize = crate::register::pow2_checked(n);
        let mut map: Vec<usize> = Vec::new();
        let mut b: usize = 0;
        while b < size
            invariant
                b <= size,
                n == pi@.len(),
                1 <= n <= QUBIT_MAX,
                crate::bits::is_qubit_perm(pi@, n as int),
                size == pow2(n as nat),
                size <= 1048576,
                map@.len() == b,
                forall|u: int|
                    0 <= u < b ==> (#[trigger] map@[u]) as int == qperm_map(pi@, u) && map@[u]
                        < size,
            decreases size - b,
        {
            let target: usize = qperm_apply(&pi, b, n, size);
            map.push(target);
            b = b + 1;
        }
        proof {
            assert forall|u1: int, u2: int| 0 <= u1 < u2 < size implies map@[u1] != map@[u2] by {
                if map@[u1] == map@[u2] {
                    crate::bits::lemma_qperm_map_injective(pi@, u1, u2, n as int);
                }
            }
        }
        match SquareMatrix::permutation(map) {
            Ok(m) => QuantumGate { matrix: m, n_qubits: n },
            Err(_) => vstd::pervasive::unreached(),
        }
    }

    /// The inverse qubit permutation as a gate.
    pub fn reverse_permutation(pi: Vec<usize>) -> (g: QuantumGate)
        requires
            crate::bits::is_qubit_perm(pi@, pi@.len() as int),
            1 <= pi@.len() <= QUBIT_MAX,
        ensures
            g.wf(),
            g.n_qubits == pi@.len(),
            forall|b: int, c: int|
                0 <= b < g.spec_size() && 0 <= c < g.spec_size() ==> g.at(b, c) == (if c
                    == qperm_map(crate::bits::perm_inv(pi@), b) {
                    c_one()
                } else {
                    c_zero()
                }),
    {
        let n: usize = pi.len();
        proof {
            crate::bits::lemma_perm_inv_props(pi@, n as int);
        }
        let mut inv: Vec<usize> = Vec::new();
        let mut z: usize = 0;
        while z < n
            invariant
                z <= n,
                inv@.len() == z,
                forall|t: int| 0 <= t < z ==> (#[trigger] inv@[t]) == 0,
            decreases n - z,
        {
            inv.push(0);
            z = z + 1;
        }
        let mut s: usize = 0;
        while s < n
            invariant
                s <= n,
                n == pi@.len(),
                crate::bits::is_qubit_perm(pi@, n as int),
                inv@.len() == n,
                forall|u: int| 0 <= u < s ==> (#[trigger] inv@[pi@[u] as int]) as int == u,
                forall|t: int| 0 <= t < n ==> (#[trigger] inv@[t]) < n || inv@[t] == 0,
            decreases n - s,
        {
            let t: usize = pi[s];
            inv[t] = s;
            proof {
                assert forall|u: int| 0 <= u < s + 1 implies (#[trigger] inv@[pi@[u] as int]) as int
                    == u by {
                    if u < s {
                        assert(pi@[u] != pi@[s as int]);
                    }
                }
            }
            s = s + 1;
        }
        proof {
            crate::bits::lemma_distinct_range_onto(pi@, n as int);
            assert forall|t: int| 0 <= t < n implies inv@[t] == crate::bits::perm_inv(pi@)[t] by {
                assert(crate::bits::seq_covers(pi@, t));
                let i0 = choose|i: int| 0 <= i < pi@.len() && (#[trigger] pi@[i]) as int == t;
                assert(inv@[pi@[i0] as int] as int == i0);
                assert(crate::bits::perm_inv(pi@)[pi@[i0] as int] as int == i0);
            }
            assert(inv@ =~= crate::bits::perm_inv(pi@));
        }
        QuantumGate::permutation(inv)
    }
}

/// Law: a permutation gate followed by its reverse is exactly the
/// identity. Entry (b, c) of the product of the reverse-permutation gate
/// with the permutation gate is one on the diagonal and zero elsewhere,
/// with no tolerance needed.
pub proof fn theorem_reverse_permutation_inverts(
    rp: QuantumGate,
    p: QuantumGate,
    pi: Seq<usize>,
    n: int,
)
    requires
        1 <= n <= QUBIT_MAX,
        p.wf(),
        rp.wf(),
        p.n_qubits == n,
        rp.n_qubits == n,
        crate::bits::is_qubit_perm(pi, n),
        forall|b: int, c: int|
            0 <= b < p.spec_size() && 0 <= c < p.spec_size() ==> p.at(b, c) == (if c == qperm_map(
                pi,
                b,
            ) {
                c_one()
            } else {
                c_zero()
            }),
        forall|b: int, c: int|
            0 <= b < rp.spec_size() && 0 <= c < rp.spec_size() ==> rp.at(b, c) == (if c
                == qperm_map(crate::bits::perm_inv(pi), b) {
                c_one()
            } else {
                c_zero()
            }),
    ensures
        forall|b: int, c: int|
            0 <= b < p.spec_size() && 0 <= c < p.spec_size() ==> mm_at(
                rp.matrix.matrix,
                p.matrix.matrix,
                b,
                c,
            ) == (if b == c {
                c_one()
            } else {
                c_zero()
            }),
{
    let inv = crate::bits::perm_inv(pi);
    crate::bits::lemma_perm_inv_props(pi, n);
    assert(rp.spec_size() == p.spec_size());
    assert(rp.matrix.matrix.spec_size() == p.spec_size());
    assert forall|b: int, c: int|
        0 <= b < p.spec_size() && 0 <= c < p.spec_size() implies mm_at(
        rp.matrix.matrix,
        p.matrix.matrix,
        b,
        c,
    ) == (if b == c {
        c_one()
    } else {
        c_zero()
    }) by {
        crate::bits::lemma_qperm_map_bound(inv, b, n);
        let j0 = qperm_map(inv, b);
        assert(0 <= j0 < p.spec_size());
        assert forall|j: int|
            0 <= j < rp.matrix.matrix.spec_size() && j != j0 implies rp.matrix.matrix.at(b, j)
            == c_zero() by {
            assert(rp.at(b, j) == rp.matrix.matrix.at(b, j));
            assert(rp.at(b, j) == c_zero());
        }
        crate::matrix::lemma_mm_single_row(rp.matrix.matrix, p.matrix.matrix, b, c, j0);
        assert(rp.matrix.matrix.at(b, j0) == rp.at(b, j0));
        assert(rp.at(b, j0) == c_one());
        assert(p.matrix.matrix.at(j0, c) == p.at(j0, c));
        crate::scalar::lemma_c_mul_one(p.at(j0, c));
        crate::bits::lemma_qperm_map_inverse(inv, pi, b, n);
        assert(qperm_map(pi, j0) == b);
        assert(p.at(j0, c) == (if c == b {
            c_one()
        } else {
            c_zero()
        }));
    }
}

} // verus!

verus! {

/// The index map of reversible multiplication by a modulo N: indices
/// below N go to (index * a) mod N, the rest stay put.
pub open spec fn modmul_map(n_mod: int, a: int, b: int) -> int {
    if b < n_mod {
        (b * a) % n_mod
    } else {
        b
    }
}

impl QuantumGate {
    /// The classical reversible multiply-by-a-mod-N block: the basis
    /// permutation whose first N entries are (i * a) mod N and whose
    /// remaining entries are the identity. Fails exactly when that map
    /// repeats a value among the first N entries, which is what happens
    /// when a and N share a factor.
    pub fn multiplications_mod_n_extended(n_qubits: usize, n_mod: u64, a: u64) -> (r: Result<
        QuantumGate,
        QError,
    >)
        requires
            1 <= n_qubits <= QUBIT_MAX,
            1 <= n_mod <= pow2(n_qubits as nat),
        ensures
            match r {
                Ok(g) => {
                    &&& g.wf()
                    &&& g.n_qubits == n_qubits
                    &&& forall|b: int, c: int|
                        0 <= b < g.spec_size() && 0 <= c < g.spec_size() ==> g.at(b, c) == (if c
                            == modmul_map(n_mod as int, a as int, b) {
                            c_one()
                        } else {
                            c_zero()
                        })
                    &&& forall|b1: int, b2: int|
                        0 <= b1 < b2 < n_mod ==> modmul_map(n_mod as int, a as int, b1)
                            != modmul_map(n_mod as int, a as int, b2)
                },
                Err(e) => {
                    &&& e == QError::NotPermutation
                    &&& exists|b1: int, b2: int|
                        #![trigger modmul_map(n_mod as int, a as int, b1), modmul_map(n_mod as int, a as int, b2)]
                        0 <= b1 < b2 < n_mod && modmul_map(n_mod as int, a as int, b1)
                            == modmul_map(n_mod as int, a as int, b2)
                },
            },
    {
        let size: usize = crate::register::pow2_checked(n_qubits);
        let mut map: Vec<usize> = Vec::new();
        let mut b: usize = 0;
        while b < size
            invariant
                b <= size,
                1 <= n_mod <= size,
                size <= 1048576,
                map@.len() == b,
                forall|u: int|
                    0 <= u < b ==> (#[trigger] map@[u]) as int == modmul_map(
                        n_mod as int,
                        a as int,
                        u,
                    ) && map@[u] < size,
            decreases size - b,
        {
            if (b as u64) < n_mod {
                proof {
                    crate::scalar::lemma_mul_bound(
                        b as int,
                        a as int,
                        1048576,
                        0xffff_ffff_ffff_ffff,
                    );
                    assert((b as int) * (a as int) >= 0) by (nonlinear_arith)
                        requires
                            b >= 0,
                            a >= 0,
                    ;
                    vstd::arithmetic::div_mod::lemma_mod_bound(
                        (b as int) * (a as int),
                        n_mod as int,
                    );
                }
                let t: u128 = ((b as u128) * (a as u128)) % (n_mod as u128);
                map.push(t as usize);
            } else {
                map.push(b);
            }
            b = b + 1;
        }
        let ghost mseq = map@;
        match SquareMatrix::permutation(map) {
            Ok(m) => {
                proof {
                    assert forall|b1: int, b2: int| 0 <= b1 < b2 < n_mod implies modmul_map(
                        n_mod as int,
                        a as int,
                        b1,
                    ) != modmul_map(n_mod as int, a as int, b2) by {
                        assert(mseq[b1] != mseq[b2]);
                    }
                }
                Ok(QuantumGate { matrix: m, n_qubits })
            },
            Err(e) => {
                proof {
                    assert(!crate::unitary::is_index_perm(mseq));
                    assert(exists|b1: int, b2: int|
                        #![trigger modmul_map(n_mod as int, a as int, b1), modmul_map(n_mod as int, a as int, b2)]
                        0 <= b1 < b2 < n_mod && modmul_map(n_mod as int, a as int, b1)
                            == modmul_map(n_mod as int, a as int, b2)) by {
                        if forall|b1: int, b2: int|
                            #![trigger modmul_map(n_mod as int, a as int, b1), modmul_map(n_mod as int, a as int, b2)]
                            0 <= b1 < b2 < n_mod ==> modmul_map(
                                n_mod as int,
                                a as int,
                                b1,
                            ) != modmul_map(n_mod as int, a as int, b2) {
                            assert forall|i1: int, i2: int| 0 <= i1 < i2 < mseq.len() implies
                                mseq[i1] != mseq[i2] by {
                                vstd::arithmetic::div_mod::lemma_mod_bound(
                                    (i1 as int) * (a as int),
                                    n_mod as int,
                                );
                                vstd::arithmetic::div_mod::lemma_mod_bound(
                                    (i2 as int) * (a as int),
                                    n_mod as int,
                                );
                                assert((i1 as int) * (a as int) >= 0 && (i2 as int) * (a as int)
                                    >= 0) by (nonlinear_arith)
                                    requires
                                        i1 >= 0,
                                        i2 >= 0,
                                        a >= 0,
                                ;
                                if i2 < n_mod {
                                    assert(modmul_map(n_mod as int, a as int, i1) != modmul_map(
                                        n_mod as int,
                                        a as int,
                                        i2,
                                    ));
                                } else if i1 < n_mod {
                                    assert(mseq[i1] as int == ((i1 as int) * (a as int)) % (
                                    n_mod as int));
                                    assert(mseq[i1] < n_mod);
                                } else {
                                }
                            }
                            assert(crate::unitary::is_index_perm(mseq));
                            assert(false);
                        }
                    }
                }
                Err(QError::NotPermutation)
            },
        }
    }
}

} // verus!

verus! {

/// A phase with numerator 1 or -1 never leaves the stored bound: its
/// only power is the unit root itself.
pub proof fn lemma_phase_ok_unit(num: int, p: nat)
    requires
        num == 1 || num == -1,
    ensures
        phase_ok(num, p),
{
    crate::phase::lemma_root_v_bounded(p);
    crate::scalar::lemma_c_mul_one(root_v(p));
    reveal_with_fuel(crate::phase::cpow_v, 3);
    reveal_with_fuel(crate::phase::cpow_ok, 3);
    assert(crate::phase::cpow_v(root_v(p), 1) == c_mul(c_one(), root_v(p)));
    assert(crate::phase::cpow_ok(root_v(p), 1));
}

/// An axis unit: 1, i, -1 or -i, the exactly representable unimodular
/// scalars.
pub open spec fn is_axis_unit(u: Cv) -> bool {
    ||| u == c_one()
    ||| u == (Cv { re: 0, im: SCALE as int })
    ||| u == (Cv { re: -(SCALE as int), im: 0 })
    ||| u == (Cv { re: 0, im: -(SCALE as int) })
}

/// Law: multiplying by an axis unit and then by its conjugate gives the
/// value back exactly, with no rounding at all.
pub proof fn theorem_axis_unit_round_trip(a: Cv, u: Cv)
    requires
        is_axis_unit(u),
    ensures
        c_mul(c_mul(a, u), c_conj(u)) == a,
{
    let s = SCALE as int;
    crate::scalar::lemma_divt_exact_multiple(a.re, s);
    crate::scalar::lemma_divt_exact_multiple(a.im, s);
    crate::scalar::lemma_divt_exact_multiple(-a.re, s);
    crate::scalar::lemma_divt_exact_multiple(-a.im, s);
    assert(a.re * s == s * a.re && a.im * s == s * a.im && a.re * (-s) == -(a.re * s) && a.im * (
    -s) == -(a.im * s) && (-a.re) * s == -(a.re * s) && (-a.im) * s == -(a.im * s) && a.re * 0 == 0
        && a.im * 0 == 0 && 0 * a.re == 0 && 0 * a.im == 0) by (nonlinear_arith);
    let b = c_mul(a, u);
    crate::scalar::lemma_divt_exact_multiple(b.re, s);
    crate::scalar::lemma_divt_exact_multiple(b.im, s);
    crate::scalar::lemma_divt_exact_multiple(-b.re, s);
    crate::scalar::lemma_divt_exact_multiple(-b.im, s);
    assert(b.re * s == s * b.re && b.im * s == s * b.im && b.re * (-s) == -(b.re * s) && b.im * (
    -s) == -(b.im * s) && (-b.re) * s == -(b.re * s) && (-b.im) * s == -(b.im * s) && b.re * 0 == 0
        && b.im * 0 == 0 && 0 * b.re == 0 && 0 * b.im == 0) by (nonlinear_arith);
}

/// Law: scaling a matrix by an axis unit and scaling the result by the
/// unit's conjugate restores every entry exactly (and so within any
/// tolerance).
pub proof fn theorem_scalar_multiply_round_trip(
    a: SparseMatrix,
    b: SparseMatrix,
    c: SparseMatrix,
    u: Cv,
)
    requires
        is_axis_unit(u),
        b.spec_size() == a.spec_size(),
        c.spec_size() == a.spec_size(),
        forall|i: int, j: int|
            0 <= i < a.spec_size() && 0 <= j < a.spec_size() ==> b.at(i, j) == c_mul(a.at(i, j), u),
        forall|i: int, j: int|
            0 <= i < a.spec_size() && 0 <= j < a.spec_size() ==> c.at(i, j) == c_mul(
                b.at(i, j),
                c_conj(u),
            ),
    ensures
        forall|i: int, j: int|
            0 <= i < a.spec_size() && 0 <= j < a.spec_size() ==> c.at(i, j) == a.at(i, j),
        c.approx_eq(a),
{
    assert forall|i: int, j: int|
        0 <= i < a.spec_size() && 0 <= j < a.spec_size() implies c.at(i, j) == a.at(i, j) by {
        theorem_axis_unit_round_trip(a.at(i, j), u);
    }
    assert forall|i: int, j: int|
        0 <= i < a.spec_size() && 0 <= j < a.spec_size() implies crate::matrix::close(
        c.at(i, j),
        a.at(i, j),
    ) by {
        assert((crate::scalar::TOL as int) * (crate::scalar::TOL as int) > 0) by (nonlinear_arith)
            requires
                crate::scalar::TOL == 13421,
        ;
        assert(crate::scalar::c_abs_sq_raw(crate::scalar::c_sub(c.at(i, j), a.at(i, j))) == 0);
    }
}

/// A gate whose matrix is the permutation matrix of the index map `mp`.
pub open spec fn is_perm_gate(g: QuantumGate, mp: Seq<usize>) -> bool {
    &&& g.wf()
    &&& g.spec_size() == mp.len()
    &&& crate::unitary::is_index_perm(mp)
    &&& forall|b: int, c: int|
        0 <= b < g.spec_size() && 0 <= c < g.spec_size() ==> g.at(b, c) == (if c == mp[b] {
            c_one()
        } else {
            c_zero()
        })
}

/// Law: the reverse of a permutation gate undoes it exactly. The reverse
/// is the conjugate transpose; their product has ones on the
/// diagonal and zeros elsewhere, with no tolerance needed. This is the
/// reverse-then-apply round trip for every gate whose matrix is a basis
/// permutation (the X, CNOT and modular-multiplication gates among them).
pub proof fn theorem_perm_gate_reverse_inverts(g: QuantumGate, r: QuantumGate, mp: Seq<usize>)
    requires
        is_perm_gate(g, mp),
        r.wf(),
        r.spec_size() == g.spec_size(),
        forall|i: int, j: int|
            0 <= i < r.spec_size() && 0 <= j < r.spec_size() ==> r.at(i, j) == c_conj(g.at(j, i)),
    ensures
        forall|b: int, c: int|
            0 <= b < g.spec_size() && 0 <= c < g.spec_size() ==> mm_at(
                r.matrix.matrix,
                g.matrix.matrix,
                b,
                c,
            ) == (if b == c {
                c_one()
            } else {
                c_zero()
            }),
{
    let size = g.spec_size();
    crate::bits::lemma_distinct_range_onto(mp, size);
    assert forall|b: int, c: int|
        0 <= b < size && 0 <= c < size implies mm_at(r.matrix.matrix, g.matrix.matrix, b, c) == (
    if b == c {
        c_one()
    } else {
        c_zero()
    }) by {
        assert(crate::bits::seq_covers(mp, b));
        let j0 = choose|i: int| 0 <= i < mp.len() && (#[trigger] mp[i]) as int == b;
        assert forall|j: int|
            0 <= j < r.matrix.matrix.spec_size() && j != j0 implies r.matrix.matrix.at(b, j)
            == c_zero() by {
            assert(r.at(b, j) == r.matrix.matrix.at(b, j));
            assert(r.at(b, j) == c_conj(g.at(j, b)));
            if mp[j] as int == b {
                if j < j0 {
                    assert(mp[j] != mp[j0]);
                } else {
                    assert(mp[j0] != mp[j]);
                }
                assert(false);
            }
            assert(g.at(j, b) == c_zero());
        }
        crate::matrix::lemma_mm_single_row(r.matrix.matrix, g.matrix.matrix, b, c, j0);
        assert(r.matrix.matrix.at(b, j0) == r.at(b, j0));
        assert(r.at(b, j0) == c_conj(g.at(j0, b)));
        assert(g.at(j0, b) == c_one());
        assert(c_conj(c_one()) == c_one());
        assert(g.matrix.matrix.at(j0, c) == g.at(j0, c));
        crate::scalar::lemma_c_mul_one(g.at(j0, c));
        if c == b {
            assert(g.at(j0, c) == c_one());
        } else {
            assert(g.at(j0, c) == c_zero());
            crate::scalar::lemma_c_mul_one(c_zero());
        }
    }
}

/// Where all but one entry of a gate row is zero, the matrix-vector
/// component collapses to the single term.
proof fn lemma_mv_single_row(m: SquareMatrix, v: QuantumRegister, i: int, j0: int)
    requires
        0 <= j0 < m.spec_size(),
        forall|j: int| 0 <= j < m.spec_size() && j != j0 ==> m.at(i, j) == c_zero(),
    ensures
        mv_at(m, v, i) == c_mul(m.at(i, j0), v.at(j0)),
{
    lemma_mv_sum_gap(m, v, i, 0, j0 as nat);
    assert(mv_sum(m, v, i, (j0 + 1) as nat) == crate::scalar::c_add(
        mv_sum(m, v, i, j0 as nat),
        c_mul(m.at(i, j0), v.at(j0)),
    ));
    lemma_mv_sum_gap(m, v, i, (j0 + 1) as nat, m.spec_size() as nat);
}

/// Squared norm of a vector that is one at j0 and zero elsewhere.
proof fn lemma_mv_norm_single(m: SquareMatrix, v: QuantumRegister, j0: int, hi: nat)
    requires
        forall|b: int| 0 <= b < m.spec_size() ==> #[trigger] mv_at(m, v, b) == (if b == j0 {
            c_one()
        } else {
            c_zero()
        }),
        hi <= m.spec_size(),
    ensures
        mv_norm_raw(m, v, hi) == (if hi > j0 && j0 >= 0 {
            (SCALE as int) * (SCALE as int)
        } else {
            0int
        }),
    decreases hi,
{
    if hi > 0 {
        lemma_mv_norm_single(m, v, j0, (hi - 1) as nat);
        if hi - 1 == j0 {
            assert(crate::scalar::c_abs_sq_raw(c_one()) == (SCALE as int) * (SCALE as int) + 0
                * 0);
        } else {
            assert(crate::scalar::c_abs_sq_raw(c_zero()) == 0 * 0 + 0 * 0);
            assert(0 * 0 == 0) by (nonlinear_arith);
        }
    }
}

/// Law: applying a permutation gate to a basis state gives exactly the
/// basis state of the preimage index: no amplitude spreads and the
/// normalization changes nothing.
pub proof fn theorem_perm_gate_on_basis(
    g: QuantumGate,
    mp: Seq<usize>,
    from: QuantumRegister,
    to: QuantumRegister,
    k: int,
    j0: int,
)
    requires
        is_perm_gate(g, mp),
        from.wf(),
        from.spec_len() == g.spec_size(),
        from.is_basis(k),
        0 <= k < from.spec_len(),
        0 <= j0 < mp.len(),
        mp[j0] as int == k,
        crate::circuit::step_rel(g, from, to),
    ensures
        to.is_basis(j0),
{
    let size = g.spec_size();
    assert forall|b: int| 0 <= b < size implies #[trigger] mv_at(g.matrix, from, b) == (if b == j0 {
        c_one()
    } else {
        c_zero()
    }) by {
        assert forall|j: int|
            0 <= j < g.matrix.spec_size() && j != mp[b] as int implies g.matrix.at(b, j)
            == c_zero() by {
            assert(g.at(b, j) == g.matrix.at(b, j));
        }
        lemma_mv_single_row(g.matrix, from, b, mp[b] as int);
        assert(g.matrix.at(b, mp[b] as int) == g.at(b, mp[b] as int));
        assert(g.at(b, mp[b] as int) == c_one());
        crate::scalar::lemma_c_mul_one(from.at(mp[b] as int));
        assert(mv_at(g.matrix, from, b) == from.at(mp[b] as int));
        if b == j0 {
            assert(from.at(k) == c_one());
        } else {
            assert(mp[b] != mp[j0]) by {
                if b < j0 {
                } else {
                }
            }
            assert(from.at(mp[b] as int) == c_zero());
        }
    }
    lemma_mv_norm_single(g.matrix, from, j0, size as nat);
    let s = SCALE as int;
    let raw = mv_norm_raw(g.matrix, from, size as nat);
    assert(raw == s * s);
    assert(crate::phase::is_floor_sqrt(s * s, s)) by (nonlinear_arith)
        requires
            s == SCALE as int,
            SCALE == 134217728,
    ;
    crate::phase::lemma_sqrt_v_is(s * s, s);
    assert forall|i: int| 0 <= i < to.spec_len() implies to.at(i) == (if i == j0 {
        c_one()
    } else {
        c_zero()
    }) by {
        crate::scalar::lemma_divt_exact_multiple(s, s);
        crate::scalar::lemma_divt_exact_multiple(0, s);
        assert(0 * s == 0) by (nonlinear_arith);
        if i == j0 {
            assert(crate::qubit::normalized_component(s, raw) == s);
            assert(crate::qubit::normalized_component(0, raw) == 0);
        } else {
            assert(crate::qubit::normalized_component(0, raw) == 0);
        }
    }
}

} // verus!

verus! {

/// Single-entry row holding a nonzero value at one column.
fn row1(col: usize, v: Cx) -> (r: Row)
    requires
        v.wf(),
        !c_is_zero(v@),
    ensures
        row_wf(r@, col + 1),
        forall|j: int|
            #![trigger row_find(r@, j)]
            row_find(r@, j) == (if j == col {
                v@
            } else {
                c_zero()
            }),
{
    let mut row: Row = Vec::new();
    let ghost r0 = row@;
    row.push((col, v));
    proof {
        assert forall|j: int| true implies row_find(row@, j) == (if j == col {
            v@
        } else {
            c_zero()
        }) by {
            crate::matrix::lemma_row_find_push(r0, (col, v), j);
        }
    }
    row
}

impl QuantumGate {
    /// The Y-like gate with the imaginary unit on both off-diagonal
    /// entries.
    pub fn y() -> (g: QuantumGate)
        ensures
            g.wf(),
            g.n_qubits == 1,
            g.at(0, 0) == c_zero(),
            g.at(0, 1) == crate::scalar::c_i(),
            g.at(1, 0) == crate::scalar::c_i(),
            g.at(1, 1) == c_zero(),
    {
        proof {
            lemma2_to64();
        }
        let iu = Cx::imaginary_unit();
        let mut rows: Vec<Row> = Vec::new();
        rows.push(row1(1, iu));
        rows.push(row1(0, iu));
        proof {
            assert(row_wf(rows@[0]@, 2));
            assert(row_wf(rows@[1]@, 2));
        }
        QuantumGate {
            matrix: SquareMatrix::new_unchecked(SparseMatrix { size: 2, rows }),
            n_qubits: 1,
        }
    }

    /// The Z gate: flips the sign of the 1 amplitude.
    pub fn z() -> (g: QuantumGate)
        ensures
            g.wf(),
            g.n_qubits == 1,
            g.at(0, 0) == c_one(),
            g.at(0, 1) == c_zero(),
            g.at(1, 0) == c_zero(),
            g.at(1, 1) == c_neg(c_one()),
    {
        proof {
            lemma2_to64();
        }
        let one = Cx::one();
        let neg_one = one.neg();
        let mut values: Vec<Cx> = Vec::new();
        values.push(one);
        values.push(neg_one);
        QuantumGate {
            matrix: SquareMatrix::new_unchecked(SparseMatrix::diagonal(&values)),
            n_qubits: 1,
        }
    }

    /// The controlled X gate: another name for CNOT.
    pub fn c_x() -> (g: QuantumGate)
        ensures
            g.wf(),
            g.n_qubits == 2,
            forall|i: int, j: int|
                0 <= i < 4 && 0 <= j < 4 ==> g.at(i, j) == (if (i == 0 && j == 0) || (i == 1 && j
                    == 1) || (i == 2 && j == 3) || (i == 3 && j == 2) {
                    c_one()
                } else {
                    c_zero()
                }),
    {
        QuantumGate::cnot()
    }

    /// The controlled Y-like gate: -i and i on the swapped pair.
    pub fn c_y() -> (g: QuantumGate)
        ensures
            g.wf(),
            g.n_qubits == 2,
            forall|i: int, j: int|
                0 <= i < 4 && 0 <= j < 4 ==> g.at(i, j) == (if i == 0 && j == 0 || i == 1 && j
                    == 1 {
                    c_one()
                } else if i == 2 && j == 3 {
                    c_neg(crate::scalar::c_i())
                } else if i == 3 && j == 2 {
                    crate::scalar::c_i()
                } else {
                    c_zero()
                }),
    {
        proof {
            lemma2_to64();
        }
        let one = Cx::one();
        let iu = Cx::imaginary_unit();
        let neg_iu = iu.neg();
        let mut rows: Vec<Row> = Vec::new();
        rows.push(row1(0, one));
        rows.push(row1(1, one));
        rows.push(row1(3, neg_iu));
        rows.push(row1(2, iu));
        proof {
            assert(row_wf(rows@[0]@, 4));
            assert(row_wf(rows@[1]@, 4));
            assert(row_wf(rows@[2]@, 4));
            assert(row_wf(rows@[3]@, 4));
        }
        QuantumGate {
            matrix: SquareMatrix::new_unchecked(SparseMatrix { size: 4, rows }),
            n_qubits: 2,
        }
    }

    /// The controlled Z gate: flips the sign of the 11 amplitude.
    pub fn c_z() -> (g: QuantumGate)
        ensures
            g.wf(),
            g.n_qubits == 2,
            forall|i: int, j: int|
                0 <= i < 4 && 0 <= j < 4 ==> g.at(i, j) == (if i == j {
                    if i == 3 {
                        c_neg(c_one())
                    } else {
                        c_one()
                    }
                } else {
                    c_zero()
                }),
    {
        proof {
            lemma2_to64();
        }
        let one = Cx::one();
        let neg_one = one.neg();
        let mut values: Vec<Cx> = Vec::new();
        values.push(one);
        values.push(one);
        values.push(one);
        values.push(neg_one);
        QuantumGate {
            matrix: SquareMatrix::new_unchecked(SparseMatrix::diagonal(&values)),
            n_qubits: 2,
        }
    }

    /// The doubly controlled X gate: swaps the basis states 3 and 7.
    pub fn cc_x() -> (g: QuantumGate)
        ensures
            g.wf(),
            g.n_qubits == 3,
            forall|i: int, j: int|
                0 <= i < 8 && 0 <= j < 8 ==> g.at(i, j) == (if (i == 3 && j == 7) || (i == 7 && j
                    == 3) || (i == j && i != 3 && i != 7) {
                    c_one()
                } else {
                    c_zero()
                }),
    {
        proof {
            lemma2_to64();
        }
        let mut perm: Vec<usize> = Vec::new();
        perm.push(0);
        perm.push(1);
        perm.push(2);
        perm.push(7);
        perm.push(4);
        perm.push(5);
        perm.push(6);
        perm.push(3);
        match SquareMatrix::permutation(perm) {
            Ok(m) => QuantumGate { matrix: m, n_qubits: 3 },
            Err(_) => vstd::pervasive::unreached(),
        }
    }

    /// The doubly controlled Z gate: flips the sign of the last basis
    /// amplitude.
    pub fn cc_z() -> (g: QuantumGate)
        ensures
            g.wf(),
            g.n_qubits == 3,
            forall|i: int, j: int|
                0 <= i < 8 && 0 <= j < 8 ==> g.at(i, j) == (if i == j {
                    if i == 7 {
                        c_neg(c_one())
                    } else {
                        c_one()
                    }
                } else {
                    c_zero()
                }),
    {
        proof {
            lemma2_to64();
        }
        let one = Cx::one();
        let neg_one = one.neg();
        let mut values: Vec<Cx> = Vec::new();
        let mut i: usize = 0;
        while i < 7
            invariant
                i <= 7,
                values@.len() == i,
                one@ == c_one(),
                forall|t: int| 0 <= t < i ==> values@[t] == one,
            decreases 7 - i,
        {
            values.push(one);
            i = i + 1;
        }
        values.push(neg_one);
        QuantumGate {
            matrix: SquareMatrix::new_unchecked(SparseMatrix::diagonal(&values)),
            n_qubits: 3,
        }
    }
}

} // verus!
