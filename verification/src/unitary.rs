//! Square matrices used as unitary operators.
//!
//! A thin wrapper around `SparseMatrix` for matrices treated as unitary:
//! identity, permutation matrices, products, Kronecker products and the
//! conjugate-transpose inverse. Products and Kronecker products of
//! unitaries are unitary, so these constructions need no check; the
//! checked constructor rescales a unitary-up-to-scaling input by its
//! first row's norm and then verifies unitarity against the conjugate
//! transpose, entry by entry.

use vstd::prelude::*;

use crate::matrix::mm_at;
use crate::matrix::mm_sum;
use crate::matrix::SparseMatrix;
use crate::matrix::SIZE_MAX;
use crate::scalar::c_bounded;
use crate::scalar::c_conj;
use crate::scalar::c_mul;
use crate::scalar::c_one;
use crate::scalar::c_zero;
use crate::scalar::Cv;
use crate::scalar::Cx;
use crate::scalar::CX_MAX;
use crate::scalar::SCALE;
use crate::scalar::TOL;
use crate::QError;

verus! {

/// Every value is a target below the length, and no target repeats.
pub open spec fn is_index_perm(s: Seq<usize>) -> bool {
    &&& forall|i: int| 0 <= i < s.len() ==> (#[trigger] s[i]) < s.len()
    &&& forall|i1: int, i2: int| 0 <= i1 < i2 < s.len() ==> s[i1] != s[i2]
}

/// A square matrix wrapped for use as a unitary operator.
#[derive(Clone, Debug)]
pub struct SquareMatrix {
    pub matrix: SparseMatrix,
}

impl SquareMatrix {
    pub open spec fn wf(self) -> bool {
        &&& self.matrix.wf()
        &&& self.matrix.spec_size() >= 1
    }

    /// The coefficient at (i, j), zero where absent.
    pub open spec fn at(self, i: int, j: int) -> Cv {
        self.matrix.at(i, j)
    }

    pub open spec fn spec_size(self) -> int {
        self.matrix.spec_size()
    }

    /// Wrap a matrix already known (or asserted) to be unitary.
    pub fn new_unchecked(matrix: SparseMatrix) -> (r: SquareMatrix)
        requires
            matrix.wf(),
            matrix.spec_size() >= 1,
        ensures
            r.wf(),
            r.matrix == matrix,
    {
        SquareMatrix { matrix }
    }

    pub fn identity(size: usize) -> (r: SquareMatrix)
        requires
            1 <= size <= SIZE_MAX,
        ensures
            r.wf(),
            r.spec_size() == size,
            forall|i: int, j: int|
                0 <= i < size && 0 <= j < size ==> r.at(i, j) == (if i == j {
                    c_one()
                } else {
                    c_zero()
                }),
    {
        SquareMatrix { matrix: SparseMatrix::identity(size) }
    }

    pub fn size(&self) -> (s: usize)
        ensures
            s == self.spec_size(),
    {
        self.matrix.size()
    }

    pub fn get(&self, i: usize, j: usize) -> (r: Cx)
        requires
            self.wf(),
            i < self.spec_size(),
            j < self.spec_size(),
        ensures
            r@ == self.at(i as int, j as int),
            r.wf(),
    {
        self.matrix.get(i, j)
    }

    pub fn get_coeffcient(&self, row: usize, col: usize) -> (r: Cx)
        requires
            self.wf(),
            row < self.spec_size(),
            col < self.spec_size(),
        ensures
            r@ == self.at(row as int, col as int),
            r.wf(),
    {
        self.matrix.get(row, col)
    }

    /// Matrix product; a product of unitaries is unitary.
    pub fn multiply(&self, rhs: &SquareMatrix) -> (r: Result<SquareMatrix, QError>)
        requires
            self.wf(),
            rhs.wf(),
            self.spec_size() == rhs.spec_size(),
        ensures
            match r {
                Ok(p) => {
                    &&& p.wf()
                    &&& p.spec_size() == self.spec_size()
                    &&& forall|i: int, k: int|
                        0 <= i < p.spec_size() && 0 <= k < p.spec_size() ==> p.at(i, k) == mm_at(
                            self.matrix,
                            rhs.matrix,
                            i,
                            k,
                        )
                },
                Err(e) => {
                    &&& e == QError::Overflow
                    &&& exists|i: int, k: int|
                        0 <= i < self.spec_size() && 0 <= k < self.spec_size() && !c_bounded(
                            #[trigger] mm_at(self.matrix, rhs.matrix, i, k),
                            CX_MAX as int,
                        )
                },
            },
    {
        match self.matrix.multiply(&rhs.matrix) {
            Ok(m) => Ok(SquareMatrix { matrix: m }),
            Err(e) => Err(e),
        }
    }

    /// Kronecker product; a Kronecker product of unitaries is unitary.
    pub fn tensor_product(&self, rhs: &SquareMatrix) -> (r: Result<SquareMatrix, QError>)
        requires
            self.wf(),
            rhs.wf(),
            self.spec_size() * rhs.spec_size() <= SIZE_MAX,
        ensures
            match r {
                Ok(p) => {
                    &&& p.wf()
                    &&& p.spec_size() == self.spec_size() * rhs.spec_size()
                    &&& forall|i: int, j: int|
                        0 <= i < p.spec_size() && 0 <= j < p.spec_size() ==> p.at(i, j) == c_mul(
                            self.at(i / rhs.spec_size(), j / rhs.spec_size()),
                            rhs.at(i % rhs.spec_size(), j % rhs.spec_size()),
                        )
                },
                Err(e) => {
                    &&& e == QError::Overflow
                    &&& exists|i: int, j: int|
                        0 <= i < self.spec_size() * rhs.spec_size() && 0 <= j < self.spec_size()
                            * rhs.spec_size() && !c_bounded(
                            #[trigger] c_mul(
                                self.at(i / rhs.spec_size(), j / rhs.spec_size()),
                                rhs.at(i % rhs.spec_size(), j % rhs.spec_size()),
                            ),
                            CX_MAX as int,
                        )
                },
            },
    {
        proof {
            assert(1 * 1 <= self.spec_size() * rhs.spec_size()) by (nonlinear_arith)
                requires
                    1 <= self.spec_size(),
                    1 <= rhs.spec_size(),
            ;
        }
        match self.matrix.tensor_product(&rhs.matrix) {
            Ok(m) => Ok(SquareMatrix { matrix: m }),
            Err(e) => {
                proof {
                    let m = rhs.spec_size();
                    let (i, j) = choose|i: int, j: int|
                        0 <= i < self.matrix.spec_size() * rhs.matrix.spec_size() && 0 <= j
                            < self.matrix.spec_size() * rhs.matrix.spec_size() && !c_bounded(
                            #[trigger] c_mul(
                                self.matrix.at(i / rhs.matrix.spec_size(), j / rhs.matrix.spec_size()),
                                rhs.matrix.at(i % rhs.matrix.spec_size(), j % rhs.matrix.spec_size()),
                            ),
                            CX_MAX as int,
                        );
                    assert(0 <= i < self.spec_size() * m && 0 <= j < self.spec_size() * m
                        && !c_bounded(
                        c_mul(self.at(i / m, j / m), rhs.at(i % m, j % m)),
                        CX_MAX as int,
                    ));
                }
                Err(e)
            },
        }
    }

    /// The inverse of a unitary matrix: its conjugate transpose.
    pub fn invert(&self) -> (r: SquareMatrix)
        requires
            self.wf(),
        ensures
            r.wf(),
            r.spec_size() == self.spec_size(),
            forall|i: int, j: int|
                0 <= i < self.spec_size() && 0 <= j < self.spec_size() ==> r.at(i, j) == c_conj(
                    self.at(j, i),
                ),
    {
        SquareMatrix { matrix: self.matrix.conjugate_transpose() }
    }

    /// The permutation matrix with a single one per row i, at column
    /// perm[i]. Fails exactly when perm is not a permutation of its index
    /// range.
    pub fn permutation(perm: Vec<usize>) -> (r: Result<SquareMatrix, QError>)
        requires
            1 <= perm@.len() <= SIZE_MAX,
        ensures
            match r {
                Ok(p) => {
                    &&& p.wf()
                    &&& p.spec_size() == perm@.len()
                    &&& is_index_perm(perm@)
                    &&& forall|i: int, j: int|
                        0 <= i < p.spec_size() && 0 <= j < p.spec_size() ==> p.at(i, j) == (if j
                            == perm@[i] {
                            c_one()
                        } else {
                            c_zero()
                        })
                },
                Err(e) => {
                    &&& e == QError::NotPermutation
                    &&& !is_index_perm(perm@)
                },
            },
    {
        let n: usize = perm.len();
        let mut seen: Vec<bool> = Vec::new();
        let mut z: usize = 0;
        while z < n
            invariant
                z <= n,
                seen@.len() == z,
                forall|t: int| 0 <= t < z ==> !(#[trigger] seen@[t]),
            decreases n - z,
        {
            seen.push(false);
            z = z + 1;
        }
        let mut rows: Vec<crate::matrix::Row> = Vec::new();
        let mut i: usize = 0;
        while i < n
            invariant
                i <= n,
                n == perm@.len(),
                1 <= n <= SIZE_MAX,
                seen@.len() == n,
                forall|t: int|
                    0 <= t < n ==> #[trigger] seen@[t] == exists|u: int|
                        0 <= u < i && perm@[u] == t,
                forall|u1: int, u2: int| 0 <= u1 < u2 < i ==> perm@[u1] != perm@[u2],
                forall|u: int| 0 <= u < i ==> (#[trigger] perm@[u]) < n,
                rows.len() == i,
                forall|t: int|
                    0 <= t < i ==> crate::matrix::row_wf((#[trigger] rows[t])@, n as int),
                forall|t: int, j: int|
                    0 <= t < i && 0 <= j < n ==> #[trigger] crate::matrix::row_find(rows[t]@, j)
                        == (if j == perm@[t] {
                        c_one()
                    } else {
                        c_zero()
                    }),
            decreases n - i,
        {
            let target: usize = perm[i];
            if target >= n {
                return Err(QError::NotPermutation);
            }
            if seen[target] {
                proof {
                    let u = choose|u: int| 0 <= u < i && perm@[u] == target;
                    assert(perm@[u] == perm@[i as int]);
                }
                return Err(QError::NotPermutation);
            }
            seen[target] = true;
            let one: Cx = Cx::one();
            let mut row: crate::matrix::Row = Vec::new();
            let ghost empty_row = row@;
            row.push((target, one));
            proof {
                assert(row@ =~= empty_row.push((target, one)));
                assert forall|j: int| true implies crate::matrix::row_find(row@, j) == (if j
                    == perm@[i as int] {
                    c_one()
                } else {
                    c_zero()
                }) by {
                    crate::matrix::lemma_row_find_push(empty_row, (target, one), j);
                }
            }
            rows.push(row);
            i = i + 1;
        }
        Ok(SquareMatrix { matrix: SparseMatrix { size: n, rows } })
    }
}

/// Multiplying on the left by a permutation matrix permutes the rows
/// exactly: entry (i, k) of perm * m is m(map[i], k).
pub proof fn lemma_perm_times_matrix(p: SparseMatrix, m: SparseMatrix, map: Seq<usize>, i: int, k: int)
    requires
        p.spec_size() == m.spec_size(),
        p.spec_size() == map.len(),
        0 <= i < p.spec_size(),
        map[i] < map.len(),
        forall|a: int, b: int|
            0 <= a < p.spec_size() && 0 <= b < p.spec_size() ==> p.at(a, b) == (if b == map[a] {
                c_one()
            } else {
                c_zero()
            }),
    ensures
        mm_at(p, m, i, k) == m.at(map[i] as int, k),
{
    crate::matrix::lemma_mm_single_row(p, m, i, k, map[i] as int);
    crate::scalar::lemma_c_mul_one(m.at(map[i] as int, k));
}

/// Multiplying on the right by a permutation matrix permutes the columns
/// exactly: entry (i, k) of m * perm is m(i, j0) for the unique j0 sent
/// to column k.
pub proof fn lemma_matrix_times_perm(
    m: SparseMatrix,
    p: SparseMatrix,
    map: Seq<usize>,
    i: int,
    k: int,
    j0: int,
)
    requires
        p.spec_size() == m.spec_size(),
        p.spec_size() == map.len(),
        0 <= k < p.spec_size(),
        0 <= j0 < p.spec_size(),
        map[j0] == k,
        forall|a: int, b: int|
            0 <= a < p.spec_size() && 0 <= b < p.spec_size() ==> p.at(a, b) == (if b == map[a] {
                c_one()
            } else {
                c_zero()
            }),
        forall|a: int| 0 <= a < map.len() && a != j0 ==> map[a] != k,
    ensures
        mm_at(m, p, i, k) == m.at(i, j0),
{
    crate::matrix::lemma_mm_single_col(m, p, i, k, j0);
    crate::scalar::lemma_c_mul_one(m.at(i, j0));
}

} // verus!

verus! {

/// Raw squared norm of the first `hi` coefficients of row zero.
pub open spec fn row0_norm_raw(m: SparseMatrix, hi: nat) -> int
    decreases hi,
{
    if hi == 0 {
        0
    } else {
        row0_norm_raw(m, (hi - 1) as nat) + crate::scalar::c_abs_sq_raw(m.at(0, hi - 1))
    }
}

/// The rescaling factor a unitary-up-to-scaling matrix needs: SCALE
/// squared over the floor square root of row zero's raw squared norm
/// (for a matrix that is a complex multiple of a unitary, every row has
/// the norm of that multiple).
pub open spec fn row_normalizer(m: SparseMatrix) -> int {
    crate::scalar::divt(
        (SCALE as int) * (SCALE as int),
        crate::phase::sqrt_v(row0_norm_raw(m, m.spec_size() as nat)),
    )
}

/// Entry (i, j) of m times its own conjugate transpose: the inner
/// product of rows i and j.
pub open spec fn gram_sum(m: SparseMatrix, i: int, j: int, hi: nat) -> Cv
    decreases hi,
{
    if hi == 0 {
        c_zero()
    } else {
        crate::scalar::c_add(
            gram_sum(m, i, j, (hi - 1) as nat),
            c_mul(m.at(i, hi - 1), c_conj(m.at(j, hi - 1))),
        )
    }
}

/// The same inner product for the matrix with every entry rescaled.
pub open spec fn scaled_gram_sum(m: SparseMatrix, nu: int, i: int, j: int, hi: nat) -> Cv
    decreases hi,
{
    if hi == 0 {
        c_zero()
    } else {
        crate::scalar::c_add(
            scaled_gram_sum(m, nu, i, j, (hi - 1) as nat),
            c_mul(
                c_mul(m.at(i, hi - 1), Cv { re: nu, im: 0 }),
                c_conj(c_mul(m.at(j, hi - 1), Cv { re: nu, im: 0 })),
            ),
        )
    }
}

/// The product of the rescaled matrix with its conjugate transpose has
/// the rescaled Gram entries.
proof fn lemma_gram_congruence(
    scaled: SparseMatrix,
    ct: SparseMatrix,
    m: SparseMatrix,
    nu: int,
    i: int,
    j: int,
    hi: nat,
)
    requires
        scaled.spec_size() == m.spec_size(),
        ct.spec_size() == m.spec_size(),
        hi <= m.spec_size(),
        forall|a: int, b: int|
            0 <= a < m.spec_size() && 0 <= b < m.spec_size() ==> scaled.at(a, b) == c_mul(
                m.at(a, b),
                Cv { re: nu, im: 0 },
            ),
        forall|a: int, b: int|
            0 <= a < m.spec_size() && 0 <= b < m.spec_size() ==> ct.at(a, b) == c_conj(
                scaled.at(b, a),
            ),
        0 <= i < m.spec_size(),
        0 <= j < m.spec_size(),
    ensures
        mm_sum(scaled, ct, i, j, hi) == scaled_gram_sum(m, nu, i, j, hi),
    decreases hi,
{
    if hi > 0 {
        lemma_gram_congruence(scaled, ct, m, nu, i, j, (hi - 1) as nat);
    }
}

/// A bound on row zero's running norm, for the machine range.
proof fn lemma_row0_norm_bound(m: SparseMatrix, hi: nat)
    requires
        m.wf(),
    ensures
        0 <= row0_norm_raw(m, hi),
        row0_norm_raw(m, hi) <= hi * (2 * (CX_MAX as int) * (CX_MAX as int)),
    decreases hi,
{
    if hi > 0 {
        lemma_row0_norm_bound(m, (hi - 1) as nat);
        let d = m.at(0, hi - 1);
        m.lemma_at_bounded(0, hi - 1);
        assert(0 <= crate::scalar::c_abs_sq_raw(d) <= 2 * (CX_MAX as int) * (CX_MAX as int))
            by (nonlinear_arith)
            requires
                -(CX_MAX as int) <= d.re <= CX_MAX as int,
                -(CX_MAX as int) <= d.im <= CX_MAX as int,
                crate::scalar::c_abs_sq_raw(d) == d.re * d.re + d.im * d.im,
        ;
        assert((hi - 1) * (2 * (CX_MAX as int) * (CX_MAX as int)) + 2 * (CX_MAX as int) * (
        CX_MAX as int) == hi * (2 * (CX_MAX as int) * (CX_MAX as int))) by (nonlinear_arith);
    }
}

impl SquareMatrix {
    /// Rescale a matrix so a unitary-up-to-scaling input becomes unitary,
    /// then check that it is: every entry is multiplied by SCALE over the
    /// first row's norm, and the result must satisfy R times its
    /// conjugate transpose close to the identity, entry by entry.
    /// Fails with NotUnitary exactly when the side is zero, the first row
    /// vanishes, or the rescaled matrix misses the Gram check; and with
    /// Overflow when the rescaling factor or an intermediate product
    /// leaves the stored bound.
    pub fn new_unitary(matrix: SparseMatrix) -> (r: Result<SquareMatrix, QError>)
        requires
            matrix.wf(),
        ensures
            match r {
                Ok(u) => {
                    &&& u.wf()
                    &&& u.spec_size() == matrix.spec_size()
                    &&& forall|i: int, j: int|
                        0 <= i < u.spec_size() && 0 <= j < u.spec_size() ==> u.at(i, j) == c_mul(
                            matrix.at(i, j),
                            Cv { re: row_normalizer(matrix), im: 0 },
                        )
                    &&& forall|i: int, j: int|
                        0 <= i < u.spec_size() && 0 <= j < u.spec_size()
                            ==> crate::matrix::close(
                            #[trigger] gram_sum(u.matrix, i, j, u.spec_size() as nat),
                            if i == j {
                                c_one()
                            } else {
                                c_zero()
                            },
                        )
                },
                Err(e) => {
                    &&& (e == QError::NotUnitary || e == QError::Overflow)
                    &&& (e == QError::NotUnitary ==> matrix.spec_size() == 0
                        || crate::phase::sqrt_v(
                        row0_norm_raw(matrix, matrix.spec_size() as nat),
                    ) == 0 || exists|i: int, j: int|
                        0 <= i < matrix.spec_size() && 0 <= j < matrix.spec_size()
                            && !crate::matrix::close(
                            #[trigger] scaled_gram_sum(
                                matrix,
                                row_normalizer(matrix),
                                i,
                                j,
                                matrix.spec_size() as nat,
                            ),
                            if i == j {
                                c_one()
                            } else {
                                c_zero()
                            },
                        ))
                    &&& (e == QError::Overflow ==> row_normalizer(matrix) > CX_MAX as int
                        || exists|i: int, j: int|
                        0 <= i < matrix.spec_size() && 0 <= j < matrix.spec_size() && !c_bounded(
                            #[trigger] c_mul(
                                matrix.at(i, j),
                                Cv { re: row_normalizer(matrix), im: 0 },
                            ),
                            CX_MAX as int,
                        ) || exists|i: int, j: int|
                        0 <= i < matrix.spec_size() && 0 <= j < matrix.spec_size() && !c_bounded(
                            #[trigger] scaled_gram_sum(
                                matrix,
                                row_normalizer(matrix),
                                i,
                                j,
                                matrix.spec_size() as nat,
                            ),
                            CX_MAX as int,
                        ))
                },
            },
    {
        let n: usize = matrix.size();
        if n == 0 {
            return Err(QError::NotUnitary);
        }
        let mut raw: i128 = 0;
        let mut j: usize = 0;
        while j < n
            invariant
                j <= n,
                n == matrix.spec_size(),
                n <= crate::matrix::SIZE_MAX,
                matrix.wf(),
                raw == row0_norm_raw(matrix, j as nat),
                0 <= raw,
            decreases n - j,
        {
            proof {
                lemma_row0_norm_bound(matrix, j as nat);
                assert((j as int) * (2 * (CX_MAX as int) * (CX_MAX as int)) <= 1048576 * (2 * (
                CX_MAX as int) * (CX_MAX as int))) by (nonlinear_arith)
                    requires
                        0 <= j <= 1048576,
                        CX_MAX > 0,
                ;
            }
            let v: Cx = matrix.get(0, j);
            proof {
                let m = CX_MAX as int;
                crate::scalar::lemma_mul_bound(v.re as int, v.re as int, m, m);
                crate::scalar::lemma_mul_bound(v.im as int, v.im as int, m, m);
                crate::scalar::lemma_square_nonneg_pub2(v.re as int);
                crate::scalar::lemma_square_nonneg_pub2(v.im as int);
            }
            raw = raw + ((v.re as i128) * (v.re as i128) + (v.im as i128) * (v.im as i128));
            j = j + 1;
        }
        proof {
            lemma_row0_norm_bound(matrix, n as nat);
            assert((n as int) * (2 * (CX_MAX as int) * (CX_MAX as int)) <= 1048576 * (2 * (
            CX_MAX as int) * (CX_MAX as int))) by (nonlinear_arith)
                requires
                    0 <= n <= 1048576,
                    CX_MAX > 0,
            ;
        }
        let d: u64 = crate::phase::isqrt128(raw as u128);
        if d == 0 {
            return Err(QError::NotUnitary);
        }
        let scale_sq: u128 = (SCALE as u128) * (SCALE as u128);
        let nu128: u128 = scale_sq / (d as u64 as u128);
        proof {
            crate::scalar::lemma_divt_nonneg((SCALE as int) * (SCALE as int), d as int);
        }
        if nu128 > CX_MAX as u128 {
            return Err(QError::Overflow);
        }
        let nu: Cx = Cx::new(nu128 as i64, 0);
        proof {
            assert(nu@ == (Cv { re: row_normalizer(matrix), im: 0 }));
        }
        let scaled: SparseMatrix = match matrix.scalar_multiply(nu) {
            Ok(m) => m,
            Err(e) => {
                return Err(QError::Overflow);
            },
        };
        let ct: SparseMatrix = scaled.conjugate_transpose();
        let prod: SparseMatrix = match scaled.multiply(&ct) {
            Ok(m) => m,
            Err(e) => {
                proof {
                    let (i, k) = choose|i: int, k: int|
                        0 <= i < scaled.spec_size() && 0 <= k < scaled.spec_size() && !c_bounded(
                            #[trigger] mm_at(scaled, ct, i, k),
                            CX_MAX as int,
                        );
                    lemma_gram_congruence(
                        scaled,
                        ct,
                        matrix,
                        row_normalizer(matrix),
                        i,
                        k,
                        matrix.spec_size() as nat,
                    );
                    assert(!c_bounded(
                        scaled_gram_sum(
                            matrix,
                            row_normalizer(matrix),
                            i,
                            k,
                            matrix.spec_size() as nat,
                        ),
                        CX_MAX as int,
                    ));
                }
                return Err(QError::Overflow);
            },
        };
        let idm: SparseMatrix = SparseMatrix::identity(n);
        if !prod.almost_equals(&idm) {
            proof {
                assert(!prod.approx_eq(idm));
                let (i, j) = choose|i: int, j: int|
                    0 <= i < prod.spec_size() && 0 <= j < prod.spec_size()
                        && !crate::matrix::close(prod.at(i, j), idm.at(i, j));
                lemma_gram_congruence(
                    scaled,
                    ct,
                    matrix,
                    row_normalizer(matrix),
                    i,
                    j,
                    matrix.spec_size() as nat,
                );
                assert(prod.at(i, j) == mm_at(scaled, ct, i, j));
                assert(!crate::matrix::close(
                    scaled_gram_sum(matrix, row_normalizer(matrix), i, j, matrix.spec_size() as nat),
                    if i == j {
                        c_one()
                    } else {
                        c_zero()
                    },
                ));
            }
            return Err(QError::NotUnitary);
        }
        proof {
            assert forall|i: int, j: int|
                0 <= i < scaled.spec_size() && 0 <= j < scaled.spec_size()
                    implies crate::matrix::close(
                #[trigger] gram_sum(scaled, i, j, scaled.spec_size() as nat),
                if i == j {
                    c_one()
                } else {
                    c_zero()
                },
            ) by {
                lemma_gram_eq_mm(scaled, ct, i, j, matrix.spec_size() as nat);
                assert(crate::matrix::close(prod.at(i, j), idm.at(i, j)));
            }
        }
        Ok(SquareMatrix { matrix: scaled })
    }

    /// Build a dense row-major matrix from a vector, wrap it sparsely and
    /// normalize it to a checked unitary.
    pub fn from_vec_normalize(size: usize, vec: Vec<Cx>) -> (r: Result<SquareMatrix, QError>)
        requires
            1 <= size,
            size * size <= crate::matrix::SIZE_MAX,
            vec@.len() == size * size,
        ensures
            match r {
                Ok(u) => {
                    &&& u.wf()
                    &&& u.spec_size() == size
                    &&& exists|m: SparseMatrix|
                        {
                            &&& #[trigger] m.wf()
                            &&& m.spec_size() == size
                            &&& forall|i: int, j: int|
                                0 <= i < size && 0 <= j < size ==> m.at(i, j) == (
                                #[trigger] vec@[i * (size as int) + j])@
                            &&& forall|i: int, j: int|
                                0 <= i < size && 0 <= j < size ==> u.at(i, j) == c_mul(
                                    m.at(i, j),
                                    Cv { re: row_normalizer(m), im: 0 },
                                )
                            &&& forall|i: int, j: int|
                                0 <= i < size && 0 <= j < size ==> crate::matrix::close(
                                    #[trigger] gram_sum(u.matrix, i, j, size as int as nat),
                                    if i == j {
                                        c_one()
                                    } else {
                                        c_zero()
                                    },
                                )
                        }
                },
                Err(e) => {
                    &&& (e == QError::NotUnitary || e == QError::Overflow)
                    &&& (e == QError::NotUnitary ==> exists|m: SparseMatrix|
                        {
                            &&& #[trigger] m.wf()
                            &&& m.spec_size() == size
                            &&& forall|i: int, j: int|
                                0 <= i < size && 0 <= j < size ==> m.at(i, j) == (
                                #[trigger] vec@[i * (size as int) + j])@
                            &&& (crate::phase::sqrt_v(row0_norm_raw(m, m.spec_size() as nat)) == 0
                                || exists|i: int, j: int|
                                0 <= i < size && 0 <= j < size && !crate::matrix::close(
                                    #[trigger] scaled_gram_sum(
                                        m,
                                        row_normalizer(m),
                                        i,
                                        j,
                                        m.spec_size() as nat,
                                    ),
                                    if i == j {
                                        c_one()
                                    } else {
                                        c_zero()
                                    },
                                ))
                        })
                    &&& (e == QError::Overflow ==> (exists|t: int|
                        0 <= t < vec@.len() && !c_bounded((#[trigger] vec@[t])@, CX_MAX as int))
                        || exists|m: SparseMatrix|
                        {
                            &&& #[trigger] m.wf()
                            &&& m.spec_size() == size
                            &&& forall|i: int, j: int|
                                0 <= i < size && 0 <= j < size ==> m.at(i, j) == (
                                #[trigger] vec@[i * (size as int) + j])@
                            &&& (row_normalizer(m) > CX_MAX as int || exists|i: int, j: int|
                                0 <= i < size && 0 <= j < size && !c_bounded(
                                    #[trigger] c_mul(
                                        m.at(i, j),
                                        Cv { re: row_normalizer(m), im: 0 },
                                    ),
                                    CX_MAX as int,
                                ) || exists|i: int, j: int|
                                0 <= i < size && 0 <= j < size && !c_bounded(
                                    #[trigger] scaled_gram_sum(
                                        m,
                                        row_normalizer(m),
                                        i,
                                        j,
                                        m.spec_size() as nat,
                                    ),
                                    CX_MAX as int,
                                ))
                        })
                },
            },
    {
        let m: SparseMatrix = match SparseMatrix::from_dense(size, &vec) {
            Ok(m) => m,
            Err(e) => {
                return Err(QError::Overflow);
            },
        };
        match SquareMatrix::new_unitary(m) {
            Ok(u) => Ok(u),
            Err(e) => {
                if e == QError::Overflow {
                    Err(QError::Overflow)
                } else {
                    proof {
                        assert(m.spec_size() != 0);
                    }
                    Err(QError::NotUnitary)
                }
            },
        }
    }

    /// Multiply every coefficient by a scalar and re-normalize to a
    /// checked unitary.
    pub fn scale(&self, scalar: Cx) -> (r: Result<SquareMatrix, QError>)
        requires
            self.wf(),
            scalar.wf(),
        ensures
            match r {
                Ok(u) => {
                    &&& u.wf()
                    &&& u.spec_size() == self.spec_size()
                    &&& exists|m: SparseMatrix|
                        {
                            &&& #[trigger] m.wf()
                            &&& m.spec_size() == self.spec_size()
                            &&& forall|i: int, j: int|
                                0 <= i < m.spec_size() && 0 <= j < m.spec_size() ==> m.at(i, j)
                                    == c_mul(self.at(i, j), scalar@)
                            &&& forall|i: int, j: int|
                                0 <= i < m.spec_size() && 0 <= j < m.spec_size() ==> u.at(i, j)
                                    == c_mul(m.at(i, j), Cv { re: row_normalizer(m), im: 0 })
                        }
                },
                Err(e) => {
                    &&& (e == QError::NotUnitary || e == QError::Overflow)
                    &&& (e == QError::NotUnitary ==> exists|m: SparseMatrix|
                        {
                            &&& #[trigger] m.wf()
                            &&& m.spec_size() == self.spec_size()
                            &&& forall|i: int, j: int|
                                0 <= i < m.spec_size() && 0 <= j < m.spec_size() ==> m.at(i, j)
                                    == c_mul(self.at(i, j), scalar@)
                            &&& (crate::phase::sqrt_v(row0_norm_raw(m, m.spec_size() as nat)) == 0
                                || exists|i: int, j: int|
                                0 <= i < m.spec_size() && 0 <= j < m.spec_size()
                                    && !crate::matrix::close(
                                    #[trigger] scaled_gram_sum(
                                        m,
                                        row_normalizer(m),
                                        i,
                                        j,
                                        m.spec_size() as nat,
                                    ),
                                    if i == j {
                                        c_one()
                                    } else {
                                        c_zero()
                                    },
                                ))
                        })
                    &&& (e == QError::Overflow ==> (exists|i: int, j: int|
                        0 <= i < self.spec_size() && 0 <= j < self.spec_size() && !c_bounded(
                            #[trigger] c_mul(self.at(i, j), scalar@),
                            CX_MAX as int,
                        )) || exists|m: SparseMatrix|
                        {
                            &&& #[trigger] m.wf()
                            &&& m.spec_size() == self.spec_size()
                            &&& forall|i: int, j: int|
                                0 <= i < m.spec_size() && 0 <= j < m.spec_size() ==> m.at(i, j)
                                    == c_mul(self.at(i, j), scalar@)
                            &&& (row_normalizer(m) > CX_MAX as int || exists|i: int, j: int|
                                0 <= i < m.spec_size() && 0 <= j < m.spec_size() && !c_bounded(
                                    #[trigger] c_mul(
                                        m.at(i, j),
                                        Cv { re: row_normalizer(m), im: 0 },
                                    ),
                                    CX_MAX as int,
                                ) || exists|i: int, j: int|
                                0 <= i < m.spec_size() && 0 <= j < m.spec_size() && !c_bounded(
                                    #[trigger] scaled_gram_sum(
                                        m,
                                        row_normalizer(m),
                                        i,
                                        j,
                                        m.spec_size() as nat,
                                    ),
                                    CX_MAX as int,
                                ))
                        })
                },
            },
    {
        let scaled: SparseMatrix = match self.matrix.scalar_multiply(scalar) {
            Ok(m) => m,
            Err(e) => {
                proof {
                    let (i, j) = choose|i: int, j: int|
                        0 <= i < self.matrix.spec_size() && 0 <= j < self.matrix.spec_size()
                            && !c_bounded(
                            #[trigger] c_mul(self.matrix.at(i, j), scalar@),
                            CX_MAX as int,
                        );
                    assert(0 <= i < self.spec_size() && 0 <= j < self.spec_size() && !c_bounded(
                        c_mul(self.at(i, j), scalar@),
                        CX_MAX as int,
                    ));
                }
                return Err(QError::Overflow);
            },
        };
        match SquareMatrix::new_unitary(scaled) {
            Ok(u) => Ok(u),
            Err(e) => {
                if e == QError::Overflow {
                    Err(QError::Overflow)
                } else {
                    proof {
                        assert(scaled.spec_size() != 0);
                    }
                    Err(QError::NotUnitary)
                }
            },
        }
    }
}

/// The Gram entries of a matrix agree with its product against its own
/// conjugate transpose.
proof fn lemma_gram_eq_mm(scaled: SparseMatrix, ct: SparseMatrix, i: int, j: int, hi: nat)
    requires
        ct.spec_size() == scaled.spec_size(),
        hi <= scaled.spec_size(),
        forall|a: int, b: int|
            0 <= a < scaled.spec_size() && 0 <= b < scaled.spec_size() ==> ct.at(a, b) == c_conj(
                scaled.at(b, a),
            ),
        0 <= i < scaled.spec_size(),
        0 <= j < scaled.spec_size(),
    ensures
        mm_sum(scaled, ct, i, j, hi) == gram_sum(scaled, i, j, hi),
    decreases hi,
{
    if hi > 0 {
        lemma_gram_eq_mm(scaled, ct, i, j, (hi - 1) as nat);
    }
}

} // verus!
