//! Sparse complex matrices.
//!
//! A square matrix of side `size` is stored as one vector of rows; each row
//! lists its nonzero entries as `(column, coefficient)` pairs in strictly
//! increasing column order. Absent entries denote zero, and no stored
//! coefficient is zero. The specification views a matrix as the total
//! function `at(i, j)` from index pairs to amplitude values.

use vstd::prelude::*;

use crate::scalar::c_abs_sq_raw;
use crate::scalar::c_add;
use crate::scalar::c_bounded;
use crate::scalar::c_is_zero;
use crate::scalar::c_mul;
use crate::scalar::c_one;
use crate::scalar::c_sub;
use crate::scalar::c_zero;
use crate::scalar::lemma_c_mul_zero;
use crate::scalar::SCALE;
use crate::scalar::Cv;
use crate::scalar::Cx;
use crate::scalar::CX_MAX;
use crate::scalar::TOL;
use crate::QError;

verus! {

/// Largest side a matrix may have.
pub const SIZE_MAX: usize = 1048576;

/// One stored row: nonzero entries in strictly increasing column order.
pub type Row = Vec<(usize, Cx)>;

/// The value a row holds at a column, zero when the column is absent.
pub open spec fn row_find(r: Seq<(usize, Cx)>, j: int) -> Cv
    decreases r.len(),
{
    if r.len() == 0 {
        c_zero()
    } else if r.last().0 == j {
        r.last().1@
    } else {
        row_find(r.drop_last(), j)
    }
}

/// Whether a row stores the given column.
pub open spec fn row_has(r: Seq<(usize, Cx)>, j: int) -> bool {
    exists|k: int| 0 <= k < r.len() && r[k].0 == j
}

/// Entries lie in [0, size), are nonzero, bounded, and strictly sorted.
pub open spec fn row_wf(r: Seq<(usize, Cx)>, size: int) -> bool {
    &&& forall|k: int|
        0 <= k < r.len() ==> (#[trigger] r[k]).0 < size && r[k].1.wf() && !c_is_zero(r[k].1@)
    &&& forall|k1: int, k2: int| 0 <= k1 < k2 < r.len() ==> r[k1].0 < r[k2].0
}

/// A column absent from a row reads as zero.
pub proof fn lemma_row_find_absent(r: Seq<(usize, Cx)>, j: int)
    requires
        !row_has(r, j),
    ensures
        row_find(r, j) == c_zero(),
    decreases r.len(),
{
    if r.len() > 0 {
        assert(!row_has(r.drop_last(), j)) by {
            if exists|k: int| 0 <= k < r.drop_last().len() && r.drop_last()[k].0 == j {
                let k = choose|k: int| 0 <= k < r.drop_last().len() && r.drop_last()[k].0 == j;
                assert(r[k].0 == j);
            }
        }
        lemma_row_find_absent(r.drop_last(), j);
    }
}

/// A stored column reads as its stored coefficient.
pub proof fn lemma_row_find_present(r: Seq<(usize, Cx)>, size: int, k: int)
    requires
        row_wf(r, size),
        0 <= k < r.len(),
    ensures
        row_find(r, r[k].0 as int) == r[k].1@,
    decreases r.len(),
{
    if k == r.len() - 1 {
    } else {
        assert(r[k].0 < r.last().0);
        assert(r.drop_last()[k] == r[k]);
        lemma_row_find_present(r.drop_last(), size, k);
    }
}

/// A stored column reads as a nonzero value.
pub proof fn lemma_row_has_nonzero(r: Seq<(usize, Cx)>, size: int, j: int)
    requires
        row_wf(r, size),
        row_has(r, j),
    ensures
        !c_is_zero(row_find(r, j)),
        row_find(r, j) == r[choose|k: int| 0 <= k < r.len() && r[k].0 == j].1@,
{
    let k = choose|k: int| 0 <= k < r.len() && r[k].0 == j;
    lemma_row_find_present(r, size, k);
}

/// Appending a fresh column leaves every other column's value unchanged.
pub proof fn lemma_row_find_push(r: Seq<(usize, Cx)>, e: (usize, Cx), j: int)
    ensures
        row_find(r.push(e), j) == (if e.0 == j {
            e.1@
        } else {
            row_find(r, j)
        }),
        row_has(r.push(e), j) == (row_has(r, j) || e.0 == j),
{
    assert(r.push(e).drop_last() =~= r);
    assert(r.push(e).last() == e);
    if e.0 == j {
        assert(row_has(r.push(e), j)) by {
            assert(r.push(e)[r.len() as int].0 == j);
        }
    } else {
        if row_has(r, j) {
            let k = choose|k: int| 0 <= k < r.len() && r[k].0 == j;
            assert(r.push(e)[k].0 == j);
        } else if row_has(r.push(e), j) {
            let k = choose|k: int| 0 <= k < r.push(e).len() && r.push(e)[k].0 == j;
            assert(0 <= k < r.len() && r[k].0 == j);
        }
    }
}

/// A sparse square matrix of complex amplitudes.
#[derive(Clone, Debug)]
pub struct SparseMatrix {
    pub size: usize,
    pub rows: Vec<Row>,
}

impl SparseMatrix {
    /// Structural validity: one stored row per index, each well formed.
    pub open spec fn wf(self) -> bool {
        &&& self.rows.len() == self.size
        &&& self.size <= SIZE_MAX
        &&& forall|i: int|
            0 <= i < self.rows.len() ==> row_wf((#[trigger] self.rows[i])@, self.size as int)
    }

    /// The matrix as a total function: the coefficient at (i, j), zero when
    /// the entry is absent or the indices are out of range.
    pub open spec fn at(self, i: int, j: int) -> Cv {
        if 0 <= i < self.rows.len() {
            row_find(self.rows[i]@, j)
        } else {
            c_zero()
        }
    }

    pub open spec fn spec_size(self) -> int {
        self.size as int
    }

    /// Every entry of every row of a well-formed matrix is bounded.
    pub proof fn lemma_at_bounded(self, i: int, j: int)
        requires
            self.wf(),
        ensures
            c_bounded(self.at(i, j), CX_MAX as int),
    {
        if 0 <= i < self.rows.len() {
            let r = self.rows[i]@;
            if row_has(r, j) {
                lemma_row_has_nonzero(r, self.size as int, j);
            } else {
                lemma_row_find_absent(r, j);
            }
        }
    }

    pub fn size(&self) -> (s: usize)
        ensures
            s == self.spec_size(),
    {
        self.size
    }

    /// The raw row data forms a well-formed matrix of the given side.
    pub open spec fn rows_wf(size: int, rows: Seq<Row>) -> bool {
        &&& size <= SIZE_MAX
        &&& rows.len() == size
        &&& forall|i: int| 0 <= i < rows.len() ==> row_wf((#[trigger] rows[i])@, size)
    }

    /// Wrap raw row data as a matrix, checking that it is well formed:
    /// one row per index, entries sorted, in range, nonzero and bounded.
    /// Fails exactly when the data is not.
    pub fn new(size: usize, rows: Vec<Row>) -> (r: Result<SparseMatrix, QError>)
        ensures
            match r {
                Ok(m) => {
                    &&& m.wf()
                    &&& m.spec_size() == size
                    &&& m.rows == rows
                    &&& SparseMatrix::rows_wf(size as int, rows@)
                },
                Err(e) => {
                    &&& e == QError::Malformed
                    &&& !SparseMatrix::rows_wf(size as int, rows@)
                },
            },
    {
        if size > SIZE_MAX || rows.len() != size {
            return Err(QError::Malformed);
        }
        let mut i: usize = 0;
        while i < size
            invariant
                i <= size,
                size <= SIZE_MAX,
                rows@.len() == size,
                forall|t: int| 0 <= t < i ==> row_wf((#[trigger] rows@[t])@, size as int),
            decreases size - i,
        {
            let row: &Row = &rows[i];
            let mut k: usize = 0;
            while k < row.len()
                invariant
                    k <= row@.len(),
                    i < size,
                    size <= SIZE_MAX,
                    rows@.len() == size,
                    row == rows@[i as int],
                    forall|t: int|
                        0 <= t < k ==> (#[trigger] row@[t]).0 < size && row@[t].1.wf()
                            && !c_is_zero(row@[t].1@),
                    forall|t1: int, t2: int| 0 <= t1 < t2 < k ==> row@[t1].0 < row@[t2].0,
                decreases row@.len() - k,
            {
                let (col, v): (usize, Cx) = row[k];
                if col >= size || (v.re == 0 && v.im == 0) || v.re > CX_MAX || v.re < -CX_MAX
                    || v.im > CX_MAX || v.im < -CX_MAX {
                    proof {
                        assert(!row_wf(rows@[i as int]@, size as int));
                    }
                    return Err(QError::Malformed);
                }
                if k > 0 {
                    let (prev, _pv): (usize, Cx) = row[k - 1];
                    if prev >= col {
                        proof {
                            assert(!row_wf(rows@[i as int]@, size as int)) by {
                                if row_wf(rows@[i as int]@, size as int) {
                                    assert(rows@[i as int]@[k - 1].0 < rows@[i as int]@[
                                    k as int].0);
                                }
                            }
                        }
                        return Err(QError::Malformed);
                    }
                    proof {
                        assert forall|t1: int, t2: int| 0 <= t1 < t2 < k + 1 implies row@[t1].0
                            < row@[t2].0 by {
                            if t2 == k {
                                if t1 < k - 1 {
                                    assert(row@[t1].0 < row@[k - 1].0);
                                }
                            }
                        }
                    }
                }
                k = k + 1;
            }
            i = i + 1;
        }
        Ok(SparseMatrix { size, rows })
    }

    /// The coefficient at (i, j), or zero where none is stored.
    pub fn get(&self, i: usize, j: usize) -> (r: Cx)
        requires
            self.wf(),
            i < self.spec_size(),
            j < self.spec_size(),
        ensures
            r@ == self.at(i as int, j as int),
            r.wf(),
    {
        let row: &Row = &self.rows[i];
        let ghost rs = row@;
        let mut k: usize = 0;
        while k < row.len()
            invariant
                k <= rs.len(),
                rs == row@,
                row_wf(rs, self.size as int),
                self.wf(),
                0 <= i < self.rows.len(),
                rs == self.rows[i as int]@,
                forall|t: int| 0 <= t < k ==> rs[t].0 != j,
            decreases rs.len() - k,
        {
            let (col, v): (usize, Cx) = row[k];
            if col == j {
                proof {
                    lemma_row_find_present(rs, self.size as int, k as int);
                }
                return v;
            }
            k = k + 1;
        }
        proof {
            assert(!row_has(rs, j as int));
            lemma_row_find_absent(rs, j as int);
        }
        Cx::zero()
    }

    /// The identity matrix: ones on the diagonal.
    pub fn identity(size: usize) -> (r: SparseMatrix)
        requires
            size <= SIZE_MAX,
        ensures
            r.wf(),
            r.spec_size() == size,
            forall|i: int, j: int|
                0 <= i < size && 0 <= j < size ==> r.at(i, j) == (if i == j {
                    c_one()
                } else {
                    c_zero()
                }),
    {
        let mut rows: Vec<Row> = Vec::new();
        let mut i: usize = 0;
        while i < size
            invariant
                i <= size,
                size <= SIZE_MAX,
                rows.len() == i,
                forall|t: int| 0 <= t < i ==> row_wf((#[trigger] rows[t])@, size as int),
                forall|t: int, j: int|
                    0 <= t < i && 0 <= j < size ==> #[trigger] row_find(rows[t]@, j) == (if t
                        == j {
                        c_one()
                    } else {
                        c_zero()
                    }),
            decreases size - i,
        {
            let one: Cx = Cx::one();
            let mut row: Row = Vec::new();
            let ghost empty_row = row@;
            row.push((i, one));
            proof {
                assert(row@ =~= empty_row.push((i, one)));
                assert forall|j: int| true implies row_find(row@, j) == (if i == j {
                    c_one()
                } else {
                    c_zero()
                }) by {
                    lemma_row_find_push(empty_row, (i, one), j);
                }
            }
            rows.push(row);
            i = i + 1;
        }
        SparseMatrix { size, rows }
    }

    /// Entrywise closeness: every difference has squared modulus below the
    /// tolerance, in both directions at once.
    pub open spec fn approx_eq(self, other: SparseMatrix) -> bool {
        &&& self.spec_size() == other.spec_size()
        &&& forall|i: int, j: int|
            0 <= i < self.spec_size() && 0 <= j < self.spec_size() ==> close(
                self.at(i, j),
                other.at(i, j),
            )
    }

    /// Whether every entry of the two matrices agrees within the tolerance.
    /// The comparison is symmetric: it ranges over all index pairs, so
    /// entries stored on either side only are still compared.
    pub fn almost_equals(&self, other: &SparseMatrix) -> (r: bool)
        requires
            self.wf(),
            other.wf(),
        ensures
            r == self.approx_eq(*other),
    {
        if self.size != other.size {
            return false;
        }
        let n: usize = self.size;
        let mut i: usize = 0;
        while i < n
            invariant
                i <= n,
                n == self.spec_size(),
                n == other.spec_size(),
                self.wf(),
                other.wf(),
                forall|a: int, b: int|
                    0 <= a < i && 0 <= b < n ==> close(self.at(a, b), other.at(a, b)),
            decreases n - i,
        {
            let mut j: usize = 0;
            while j < n
                invariant
                    i < n,
                    j <= n,
                    n == self.spec_size(),
                    n == other.spec_size(),
                    self.wf(),
                    other.wf(),
                    forall|b: int| 0 <= b < j ==> close(self.at(i as int, b), other.at(i as int, b)),
                decreases n - j,
            {
                let x = self.get(i, j);
                let y = other.get(i, j);
                if !close_exec(x, y) {
                    return false;
                }
                j = j + 1;
            }
            i = i + 1;
        }
        true
    }

    /// Coefficient-wise product with a scalar; zero results are elided.
    /// Fails exactly when some product leaves the stored-component bound.
    pub fn scalar_multiply(&self, c: Cx) -> (r: Result<SparseMatrix, QError>)
        requires
            self.wf(),
            c.wf(),
        ensures
            match r {
                Ok(m) => {
                    &&& m.wf()
                    &&& m.spec_size() == self.spec_size()
                    &&& forall|i: int, j: int|
                        0 <= i < self.spec_size() && 0 <= j < self.spec_size() ==> m.at(i, j)
                            == c_mul(self.at(i, j), c@)
                },
                Err(e) => {
                    &&& e == QError::Overflow
                    &&& exists|i: int, j: int|
                        0 <= i < self.spec_size() && 0 <= j < self.spec_size() && !c_bounded(
                            c_mul(self.at(i, j), c@),
                            CX_MAX as int,
                        )
                },
            },
    {
        let n: usize = self.size;
        let mut rows: Vec<Row> = Vec::new();
        let mut i: usize = 0;
        while i < n
            invariant
                i <= n,
                n == self.spec_size(),
                self.wf(),
                c.wf(),
                rows.len() == i,
                forall|t: int| 0 <= t < i ==> row_wf((#[trigger] rows[t])@, n as int),
                forall|t: int, j: int|
                    0 <= t < i && 0 <= j < n ==> #[trigger] row_find(rows[t]@, j) == c_mul(
                        self.at(t, j),
                        c@,
                    ),
            decreases n - i,
        {
            let src: &Row = &self.rows[i];
            let ghost ss = src@;
            let mut out: Row = Vec::new();
            let mut k: usize = 0;
            while k < src.len()
                invariant
                    k <= ss.len(),
                    ss == src@,
                    self.wf(),
                    c.wf(),
                    0 <= i < n,
                    n == self.spec_size(),
                    ss == self.rows[i as int]@,
                    row_wf(ss, n as int),
                    row_wf(out@, n as int),
                    forall|t: int|
                        0 <= t < out@.len() ==> k > 0 && (#[trigger] out@[t]).0 <= ss[k - 1].0,
                    forall|j: int|
                        0 <= j < n ==> row_find(out@, j) == (if row_has(ss.take(k as int), j) {
                            c_mul(row_find(ss, j), c@)
                        } else {
                            c_zero()
                        }),
                decreases ss.len() - k,
            {
                let (col, v): (usize, Cx) = src[k];
                let w = v.mul(c);
                proof {
                    lemma_row_find_present(ss, n as int, k as int);
                    assert(ss.take(k + 1).drop_last() =~= ss.take(k as int));
                    assert(ss.take(k + 1).last() == ss[k as int]);
                }
                if w.re > CX_MAX || w.re < -CX_MAX || w.im > CX_MAX || w.im < -CX_MAX {
                    proof {
                        assert(self.at(i as int, col as int) == v@);
                        assert(exists|a: int, b: int|
                            0 <= a < n && 0 <= b < n && !c_bounded(
                                c_mul(self.at(a, b), c@),
                                CX_MAX as int,
                            )) by {
                            assert(0 <= i < n && 0 <= col < n && !c_bounded(
                                c_mul(self.at(i as int, col as int), c@),
                                CX_MAX as int,
                            ));
                        }
                    }
                    return Err(QError::Overflow);
                }
                if !(w.re == 0 && w.im == 0) {
                    proof {
                        assert forall|j: int| 0 <= j < n implies row_find(
                            out@.push((col, w)),
                            j,
                        ) == (if row_has(ss.take(k + 1), j) {
                            c_mul(row_find(ss, j), c@)
                        } else {
                            c_zero()
                        }) by {
                            lemma_row_find_push(out@, (col, w), j);
                            if row_has(ss.take(k + 1), j) && j != col {
                                let t = choose|t: int|
                                    0 <= t < ss.take(k + 1).len() && #[trigger] ss.take(k + 1)[t].0 == j;
                                assert(ss.take(k as int)[t] == ss[t]);
                            }
                            if row_has(ss.take(k as int), j) {
                                let t = choose|t: int|
                                    0 <= t < ss.take(k as int).len() && #[trigger] ss.take(k as int)[t].0 == j;
                                assert(ss.take(k + 1)[t].0 == j);
                            }
                        }
                    }
                    out.push((col, w));
                } else {
                    proof {
                        assert forall|j: int| 0 <= j < n implies row_find(out@, j) == (if row_has(
                            ss.take(k + 1),
                            j,
                        ) {
                            c_mul(row_find(ss, j), c@)
                        } else {
                            c_zero()
                        }) by {
                            if row_has(ss.take(k + 1), j) {
                                let t = choose|t: int|
                                    0 <= t < ss.take(k + 1).len() && #[trigger] ss.take(k + 1)[t].0 == j;
                                if t < k {
                                    assert(ss.take(k as int)[t] == ss[t]);
                                } else {
                                    assert(j == col);
                                    assert(!row_has(ss.take(k as int), j)) by {
                                        if exists|u: int|
                                            0 <= u < k && #[trigger] ss.take(k as int)[u].0 == j {
                                            let u = choose|u: int|
                                                0 <= u < k && #[trigger] ss.take(k as int)[u].0
                                                    == j;
                                            assert(ss[u].0 < ss[k as int].0);
                                        }
                                    }
                                }
                            } else if row_has(ss.take(k as int), j) {
                                let t = choose|t: int|
                                    0 <= t < ss.take(k as int).len() && #[trigger] ss.take(k as int)[t].0 == j;
                                assert(ss.take(k + 1)[t].0 == j);
                            }
                        }
                    }
                }
                k = k + 1;
            }
            proof {
                assert(ss.take(ss.len() as int) =~= ss);
                assert forall|j: int| 0 <= j < n implies row_find(out@, j) == c_mul(
                    self.at(i as int, j),
                    c@,
                ) by {
                    if row_has(ss, j) {
                    } else {
                        lemma_row_find_absent(ss, j);
                        lemma_c_mul_zero(c@);
                    }
                }
            }
            rows.push(out);
            i = i + 1;
        }
        Ok(SparseMatrix { size: n, rows })
    }

    /// The diagonal matrix with the given values; zero values are elided.
    pub fn diagonal(values: &Vec<Cx>) -> (r: SparseMatrix)
        requires
            1 <= values@.len() <= SIZE_MAX,
            forall|i: int| 0 <= i < values@.len() ==> (#[trigger] values@[i]).wf(),
        ensures
            r.wf(),
            r.spec_size() == values@.len(),
            forall|i: int, j: int|
                0 <= i < r.spec_size() && 0 <= j < r.spec_size() ==> r.at(i, j) == (if i == j {
                    values@[i]@
                } else {
                    c_zero()
                }),
    {
        let size: usize = values.len();
        let mut rows: Vec<Row> = Vec::new();
        let mut i: usize = 0;
        while i < size
            invariant
                i <= size,
                size == values@.len(),
                size <= SIZE_MAX,
                forall|t: int| 0 <= t < size ==> (#[trigger] values@[t]).wf(),
                rows.len() == i,
                forall|t: int| 0 <= t < i ==> row_wf((#[trigger] rows[t])@, size as int),
                forall|t: int, j: int|
                    0 <= t < i && 0 <= j < size ==> #[trigger] row_find(rows[t]@, j) == (if t == j {
                        values@[t]@
                    } else {
                        c_zero()
                    }),
            decreases size - i,
        {
            let v: Cx = values[i];
            let mut row: Row = Vec::new();
            let ghost empty_row = row@;
            if !(v.re == 0 && v.im == 0) {
                row.push((i, v));
                proof {
                    assert forall|j: int| true implies row_find(row@, j) == (if i == j {
                        values@[i as int]@
                    } else {
                        c_zero()
                    }) by {
                        lemma_row_find_push(empty_row, (i, v), j);
                    }
                }
            }
            rows.push(row);
            i = i + 1;
        }
        SparseMatrix { size, rows }
    }

    /// Kronecker product: entry (i, j) of the result is the product of
    /// entry (i / m, j / m) of `self` and entry (i % m, j % m) of `rhs`,
    /// where m is the side of `rhs`. Fails exactly when some product
    /// leaves the stored-component bound.
    pub fn tensor_product(&self, rhs: &SparseMatrix) -> (r: Result<SparseMatrix, QError>)
        requires
            self.wf(),
            rhs.wf(),
            1 <= self.spec_size(),
            1 <= rhs.spec_size(),
            self.spec_size() * rhs.spec_size() <= SIZE_MAX,
        ensures
            match r {
                Ok(p) => {
                    &&& p.wf()
                    &&& p.spec_size() == self.spec_size() * rhs.spec_size()
                    &&& forall|i: int, j: int|
                        0 <= i < p.spec_size() && 0 <= j < p.spec_size() ==> p.at(i, j) == c_mul(
                            self.at(i / rhs.spec_size(), j / rhs.spec_size()),
                            rhs.at(i % rhs.spec_size(), j % rhs.spec_size()),
                        )
                },
                Err(e) => {
                    &&& e == QError::Overflow
                    &&& exists|i: int, j: int|
                        0 <= i < self.spec_size() * rhs.spec_size() && 0 <= j < self.spec_size()
                            * rhs.spec_size() && !c_bounded(
                            #[trigger] c_mul(
                                self.at(i / rhs.spec_size(), j / rhs.spec_size()),
                                rhs.at(i % rhs.spec_size(), j % rhs.spec_size()),
                            ),
                            CX_MAX as int,
                        )
                },
            },
    {
        let n: usize = self.size;
        let m: usize = rhs.size;
        let nm: usize = n * m;
        let ghost mi = m as int;
        let mut rows: Vec<Row> = Vec::new();
        let mut i: usize = 0;
        while i < n
            invariant
                i <= n,
                n == self.spec_size(),
                m == rhs.spec_size(),
                nm == n * m,
                1 <= n,
                1 <= m,
                nm <= SIZE_MAX,
                mi == m as int,
                self.wf(),
                rhs.wf(),
                rows.len() == i * m,
                forall|t: int| 0 <= t < rows.len() ==> row_wf((#[trigger] rows[t])@, nm as int),
                forall|t: int, c: int|
                    0 <= t < rows.len() && 0 <= c < nm ==> #[trigger] row_find(rows[t]@, c)
                        == c_mul(self.at(t / mi, c / mi), rhs.at(t % mi, c % mi)),
            decreases n - i,
        {
            let mut k: usize = 0;
            proof {
                assert(i * mi + mi <= n * mi) by (nonlinear_arith)
                    requires
                        i < n,
                        mi >= 1,
                ;
            }
            while k < m
                invariant
                    k <= m,
                    i < n,
                    n == self.spec_size(),
                    m == rhs.spec_size(),
                    nm == n * m,
                    1 <= n,
                    1 <= m,
                    nm <= SIZE_MAX,
                    mi == m as int,
                    i * mi + mi <= nm,
                    self.wf(),
                    rhs.wf(),
                    rows.len() == i * m + k,
                    forall|t: int| 0 <= t < rows.len() ==> row_wf((#[trigger] rows[t])@, nm as int),
                    forall|t: int, c: int|
                        0 <= t < rows.len() && 0 <= c < nm ==> #[trigger] row_find(rows[t]@, c)
                            == c_mul(self.at(t / mi, c / mi), rhs.at(t % mi, c % mi)),
                decreases m - k,
            {
                let out = match tensor_row(&self.rows[i], &rhs.rows[k], n, m) {
                    Ok(out) => out,
                    Err(e) => {
                        proof {
                            let c = choose|c: int|
                                0 <= c < n * m && !c_bounded(
                                    #[trigger] c_mul(
                                        row_find(self.rows[i as int]@, c / (m as int)),
                                        row_find(rhs.rows[k as int]@, c % (m as int)),
                                    ),
                                    CX_MAX as int,
                                );
                            let gi = i * mi + k;
                            vstd::arithmetic::div_mod::lemma_fundamental_div_mod_converse(
                                gi,
                                mi,
                                i as int,
                                k as int,
                            );
                            assert(0 <= gi < n * m) by (nonlinear_arith)
                                requires
                                    0 <= i < n,
                                    0 <= k < m,
                                    gi == i * (m as int) + k,
                                    mi == m as int,
                            ;
                            assert(self.at(gi / mi, c / mi) == row_find(
                                self.rows[i as int]@,
                                c / mi,
                            ));
                            assert(rhs.at(gi % mi, c % mi) == row_find(rhs.rows[k as int]@, c % mi));
                            assert(0 <= gi < self.spec_size() * rhs.spec_size() && 0 <= c
                                < self.spec_size() * rhs.spec_size() && !c_bounded(
                                c_mul(
                                    self.at(gi / rhs.spec_size(), c / rhs.spec_size()),
                                    rhs.at(gi % rhs.spec_size(), c % rhs.spec_size()),
                                ),
                                CX_MAX as int,
                            ));
                        }
                        return Err(QError::Overflow);
                    },
                };
                proof {
                    vstd::arithmetic::div_mod::lemma_fundamental_div_mod_converse(
                        (i * m + k) as int,
                        mi,
                        i as int,
                        k as int,
                    );
                }
                rows.push(out);
                k = k + 1;
            }
            proof {
                assert((i + 1) * mi == i * mi + mi) by (nonlinear_arith);
            }
            i = i + 1;
        }
        proof {
            assert(rows.len() == n * m);
        }
        Ok(SparseMatrix { size: nm, rows })
    }

    /// Matrix product: entry (i, k) of the result is the sum over j of
    /// self(i, j) * rhs(j, k). Fails exactly when some entry of the exact
    /// result leaves the stored-component bound.
    pub fn multiply(&self, rhs: &SparseMatrix) -> (r: Result<SparseMatrix, QError>)
        requires
            self.wf(),
            rhs.wf(),
            self.spec_size() == rhs.spec_size(),
            1 <= self.spec_size(),
        ensures
            match r {
                Ok(p) => {
                    &&& p.wf()
                    &&& p.spec_size() == self.spec_size()
                    &&& forall|i: int, k: int|
                        0 <= i < p.spec_size() && 0 <= k < p.spec_size() ==> p.at(i, k) == mm_at(
                            *self,
                            *rhs,
                            i,
                            k,
                        )
                },
                Err(e) => {
                    &&& e == QError::Overflow
                    &&& exists|i: int, k: int|
                        0 <= i < self.spec_size() && 0 <= k < self.spec_size() && !c_bounded(
                            #[trigger] mm_at(*self, *rhs, i, k),
                            CX_MAX as int,
                        )
                },
            },
    {
        let n: usize = self.size;
        let mut rows: Vec<Row> = Vec::new();
        let mut i: usize = 0;
        while i < n
            invariant
                i <= n,
                n == self.spec_size(),
                n == rhs.spec_size(),
                1 <= n,
                self.wf(),
                rhs.wf(),
                rows.len() == i,
                forall|t: int| 0 <= t < i ==> row_wf((#[trigger] rows[t])@, n as int),
                forall|t: int, c: int|
                    0 <= t < i && 0 <= c < n ==> #[trigger] row_find(rows[t]@, c) == mm_at(
                        *self,
                        *rhs,
                        t,
                        c,
                    ),
            decreases n - i,
        {
            let arow: &Row = &self.rows[i];
            let ghost sav = arow@;
            proof {
                lemma_row_len_bound(sav, n as int);
            }
            let mut acc_re: Vec<i128> = Vec::new();
            let mut acc_im: Vec<i128> = Vec::new();
            let mut z: usize = 0;
            while z < n
                invariant
                    z <= n,
                    acc_re@.len() == z,
                    acc_im@.len() == z,
                    forall|c: int| 0 <= c < z ==> acc_re@[c] == 0 && acc_im@[c] == 0,
                decreases n - z,
            {
                acc_re.push(0);
                acc_im.push(0);
                z = z + 1;
            }
            proof {
                assert(sav.take(0) =~= Seq::<(usize, Cx)>::empty());
            }
            let mut ja: usize = 0;
            while ja < arow.len()
                invariant
                    ja <= sav.len(),
                    sav == arow@,
                    sav.len() <= n,
                    i < n,
                    n == self.spec_size(),
                    n == rhs.spec_size(),
                    n <= SIZE_MAX,
                    self.wf(),
                    rhs.wf(),
                    sav == self.rows[i as int]@,
                    row_wf(sav, n as int),
                    acc_re@.len() == n,
                    acc_im@.len() == n,
                    forall|c: int|
                        0 <= c < n ==> #[trigger] acc_re@[c] == row_pair_sum(
                            sav.take(ja as int),
                            *rhs,
                            c,
                        ).re,
                    forall|c: int|
                        0 <= c < n ==> #[trigger] acc_im@[c] == row_pair_sum(
                            sav.take(ja as int),
                            *rhs,
                            c,
                        ).im,
                decreases sav.len() - ja,
            {
                let (j, a): (usize, Cx) = arow[ja];
                proof {
                    lemma_row_find_present(sav, n as int, ja as int);
                }
                let brow: &Row = &rhs.rows[j];
                let ghost sbv = brow@;
                let ghost acc0_re = acc_re@;
                let ghost acc0_im = acc_im@;
                proof {
                    assert(sbv.take(0) =~= Seq::<(usize, Cx)>::empty());
                }
                let mut lb: usize = 0;
                while lb < brow.len()
                    invariant
                        lb <= sbv.len(),
                        sbv == brow@,
                        ja < sav.len(),
                        sav.len() <= n,
                        i < n,
                        j < n,
                        n == self.spec_size(),
                        n == rhs.spec_size(),
                        n <= SIZE_MAX,
                        self.wf(),
                        rhs.wf(),
                        sav == self.rows[i as int]@,
                        sbv == rhs.rows[j as int]@,
                        row_wf(sav, n as int),
                        row_wf(sbv, n as int),
                        (j, a) == sav[ja as int],
                        a.wf(),
                        acc_re@.len() == n,
                        acc_im@.len() == n,
                        acc0_re.len() == n,
                        acc0_im.len() == n,
                        forall|c: int|
                            0 <= c < n ==> #[trigger] acc0_re[c] == row_pair_sum(
                                sav.take(ja as int),
                                *rhs,
                                c,
                            ).re,
                        forall|c: int|
                            0 <= c < n ==> #[trigger] acc0_im[c] == row_pair_sum(
                                sav.take(ja as int),
                                *rhs,
                                c,
                            ).im,
                        forall|c: int|
                            0 <= c < n ==> #[trigger] acc_re@[c] == acc0_re[c] + (if row_has(
                                sbv.take(lb as int),
                                c,
                            ) {
                                c_mul(a@, row_find(sbv, c)).re
                            } else {
                                0
                            }),
                        forall|c: int|
                            0 <= c < n ==> #[trigger] acc_im@[c] == acc0_im[c] + (if row_has(
                                sbv.take(lb as int),
                                c,
                            ) {
                                c_mul(a@, row_find(sbv, c)).im
                            } else {
                                0
                            }),
                    decreases sbv.len() - lb,
                {
                    let (l, b): (usize, Cx) = brow[lb];
                    let w = a.mul(b);
                    proof {
                        lemma_row_find_present(sbv, n as int, lb as int);
                        assert(!row_has(sbv.take(lb as int), l as int)) by {
                            if exists|u: int|
                                0 <= u < lb && #[trigger] sbv.take(lb as int)[u].0 == l {
                                let u = choose|u: int|
                                    0 <= u < lb && #[trigger] sbv.take(lb as int)[u].0 == l;
                                assert(sbv[u].0 < sbv[lb as int].0);
                            }
                        }
                        lemma_row_pair_sum_bound(sav.take(ja as int), n as int, *rhs, l as int);
                        lemma_c_mul_term_bound(a@, b@);
                        assert((ja as int) * (TERM_BOUND as int) <= 1048576 * (TERM_BOUND as int))
                            by (nonlinear_arith)
                            requires
                                0 <= ja <= 1048576,
                                TERM_BOUND > 0,
                        ;
                    }
                    let cur_re: i128 = acc_re[l];
                    let cur_im: i128 = acc_im[l];
                    acc_re[l] = cur_re + (w.re as i128);
                    acc_im[l] = cur_im + (w.im as i128);
                    proof {
                        assert forall|c: int| 0 <= c < n implies #[trigger] acc_re@[c] == acc0_re[c]
                            + (if row_has(sbv.take(lb + 1), c) {
                            c_mul(a@, row_find(sbv, c)).re
                        } else {
                            0
                        }) by {
                            lemma_take_has_step(sbv, lb as int, c);
                        }
                        assert forall|c: int| 0 <= c < n implies #[trigger] acc_im@[c] == acc0_im[c]
                            + (if row_has(sbv.take(lb + 1), c) {
                            c_mul(a@, row_find(sbv, c)).im
                        } else {
                            0
                        }) by {
                            lemma_take_has_step(sbv, lb as int, c);
                        }
                    }
                    lb = lb + 1;
                }
                proof {
                    assert(sbv.take(sbv.len() as int) =~= sbv);
                    assert(sav.take(ja + 1).drop_last() =~= sav.take(ja as int));
                    assert(sav.take(ja + 1).last() == sav[ja as int]);
                    assert forall|c: int| 0 <= c < n implies #[trigger] acc_re@[c] == row_pair_sum(
                        sav.take(ja + 1),
                        *rhs,
                        c,
                    ).re by {
                        assert(rhs.at(j as int, c) == row_find(sbv, c));
                        if !row_has(sbv, c) {
                            lemma_row_find_absent(sbv, c);
                            lemma_c_mul_zero(a@);
                        }
                    }
                    assert forall|c: int| 0 <= c < n implies #[trigger] acc_im@[c] == row_pair_sum(
                        sav.take(ja + 1),
                        *rhs,
                        c,
                    ).im by {
                        assert(rhs.at(j as int, c) == row_find(sbv, c));
                        if !row_has(sbv, c) {
                            lemma_row_find_absent(sbv, c);
                            lemma_c_mul_zero(a@);
                        }
                    }
                }
                ja = ja + 1;
            }
            proof {
                assert(sav.take(sav.len() as int) =~= sav);
                assert forall|c: int| 0 <= c < n implies #[trigger] acc_re@[c] == mm_at(
                    *self,
                    *rhs,
                    i as int,
                    c,
                ).re by {
                    lemma_row_pair_sum_take(*self, *rhs, i as int, c, sav.len() as int);
                }
                assert forall|c: int| 0 <= c < n implies #[trigger] acc_im@[c] == mm_at(
                    *self,
                    *rhs,
                    i as int,
                    c,
                ).im by {
                    lemma_row_pair_sum_take(*self, *rhs, i as int, c, sav.len() as int);
                }
            }
            let mut out: Row = Vec::new();
            let mut k: usize = 0;
            while k < n
                invariant
                    k <= n,
                    i < n,
                    n == self.spec_size(),
                    n == rhs.spec_size(),
                    self.wf(),
                    rhs.wf(),
                    acc_re@.len() == n,
                    acc_im@.len() == n,
                    forall|c: int|
                        0 <= c < n ==> #[trigger] acc_re@[c] == mm_at(*self, *rhs, i as int, c).re,
                    forall|c: int|
                        0 <= c < n ==> #[trigger] acc_im@[c] == mm_at(*self, *rhs, i as int, c).im,
                    row_wf(out@, n as int),
                    forall|t: int| 0 <= t < out@.len() ==> (#[trigger] out@[t]).0 < k,
                    forall|c: int|
                        0 <= c < k ==> #[trigger] row_find(out@, c) == mm_at(
                            *self,
                            *rhs,
                            i as int,
                            c,
                        ),
                decreases n - k,
            {
                let re: i128 = acc_re[k];
                let im: i128 = acc_im[k];
                if re > CX_MAX as i128 || re < -(CX_MAX as i128) || im > CX_MAX as i128 || im < -(
                CX_MAX as i128) {
                    proof {
                        assert(exists|a: int, b: int|
                            0 <= a < n && 0 <= b < n && !c_bounded(
                                #[trigger] mm_at(*self, *rhs, a, b),
                                CX_MAX as int,
                            )) by {
                            assert(0 <= i < n && 0 <= k < n && !c_bounded(
                                mm_at(*self, *rhs, i as int, k as int),
                                CX_MAX as int,
                            ));
                        }
                    }
                    return Err(QError::Overflow);
                }
                let ghost old_out = out@;
                if !(re == 0 && im == 0) {
                    let v: Cx = Cx::new(re as i64, im as i64);
                    out.push((k, v));
                    proof {
                        assert forall|c: int| 0 <= c < k + 1 implies #[trigger] row_find(out@, c)
                            == mm_at(*self, *rhs, i as int, c) by {
                            lemma_row_find_push(old_out, (k, v), c);
                        }
                    }
                } else {
                    proof {
                        assert(!row_has(out@, k as int)) by {
                            if exists|u: int| 0 <= u < out@.len() && #[trigger] out@[u].0 == k {
                                let u = choose|u: int|
                                    0 <= u < out@.len() && #[trigger] out@[u].0 == k;
                            }
                        }
                        lemma_row_find_absent(out@, k as int);
                    }
                }
                k = k + 1;
            }
            rows.push(out);
            i = i + 1;
        }
        Ok(SparseMatrix { size: n, rows })
    }

    /// The matrix as a dense row-major vector of its coefficients.
    pub fn to_dense(&self) -> (r: Vec<Cx>)
        requires
            self.wf(),
            self.spec_size() * self.spec_size() <= SIZE_MAX,
        ensures
            r@.len() == self.spec_size() * self.spec_size(),
            forall|i: int, j: int|
                0 <= i < self.spec_size() && 0 <= j < self.spec_size() ==> (#[trigger] r@[i
                    * self.spec_size() + j])@ == self.at(i, j),
    {
        let n: usize = self.size;
        let mut out: Vec<Cx> = Vec::new();
        let mut i: usize = 0;
        while i < n
            invariant
                i <= n,
                n == self.spec_size(),
                n * n <= SIZE_MAX,
                self.wf(),
                out@.len() == i * n,
                forall|a: int, b: int|
                    0 <= a < i && 0 <= b < n ==> (#[trigger] out@[a * (n as int) + b])@ == self.at(
                        a,
                        b,
                    ),
            decreases n - i,
        {
            let mut j: usize = 0;
            proof {
                assert(i * n + n <= n * n) by (nonlinear_arith)
                    requires
                        i < n,
                ;
                assert((i + 1) * n == i * n + n) by (nonlinear_arith);
            }
            while j < n
                invariant
                    j <= n,
                    i < n,
                    n == self.spec_size(),
                    i * n + n <= n * n <= SIZE_MAX,
                    self.wf(),
                    out@.len() == i * n + j,
                    forall|a: int, b: int|
                        0 <= a < i && 0 <= b < n ==> (#[trigger] out@[a * (n as int) + b])@
                            == self.at(a, b),
                    forall|b: int|
                        0 <= b < j ==> (#[trigger] out@[(i as int) * (n as int) + b])@ == self.at(
                            i as int,
                            b,
                        ),
                decreases n - j,
            {
                let v: Cx = self.get(i, j);
                out.push(v);
                proof {
                    assert forall|a: int, b: int|
                        0 <= a < i && 0 <= b < n implies (#[trigger] out@[a * (n as int) + b])@
                        == self.at(a, b) by {
                        assert(a * (n as int) + b < i * (n as int)) by (nonlinear_arith)
                            requires
                                0 <= a < i,
                                0 <= b < n,
                        ;
                        assert(a * (n as int) + b >= 0) by (nonlinear_arith)
                            requires
                                0 <= a,
                                0 <= b,
                                n >= 1,
                        ;
                    }
                }
                j = j + 1;
            }
            i = i + 1;
        }
        out
    }

    /// A sparse matrix from a dense row-major vector; zero coefficients
    /// are elided. Fails exactly when some coefficient is out of the
    /// stored-component bound.
    pub fn from_dense(size: usize, dense: &Vec<Cx>) -> (r: Result<SparseMatrix, QError>)
        requires
            1 <= size,
            size * size <= SIZE_MAX,
            dense@.len() == size * size,
        ensures
            match r {
                Ok(m) => {
                    &&& m.wf()
                    &&& m.spec_size() == size
                    &&& forall|i: int, j: int|
                        0 <= i < size && 0 <= j < size ==> m.at(i, j) == (#[trigger] dense@[i * (
                        size as int) + j])@
                },
                Err(e) => {
                    &&& e == QError::Overflow
                    &&& exists|t: int|
                        0 <= t < dense@.len() && !c_bounded((#[trigger] dense@[t])@, CX_MAX as int)
                },
            },
    {
        let n: usize = size;
        let mut rows: Vec<Row> = Vec::new();
        let mut i: usize = 0;
        while i < n
            invariant
                i <= n,
                1 <= n,
                n * n <= SIZE_MAX,
                n == size,
                dense@.len() == n * n,
                rows.len() == i,
                forall|t: int| 0 <= t < i ==> row_wf((#[trigger] rows[t])@, n as int),
                forall|t: int, c: int|
                    0 <= t < i && 0 <= c < n ==> #[trigger] row_find(rows[t]@, c) == dense@[t * (
                    n as int) + c]@,
            decreases n - i,
        {
            proof {
                assert(i * n + n <= n * n) by (nonlinear_arith)
                    requires
                        i < n,
                ;
            }
            let mut out: Row = Vec::new();
            let mut j: usize = 0;
            while j < n
                invariant
                    j <= n,
                    i < n,
                    n == size,
                    i * n + n <= n * n <= SIZE_MAX,
                    dense@.len() == n * n,
                    row_wf(out@, n as int),
                    forall|t: int| 0 <= t < out@.len() ==> (#[trigger] out@[t]).0 < j,
                    forall|c: int|
                        0 <= c < j ==> #[trigger] row_find(out@, c) == dense@[(i as int) * (
                        n as int) + c]@,
                decreases n - j,
            {
                let v: Cx = dense[i * n + j];
                if v.re > CX_MAX || v.re < -CX_MAX || v.im > CX_MAX || v.im < -CX_MAX {
                    proof {
                        assert(0 <= (i as int) * (n as int) + j < dense@.len() && !c_bounded(
                            dense@[(i as int) * (n as int) + j]@,
                            CX_MAX as int,
                        ));
                    }
                    return Err(QError::Overflow);
                }
                let ghost old_out = out@;
                if !(v.re == 0 && v.im == 0) {
                    out.push((j, v));
                    proof {
                        assert forall|c: int| 0 <= c < j + 1 implies #[trigger] row_find(out@, c)
                            == dense@[(i as int) * (n as int) + c]@ by {
                            lemma_row_find_push(old_out, (j, v), c);
                        }
                    }
                } else {
                    proof {
                        assert(!row_has(out@, j as int)) by {
                            if exists|u: int| 0 <= u < out@.len() && #[trigger] out@[u].0 == j {
                                let u = choose|u: int|
                                    0 <= u < out@.len() && #[trigger] out@[u].0 == j;
                            }
                        }
                        lemma_row_find_absent(out@, j as int);
                    }
                }
                j = j + 1;
            }
            rows.push(out);
            i = i + 1;
        }
        proof {
            assert forall|a: int, b: int| 0 <= a < n && 0 <= b < n implies 0 <= #[trigger] (a * (
            n as int) + b) < n * n by {
                assert(0 <= a * (n as int) + b < n * n) by (nonlinear_arith)
                    requires
                        0 <= a < n,
                        0 <= b < n,
                ;
            }
        }
        let m = SparseMatrix { size: n, rows };
        proof {
            assert((n as int) <= (n as int) * (n as int)) by (nonlinear_arith)
                requires
                    n >= 1,
            ;
            assert forall|a: int, b: int| 0 <= a < n && 0 <= b < n implies m.at(a, b) == (
            #[trigger] dense@[a * (n as int) + b])@ by {
                assert(0 <= a * (n as int) + b < n * n) by (nonlinear_arith)
                    requires
                        0 <= a < n,
                        0 <= b < n,
                ;
                assert(m.at(a, b) == row_find(m.rows[a]@, b));
            }
        }
        Ok(m)
    }

    /// Conjugate transpose: entry (i, j) is the conjugate of entry (j, i).
    pub fn conjugate_transpose(&self) -> (r: SparseMatrix)
        requires
            self.wf(),
        ensures
            r.wf(),
            r.spec_size() == self.spec_size(),
            forall|i: int, j: int|
                0 <= i < self.spec_size() && 0 <= j < self.spec_size() ==> r.at(i, j)
                    == crate::scalar::c_conj(self.at(j, i)),
    {
        let n: usize = self.size;
        let mut rows: Vec<Row> = Vec::new();
        let mut i: usize = 0;
        while i < n
            invariant
                i <= n,
                n == self.spec_size(),
                self.wf(),
                rows.len() == i,
                forall|t: int| 0 <= t < i ==> row_wf((#[trigger] rows[t])@, n as int),
                forall|t: int, c: int|
                    0 <= t < i && 0 <= c < n ==> #[trigger] row_find(rows[t]@, c)
                        == crate::scalar::c_conj(self.at(c, t)),
            decreases n - i,
        {
            let mut out: Row = Vec::new();
            let mut j: usize = 0;
            while j < n
                invariant
                    j <= n,
                    i < n,
                    n == self.spec_size(),
                    self.wf(),
                    row_wf(out@, n as int),
                    forall|t: int| 0 <= t < out@.len() ==> (#[trigger] out@[t]).0 < j,
                    forall|c: int|
                        0 <= c < j ==> #[trigger] row_find(out@, c) == crate::scalar::c_conj(
                            self.at(c, i as int),
                        ),
                decreases n - j,
            {
                let v: Cx = self.get(j, i);
                let ghost old_out = out@;
                if !(v.re == 0 && v.im == 0) {
                    let w: Cx = v.conj();
                    out.push((j, w));
                    proof {
                        assert forall|c: int| 0 <= c < j + 1 implies #[trigger] row_find(out@, c)
                            == crate::scalar::c_conj(self.at(c, i as int)) by {
                            lemma_row_find_push(old_out, (j, w), c);
                        }
                    }
                } else {
                    proof {
                        assert(!row_has(out@, j as int)) by {
                            if exists|u: int| 0 <= u < out@.len() && #[trigger] out@[u].0 == j {
                                let u = choose|u: int|
                                    0 <= u < out@.len() && #[trigger] out@[u].0 == j;
                            }
                        }
                        lemma_row_find_absent(out@, j as int);
                    }
                }
                j = j + 1;
            }
            rows.push(out);
            i = i + 1;
        }
        SparseMatrix { size: n, rows }
    }
}

/// One output row of a Kronecker product: the pairwise products of an
/// `lhs` row (columns below n) and an `rhs` row (columns below m), the pair
/// (j, l) landing at column j * m + l.
fn tensor_row(sa: &Row, sb: &Row, n: usize, m: usize) -> (r: Result<Row, QError>)
    requires
        row_wf(sa@, n as int),
        row_wf(sb@, m as int),
        1 <= n,
        1 <= m,
        n * m <= SIZE_MAX,
    ensures
        match r {
            Ok(out) => {
                &&& row_wf(out@, (n * m) as int)
                &&& forall|c: int|
                    0 <= c < n * m ==> row_find(out@, c) == c_mul(
                        row_find(sa@, c / (m as int)),
                        row_find(sb@, c % (m as int)),
                    )
            },
            Err(e) => {
                &&& e == QError::Overflow
                &&& exists|c: int|
                    0 <= c < n * m && !c_bounded(
                        #[trigger] c_mul(row_find(sa@, c / (m as int)), row_find(sb@, c % (m as int))),
                        CX_MAX as int,
                    )
            },
        },
{
    let ghost sav = sa@;
    let ghost sbv = sb@;
    let ghost nm = (n * m) as int;
    let ghost mi = m as int;
    let mut out: Row = Vec::new();
    let mut ja: usize = 0;
    while ja < sa.len()
        invariant
            ja <= sav.len(),
            sav == sa@,
            sbv == sb@,
            row_wf(sav, n as int),
            row_wf(sbv, m as int),
            1 <= n,
            1 <= m,
            nm == n * m,
            mi == m as int,
            nm <= SIZE_MAX,
            row_wf(out@, nm),
            forall|t: int|
                0 <= t < out@.len() ==> (#[trigger] out@[t]).0 < (if ja < sav.len() {
                    sav[ja as int].0 * mi
                } else {
                    nm
                }),
            forall|c: int|
                0 <= c < nm ==> #[trigger] row_find(out@, c) == (if row_has(
                    sav.take(ja as int),
                    c / mi,
                ) {
                    c_mul(row_find(sav, c / mi), row_find(sbv, c % mi))
                } else {
                    c_zero()
                }),
        decreases sav.len() - ja,
    {
        let (j, a): (usize, Cx) = sa[ja];
        proof {
            lemma_row_find_present(sav, n as int, ja as int);
            assert(j * mi + m <= nm) by (nonlinear_arith)
                requires
                    j < n,
                    1 <= m,
                    mi == m as int,
                    nm == n * m,
            ;
        }
        let mut lb: usize = 0;
        while lb < sb.len()
            invariant
                lb <= sbv.len(),
                ja < sav.len(),
                sav == sa@,
                sbv == sb@,
                row_wf(sav, n as int),
                row_wf(sbv, m as int),
                1 <= n,
                1 <= m,
                nm == n * m,
                mi == m as int,
                nm <= SIZE_MAX,
                (j, a) == sav[ja as int],
                a@ == row_find(sav, j as int),
                j * mi + m <= nm,
                row_wf(out@, nm),
                forall|t: int|
                    0 <= t < out@.len() ==> (#[trigger] out@[t]).0 < j * mi + (if lb < sbv.len() {
                        sbv[lb as int].0 as int
                    } else {
                        mi
                    }),
                forall|c: int|
                    0 <= c < nm ==> #[trigger] row_find(out@, c) == (if row_has(
                        sav.take(ja as int),
                        c / mi,
                    ) || (sav[ja as int].0 == c / mi && row_has(sbv.take(lb as int), c % mi)) {
                        c_mul(row_find(sav, c / mi), row_find(sbv, c % mi))
                    } else {
                        c_zero()
                    }),
            decreases sbv.len() - lb,
        {
            let (l, b): (usize, Cx) = sb[lb];
            let w = a.mul(b);
            let col: usize = j * m + l;
            proof {
                lemma_row_find_present(sbv, m as int, lb as int);
                vstd::arithmetic::div_mod::lemma_fundamental_div_mod_converse(
                    col as int,
                    mi,
                    j as int,
                    l as int,
                );
                assert(c_mul(row_find(sav, col as int / mi), row_find(sbv, col as int % mi))
                    == w@);
            }
            if w.re > CX_MAX || w.re < -CX_MAX || w.im > CX_MAX || w.im < -CX_MAX {
                proof {
                    assert(exists|c: int|
                        0 <= c < nm && !c_bounded(
                            #[trigger] c_mul(row_find(sav, c / mi), row_find(sbv, c % mi)),
                            CX_MAX as int,
                        )) by {
                        assert(0 <= col < nm && !c_bounded(
                            c_mul(row_find(sav, col as int / mi), row_find(sbv, col as int % mi)),
                            CX_MAX as int,
                        ));
                    }
                }
                return Err(QError::Overflow);
            }
            let ghost old_out = out@;
            if !(w.re == 0 && w.im == 0) {
                out.push((col, w));
                proof {
                    assert forall|c: int| 0 <= c < nm implies #[trigger] row_find(out@, c) == (
                    if row_has(sav.take(ja as int), c / mi) || (sav[ja as int].0 == c / mi
                        && row_has(sbv.take(lb + 1), c % mi)) {
                        c_mul(row_find(sav, c / mi), row_find(sbv, c % mi))
                    } else {
                        c_zero()
                    }) by {
                        lemma_row_find_push(old_out, (col, w), c);
                        lemma_tensor_step(sav, sbv, ja as int, lb as int, n as int, mi, c);
                        if c == col {
                            vstd::arithmetic::div_mod::lemma_fundamental_div_mod_converse(
                                col as int,
                                mi,
                                j as int,
                                l as int,
                            );
                        }
                    }
                }
            } else {
                proof {
                    assert forall|c: int| 0 <= c < nm implies #[trigger] row_find(out@, c) == (
                    if row_has(sav.take(ja as int), c / mi) || (sav[ja as int].0 == c / mi
                        && row_has(sbv.take(lb + 1), c % mi)) {
                        c_mul(row_find(sav, c / mi), row_find(sbv, c % mi))
                    } else {
                        c_zero()
                    }) by {
                        lemma_tensor_step(sav, sbv, ja as int, lb as int, n as int, mi, c);
                        if c == col {
                            vstd::arithmetic::div_mod::lemma_fundamental_div_mod_converse(
                                col as int,
                                mi,
                                j as int,
                                l as int,
                            );
                        }
                    }
                }
            }
            lb = lb + 1;
        }
        proof {
            assert forall|c: int| 0 <= c < nm implies #[trigger] row_find(out@, c) == (if row_has(
                sav.take(ja + 1),
                c / mi,
            ) {
                c_mul(row_find(sav, c / mi), row_find(sbv, c % mi))
            } else {
                c_zero()
            }) by {
                lemma_take_has_step(sav, ja as int, c / mi);
                assert(sbv.take(sbv.len() as int) =~= sbv);
                if !row_has(sav.take(ja as int), c / mi) && sav[ja as int].0 == c / mi && !row_has(
                    sbv,
                    c % mi,
                ) {
                    lemma_row_find_absent(sbv, c % mi);
                    lemma_c_mul_zero(row_find(sav, c / mi));
                }
            }
            assert forall|t: int| 0 <= t < out@.len() implies (#[trigger] out@[t]).0 < (if ja + 1
                < sav.len() {
                sav[ja + 1].0 * mi
            } else {
                nm
            }) by {
                if ja + 1 < sav.len() {
                    assert(sav[ja as int].0 < sav[ja + 1].0);
                    assert((j + 1) * mi <= sav[ja + 1].0 * mi && j * mi + mi == (j + 1) * mi)
                        by (nonlinear_arith)
                        requires
                            (j as int) + 1 <= sav[ja + 1].0,
                            mi >= 1,
                            j == sav[ja as int].0,
                    ;
                }
            }
        }
        ja = ja + 1;
    }
    proof {
        assert(sav.take(sav.len() as int) =~= sav);
        assert forall|c: int| 0 <= c < nm implies #[trigger] row_find(out@, c) == c_mul(
            row_find(sav, c / mi),
            row_find(sbv, c % mi),
        ) by {
            if !row_has(sav, c / mi) {
                lemma_row_find_absent(sav, c / mi);
                lemma_c_mul_zero(row_find(sbv, c % mi));
            }
        }
    }
    Ok(out)
}

/// Partial inner product: the sum over j < hi of a(i, j) * b(j, k).
pub open spec fn mm_sum(a: SparseMatrix, b: SparseMatrix, i: int, k: int, hi: nat) -> Cv
    decreases hi,
{
    if hi == 0 {
        c_zero()
    } else {
        c_add(mm_sum(a, b, i, k, (hi - 1) as nat), c_mul(a.at(i, hi - 1), b.at(hi - 1, k)))
    }
}

/// Entry (i, k) of the matrix product a * b.
pub open spec fn mm_at(a: SparseMatrix, b: SparseMatrix, i: int, k: int) -> Cv {
    mm_sum(a, b, i, k, a.size as nat)
}

/// The same inner product summed over the stored entries of one row.
pub open spec fn row_pair_sum(r: Seq<(usize, Cx)>, b: SparseMatrix, k: int) -> Cv
    decreases r.len(),
{
    if r.len() == 0 {
        c_zero()
    } else {
        c_add(
            row_pair_sum(r.drop_last(), b, k),
            c_mul(r.last().1@, b.at(r.last().0 as int, k)),
        )
    }
}

/// Largest magnitude a product of two stored components can reach.
pub const TERM_BOUND: i64 = 4611686018427387904;

/// A product of two bounded components is bounded by TERM_BOUND.
pub proof fn lemma_c_mul_term_bound(a: Cv, b: Cv)
    requires
        c_bounded(a, CX_MAX as int),
        c_bounded(b, CX_MAX as int),
    ensures
        c_bounded(c_mul(a, b), TERM_BOUND as int),
{
    let m = CX_MAX as int;
    let m2 = 2 * m * m;
    crate::scalar::lemma_mul_bound(a.re, b.re, m, m);
    crate::scalar::lemma_mul_bound(a.im, b.im, m, m);
    crate::scalar::lemma_mul_bound(a.re, b.im, m, m);
    crate::scalar::lemma_mul_bound(a.im, b.re, m, m);
    crate::scalar::lemma_divt_quotient_bound(a.re * b.re - a.im * b.im, SCALE as int, m2);
    crate::scalar::lemma_divt_quotient_bound(a.re * b.im + a.im * b.re, SCALE as int, m2);
    assert(2 * (CX_MAX as int) * (CX_MAX as int) / (SCALE as int) == TERM_BOUND as int)
        by (nonlinear_arith)
        requires
            CX_MAX == 17592186044416,
            SCALE == 134217728,
            TERM_BOUND == 4611686018427387904,
    ;
}

/// A row's pair sum is bounded by its length times TERM_BOUND.
proof fn lemma_row_pair_sum_bound(r: Seq<(usize, Cx)>, n: int, b: SparseMatrix, k: int)
    requires
        row_wf(r, n),
        b.wf(),
    ensures
        c_bounded(row_pair_sum(r, b, k), r.len() * (TERM_BOUND as int)),
    decreases r.len(),
{
    if r.len() == 0 {
    } else {
        assert(row_wf(r.drop_last(), n));
        lemma_row_pair_sum_bound(r.drop_last(), n, b, k);
        b.lemma_at_bounded(r.last().0 as int, k);
        lemma_c_mul_term_bound(r.last().1@, b.at(r.last().0 as int, k));
        assert((r.len() - 1) * (TERM_BOUND as int) + (TERM_BOUND as int) == r.len() * (
        TERM_BOUND as int)) by (nonlinear_arith);
    }
}

/// Where a stretch of a's row is zero, the partial sums agree.
proof fn lemma_mm_sum_gap(a: SparseMatrix, b: SparseMatrix, i: int, k: int, lo: nat, hi: nat)
    requires
        lo <= hi,
        forall|j: int| lo <= j < hi ==> a.at(i, j) == c_zero(),
    ensures
        mm_sum(a, b, i, k, hi) == mm_sum(a, b, i, k, lo),
    decreases hi - lo,
{
    if hi > lo {
        lemma_mm_sum_gap(a, b, i, k, lo, (hi - 1) as nat);
        lemma_c_mul_zero(b.at(hi - 1, k));
    }
}

/// The sum over the first t stored entries of a's row i equals the full
/// range sum up to the t-th stored column (or the full side).
proof fn lemma_row_pair_sum_take(a: SparseMatrix, b: SparseMatrix, i: int, k: int, t: int)
    requires
        a.wf(),
        b.wf(),
        0 <= i < a.spec_size(),
        0 <= t <= a.rows[i]@.len(),
    ensures
        row_pair_sum(a.rows[i]@.take(t), b, k) == mm_sum(
            a,
            b,
            i,
            k,
            if t < a.rows[i]@.len() {
                a.rows[i]@[t].0 as nat
            } else {
                a.size as nat
            },
        ),
    decreases t,
{
    let r = a.rows[i]@;
    let bound: nat = if t < r.len() {
        r[t].0 as nat
    } else {
        a.size as nat
    };
    if t == 0 {
        assert(r.take(0) =~= Seq::<(usize, Cx)>::empty());
        assert forall|j: int| 0 <= j < bound implies a.at(i, j) == c_zero() by {
            if row_has(r, j) {
                let u = choose|u: int| 0 <= u < r.len() && r[u].0 == j;
                assert(u == 0 || r[0].0 < r[u].0);
                assert(false);
            }
            lemma_row_find_absent(r, j);
        }
        lemma_mm_sum_gap(a, b, i, k, 0, bound);
    } else {
        lemma_row_pair_sum_take(a, b, i, k, t - 1);
        let prev: nat = r[t - 1].0 as nat;
        assert(r.take(t).drop_last() =~= r.take(t - 1));
        assert(r.take(t).last() == r[t - 1]);
        lemma_row_find_present(r, a.spec_size(), t - 1);
        assert(a.at(i, prev as int) == r[t - 1].1@);
        assert(mm_sum(a, b, i, k, (prev + 1) as nat) == c_add(
            mm_sum(a, b, i, k, prev),
            c_mul(a.at(i, prev as int), b.at(prev as int, k)),
        ));
        assert forall|j: int| prev + 1 <= j < bound implies a.at(i, j) == c_zero() by {
            if row_has(r, j) {
                let u = choose|u: int| 0 <= u < r.len() && r[u].0 == j;
                if u <= t - 1 {
                    assert(u == t - 1 || r[u].0 < r[t - 1].0);
                    assert(false);
                } else {
                    assert(t < r.len() && (t == u || r[t].0 < r[u].0));
                    assert(false);
                }
            }
            lemma_row_find_absent(r, j);
        }
        lemma_mm_sum_gap(a, b, i, k, (prev + 1) as nat, bound);
    }
}

/// Where row i of `a` is zero except possibly at column j0, the product
/// entry collapses to the single term through j0.
pub proof fn lemma_mm_single_row(a: SparseMatrix, b: SparseMatrix, i: int, k: int, j0: int)
    requires
        0 <= j0 < a.spec_size(),
        forall|j: int| 0 <= j < a.spec_size() && j != j0 ==> a.at(i, j) == c_zero(),
    ensures
        mm_at(a, b, i, k) == c_mul(a.at(i, j0), b.at(j0, k)),
{
    lemma_mm_sum_gap(a, b, i, k, 0, j0 as nat);
    assert(mm_sum(a, b, i, k, (j0 + 1) as nat) == c_add(
        mm_sum(a, b, i, k, j0 as nat),
        c_mul(a.at(i, j0), b.at(j0, k)),
    ));
    lemma_mm_sum_gap(a, b, i, k, (j0 + 1) as nat, a.size as nat);
}

/// Where column k of `b` is zero except possibly at row j0, the product
/// entry collapses to the single term through j0.
pub proof fn lemma_mm_single_col(a: SparseMatrix, b: SparseMatrix, i: int, k: int, j0: int)
    requires
        0 <= j0 < a.spec_size(),
        forall|j: int| 0 <= j < a.spec_size() && j != j0 ==> b.at(j, k) == c_zero(),
    ensures
        mm_at(a, b, i, k) == c_mul(a.at(i, j0), b.at(j0, k)),
{
    assert forall|j: int| 0 <= j < a.spec_size() && j != j0 implies c_mul(a.at(i, j), b.at(j, k))
        == c_zero() by {
        lemma_c_mul_zero(a.at(i, j));
    }
    lemma_mm_sum_gap_terms(a, b, i, k, 0, j0 as nat);
    assert(mm_sum(a, b, i, k, (j0 + 1) as nat) == c_add(
        mm_sum(a, b, i, k, j0 as nat),
        c_mul(a.at(i, j0), b.at(j0, k)),
    ));
    lemma_mm_sum_gap_terms(a, b, i, k, (j0 + 1) as nat, a.size as nat);
}

/// Where every product term in a stretch is zero, partial sums agree.
proof fn lemma_mm_sum_gap_terms(a: SparseMatrix, b: SparseMatrix, i: int, k: int, lo: nat, hi: nat)
    requires
        lo <= hi,
        forall|j: int| lo <= j < hi ==> c_mul(a.at(i, j), b.at(j, k)) == c_zero(),
    ensures
        mm_sum(a, b, i, k, hi) == mm_sum(a, b, i, k, lo),
    decreases hi - lo,
{
    if hi > lo {
        lemma_mm_sum_gap_terms(a, b, i, k, lo, (hi - 1) as nat);
    }
}

/// Law: the Kronecker product is associative within the comparison
/// tolerance, for matrices whose entries are at most eight in modulus
/// (amplitude-scale data; larger entries can push the regrouping error
/// past the tolerance). Where `ab`, `left`, `bc`, `right` carry the
/// entry formulas the tensor product guarantees, every entry of
/// (A tensor B) tensor C is close to the matching entry of
/// A tensor (B tensor C).
pub proof fn theorem_tensor_product_associative(
    a: SparseMatrix,
    b: SparseMatrix,
    c: SparseMatrix,
    ab: SparseMatrix,
    left: SparseMatrix,
    bc: SparseMatrix,
    right: SparseMatrix,
)
    requires
        1 <= a.spec_size(),
        1 <= b.spec_size(),
        1 <= c.spec_size(),
        forall|i: int, j: int|
            0 <= i < a.spec_size() && 0 <= j < a.spec_size() ==> c_bounded(
                #[trigger] a.at(i, j),
                0x4000_0000,
            ),
        forall|i: int, j: int|
            0 <= i < b.spec_size() && 0 <= j < b.spec_size() ==> c_bounded(
                #[trigger] b.at(i, j),
                0x4000_0000,
            ),
        forall|i: int, j: int|
            0 <= i < c.spec_size() && 0 <= j < c.spec_size() ==> c_bounded(
                #[trigger] c.at(i, j),
                0x4000_0000,
            ),
        ab.spec_size() == a.spec_size() * b.spec_size(),
        forall|i: int, j: int|
            0 <= i < ab.spec_size() && 0 <= j < ab.spec_size() ==> #[trigger] ab.at(i, j) == c_mul(
                a.at(i / b.spec_size(), j / b.spec_size()),
                b.at(i % b.spec_size(), j % b.spec_size()),
            ),
        left.spec_size() == ab.spec_size() * c.spec_size(),
        forall|i: int, j: int|
            0 <= i < left.spec_size() && 0 <= j < left.spec_size() ==> #[trigger] left.at(i, j)
                == c_mul(
                ab.at(i / c.spec_size(), j / c.spec_size()),
                c.at(i % c.spec_size(), j % c.spec_size()),
            ),
        bc.spec_size() == b.spec_size() * c.spec_size(),
        forall|i: int, j: int|
            0 <= i < bc.spec_size() && 0 <= j < bc.spec_size() ==> #[trigger] bc.at(i, j) == c_mul(
                b.at(i / c.spec_size(), j / c.spec_size()),
                c.at(i % c.spec_size(), j % c.spec_size()),
            ),
        right.spec_size() == a.spec_size() * bc.spec_size(),
        forall|i: int, j: int|
            0 <= i < right.spec_size() && 0 <= j < right.spec_size() ==> #[trigger] right.at(i, j)
                == c_mul(
                a.at(i / bc.spec_size(), j / bc.spec_size()),
                bc.at(i % bc.spec_size(), j % bc.spec_size()),
            ),
    ensures
        left.spec_size() == right.spec_size(),
        left.approx_eq(right),
{
    let sa = a.spec_size();
    let sb = b.spec_size();
    let sc = c.spec_size();
    let m = sb * sc;
    assert((sa * sb) * sc == sa * (sb * sc)) by (nonlinear_arith);
    assert forall|i: int, j: int|
        0 <= i < left.spec_size() && 0 <= j < left.spec_size() implies close(
        left.at(i, j),
        right.at(i, j),
    ) by {
        lemma_tensor_assoc_indices(i, sa, sb, sc);
        lemma_tensor_assoc_indices(j, sa, sb, sc);
        let x = a.at(i / m, j / m);
        let y = b.at((i / sc) % sb, (j / sc) % sb);
        let z = c.at(i % sc, j % sc);
        assert(left.at(i, j) == c_mul(c_mul(x, y), z));
        assert(right.at(i, j) == c_mul(x, c_mul(y, z)));
        crate::scalar::lemma_c_mul_assoc_close(x, y, z);
        let d = c_sub(c_mul(c_mul(x, y), z), c_mul(x, c_mul(y, z)));
        crate::scalar::lemma_mul_bound(d.re, d.re, 34, 34);
        crate::scalar::lemma_mul_bound(d.im, d.im, 34, 34);
        assert((TOL as int) * (TOL as int) == 180123241) by (nonlinear_arith)
            requires
                TOL == 13421,
        ;
    }
}

/// The index algebra behind tensor associativity: dividing by the inner
/// side and then the middle one is dividing by their product, and the
/// remainders decompose accordingly.
proof fn lemma_tensor_assoc_indices(i: int, sa: int, sb: int, sc: int)
    requires
        0 <= i < sa * (sb * sc),
        1 <= sa,
        1 <= sb,
        1 <= sc,
    ensures
        (i / sc) / sb == i / (sb * sc),
        (i % (sb * sc)) / sc == (i / sc) % sb,
        (i % (sb * sc)) % sc == i % sc,
        0 <= i / (sb * sc) < sa,
        0 <= (i / sc) % sb < sb,
        0 <= i % sc < sc,
        0 <= i / sc < sa * sb,
        0 <= i % (sb * sc) < sb * sc,
{
    let m = sb * sc;
    assert(m >= 1) by (nonlinear_arith)
        requires
            sb >= 1,
            sc >= 1,
            m == sb * sc,
    ;
    assert((sa * sb) * sc == sa * m) by (nonlinear_arith)
        requires
            m == sb * sc,
    ;
    vstd::arithmetic::div_mod::lemma_fundamental_div_mod(i, m);
    vstd::arithmetic::div_mod::lemma_mod_bound(i, m);
    vstd::arithmetic::div_mod::lemma_fundamental_div_mod(i, sc);
    vstd::arithmetic::div_mod::lemma_mod_bound(i, sc);
    vstd::arithmetic::div_mod::lemma_mod_bound(i / sc, sb);
    vstd::arithmetic::div_mod::lemma_div_denominator(i, sc, sb);
    vstd::arithmetic::mul::lemma_mul_is_commutative(sc, sb);
    vstd::arithmetic::div_mod::lemma_breakdown(i, sc, sb);
    assert(sc * ((i / sc) % sb) == ((i / sc) % sb) * sc) by (nonlinear_arith);
    vstd::arithmetic::div_mod::lemma_fundamental_div_mod_converse(
        i % m,
        sc,
        (i / sc) % sb,
        i % sc,
    );
    assert(0 <= i / m < sa) by (nonlinear_arith)
        requires
            m >= 1,
            0 <= i < sa * m,
            i == m * (i / m) + i % m,
            0 <= i % m < m,
    ;
    assert(0 <= i / sc < sa * sb) by (nonlinear_arith)
        requires
            sc >= 1,
            0 <= i < (sa * sb) * sc,
            i == sc * (i / sc) + i % sc,
            0 <= i % sc < sc,
    ;
}

/// In a sorted row, the k-th column is at least k.
proof fn lemma_row_col_ge_index(r: Seq<(usize, Cx)>, size: int, k: int)
    requires
        row_wf(r, size),
        0 <= k < r.len(),
    ensures
        r[k].0 >= k,
    decreases k,
{
    if k > 0 {
        lemma_row_col_ge_index(r, size, k - 1);
        assert(r[k - 1].0 < r[k].0);
    }
}

/// A sorted row over columns below `size` has at most `size` entries.
pub proof fn lemma_row_len_bound(r: Seq<(usize, Cx)>, size: int)
    requires
        row_wf(r, size),
        0 <= size,
    ensures
        r.len() <= size,
{
    if r.len() > size {
        lemma_row_col_ge_index(r, size, size);
        assert(r[size].0 < size);
        assert(false);
    }
}

/// How membership of a column prefix grows by one step.
proof fn lemma_take_has_step(r: Seq<(usize, Cx)>, t: int, j: int)
    requires
        0 <= t < r.len(),
    ensures
        row_has(r.take(t + 1), j) == (row_has(r.take(t), j) || r[t].0 == j),
{
    assert(r.take(t + 1).drop_last() =~= r.take(t));
    assert(r.take(t + 1) =~= r.take(t).push(r[t]));
    lemma_row_find_push(r.take(t), r[t], j);
}

/// The tensor "processed" predicate changes only at the pushed column.
proof fn lemma_tensor_step(
    sa: Seq<(usize, Cx)>,
    sb: Seq<(usize, Cx)>,
    ja: int,
    lb: int,
    n: int,
    m: int,
    c: int,
)
    requires
        row_wf(sa, n),
        row_wf(sb, m),
        0 <= ja < sa.len(),
        0 <= lb < sb.len(),
        m >= 1,
        0 <= c,
    ensures
        (sa[ja].0 == c / m && row_has(sb.take(lb + 1), c % m)) == ((sa[ja].0 == c / m && row_has(
            sb.take(lb),
            c % m,
        )) || c == sa[ja].0 * m + sb[lb].0),
{
    lemma_take_has_step(sb, lb, c % m);
    if c == sa[ja].0 * m + sb[lb].0 {
        vstd::arithmetic::div_mod::lemma_fundamental_div_mod_converse(
            c,
            m,
            sa[ja].0 as int,
            sb[lb].0 as int,
        );
    }
    if sa[ja].0 == c / m && sb[lb].0 == c % m {
        vstd::arithmetic::div_mod::lemma_fundamental_div_mod(c, m);
        vstd::arithmetic::mul::lemma_mul_is_commutative(sa[ja].0 as int, m);
    }
}

/// Squared modulus of the difference stays below the tolerance.
pub open spec fn close(x: Cv, y: Cv) -> bool {
    c_abs_sq_raw(c_sub(x, y)) < (TOL as int) * (TOL as int)
}

/// Runtime tolerance check matching `close`.
pub fn close_exec(x: Cx, y: Cx) -> (r: bool)
    requires
        x.wf(),
        y.wf(),
    ensures
        r == close(x@, y@),
{
    let dr: i128 = (x.re as i128) - (y.re as i128);
    let di: i128 = (x.im as i128) - (y.im as i128);
    proof {
        let m = 2 * (CX_MAX as int);
        crate::scalar::lemma_mul_bound(dr as int, dr as int, m, m);
        crate::scalar::lemma_mul_bound(di as int, di as int, m, m);
    }
    let s: i128 = dr * dr + di * di;
    proof {
        assert((TOL as int) * (TOL as int) == 180123241) by (nonlinear_arith)
            requires
                TOL == 13421,
        ;
    }
    s < (TOL as i128) * (TOL as i128)
}

} // verus!
