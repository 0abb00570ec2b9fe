//! Dense row-major matrices over any element type, and the augmented
//! system `[A | b]` of a linear system.
use vstd::prelude::*;
use crate::error::AlgError;

verus! {

/// A `rows x cols` matrix stored row by row.
#[derive(Clone)]
pub struct Matrix<T> {
    data: Vec<T>,
    rows: usize,
    cols: usize,
}

impl<T> Matrix<T> {
    /// Number of rows.
    pub closed spec fn row_count(&self) -> nat {
        self.rows as nat
    }

    /// Number of columns.
    pub closed spec fn col_count(&self) -> nat {
        self.cols as nat
    }

    /// The elements, row by row.
    pub closed spec fn elems(&self) -> Seq<T> {
        self.data@
    }

    /// The storage holds exactly `rows * cols` elements.
    pub open spec fn wf(&self) -> bool {
        self.elems().len() == self.row_count() * self.col_count()
    }

    /// Element in row `r` and column `c`.
    pub open spec fn at(&self, r: int, c: int) -> T {
        self.elems()[r * self.col_count() + c]
    }

    /// Wraps row-major `data` as a `rows x cols` matrix.
    pub fn new(data: Vec<T>, rows: usize, cols: usize) -> (m: Self)
        ensures
            m.elems() == data@,
            m.row_count() == rows,
            m.col_count() == cols,
    {
        Matrix { data, rows, cols }
    }

    /// Number of columns.
    pub fn cols(&self) -> (c: usize)
        ensures
            c == self.col_count(),
    {
        self.cols
    }

    /// Number of rows.
    pub fn rows(&self) -> (r: usize)
        ensures
            r == self.row_count(),
    {
        self.rows
    }

    /// The elements, row by row.
    pub fn as_slice(&self) -> (s: &[T])
        ensures
            s@ == self.elems(),
    {
        self.data.as_slice()
    }
}

impl<T: Copy> Matrix<T> {
    /// A `rows x cols` matrix whose every element is `zero`.
    pub fn zero(rows: usize, cols: usize, zero: T) -> (m: Self)
        requires
            rows * cols <= usize::MAX,
        ensures
            m.wf(),
            m.row_count() == rows,
            m.col_count() == cols,
            forall|k: int| 0 <= k < rows * cols ==> m.elems()[k] == zero,
    {
        let len = rows * cols;
        let mut data: Vec<T> = Vec::with_capacity(len);
        for k in 0..len
            invariant
                data.len() == k,
                forall|j: int| 0 <= j < k ==> data[j] == zero,
        {
            data.push(zero);
        }
        Matrix { data, rows, cols }
    }

    /// Element in row `row` and column `col`.
    pub fn get(&self, row: usize, col: usize) -> (v: T)
        requires
            row * self.col_count() + col < self.elems().len(),
        ensures
            v == self.elems()[row * self.col_count() + col],
    {
        let len = self.data.len();
        proof {
            assert(row * self.col_count() == row as int * self.cols as int);
        }
        self.data[row * self.cols + col]
    }

    /// Replaces the element in row `row` and column `col`.
    pub fn set(&mut self, row: usize, col: usize, v: T)
        requires
            row * old(self).col_count() + col < old(self).elems().len(),
        ensures
            final(self).row_count() == old(self).row_count(),
            final(self).col_count() == old(self).col_count(),
            final(self).elems() == old(self).elems().update(
                row * old(self).col_count() + col,
                v,
            ),
    {
        let len = self.data.len();
        proof {
            assert(row * self.col_count() == row as int * self.cols as int);
        }
        let idx = row * self.cols + col;
        self.data[idx] = v;
    }
}

/// Builds the augmented matrix `[a | b]` of the system `a x = b`: an
/// `n x (n + 1)` matrix whose last column is `b`.  Refused unless `a` is
/// square and `b` has one entry per row.
pub fn augment<T: Copy>(a: &Matrix<T>, b: &[T]) -> (r: Result<Matrix<T>, AlgError>)
    requires
        a.wf(),
    ensures
        r is Err <==> (a.row_count() != a.col_count() || a.row_count() != b.len()),
        r is Err ==> r == Err::<Matrix<T>, AlgError>(AlgError::DimensionMismatch),
        r matches Ok(m) ==> {
            &&& m.wf()
            &&& m.row_count() == a.row_count()
            &&& m.col_count() == a.row_count() + 1
            &&& forall|i: int, j: int|
                0 <= i < a.row_count() && 0 <= j < a.row_count() ==> #[trigger] m.at(i, j) == a.at(i, j)
            &&& forall|i: int| 0 <= i < a.row_count() ==> #[trigger] m.at(i, a.row_count() as int) == b[i]
        },
{
    let n = a.rows();
    if n != a.cols() || n != b.len() {
        return Err(AlgError::DimensionMismatch);
    }
    let mut data: Vec<T> = Vec::new();
    assert(0 * (n + 1) == 0);
    for i in 0..n
        invariant
            n == a.row_count(),
            n == a.col_count(),
            n == b.len(),
            a.wf(),
            data.len() == i * (n + 1),
            forall|r: int, c: int|
                0 <= r < i && 0 <= c < n ==> data[r * (n + 1) + c] == a.at(r, c),
            forall|r: int| 0 <= r < i ==> data[r * (n + 1) + n] == b[r],
    {
        for j in 0..n
            invariant
                n == a.row_count(),
                n == a.col_count(),
                n == b.len(),
                a.wf(),
                i < n,
                data.len() == i * (n + 1) + j,
                forall|r: int, c: int|
                    0 <= r < i && 0 <= c < n ==> data[r * (n + 1) + c] == a.at(r, c),
                forall|r: int| 0 <= r < i ==> data[r * (n + 1) + n] == b[r],
                forall|c: int| 0 <= c < j ==> data[i * (n + 1) + c] == a.at(i as int, c),
        {
            proof {
                lemma_row_index_bound(i as int, j as int, n as int, n as int);
            }
            let v = a.get(i, j);
            data.push(v);
            proof {
                assert forall|r: int, c: int| 0 <= r < i && 0 <= c < n implies data[r * (n + 1) + c]
                    == a.at(r, c) by {
                    lemma_row_index_bound(r, c, i as int, n + 1);
                }
                assert forall|r: int| 0 <= r < i implies data[r * (n + 1) + n] == b[r] by {
                    lemma_row_index_bound(r, n as int, i as int, n + 1);
                }
            }
        }
        data.push(b[i]);
        proof {
            assert(data.len() == (i + 1) * (n + 1)) by (nonlinear_arith)
                requires
                    data.len() == i * (n + 1) + n + 1,
            ;
            assert forall|r: int, c: int| 0 <= r < i && 0 <= c < n implies data[r * (n + 1) + c]
                == a.at(r, c) by {
                lemma_row_index_bound(r, c, i as int, n + 1);
            }
            assert forall|r: int| 0 <= r < i implies data[r * (n + 1) + n] == b[r] by {
                lemma_row_index_bound(r, n as int, i as int, n + 1);
            }
        }
    }
    assert(n + 1 <= usize::MAX) by {
        if n > 0 {
            assert(n * (n + 1) >= n + 1) by (nonlinear_arith)
                requires
                    n > 0,
            ;
        }
    }
    let m = Matrix::new(data, n, n + 1);
    proof {
        assert(m.wf()) by (nonlinear_arith)
            requires
                m.elems().len() == n * (n + 1),
                m.row_count() == n,
                m.col_count() == n + 1,
        ;
    }
    Ok(m)
}

/// Position `r * cols + c` of an element of a row-major block lies before
/// the end of row `rows - 1`.
proof fn lemma_row_index_bound(r: int, c: int, rows: int, cols: int)
    requires
        0 <= r < rows,
        0 <= c < cols,
    ensures
        0 <= r * cols + c < rows * cols,
        r * cols + cols <= rows * cols,
{
    assert(0 <= r * cols) by (nonlinear_arith)
        requires
            0 <= r,
            0 <= c < cols,
    ;
    assert((r + 1) * cols <= rows * cols) by (nonlinear_arith)
        requires
            0 <= r + 1 <= rows,
            0 <= c < cols,
    ;
    assert((r + 1) * cols == r * cols + cols) by (nonlinear_arith);
}

/// Checks that `a * b` is defined: `a` has as many columns as `b` has rows.
pub fn validate_dimensions<T>(a: &Matrix<T>, b: &Matrix<T>) -> (r: Result<(), AlgError>)
    ensures
        r is Ok <==> a.col_count() == b.row_count(),
        r is Err ==> r == Err::<(), AlgError>(AlgError::DimensionMismatch),
{
    if a.cols() != b.rows() {
        return Err(AlgError::DimensionMismatch);
    }
    Ok(())
}

/// Appends `src[start .. end]` to `dest`.
pub(crate) fn append_range<T: Copy>(dest: &mut Vec<T>, src: &[T], start: usize, end: usize)
    requires
        start <= end <= src.len(),
    ensures
        final(dest)@ == old(dest)@ + src@.subrange(start as int, end as int),
{
    let ghost init = dest@;
    for k in start..end
        invariant
            start <= end <= src.len(),
            dest@ == init + src@.subrange(start as int, k as int),
    {
        dest.push(src[k]);
        proof {
            assert(dest@ =~= init + src@.subrange(start as int, k + 1));
        }
    }
}

} // verus!
