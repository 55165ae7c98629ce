//! The embedding store: a row-major matrix of fixed-point vectors.
use vstd::prelude::*;
use crate::error::ClusterError;

verus! {

/// The largest number of rows a matrix may have.
pub const MAX_ROWS: usize = 1048576;

/// The largest number of columns a matrix may have.
pub const MAX_DIM: usize = 65536;

/// `rows` vectors of `dim` fixed-point components each, stored row after
/// row. Built once, read only afterwards.
pub struct EmbeddingMatrix {
    values: Vec<i16>,
    rows: usize,
    dim: usize,
}

/// Component `k` of row `r` of a flat row-major value list with `dim`
/// columns.
pub open spec fn cell(values: Seq<i16>, dim: int, r: int, k: int) -> int {
    values[r * dim + k] as int
}

/// Row `r` of a flat row-major value list with `dim` columns is the zero
/// vector.
pub open spec fn is_zero_row(values: Seq<i16>, dim: int, r: int) -> bool {
    forall|k: int| 0 <= k < dim ==> #[trigger] cell(values, dim, r, k) == 0
}

/// `a * dim + b` addresses a cell of a `rows` by `dim` matrix.
pub proof fn lemma_cell_in_range(a: int, b: int, rows: int, dim: int)
    requires
        0 <= a < rows,
        0 <= b < dim,
    ensures
        0 <= a * dim + b < rows * dim,
{
    assert(a * dim + b < rows * dim) by (nonlinear_arith)
        requires 0 <= a < rows, 0 <= b < dim;
    assert(0 <= a * dim) by (nonlinear_arith)
        requires 0 <= a, 0 <= b < dim;
}

impl EmbeddingMatrix {
    /// Number of vectors.
    pub closed spec fn num_rows(&self) -> nat {
        self.rows as nat
    }

    /// Length of each vector.
    pub closed spec fn num_cols(&self) -> nat {
        self.dim as nat
    }

    /// Component `k` of row `r`.
    pub closed spec fn at(&self, r: int, k: int) -> int {
        cell(self.values@, self.dim as int, r, k)
    }

    /// The shape fits the limits, every cell is stored, and no row is zero.
    pub closed spec fn wf(&self) -> bool {
        &&& self.values@.len() == self.rows * self.dim
        &&& self.rows * self.dim <= usize::MAX
        &&& self.rows <= MAX_ROWS
        &&& 1 <= self.dim <= MAX_DIM
        &&& forall|r: int| 0 <= r < self.rows ==> !is_zero_row(self.values@, self.dim as int, r)
    }

    /// What a well-formed matrix guarantees to its readers.
    pub proof fn lemma_wf(&self)
        requires
            self.wf(),
        ensures
            self.num_rows() <= MAX_ROWS,
            1 <= self.num_cols() <= MAX_DIM,
            forall|r: int, k: int|
                0 <= r < self.num_rows() && 0 <= k < self.num_cols() ==> -32768 <= #[trigger] self.at(r, k) <= 32767,
    {
    }

    /// Builds a matrix from `rows * dim` values stored row after row.
    /// Fails with `MalformedInput` when `dim` is zero or the list has another
    /// length, with `TooLarge` when the shape exceeds the limits, and with
    /// `DegenerateVector` when some row is all zeros.
    pub fn new(values: Vec<i16>, rows: usize, dim: usize) -> (r: Result<EmbeddingMatrix, ClusterError>)
        ensures
            dim == 0 || values@.len() != rows * dim ==> r == Err::<EmbeddingMatrix, ClusterError>(ClusterError::MalformedInput),
            dim >= 1 && values@.len() == rows * dim && (rows > MAX_ROWS || dim > MAX_DIM)
                ==> r == Err::<EmbeddingMatrix, ClusterError>(ClusterError::TooLarge),
            dim >= 1 && values@.len() == rows * dim && rows <= MAX_ROWS && dim <= MAX_DIM ==> {
                &&& (exists|i: int| 0 <= i < rows && is_zero_row(values@, dim as int, i))
                    <==> r == Err::<EmbeddingMatrix, ClusterError>(ClusterError::DegenerateVector)
                &&& !(exists|i: int| 0 <= i < rows && is_zero_row(values@, dim as int, i)) <==> r is Ok
                &&& r is Ok ==> {
                    &&& r->Ok_0.wf()
                    &&& r->Ok_0.num_rows() == rows
                    &&& r->Ok_0.num_cols() == dim
                    &&& forall|i: int, k: int| 0 <= i < rows && 0 <= k < dim
                        ==> #[trigger] r->Ok_0.at(i, k) == cell(values@, dim as int, i, k)
                }
            },
    {
        if dim == 0 {
            return Err(ClusterError::MalformedInput);
        }
        assert(rows * dim <= usize::MAX * usize::MAX) by (nonlinear_arith)
            requires rows <= usize::MAX, dim <= usize::MAX;
        if values.len() as u128 != rows as u128 * dim as u128 {
            return Err(ClusterError::MalformedInput);
        }
        if rows > MAX_ROWS || dim > MAX_DIM {
            return Err(ClusterError::TooLarge);
        }
        let mut i: usize = 0;
        while i < rows
            invariant
                i <= rows,
                rows <= MAX_ROWS,
                1 <= dim <= MAX_DIM,
                values@.len() == rows * dim,
                values@.len() <= usize::MAX,
                forall|j: int| 0 <= j < i ==> !is_zero_row(values@, dim as int, j),
            decreases rows - i,
        {
            let mut k: usize = 0;
            let mut nonzero = false;
            while k < dim && !nonzero
                invariant
                    k <= dim,
                    i < rows,
                    rows <= MAX_ROWS,
                    1 <= dim <= MAX_DIM,
                    values@.len() == rows * dim,
                    values@.len() <= usize::MAX,
                    nonzero ==> !is_zero_row(values@, dim as int, i as int),
                    !nonzero ==> forall|m: int| 0 <= m < k ==> #[trigger] cell(values@, dim as int, i as int, m) == 0,
                decreases dim - k + (if nonzero { 0int } else { 1int }),
            {
                proof { lemma_cell_in_range(i as int, k as int, rows as int, dim as int); }
                if values[i * dim + k] != 0 {
                    assert(cell(values@, dim as int, i as int, k as int) != 0);
                    nonzero = true;
                }
                k = k + 1;
            }
            if !nonzero {
                assert(is_zero_row(values@, dim as int, i as int));
                return Err(ClusterError::DegenerateVector);
            }
            i = i + 1;
        }
        let m = EmbeddingMatrix { values, rows, dim };
        Ok(m)
    }

    /// Number of vectors.
    pub fn rows(&self) -> (r: usize)
        ensures
            r == self.num_rows(),
    {
        self.rows
    }

    /// Length of each vector.
    pub fn dim(&self) -> (r: usize)
        ensures
            r == self.num_cols(),
    {
        self.dim
    }

    /// Component `k` of row `r`.
    pub fn value(&self, r: usize, k: usize) -> (v: i16)
        requires
            self.wf(),
            r < self.num_rows(),
            k < self.num_cols(),
        ensures
            v as int == self.at(r as int, k as int),
    {
        proof { lemma_cell_in_range(r as int, k as int, self.rows as int, self.dim as int); }
        self.values[r * self.dim + k]
    }
}

} // verus!
