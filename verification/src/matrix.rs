//! A dense matrix of bit patterns, stored by `nalgebra` column by column.

use vstd::prelude::*;

verus! {

/// A dense two-dimensional array of 32-bit patterns. Rows are features or
/// neurons, columns are samples. The entries are kept in a `DMatrix<u32>` of
/// `nalgebra`. What is known of one is what `cells` and `dims` name, and of
/// those only what the private functions `raw_...` below say: they call
/// `nalgebra` and state its behaviour without proof.
#[verifier::external_body]
pub struct Matrix {
    inner: nalgebra::DMatrix<u32>,
}

/// The entries of a matrix in storage order: column after column, each from
/// its first row down.
pub uninterp spec fn cells(m: Matrix) -> Seq<u32>;

/// The number of rows and the number of columns of a matrix.
pub uninterp spec fn dims(m: Matrix) -> (nat, nat);

/// What a matrix holds, as a mathematical value.
pub struct Grid {
    pub rows: nat,
    pub cols: nat,
    pub cells: Seq<u32>,
}

impl Grid {
    /// There is one cell for each pair of a row and a column.
    pub open spec fn wf(self) -> bool {
        self.cells.len() == self.rows * self.cols
    }

    /// The entry in row `i` and column `j`.
    pub open spec fn at(self, i: int, j: int) -> u32 {
        self.cells[j * self.rows + i]
    }

    /// The rows and columns as a pair.
    pub open spec fn shape(self) -> (nat, nat) {
        (self.rows, self.cols)
    }

    /// Column `j`, from its first row down.
    pub open spec fn column(self, j: int) -> Seq<u32> {
        self.cells.subrange(j * self.rows, (j + 1) * self.rows)
    }

    /// Row `i`, from its first column on.
    pub open spec fn row(self, i: int) -> Seq<u32> {
        Seq::new(self.cols, |j: int| self.at(i, j))
    }

    /// The grid made of the columns `start..end`.
    pub open spec fn columns(self, start: int, end: int) -> Grid {
        Grid {
            rows: self.rows,
            cols: (end - start) as nat,
            cells: self.cells.subrange(start * self.rows, end * self.rows),
        }
    }

    /// The grid of the given shape whose every cell is zero.
    pub open spec fn zeros(rows: nat, cols: nat) -> Grid {
        Grid { rows, cols, cells: Seq::new(rows * cols, |k: int| 0u32) }
    }
}

/// The row that stands at `i` once rows `a` and `b` have changed places.
pub open spec fn swapped(i: int, a: int, b: int) -> int {
    if i == a {
        b
    } else if i == b {
        a
    } else {
        i
    }
}

impl View for Matrix {
    type V = Grid;

    open spec fn view(&self) -> Grid {
        Grid { rows: dims(*self).0, cols: dims(*self).1, cells: cells(*self) }
    }
}

/// A cell's place in storage lies inside the storage.
pub proof fn lemma_cell_in_range(rows: int, cols: int, i: int, j: int)
    requires
        0 <= i < rows,
        0 <= j < cols,
    ensures
        0 <= j * rows + i < rows * cols,
        j * rows + i < (j + 1) * rows,
        (j + 1) * rows <= rows * cols,
{
    assert(j * rows >= 0) by (nonlinear_arith)
        requires
            j >= 0,
            rows >= 0,
    ;
    assert((j + 1) * rows == j * rows + rows) by (nonlinear_arith);
    assert((j + 1) * rows <= cols * rows) by (nonlinear_arith)
        requires
            j + 1 <= cols,
            rows >= 0,
    ;
    assert(cols * rows == rows * cols) by (nonlinear_arith);
}

/// A run of whole columns lies inside the storage.
pub proof fn lemma_columns_in_range(rows: int, cols: int, start: int, end: int)
    requires
        0 <= rows,
        0 <= start <= end <= cols,
    ensures
        0 <= start * rows <= end * rows <= rows * cols,
        end * rows - start * rows == rows * (end - start),
{
    assert(0 <= start * rows) by (nonlinear_arith)
        requires
            0 <= start,
            0 <= rows,
    ;
    assert(start * rows <= end * rows) by (nonlinear_arith)
        requires
            start <= end,
            0 <= rows,
    ;
    assert(end * rows <= cols * rows) by (nonlinear_arith)
        requires
            end <= cols,
            0 <= rows,
    ;
    assert(cols * rows == rows * cols) by (nonlinear_arith);
    assert(end * rows - start * rows == rows * (end - start)) by (nonlinear_arith);
}

impl Matrix {
    /// `DMatrix::zeros`: a matrix of the given shape with every entry zero.
    /// The shape must have a cell count that fits a `usize`; `nalgebra`
    /// multiplies the two without a check.
    #[verifier::external_body]
    fn raw_zeros(rows: usize, cols: usize) -> (m: Matrix)
        requires
            rows * cols <= usize::MAX,
        ensures
            dims(m) == (rows as nat, cols as nat),
            cells(m) == Seq::new((rows * cols) as nat, |k: int| 0u32),
    {
        Matrix { inner: nalgebra::DMatrix::zeros(rows, cols) }
    }

    /// `DMatrix::from_column_slice`: a matrix of the given shape filled from
    /// `data` in storage order. `nalgebra` panics unless `data` has exactly
    /// one item per cell.
    #[verifier::external_body]
    fn raw_from_column_slice(rows: usize, cols: usize, data: &[u32]) -> (m: Matrix)
        requires
            data@.len() == rows * cols,
        ensures
            dims(m) == (rows as nat, cols as nat),
            cells(m) == data@,
    {
        Matrix { inner: nalgebra::DMatrix::from_column_slice(rows, cols, data) }
    }

    /// `Matrix::shape`: the number of rows and of columns. Storage keeps one
    /// entry per cell, in a `Vec`: `nalgebra` checks the count whenever it
    /// makes storage, and every matrix of this type was made by `raw_zeros`,
    /// `raw_from_column_slice` or `raw_columns_range`.
    #[verifier::external_body]
    fn raw_shape(&self) -> (s: (usize, usize))
        ensures
            dims(*self) == (s.0 as nat, s.1 as nat),
            cells(*self).len() == s.0 * s.1,
            s.0 * s.1 <= usize::MAX,
    {
        self.inner.shape()
    }

    /// Indexing by `(row, column)`: the entry at that place, which storage
    /// keeps at `column * rows + row`. `nalgebra` panics outside the shape.
    #[verifier::external_body]
    fn raw_index(&self, i: usize, j: usize) -> (v: u32)
        requires
            i < dims(*self).0,
            j < dims(*self).1,
        ensures
            v == cells(*self)[j * dims(*self).0 + i],
    {
        self.inner[(i, j)]
    }

    /// `Matrix::swap_rows`: exchanges two rows in place and leaves every
    /// other entry alone. `nalgebra` panics unless both rows exist.
    #[verifier::external_body]
    fn raw_swap_rows(&mut self, a: usize, b: usize)
        requires
            a < dims(*old(self)).0,
            b < dims(*old(self)).0,
        ensures
            dims(*final(self)) == dims(*old(self)),
            cells(*final(self)).len() == cells(*old(self)).len(),
            forall|i: int, j: int|
                0 <= i < dims(*old(self)).0 && 0 <= j < dims(*old(self)).1 ==> cells(
                    *final(self),
                )[#[trigger] (j * dims(*old(self)).0 + i)] == cells(*old(self))[j * dims(
                    *old(self),
                ).0 + swapped(i, a as int, b as int)],
    {
        self.inner.swap_rows(a, b)
    }

    /// `Matrix::columns_range`, copied into a matrix of its own: the columns
    /// `start..end`, which storage keeps in one piece. `nalgebra` subtracts
    /// `start` from `end` without a check and panics when the range leaves
    /// the matrix.
    #[verifier::external_body]
    fn raw_columns_range(&self, start: usize, end: usize) -> (m: Matrix)
        requires
            start <= end <= dims(*self).1,
        ensures
            dims(m) == (dims(*self).0, (end - start) as nat),
            cells(m) == cells(*self).subrange(start * dims(*self).0, end * dims(*self).0),
    {
        Matrix { inner: self.inner.columns_range(start..end).into_owned() }
    }

    /// `Matrix::as_slice`, copied into a `Vec`: the entries in storage order.
    #[verifier::external_body]
    fn raw_as_slice(&self) -> (v: Vec<u32>)
        ensures
            v@ == cells(*self),
    {
        self.inner.as_slice().to_vec()
    }

    /// The number of rows and the number of columns.
    pub fn shape(&self) -> (s: (usize, usize))
        ensures
            s.0 == self@.rows,
            s.1 == self@.cols,
            s.0 * s.1 <= usize::MAX,
            self@.wf(),
    {
        self.raw_shape()
    }

    /// The number of rows.
    pub fn nrows(&self) -> (n: usize)
        ensures
            n == self@.rows,
            self@.wf(),
    {
        self.raw_shape().0
    }

    /// The number of columns.
    pub fn ncols(&self) -> (n: usize)
        ensures
            n == self@.cols,
            self@.wf(),
    {
        self.raw_shape().1
    }

    /// A matrix of the given shape with every entry zero, or `None` when the
    /// shape has more cells than a `usize` can count.
    pub fn zeros(rows: usize, cols: usize) -> (r: Option<Matrix>)
        ensures
            r is Some <==> rows * cols <= usize::MAX,
            r matches Some(m) ==> m@ == Grid::zeros(rows as nat, cols as nat) && m@.wf(),
    {
        match rows.checked_mul(cols) {
            Some(_) => Some(Matrix::raw_zeros(rows, cols)),
            None => None,
        }
    }

    /// A matrix of the given shape filled from `data` in storage order, or
    /// `None` unless `data` has exactly one item per cell.
    pub fn from_column_slice(rows: usize, cols: usize, data: &[u32]) -> (r: Option<Matrix>)
        ensures
            r is Some <==> data@.len() == rows * cols,
            r matches Some(m) ==> m@ == (Grid {
                rows: rows as nat,
                cols: cols as nat,
                cells: data@,
            }) && m@.wf(),
    {
        let len: usize = data.len();
        match rows.checked_mul(cols) {
            Some(n) => {
                if n == len {
                    Some(Matrix::raw_from_column_slice(rows, cols, data))
                } else {
                    None
                }
            },
            None => None,
        }
    }

    /// The entry in row `i` and column `j`, or `None` outside the shape.
    pub fn get(&self, i: usize, j: usize) -> (r: Option<u32>)
        ensures
            r is Some <==> i < self@.rows && j < self@.cols,
            r matches Some(v) ==> v == self@.at(i as int, j as int),
    {
        let (rows, cols) = self.raw_shape();
        if i < rows && j < cols {
            Some(self.raw_index(i, j))
        } else {
            None
        }
    }

    /// The entry in row `i` and column `j` of a matrix that has that cell.
    pub fn at(&self, i: usize, j: usize) -> (v: u32)
        requires
            i < self@.rows,
            j < self@.cols,
        ensures
            v == self@.at(i as int, j as int),
    {
        self.raw_index(i, j)
    }

    /// Exchanges rows `a` and `b` in place. Returns false, and changes
    /// nothing, unless both rows exist.
    pub fn swap_rows(&mut self, a: usize, b: usize) -> (done: bool)
        ensures
            done <==> a < old(self)@.rows && b < old(self)@.rows,
            !done ==> final(self)@ == old(self)@,
            final(self)@.shape() == old(self)@.shape(),
            final(self)@.wf() == old(self)@.wf(),
            done ==> forall|i: int, j: int|
                0 <= i < old(self)@.rows && 0 <= j < old(self)@.cols ==> #[trigger] final(self)@.at(
                    i,
                    j,
                ) == old(self)@.at(swapped(i, a as int, b as int), j),
    {
        let (rows, _) = self.raw_shape();
        if a < rows && b < rows {
            self.raw_swap_rows(a, b);
            true
        } else {
            false
        }
    }

    /// A copy of the columns `start..end`, or `None` unless
    /// `start <= end` and `end` is at most the number of columns.
    pub fn columns_range(&self, start: usize, end: usize) -> (r: Option<Matrix>)
        ensures
            r is Some <==> start <= end <= self@.cols,
            r matches Some(m) ==> m@ == self@.columns(start as int, end as int) && m@.wf(),
    {
        let (rows, cols) = self.raw_shape();
        if start <= end && end <= cols {
            let m = self.raw_columns_range(start, end);
            proof {
                lemma_columns_in_range(rows as int, cols as int, start as int, end as int);
            }
            Some(m)
        } else {
            None
        }
    }

    /// The entries in storage order: column after column.
    pub fn to_vec(&self) -> (v: Vec<u32>)
        ensures
            v@ == self@.cells,
    {
        self.raw_as_slice()
    }
}

} // verus!
