use vstd::prelude::*;

use core::ops::Range;

use crate::error::MatrixFormatError;

verus! {

/// Matrix of an arbitrary type. Data are stored consecutively in
/// memory, by rows: the cell at coordinates `(r, c)` lives at offset
/// `r * columns + c` of the backing store.
#[derive(Clone, Debug, PartialEq, Eq, Hash)]
pub struct Matrix<C> {
    /// Rows
    pub rows: usize,
    /// Columns
    pub columns: usize,
    /// Backing store, row-major. Kept consistent with `rows` and
    /// `columns` by every operation of the library; direct writers
    /// must uphold [`wf`](Matrix::wf) themselves.
    pub data: Vec<C>,
}

impl<C> Matrix<C> {
    /// The backing store seen as a mathematical sequence, row-major.
    pub open spec fn store(&self) -> Seq<C> {
        self.data@
    }

    /// The element at coordinates `(r, c)`.
    pub open spec fn cell(&self, r: int, c: int) -> C
        recommends
            0 <= r < self.rows,
            0 <= c < self.columns,
    {
        self.store()[r * self.columns + c]
    }

    /// Structural invariant: the store holds exactly `rows * columns`
    /// elements, and no matrix has nonzero rows of zero width. A
    /// zero-row matrix may have any column count: it is the prototype
    /// shape awaiting row-by-row population.
    pub open spec fn wf(&self) -> bool {
        &&& self.store().len() == self.rows * self.columns
        &&& self.rows > 0 ==> self.columns > 0
    }
}

/// The square of an integer.
pub open spec fn square(s: int) -> int {
    s * s
}

/// Exact integer square root: `Some(s)` exactly when `n` is a perfect
/// square, with `s * s == n`; `None` otherwise. No floating-point error
/// tolerance is involved.
fn exact_sqrt(n: usize) -> (r: Option<usize>)
    ensures
        match r {
            Some(s) => square(s as int) == n,
            None => forall|s: int| s >= 0 ==> square(s) != n,
        },
{
    let mut lo: usize = 0;
    let mut hi: usize = n;
    proof {
        assert((n + 1) * (n + 1) > n) by (nonlinear_arith);
    }
    while lo < hi
        invariant
            0 <= lo <= hi <= n,
            lo * lo <= n,
            (hi + 1) * (hi + 1) > n,
        decreases hi - lo,
    {
        let mid = lo + (hi - lo) / 2 + 1;
        match mid.checked_mul(mid) {
            Some(sq) if sq <= n => {
                lo = mid;
            },
            _ => {
                hi = mid - 1;
            },
        }
    }
    if lo * lo == n {
        Some(lo)
    } else {
        proof {
            assert forall|s: int| s >= 0 implies square(s) != n by {
                if s <= lo {
                    assert(s * s <= lo * lo) by (nonlinear_arith)
                        requires
                            0 <= s <= lo,
                    ;
                } else {
                    assert(s * s >= (lo + 1) * (lo + 1)) by (nonlinear_arith)
                        requires
                            s >= lo + 1,
                            lo >= 0,
                    ;
                }
            }
        }
        None
    }
}

/// A cell of a `rows × columns` grid lies strictly inside the store.
pub(crate) proof fn lemma_row_major_bound(r: int, c: int, rows: int, columns: int)
    by (nonlinear_arith)
    requires
        0 <= r < rows,
        0 <= c < columns,
    ensures
        0 <= r * columns + c < rows * columns,
{
}

/// Appending one more row of width `b` grows a row-major store by `b`.
pub(crate) proof fn lemma_mul_succ_row(a: int, b: int)
    by (nonlinear_arith)
    ensures
        (a + 1) * b == a * b + b,
{
}

/// Row-major offsets are injective: distinct cells have distinct offsets.
pub(crate) proof fn lemma_row_major_injective(r1: int, c1: int, r2: int, c2: int, columns: int)
    by (nonlinear_arith)
    requires
        0 <= c1 < columns,
        0 <= c2 < columns,
        r1 >= 0,
        r2 >= 0,
        r1 * columns + c1 == r2 * columns + c2,
    ensures
        r1 == r2,
        c1 == c2,
{
}

impl<C: Clone> Matrix<C> {
    /// Create a new matrix filled with an initial value.
    ///
    /// Creating a matrix with nonzero rows and zero columns is a caller
    /// contract violation, excluded by precondition. To build a matrix
    /// column by column, build it row by row and call transposition or
    /// rotation functions on it.
    pub fn new(rows: usize, columns: usize, value: C) -> (m: Self)
        requires
            rows == 0 || columns > 0,
            rows * columns <= usize::MAX,
        ensures
            m.wf(),
            m.rows == rows,
            m.columns == columns,
            forall|i: int| 0 <= i < m.store().len() ==> cloned(value, #[trigger] m.store()[i]),
    {
        let total = rows * columns;
        let mut data: Vec<C> = Vec::new();
        while data.len() < total
            invariant
                data.len() <= total,
                forall|i: int| 0 <= i < data.len() ==> cloned(value, #[trigger] data@[i]),
            decreases total - data.len(),
        {
            data.push(value.clone());
        }
        Matrix { rows, columns, data }
    }

    /// Create a new square matrix filled with an initial value.
    pub fn new_square(size: usize, value: C) -> (m: Self)
        requires
            size * size <= usize::MAX,
        ensures
            m.wf(),
            m.rows == size,
            m.columns == size,
            forall|i: int| 0 <= i < m.store().len() ==> cloned(value, #[trigger] m.store()[i]),
    {
        Self::new(size, size, value)
    }

    /// Return a copy of a rectangular sub-region, or `WrongIndex` if a
    /// range's upper bound exceeds the matrix's dimension. The ranges
    /// are half-open. A sub-region with rows but no columns would have
    /// empty rows and fails with `EmptyRow`.
    pub fn slice(&self, rows: Range<usize>, columns: Range<usize>) -> (r: Result<
        Self,
        MatrixFormatError,
    >)
        requires
            self.wf(),
            rows.start <= rows.end,
            columns.start <= columns.end,
        ensures
            rows.end > self.rows || columns.end > self.columns ==> r == Err::<
                Self,
                _,
            >(MatrixFormatError::WrongIndex),
            rows.end <= self.rows && columns.end <= self.columns && rows.end > rows.start
                && columns.end == columns.start ==> r == Err::<Self, _>(MatrixFormatError::EmptyRow),
            rows.end <= self.rows && columns.end <= self.columns && (rows.end == rows.start
                || columns.end > columns.start) ==> (r matches Ok(m) && {
                &&& m.wf()
                &&& m.rows == rows.end - rows.start
                &&& m.columns == columns.end - columns.start
                &&& forall|i: int, j: int|
                    0 <= i < m.rows && 0 <= j < m.columns ==> cloned(
                        self.cell(rows.start + i, columns.start + j),
                        #[trigger] m.cell(i, j),
                    )
            }),
    {
        if rows.end > self.rows || columns.end > self.columns {
            return Err(MatrixFormatError::WrongIndex);
        }
        let height = rows.end - rows.start;
        let width = columns.end - columns.start;
        if height > 0 && width == 0 {
            return Err(MatrixFormatError::EmptyRow);
        }
        let mut v: Vec<C> = Vec::new();
        let mut i: usize = 0;
        while i < height
            invariant
                0 <= i <= height,
                self.wf(),
                height == rows.end - rows.start,
                width == columns.end - columns.start,
                rows.end <= self.rows,
                columns.end <= self.columns,
                v@.len() == i * width,
                forall|a: int, b: int|
                    0 <= a < i && 0 <= b < width ==> cloned(
                        self.cell(rows.start + a, columns.start + b),
                        #[trigger] v@[a * width + b],
                    ),
            decreases height - i,
        {
            let mut j: usize = 0;
            while j < width
                invariant
                    0 <= j <= width,
                    0 <= i < height,
                    self.wf(),
                    height == rows.end - rows.start,
                    width == columns.end - columns.start,
                    rows.end <= self.rows,
                    columns.end <= self.columns,
                    v@.len() == i * width + j,
                    forall|a: int, b: int|
                        0 <= a < i && 0 <= b < width ==> cloned(
                            self.cell(rows.start + a, columns.start + b),
                            #[trigger] v@[a * width + b],
                        ),
                    forall|b: int|
                        0 <= b < j ==> cloned(
                            self.cell(rows.start + i, columns.start + b),
                            #[trigger] v@[i as int * width + b],
                        ),
                decreases width - j,
            {
                let k = self.idx_unchecked((rows.start + i, columns.start + j));
                let e = &self.data[k];
                v.push(e.clone());
                proof {
                    lemma_row_major_bound(i as int, j as int, i as int + 1, width as int);
                    assert forall|a: int, b: int|
                        0 <= a < i && 0 <= b < width implies cloned(
                        self.cell(rows.start + a, columns.start + b),
                        #[trigger] v@[a * width + b],
                    ) by {
                        lemma_row_major_bound(a, b, i as int, width as int);
                    }
                }
                j = j + 1;
            }
            proof {
                lemma_mul_succ_row(i as int, width as int);
            }
            i = i + 1;
        }
        let m = Matrix { rows: height, columns: width, data: v };
        proof {
            assert forall|a: int, b: int|
                0 <= a < m.rows && 0 <= b < m.columns implies cloned(
                self.cell(rows.start + a, columns.start + b),
                #[trigger] m.cell(a, b),
            ) by {
                lemma_row_major_bound(a, b, m.rows as int, m.columns as int);
            }
        }
        Ok(m)
    }

    /// Extend the matrix in place by adding one full row. `EmptyRow` is
    /// returned if an empty row is passed, and `WrongLength` if the row
    /// does not have the expected number of elements; in both cases the
    /// matrix is left untouched.
    pub fn extend(&mut self, row: &[C]) -> (r: Result<(), MatrixFormatError>)
        requires
            old(self).wf(),
            old(self).rows < usize::MAX,
        ensures
            final(self).wf(),
            row@.len() == 0 ==> r == Err::<(), _>(MatrixFormatError::EmptyRow) && *final(self)
                == *old(self),
            row@.len() > 0 && row@.len() != old(self).columns ==> r == Err::<
                (),
                _,
            >(MatrixFormatError::WrongLength) && *final(self) == *old(self),
            row@.len() > 0 && row@.len() == old(self).columns ==> {
                &&& r == Ok::<(), MatrixFormatError>(())
                &&& final(self).rows == old(self).rows + 1
                &&& final(self).columns == old(self).columns
                &&& final(self).store().len() == old(self).store().len() + old(self).columns
                &&& forall|i: int|
                    0 <= i < old(self).store().len() ==> final(self).store()[i] == old(
                        self,
                    ).store()[i]
                &&& forall|j: int|
                    0 <= j < old(self).columns ==> cloned(
                        row@[j],
                        #[trigger] final(self).store()[old(self).store().len() + j],
                    )
            },
    {
        if row.len() == 0 {
            return Err(MatrixFormatError::EmptyRow);
        }
        if self.columns != row.len() {
            return Err(MatrixFormatError::WrongLength);
        }
        self.rows = self.rows + 1;
        let mut j: usize = 0;
        while j < row.len()
            invariant
                0 <= j <= row@.len(),
                row@.len() == self.columns,
                self.rows == old(self).rows + 1,
                self.columns == old(self).columns,
                self.data@.len() == old(self).store().len() + j,
                forall|i: int|
                    0 <= i < old(self).store().len() ==> self.data@[i] == old(self).store()[i],
                forall|i: int|
                    0 <= i < j ==> cloned(
                        row@[i],
                        #[trigger] self.data@[old(self).store().len() + i],
                    ),
            decreases row@.len() - j,
        {
            let e = &row[j];
            self.data.push(e.clone());
            j = j + 1;
        }
        proof {
            lemma_mul_succ_row(old(self).rows as int, old(self).columns as int);
        }
        Ok(())
    }

    /// Transform the matrix into another matrix with the same shape by
    /// applying a transforming function to every element, row-major.
    pub fn map<O, F: Fn(C) -> O>(self, transform: F) -> (r: Matrix<O>)
        requires
            self.wf(),
            forall|i: int|
                0 <= i < self.store().len() ==> call_requires(transform, (#[trigger] self.store()[i],)),
        ensures
            r.wf(),
            r.rows == self.rows,
            r.columns == self.columns,
            r.store().len() == self.store().len(),
            forall|i: int|
                0 <= i < r.store().len() ==> call_ensures(
                    transform,
                    (self.store()[i],),
                    #[trigger] r.store()[i],
                ),
    {
        let ghost orig = self;
        let Matrix { rows, columns, data } = self;
        let mut rem = data;
        let mut out: Vec<O> = Vec::new();
        while rem.len() > 0
            invariant
                orig.store().len() == out@.len() + rem@.len(),
                forall|k: int| 0 <= k < rem@.len() ==> rem@[k] == orig.store()[out@.len() + k],
                forall|i: int|
                    0 <= i < orig.store().len() ==> call_requires(
                        transform,
                        (#[trigger] orig.store()[i],),
                    ),
                forall|i: int|
                    0 <= i < out@.len() ==> call_ensures(
                        transform,
                        (orig.store()[i],),
                        #[trigger] out@[i],
                    ),
            decreases rem@.len(),
        {
            let x = rem.remove(0);
            let y = transform(x);
            out.push(y);
        }
        Matrix { rows, columns, data: out }
    }

    /// Refill the matrix with a known value, keeping its shape.
    pub fn fill(&mut self, value: C)
        requires
            old(self).wf(),
        ensures
            final(self).wf(),
            final(self).rows == old(self).rows,
            final(self).columns == old(self).columns,
            final(self).store().len() == old(self).store().len(),
            forall|i: int|
                0 <= i < final(self).store().len() ==> cloned(
                    value,
                    #[trigger] final(self).store()[i],
                ),
    {
        // binding the length pins `rows * columns` below a machine word
        let _n: usize = self.data.len();
        let total = self.rows * self.columns;
        self.data.clear();
        while self.data.len() < total
            invariant
                self.data.len() <= total,
                self.rows == old(self).rows,
                self.columns == old(self).columns,
                total == self.rows * self.columns,
                forall|i: int| 0 <= i < self.data.len() ==> cloned(value, #[trigger] self.data@[i]),
            decreases total - self.data.len(),
        {
            self.data.push(value.clone());
        }
    }
}

impl<C: Copy> Matrix<C> {
    /// Replace a rectangular region of the current matrix, starting at
    /// `pos`, with the content of another one. Only as much of `slice`
    /// as fits is written: the copied region is clipped to the target's
    /// bounds, and the target is never extended.
    pub fn set_slice(&mut self, pos: (usize, usize), slice: &Self)
        requires
            old(self).wf(),
            slice.wf(),
            pos.0 <= old(self).rows,
            pos.1 <= old(self).columns,
        ensures
            final(self).wf(),
            final(self).rows == old(self).rows,
            final(self).columns == old(self).columns,
            ({
                let h = if old(self).rows - pos.0 < slice.rows {
                    old(self).rows - pos.0
                } else {
                    slice.rows as int
                };
                let w = if old(self).columns - pos.1 < slice.columns {
                    old(self).columns - pos.1
                } else {
                    slice.columns as int
                };
                &&& forall|i: int, j: int|
                    0 <= i < h && 0 <= j < w ==> #[trigger] final(self).cell(pos.0 + i, pos.1 + j)
                        == slice.cell(i, j)
                &&& forall|r: int, c: int|
                    old(self).in_bounds(r, c) && !(pos.0 <= r < pos.0 + h && pos.1 <= c < pos.1 + w)
                        ==> #[trigger] final(self).cell(r, c) == old(self).cell(r, c)
            }),
    {
        let row = pos.0;
        let column = pos.1;
        let height = if self.rows - row < slice.rows {
            self.rows - row
        } else {
            slice.rows
        };
        let width = if self.columns - column < slice.columns {
            self.columns - column
        } else {
            slice.columns
        };
        let mut i: usize = 0;
        while i < height
            invariant
                0 <= i <= height,
                self.rows == old(self).rows,
                self.columns == old(self).columns,
                self.wf(),
                slice.wf(),
                row == pos.0,
                column == pos.1,
                row + height <= self.rows,
                column + width <= self.columns,
                height <= slice.rows,
                width <= slice.columns,
                forall|a: int, b: int|
                    0 <= a < i && 0 <= b < width ==> #[trigger] self.cell(row + a, column + b)
                        == slice.cell(a, b),
                forall|r: int, c: int|
                    old(self).in_bounds(r, c) && !(row <= r < row + i && column <= c < column
                        + width) ==> #[trigger] self.cell(r, c) == old(self).cell(r, c),
            decreases height - i,
        {
            let mut j: usize = 0;
            while j < width
                invariant
                    0 <= j <= width,
                    0 <= i < height,
                    self.rows == old(self).rows,
                    self.columns == old(self).columns,
                    self.wf(),
                    slice.wf(),
                    row == pos.0,
                    column == pos.1,
                    row + height <= self.rows,
                    column + width <= self.columns,
                    height <= slice.rows,
                    width <= slice.columns,
                    forall|a: int, b: int|
                        0 <= a < i && 0 <= b < width ==> #[trigger] self.cell(row + a, column + b)
                            == slice.cell(a, b),
                    forall|b: int|
                        0 <= b < j ==> #[trigger] self.cell(row + i, column + b) == slice.cell(
                            i as int,
                            b,
                        ),
                    forall|r: int, c: int|
                        old(self).in_bounds(r, c) && !(row <= r < row + i && column <= c < column
                            + width) && !(r == row + i && column <= c < column + j)
                            ==> #[trigger] self.cell(r, c) == old(self).cell(r, c),
                decreases width - j,
            {
                let ghost at_entry = *self;
                let src = slice.idx_unchecked((i, j));
                let e = slice.data[src];
                let dst = self.idx_unchecked((row + i, column + j));
                self.data[dst] = e;
                proof {
                    assert(self.data@ == at_entry.data@.update(dst as int, e));
                    assert forall|r: int, c: int|
                        at_entry.in_bounds(r, c) && !(r == row + i && c == column + j)
                            implies #[trigger] self.cell(r, c) == at_entry.cell(r, c) by {
                        lemma_row_major_bound(r, c, self.rows as int, self.columns as int);
                        if r * self.columns + c == (row + i) * self.columns + (column + j) {
                            lemma_row_major_injective(
                                r,
                                c,
                                row + i,
                                column + j,
                                self.columns as int,
                            );
                        }
                    }
                    assert(self.cell(row + i, column + j) == slice.cell(i as int, j as int));
                }
                j = j + 1;
            }
            i = i + 1;
        }
    }
}

impl<C> Matrix<C> {
    /// Create a new matrix from flat values in row-major order. The first
    /// value is assigned to cell `(0, 0)`, the second one to `(0, 1)`, and
    /// so on. `EmptyRow` is returned for a shape with nonzero rows of zero
    /// width, and `WrongLength` when the data length does not correspond
    /// to the announced size.
    pub fn from_vec(rows: usize, columns: usize, values: Vec<C>) -> (r: Result<
        Self,
        MatrixFormatError,
    >)
        ensures
            rows != 0 && columns == 0 ==> r == Err::<Self, _>(MatrixFormatError::EmptyRow),
            (rows == 0 || columns > 0) && rows * columns != values@.len() ==> r == Err::<
                Self,
                _,
            >(MatrixFormatError::WrongLength),
            (rows == 0 || columns > 0) && rows * columns == values@.len() ==> (r matches Ok(m)
                && m == (Matrix { rows, columns, data: values })),
            r matches Ok(m) ==> m.wf() && m.rows == rows && m.columns == columns && m.store()
                == values@,
    {
        if rows != 0 && columns == 0 {
            return Err(MatrixFormatError::EmptyRow);
        }
        let n = values.len();
        match rows.checked_mul(columns) {
            Some(total) if total == n => Ok(Matrix { rows, columns, data: values }),
            _ => Err(MatrixFormatError::WrongLength),
        }
    }

    /// Create a matrix from a sequence of rows. The first row establishes
    /// the column count and every subsequent row must match it exactly,
    /// else the call fails with `WrongLength`. A nonempty sequence of
    /// empty rows fails with `EmptyRow`. An entirely empty input yields a
    /// `0 × 0` matrix, not an error.
    pub fn from_rows(rows: Vec<Vec<C>>) -> (r: Result<Self, MatrixFormatError>)
        ensures
            rows@.len() == 0 ==> (r matches Ok(m) && m.rows == 0 && m.columns == 0 && m.store()
                == Seq::<C>::empty()),
            rows@.len() > 0 && (exists|j: int|
                1 <= j < rows@.len() && (#[trigger] rows@[j]@.len()) != rows@[0]@.len()) ==> r == Err::<
                Self,
                _,
            >(MatrixFormatError::WrongLength),
            rows@.len() > 0 && (forall|j: int|
                1 <= j < rows@.len() ==> (#[trigger] rows@[j]@.len()) == rows@[0]@.len()) && rows@[0]@.len() == 0
                ==> r == Err::<Self, _>(MatrixFormatError::EmptyRow),
            rows@.len() > 0 && (forall|j: int|
                1 <= j < rows@.len() ==> (#[trigger] rows@[j]@.len()) == rows@[0]@.len()) && rows@[0]@.len() > 0
                ==> (r matches Ok(m) && {
                &&& m.rows == rows@.len()
                &&& m.columns == rows@[0]@.len()
                &&& forall|i: int, j: int|
                    0 <= i < m.rows && 0 <= j < m.columns ==> #[trigger] m.cell(i, j)
                        == rows@[i]@[j]
            }),
            r matches Ok(m) ==> m.wf(),
    {
        let ghost orig = rows@;
        let n = rows.len();
        if n == 0 {
            return Ok(Self::new_empty(0));
        }
        let mut rem = rows;
        let columns = rem[0].len();
        let mut data: Vec<C> = Vec::new();
        let mut i: usize = 0;
        while i < n
            invariant
                0 <= i <= n,
                orig == rows@,
                n == orig.len(),
                n > 0,
                rem@.len() == n - i,
                forall|k: int| 0 <= k < n - i ==> rem@[k] == orig[i + k],
                columns == orig[0]@.len(),
                forall|j: int| 0 <= j < i ==> orig[j]@.len() == columns,
                data@.len() == i * columns,
                forall|rr: int, cc: int|
                    0 <= rr < i && 0 <= cc < columns ==> #[trigger] data@[rr * columns + cc]
                        == orig[rr]@[cc],
            decreases n - i,
        {
            let mut row = rem.remove(0);
            if row.len() != columns {
                proof {
                    assert(row == orig[i as int]);
                    assert(1 <= i < orig.len() && orig[i as int]@.len() != orig[0]@.len());
                }
                return Err(MatrixFormatError::WrongLength);
            }
            let ghost before = data@;
            data.append(&mut row);
            proof {
                lemma_mul_succ_row(i as int, columns as int);
                assert forall|rr: int, cc: int|
                    0 <= rr < i + 1 && 0 <= cc < columns implies #[trigger] data@[rr * columns + cc]
                    == orig[rr]@[cc] by {
                    lemma_row_major_bound(rr, cc, i as int + 1, columns as int);
                    if rr < i {
                        lemma_row_major_bound(rr, cc, i as int, columns as int);
                    } else {
                        assert(rr * columns + cc - before.len() == cc) by (nonlinear_arith)
                            requires
                                rr == i,
                                before.len() == i * columns,
                        ;
                    }
                }
            }
            i = i + 1;
        }
        if columns == 0 {
            return Err(MatrixFormatError::EmptyRow);
        }
        let m = Matrix { rows: n, columns, data };
        proof {
            assert forall|rr: int, cc: int|
                0 <= rr < m.rows && 0 <= cc < m.columns implies #[trigger] m.cell(rr, cc)
                == orig[rr]@[cc] by {
                lemma_row_major_bound(rr, cc, m.rows as int, m.columns as int);
            }
        }
        Ok(m)
    }

    /// Create a new square matrix from flat values in row-major order.
    /// The number of values must be a perfect square, else the call
    /// fails with `WrongLength`; its exact integer square root gives the
    /// side length.
    pub fn square_from_vec(values: Vec<C>) -> (r: Result<Self, MatrixFormatError>)
        ensures
            (exists|s: int| 0 <= s && square(s) == values@.len()) ==> (r matches Ok(m) && {
                &&& m.wf()
                &&& m.rows == m.columns
                &&& square(m.rows as int) == values@.len()
                &&& m.store() == values@
            }),
            !(exists|s: int| 0 <= s && square(s) == values@.len()) ==> r == Err::<
                Self,
                _,
            >(MatrixFormatError::WrongLength),
    {
        let n = values.len();
        if let Some(size) = exact_sqrt(n) {
            Self::from_vec(size, size, values)
        } else {
            Err(MatrixFormatError::WrongLength)
        }
    }

    /// Create a new empty matrix with a predefined number of columns.
    /// This is useful to gradually build the matrix and extend it later
    /// using [`extend`](Matrix::extend), and does not require a filler
    /// element compared to [`Matrix::new`].
    pub fn new_empty(columns: usize) -> (m: Self)
        ensures
            m.wf(),
            m.rows == 0,
            m.columns == columns,
            m.store() == Seq::<C>::empty(),
    {
        Matrix { rows: 0, columns, data: Vec::new() }
    }

    /// Check if the matrix is empty, that is, has no rows.
    pub fn is_empty(&self) -> (b: bool)
        ensures
            b == (self.rows == 0),
    {
        self.rows == 0
    }

    /// Check if the matrix is a square one.
    pub fn is_square(&self) -> (b: bool)
        ensures
            b == (self.rows == self.columns),
    {
        self.rows == self.columns
    }

    /// The coordinates that lie inside the matrix.
    pub open spec fn in_bounds(&self, r: int, c: int) -> bool {
        &&& 0 <= r < self.rows
        &&& 0 <= c < self.columns
    }

    /// Check if the coordinates designate a matrix cell.
    pub fn within_bounds(&self, i: (usize, usize)) -> (b: bool)
        ensures
            b == self.in_bounds(i.0 as int, i.1 as int),
    {
        i.0 < self.rows && i.1 < self.columns
    }

    /// Index in raw data of a given position. The coordinates must
    /// designate a cell: callers establish the bounds beforehand, which
    /// stands in for the unchecked access path of a hot loop.
    pub fn idx_unchecked(&self, i: (usize, usize)) -> (r: usize)
        requires
            self.wf(),
            self.in_bounds(i.0 as int, i.1 as int),
        ensures
            r == i.0 as int * self.columns + i.1,
            r < self.store().len(),
    {
        // binding the length pins `rows * columns` below a machine word
        let _n: usize = self.data.len();
        proof {
            lemma_row_major_bound(i.0 as int, i.1 as int, self.rows as int, self.columns as int);
        }
        i.0 * self.columns + i.1
    }

    /// Index in raw data of a given position. Coordinates outside the
    /// matrix are a caller contract violation, excluded by precondition.
    pub fn idx(&self, i: (usize, usize)) -> (r: usize)
        requires
            self.wf(),
            self.in_bounds(i.0 as int, i.1 as int),
        ensures
            r == i.0 as int * self.columns + i.1,
            r < self.store().len(),
    {
        self.idx_unchecked(i)
    }

    /// Borrow the backing store as a flat view of the values, first
    /// row first.
    pub fn values(&self) -> (v: &Vec<C>)
        ensures
            v@ == self.store(),
    {
        &self.data
    }

    /// Mutably borrow the backing store as a flat view of the values,
    /// first row first. What the matrix holds afterwards is whatever
    /// the caller leaves behind the borrow; writers that change its
    /// length must uphold [`wf`](Matrix::wf) themselves.
    pub fn values_mut(&mut self) -> (v: &mut [C])
        ensures
            v@ == old(self).store(),
            final(self).rows == old(self).rows,
            final(self).columns == old(self).columns,
            final(self).store() == final(v)@,
    {
        self.data.as_mut_slice()
    }

    /// Mutably access an element if the coordinates designate a matrix
    /// cell; the matrix is left untouched when they do not.
    pub fn get_mut(&mut self, i: (usize, usize)) -> (r: Option<&mut C>)
        requires
            old(self).wf(),
        ensures
            final(self).rows == old(self).rows,
            final(self).columns == old(self).columns,
            final(self).wf(),
            match r {
                Some(v) => {
                    &&& old(self).in_bounds(i.0 as int, i.1 as int)
                    &&& *v == old(self).cell(i.0 as int, i.1 as int)
                    &&& final(self).store() == old(self).store().update(
                        i.0 as int * old(self).columns + i.1,
                        *final(v),
                    )
                },
                None => !old(self).in_bounds(i.0 as int, i.1 as int) && *final(self) == *old(self),
            },
    {
        if self.within_bounds(i) {
            let k = self.idx_unchecked(i);
            Some(&mut self.data[k])
        } else {
            None
        }
    }

    /// Return the matrix indices as `(row, column)` pairs, first row
    /// first. The pairs are computed when this method is called, so the
    /// result does not change if new rows are added afterwards.
    pub fn indices(&self) -> (v: Vec<(usize, usize)>)
        requires
            self.wf(),
        ensures
            v@.len() == self.rows * self.columns,
            forall|r: int, c: int|
                self.in_bounds(r, c) ==> #[trigger] v@[r * self.columns + c] == (
                    r as usize,
                    c as usize,
                ),
    {
        let mut v: Vec<(usize, usize)> = Vec::new();
        let mut r: usize = 0;
        while r < self.rows
            invariant
                0 <= r <= self.rows,
                self.wf(),
                v@.len() == r * self.columns,
                forall|a: int, b: int|
                    0 <= a < r && 0 <= b < self.columns ==> #[trigger] v@[a * self.columns + b]
                        == (a as usize, b as usize),
            decreases self.rows - r,
        {
            let mut c: usize = 0;
            while c < self.columns
                invariant
                    0 <= c <= self.columns,
                    0 <= r < self.rows,
                    self.wf(),
                    v@.len() == r * self.columns + c,
                    forall|a: int, b: int|
                        0 <= a < r && 0 <= b < self.columns ==> #[trigger] v@[a * self.columns + b]
                            == (a as usize, b as usize),
                    forall|b: int|
                        0 <= b < c ==> #[trigger] v@[r as int * self.columns + b] == (
                            r,
                            b as usize,
                        ),
                decreases self.columns - c,
            {
                v.push((r, c));
                proof {
                    lemma_row_major_bound(r as int, c as int, r as int + 1, self.columns as int);
                    assert forall|a: int, b: int|
                        0 <= a < r && 0 <= b < self.columns implies #[trigger] v@[a * self.columns
                        + b] == (a as usize, b as usize) by {
                        lemma_row_major_bound(a, b, r as int, self.columns as int);
                    }
                }
                c = c + 1;
            }
            proof {
                lemma_mul_succ_row(r as int, self.columns as int);
            }
            r = r + 1;
        }
        v
    }

    /// Return an iterator over the rows of the matrix, each row a
    /// contiguous view into the backing store.
    pub fn iter(&self) -> (it: RowIterator<C>)
        ensures
            it.matrix == self,
            it.row == 0,
    {
        RowIterator { matrix: self, row: 0 }
    }

    /// Access an element if the coordinates designate a matrix cell.
    pub fn get(&self, i: (usize, usize)) -> (r: Option<&C>)
        requires
            self.wf(),
        ensures
            match r {
                Some(v) => self.in_bounds(i.0 as int, i.1 as int) && *v == self.cell(
                    i.0 as int,
                    i.1 as int,
                ),
                None => !self.in_bounds(i.0 as int, i.1 as int),
            },
    {
        if self.within_bounds(i) {
            let k = self.idx_unchecked(i);
            Some(&self.data[k])
        } else {
            None
        }
    }
}

/// Row iterator returned by [`Matrix::iter`]: yields each row of the
/// matrix as a contiguous view into the backing store, first row
/// first.
pub struct RowIterator<'a, C> {
    /// The matrix being walked.
    pub matrix: &'a Matrix<C>,
    /// The row the next call yields.
    pub row: usize,
}

impl<'a, C> RowIterator<'a, C> {
    /// Yield the current row and advance, or `None` past the last row.
    pub fn next(&mut self) -> (r: Option<&'a [C]>)
        requires
            old(self).matrix.wf(),
        ensures
            final(self).matrix == old(self).matrix,
            old(self).row < old(self).matrix.rows ==> {
                &&& final(self).row == old(self).row + 1
                &&& r matches Some(s) && s@ == old(self).matrix.store().subrange(
                    old(self).row * old(self).matrix.columns,
                    (old(self).row + 1) * old(self).matrix.columns,
                )
            },
            old(self).row >= old(self).matrix.rows ==> r is None && final(self).row == old(
                self,
            ).row,
    {
        if self.row < self.matrix.rows {
            let columns = self.matrix.columns;
            // binding the length pins the row offsets below a machine word
            let _n: usize = self.matrix.data.len();
            proof {
                if columns > 0 {
                    lemma_row_major_bound(
                        self.row as int,
                        columns - 1,
                        self.matrix.rows as int,
                        columns as int,
                    );
                }
                lemma_mul_succ_row(self.row as int, columns as int);
            }
            let start: usize = self.row * columns;
            let end: usize = start + columns;
            let s = vstd::slice::slice_subrange(self.matrix.data.as_slice(), start, end);
            self.row = self.row + 1;
            Some(s)
        } else {
            None
        }
    }
}

} // verus!
