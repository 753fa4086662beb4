use vstd::prelude::*;

use crate::matrix::{lemma_mul_succ_row, lemma_row_major_bound, lemma_row_major_injective, Matrix};

verus! {

/// Relies on `<[T]>::swap` from std (through `Vec`'s mutable deref):
/// it exchanges the elements at the two indices and touches nothing
/// else. Both indices are in bounds, so the call cannot panic.
#[verifier::external_body]
fn swap_in_vec<T>(v: &mut Vec<T>, a: usize, b: usize)
    requires
        a < old(v)@.len(),
        b < old(v)@.len(),
    ensures
        final(v)@ == old(v)@.update(a as int, old(v)@[b as int]).update(b as int, old(v)@[a as int]),
{
    v.swap(a, b);
}

/// Reverse a vector in place.
fn reverse_vec<T>(v: &mut Vec<T>)
    ensures
        final(v)@.len() == old(v)@.len(),
        forall|k: int|
            0 <= k < old(v)@.len() ==> #[trigger] final(v)@[k] == old(v)@[old(v)@.len() - 1 - k],
{
    let len = v.len();
    let mut k: usize = 0;
    while k < len / 2
        invariant
            0 <= k <= len / 2,
            v@.len() == len == old(v)@.len(),
            forall|i: int|
                0 <= i < len && (i < k || i > len - 1 - k) ==> #[trigger] v@[i] == old(v)@[len - 1
                    - i],
            forall|i: int| k <= i <= len - 1 - k ==> #[trigger] v@[i] == old(v)@[i],
        decreases len / 2 - k,
    {
        swap_in_vec(v, k, len - 1 - k);
        k = k + 1;
    }
}

/// The cell of the source matrix whose value ends up at `(i, j)` after
/// `t` clockwise quarter-turns (`t` in `0..4`). For odd `t` the shape is
/// transposed: `(i, j)` then addresses a `columns × rows` result.
pub open spec fn rotated_cw_source(rows: int, columns: int, t: int, i: int, j: int) -> (int, int) {
    if t == 1 {
        (rows - 1 - j, i)
    } else if t == 2 {
        (rows - 1 - i, columns - 1 - j)
    } else if t == 3 {
        (j, columns - 1 - i)
    } else {
        (i, j)
    }
}

/// One clockwise quarter-turn of a position in an `n × n` grid.
spec fn rho(n: int, p: (int, int)) -> (int, int) {
    (p.1, n - 1 - p.0)
}

/// The positions whose 4-cycles the in-place rotation loop visits, one
/// leader per cycle: the top-left quadrant, with the wider half of the
/// columns for odd `n`.
spec fn in_leader_region(n: int, p: (int, int)) -> bool {
    &&& 0 <= p.0 < n / 2
    &&& 0 <= p.1 < (n + 1) / 2
}

/// The canonical representative of a position's rotation cycle: the
/// first member of its orbit, in turning order, that lies in the leader
/// region; the position itself if none does (the center of an odd `n`).
spec fn cycle_leader(n: int, p: (int, int)) -> (int, int) {
    if in_leader_region(n, p) {
        p
    } else if in_leader_region(n, rho(n, p)) {
        rho(n, p)
    } else if in_leader_region(n, rho(n, rho(n, p))) {
        rho(n, rho(n, p))
    } else {
        rho(n, rho(n, rho(n, p)))
    }
}

/// Row-major order on loop positions.
spec fn lex_lt(p: (int, int), q: (int, int)) -> bool {
    p.0 < q.0 || (p.0 == q.0 && p.1 < q.1)
}

/// The cycle of a leader position: the leader of each of its four
/// members is the leader itself, the members lie in the grid and are
/// pairwise distinct.
proof fn lemma_cycle_leader(n: int, r: int, c: int)
    requires
        0 <= r < n / 2,
        0 <= c < (n + 1) / 2,
    ensures
        0 <= c < n && 0 <= n - 1 - r < n && 0 <= n - 1 - c < n && 0 <= r < n,
        cycle_leader(n, (r, c)) == (r, c),
        cycle_leader(n, (c, n - 1 - r)) == (r, c),
        cycle_leader(n, (n - 1 - r, n - 1 - c)) == (r, c),
        cycle_leader(n, (n - 1 - c, r)) == (r, c),
        (r, c) != (c, n - 1 - r),
        (r, c) != (n - 1 - r, n - 1 - c),
        (r, c) != (n - 1 - c, r),
        (c, n - 1 - r) != (n - 1 - r, n - 1 - c),
        (c, n - 1 - r) != (n - 1 - c, r),
        (n - 1 - r, n - 1 - c) != (n - 1 - c, r),
{
}

/// A position is a member of its own leader's cycle.
proof fn lemma_leader_member(n: int, p: (int, int))
    requires
        0 <= p.0 < n,
        0 <= p.1 < n,
    ensures
        ({
            let l = cycle_leader(n, p);
            p == l || p == rho(n, l) || p == rho(n, rho(n, l)) || p == rho(n, rho(n, rho(n, l)))
        }),
{
}

/// Every cell other than the center of an odd-sided grid has its leader
/// in the leader region, so the rotation loop visits its cycle exactly
/// once.
proof fn lemma_leader_covers(n: int, p: (int, int))
    requires
        0 <= p.0 < n,
        0 <= p.1 < n,
        !(p.0 == p.1 && n == 2 * p.0 + 1),
    ensures
        in_leader_region(n, cycle_leader(n, p)),
{
}

impl<C: Clone> Matrix<C> {
    /// A cell-by-cell clone of the backing store.
    fn cloned_data(&self) -> (v: Vec<C>)
        ensures
            v@.len() == self.store().len(),
            forall|i: int| 0 <= i < v@.len() ==> cloned(self.store()[i], #[trigger] v@[i]),
    {
        let mut v: Vec<C> = Vec::new();
        let mut i: usize = 0;
        while i < self.data.len()
            invariant
                0 <= i <= self.store().len(),
                v@.len() == i,
                forall|k: int| 0 <= k < i ==> cloned(self.store()[k], #[trigger] v@[k]),
            decreases self.store().len() - i,
        {
            let e = &self.data[i];
            v.push(e.clone());
            i = i + 1;
        }
        v
    }

    /// Return a copy of the matrix flipped along the vertical axis.
    pub fn flipped_lr(&self) -> (m: Self)
        requires
            self.wf(),
        ensures
            m.wf(),
            m.rows == self.rows,
            m.columns == self.columns,
            forall|r: int, c: int|
                self.in_bounds(r, c) ==> cloned(
                    self.cell(r, self.columns - 1 - c),
                    #[trigger] m.cell(r, c),
                ),
    {
        let mut copy = Matrix { rows: self.rows, columns: self.columns, data: self.cloned_data() };
        proof {
            assert forall|r: int, c: int| self.in_bounds(r, c) implies cloned(
                self.cell(r, c),
                #[trigger] copy.cell(r, c),
            ) by {
                lemma_row_major_bound(r, c, self.rows as int, self.columns as int);
            }
        }
        copy.flip_lr();
        copy
    }

    /// Return a copy of the matrix flipped along the horizontal axis.
    pub fn flipped_ud(&self) -> (m: Self)
        requires
            self.wf(),
        ensures
            m.wf(),
            m.rows == self.rows,
            m.columns == self.columns,
            forall|r: int, c: int|
                self.in_bounds(r, c) ==> cloned(
                    self.cell(self.rows - 1 - r, c),
                    #[trigger] m.cell(r, c),
                ),
    {
        let mut copy = Matrix { rows: self.rows, columns: self.columns, data: self.cloned_data() };
        proof {
            assert forall|r: int, c: int| self.in_bounds(r, c) implies cloned(
                self.cell(r, c),
                #[trigger] copy.cell(r, c),
            ) by {
                lemma_row_major_bound(r, c, self.rows as int, self.columns as int);
            }
        }
        copy.flip_ud();
        copy
    }

    /// Return a copy of the matrix after transposition: cell `(c, r)`
    /// of the result holds cell `(r, c)` of the source. Transposing a
    /// matrix with columns but no rows would create one with empty
    /// rows: a caller contract violation, excluded by precondition.
    pub fn transposed(&self) -> (m: Self)
        requires
            self.wf(),
            self.rows != 0 || self.columns == 0,
        ensures
            m.wf(),
            m.rows == self.columns,
            m.columns == self.rows,
            forall|r: int, c: int|
                self.in_bounds(r, c) ==> cloned(self.cell(r, c), #[trigger] m.cell(c, r)),
    {
        let rows = self.rows;
        let columns = self.columns;
        let mut v: Vec<C> = Vec::new();
        let mut c: usize = 0;
        while c < columns
            invariant
                0 <= c <= columns,
                rows == self.rows,
                columns == self.columns,
                self.wf(),
                v@.len() == c * rows,
                forall|a: int, b: int|
                    0 <= a < c && 0 <= b < rows ==> cloned(
                        self.cell(b, a),
                        #[trigger] v@[a * rows + b],
                    ),
            decreases columns - c,
        {
            let mut r: usize = 0;
            while r < rows
                invariant
                    0 <= r <= rows,
                    0 <= c < columns,
                    rows == self.rows,
                    columns == self.columns,
                    self.wf(),
                    v@.len() == c * rows + r,
                    forall|a: int, b: int|
                        0 <= a < c && 0 <= b < rows ==> cloned(
                            self.cell(b, a),
                            #[trigger] v@[a * rows + b],
                        ),
                    forall|b: int|
                        0 <= b < r ==> cloned(self.cell(b, c as int), #[trigger] v@[c as int * rows + b]),
                decreases rows - r,
            {
                let k = self.idx_unchecked((r, c));
                let e = &self.data[k];
                v.push(e.clone());
                proof {
                    lemma_row_major_bound(c as int, r as int, c as int + 1, rows as int);
                    assert forall|a: int, b: int|
                        0 <= a < c && 0 <= b < rows implies cloned(
                        self.cell(b, a),
                        #[trigger] v@[a * rows + b],
                    ) by {
                        lemma_row_major_bound(a, b, c as int, rows as int);
                    }
                }
                r = r + 1;
            }
            proof {
                lemma_mul_succ_row(c as int, rows as int);
            }
            c = c + 1;
        }
        let m = Matrix { rows: columns, columns: rows, data: v };
        proof {
            assert forall|r: int, c: int| self.in_bounds(r, c) implies cloned(
                self.cell(r, c),
                #[trigger] m.cell(c, r),
            ) by {
                lemma_row_major_bound(c, r, columns as int, rows as int);
            }
        }
        m
    }

    /// Return a copy of the matrix rotated clockwise a number of
    /// quarter turns. Any shape is accepted; for an odd number of
    /// quarter turns the result's shape is transposed, which is why
    /// this cannot be done in place on a non-square matrix. The one
    /// excluded input is an odd number of quarter turns on a matrix
    /// with columns but no rows, whose result would have empty rows.
    pub fn rotated_cw(&self, times: usize) -> (m: Self)
        requires
            self.wf(),
            self.rows != 0 || self.columns == 0 || times % 4 == 0 || times % 4 == 2,
        ensures
            m.wf(),
            ({
                let t = (times % 4) as int;
                &&& m.rows == (if t == 1 || t == 3 {
                    self.columns
                } else {
                    self.rows
                })
                &&& m.columns == (if t == 1 || t == 3 {
                    self.rows
                } else {
                    self.columns
                })
                &&& forall|i: int, j: int|
                    0 <= i < m.rows && 0 <= j < m.columns ==> ({
                        let s = rotated_cw_source(self.rows as int, self.columns as int, t, i, j);
                        cloned(self.cell(s.0, s.1), #[trigger] m.cell(i, j))
                    })
            }),
    {
        if self.is_square() {
            let mut copy = Matrix {
                rows: self.rows,
                columns: self.columns,
                data: self.cloned_data(),
            };
            proof {
                assert forall|r: int, c: int| self.in_bounds(r, c) implies cloned(
                    self.cell(r, c),
                    #[trigger] copy.cell(r, c),
                ) by {
                    lemma_row_major_bound(r, c, self.rows as int, self.columns as int);
                }
            }
            copy.rotate_cw(times);
            copy
        } else {
            let t = times % 4;
            if t == 0 {
                let copy = Matrix {
                    rows: self.rows,
                    columns: self.columns,
                    data: self.cloned_data(),
                };
                proof {
                    assert forall|r: int, c: int| self.in_bounds(r, c) implies cloned(
                        self.cell(r, c),
                        #[trigger] copy.cell(r, c),
                    ) by {
                        lemma_row_major_bound(r, c, self.rows as int, self.columns as int);
                    }
                }
                copy
            } else if t == 1 {
                let mut copy = self.transposed();
                copy.flip_lr();
                copy
            } else if t == 2 {
                let mut copy = Matrix {
                    rows: self.rows,
                    columns: self.columns,
                    data: self.cloned_data(),
                };
                reverse_vec(&mut copy.data);
                proof {
                    let rows = self.rows as int;
                    let columns = self.columns as int;
                    assert forall|i: int, j: int| self.in_bounds(i, j) implies cloned(
                        self.cell(rows - 1 - i, columns - 1 - j),
                        #[trigger] copy.cell(i, j),
                    ) by {
                        lemma_row_major_bound(i, j, rows, columns);
                        assert((rows - 1 - i) * columns + (columns - 1 - j) == rows * columns - 1 - (
                        i * columns + j)) by (nonlinear_arith)
                            requires
                                0 <= i < rows,
                                0 <= j < columns,
                        ;
                    }
                }
                copy
            } else {
                let mut copy = self.transposed();
                copy.flip_ud();
                copy
            }
        }
    }

    /// Return a copy of the matrix rotated counter-clockwise a number
    /// of quarter turns: `times` counter-clockwise quarter turns equal
    /// `4 - times % 4` clockwise ones. The same shapes are accepted as
    /// for [`rotated_cw`](Matrix::rotated_cw).
    pub fn rotated_ccw(&self, times: usize) -> (m: Self)
        requires
            self.wf(),
            self.rows != 0 || self.columns == 0 || times % 4 == 0 || times % 4 == 2,
        ensures
            m.wf(),
            ({
                let t = (4 - times % 4) as int % 4;
                &&& m.rows == (if t == 1 || t == 3 {
                    self.columns
                } else {
                    self.rows
                })
                &&& m.columns == (if t == 1 || t == 3 {
                    self.rows
                } else {
                    self.columns
                })
                &&& forall|i: int, j: int|
                    0 <= i < m.rows && 0 <= j < m.columns ==> ({
                        let s = rotated_cw_source(self.rows as int, self.columns as int, t, i, j);
                        cloned(self.cell(s.0, s.1), #[trigger] m.cell(i, j))
                    })
            }),
    {
        self.rotated_cw(4 - times % 4)
    }
}

impl<C> Matrix<C> {
    /// Rotate a square matrix in place, counter-clockwise, a number of
    /// quarter turns: `times` counter-clockwise quarter turns equal
    /// `4 - times % 4` clockwise ones. Rotating a non-square matrix is
    /// a caller contract violation, excluded by precondition.
    pub fn rotate_ccw(&mut self, times: usize)
        requires
            old(self).wf(),
            old(self).rows == old(self).columns,
        ensures
            final(self).wf(),
            final(self).rows == old(self).rows,
            final(self).columns == old(self).columns,
            forall|i: int, j: int|
                old(self).in_bounds(i, j) ==> #[trigger] final(self).cell(i, j) == ({
                    let s = rotated_cw_source(
                        old(self).rows as int,
                        old(self).columns as int,
                        (4 - times % 4) as int % 4,
                        i,
                        j,
                    );
                    old(self).cell(s.0, s.1)
                }),
    {
        self.rotate_cw(4 - times % 4);
    }
}

impl<C> Matrix<C> {
    /// Flip the matrix in place around the vertical axis: every row is
    /// reversed independently.
    pub fn flip_lr(&mut self)
        requires
            old(self).wf(),
        ensures
            final(self).wf(),
            final(self).rows == old(self).rows,
            final(self).columns == old(self).columns,
            forall|r: int, c: int|
                old(self).in_bounds(r, c) ==> #[trigger] final(self).cell(r, c) == old(self).cell(
                    r,
                    old(self).columns - 1 - c,
                ),
    {
        let rows = self.rows;
        let columns = self.columns;
        let mut r: usize = 0;
        while r < rows
            invariant
                0 <= r <= rows,
                rows == self.rows == old(self).rows,
                columns == self.columns == old(self).columns,
                self.wf(),
                forall|a: int, b: int|
                    0 <= a < r && 0 <= b < columns ==> #[trigger] self.cell(a, b) == old(self).cell(
                        a,
                        columns - 1 - b,
                    ),
                forall|a: int, b: int|
                    r <= a < rows && 0 <= b < columns ==> #[trigger] self.cell(a, b) == old(
                        self,
                    ).cell(a, b),
            decreases rows - r,
        {
            let mut k: usize = 0;
            while k < columns / 2
                invariant
                    0 <= k <= columns / 2,
                    0 <= r < rows,
                    rows == self.rows == old(self).rows,
                    columns == self.columns == old(self).columns,
                    self.wf(),
                    forall|a: int, b: int|
                        0 <= a < r && 0 <= b < columns ==> #[trigger] self.cell(a, b) == old(
                            self,
                        ).cell(a, columns - 1 - b),
                    forall|b: int|
                        0 <= b < columns && (b < k || b > columns - 1 - k)
                            ==> #[trigger] self.cell(r as int, b) == old(self).cell(
                            r as int,
                            columns - 1 - b,
                        ),
                    forall|b: int|
                        k <= b <= columns - 1 - k ==> #[trigger] self.cell(r as int, b) == old(
                            self,
                        ).cell(r as int, b),
                    forall|a: int, b: int|
                        r < a < rows && 0 <= b < columns ==> #[trigger] self.cell(a, b) == old(
                            self,
                        ).cell(a, b),
                decreases columns / 2 - k,
            {
                let ghost at_entry = *self;
                let i1 = self.idx_unchecked((r, k));
                let i2 = self.idx_unchecked((r, columns - 1 - k));
                swap_in_vec(&mut self.data, i1, i2);
                proof {
                    assert forall|a: int, b: int|
                        at_entry.in_bounds(a, b) && !(a == r && b == k) && !(a == r && b == columns
                            - 1 - k) implies #[trigger] self.cell(a, b) == at_entry.cell(a, b) by {
                        lemma_row_major_bound(a, b, rows as int, columns as int);
                        if a * columns + b == r as int * columns + k {
                            lemma_row_major_injective(a, b, r as int, k as int, columns as int);
                        }
                        if a * columns + b == r as int * columns + (columns - 1 - k) {
                            lemma_row_major_injective(
                                a,
                                b,
                                r as int,
                                columns - 1 - k,
                                columns as int,
                            );
                        }
                    }
                    assert(self.cell(r as int, k as int) == at_entry.cell(r as int, columns - 1 - k));
                    assert(self.cell(r as int, columns - 1 - k) == at_entry.cell(r as int, k as int));
                }
                k = k + 1;
            }
            r = r + 1;
        }
    }

    /// Rotate a square matrix in place, clockwise, a number of quarter
    /// turns, using O(1) extra space. The amount is taken modulo 4; two
    /// quarter turns reverse the whole store, and a single quarter turn
    /// in either direction permutes each 4-cycle of cells by three
    /// swaps. Rotating a non-square matrix is a caller contract
    /// violation, excluded by precondition.
    pub fn rotate_cw(&mut self, times: usize)
        requires
            old(self).wf(),
            old(self).rows == old(self).columns,
        ensures
            final(self).wf(),
            final(self).rows == old(self).rows,
            final(self).columns == old(self).columns,
            forall|i: int, j: int|
                old(self).in_bounds(i, j) ==> #[trigger] final(self).cell(i, j) == ({
                    let s = rotated_cw_source(
                        old(self).rows as int,
                        old(self).columns as int,
                        (times % 4) as int,
                        i,
                        j,
                    );
                    old(self).cell(s.0, s.1)
                }),
    {
        let n = self.rows;
        let t = times % 4;
        let ghost nn = n as int;
        if t == 0 {
            return ;
        }
        if t == 2 {
            let ghost len = self.data@.len();
            reverse_vec(&mut self.data);
            proof {
                assert forall|i: int, j: int| old(self).in_bounds(i, j) implies #[trigger] self.cell(
                    i,
                    j,
                ) == old(self).cell(nn - 1 - i, nn - 1 - j) by {
                    lemma_row_major_bound(i, j, nn, nn);
                    assert((nn - 1 - i) * nn + (nn - 1 - j) == nn * nn - 1 - (i * nn + j))
                        by (nonlinear_arith)
                        requires
                            0 <= i < nn,
                            0 <= j < nn,
                    ;
                }
            }
            return ;
        }
        // binding the length pins `n * n` below a machine word
        let _n: usize = self.data.len();
        proof {
            assert(nn < usize::MAX) by (nonlinear_arith)
                requires
                    nn >= 0,
                    nn * nn <= usize::MAX,
                    usize::MAX >= 3,
            ;
        }
        let mut r: usize = 0;
        while r < n / 2
            invariant
                0 <= r <= n / 2,
                n < usize::MAX,
                t == times % 4,
                t == 1 || t == 3,
                nn == n,
                n == self.rows == old(self).rows,
                n == self.columns == old(self).columns,
                self.wf(),
                old(self).wf(),
                forall|i: int, j: int|
                    old(self).in_bounds(i, j) && lex_lt(cycle_leader(nn, (i, j)), (r as int, 0))
                        ==> #[trigger] self.cell(i, j) == ({
                        let s = rotated_cw_source(nn, nn, t as int, i, j);
                        old(self).cell(s.0, s.1)
                    }),
                forall|i: int, j: int|
                    old(self).in_bounds(i, j) && !lex_lt(cycle_leader(nn, (i, j)), (r as int, 0))
                        ==> #[trigger] self.cell(i, j) == old(self).cell(i, j),
            decreases n / 2 - r,
        {
            let mut c: usize = 0;
            while c < (n + 1) / 2
                invariant
                    0 <= c <= (n + 1) / 2,
                    0 <= r < n / 2,
                    n < usize::MAX,
                    t == times % 4,
                    t == 1 || t == 3,
                    nn == n,
                    n == self.rows == old(self).rows,
                    n == self.columns == old(self).columns,
                    self.wf(),
                    old(self).wf(),
                    forall|i: int, j: int|
                        old(self).in_bounds(i, j) && lex_lt(
                            cycle_leader(nn, (i, j)),
                            (r as int, c as int),
                        ) ==> #[trigger] self.cell(i, j) == ({
                            let s = rotated_cw_source(nn, nn, t as int, i, j);
                            old(self).cell(s.0, s.1)
                        }),
                    forall|i: int, j: int|
                        old(self).in_bounds(i, j) && !lex_lt(
                            cycle_leader(nn, (i, j)),
                            (r as int, c as int),
                        ) ==> #[trigger] self.cell(i, j) == old(self).cell(i, j),
                decreases (n + 1) / 2 - c,
            {
                let ghost at_entry = *self;
                proof {
                    lemma_cycle_leader(nn, r as int, c as int);
                }
                let i1 = self.idx_unchecked((r, c));
                let i2 = self.idx_unchecked((c, n - 1 - r));
                let i3 = self.idx_unchecked((n - 1 - r, n - 1 - c));
                let i4 = self.idx_unchecked((n - 1 - c, r));
                proof {
                    if i1 == i2 {
                        lemma_row_major_injective(r as int, c as int, c as int, nn - 1 - r, nn);
                    }
                    if i1 == i3 {
                        lemma_row_major_injective(r as int, c as int, nn - 1 - r, nn - 1 - c, nn);
                    }
                    if i1 == i4 {
                        lemma_row_major_injective(r as int, c as int, nn - 1 - c, r as int, nn);
                    }
                    if i2 == i3 {
                        lemma_row_major_injective(c as int, nn - 1 - r, nn - 1 - r, nn - 1 - c, nn);
                    }
                    if i2 == i4 {
                        lemma_row_major_injective(c as int, nn - 1 - r, nn - 1 - c, r as int, nn);
                    }
                    if i3 == i4 {
                        lemma_row_major_injective(nn - 1 - r, nn - 1 - c, nn - 1 - c, r as int, nn);
                    }
                }
                if t == 1 {
                    swap_in_vec(&mut self.data, i1, i2);
                    swap_in_vec(&mut self.data, i1, i4);
                    swap_in_vec(&mut self.data, i3, i4);
                } else {
                    swap_in_vec(&mut self.data, i3, i4);
                    swap_in_vec(&mut self.data, i1, i4);
                    swap_in_vec(&mut self.data, i1, i2);
                }
                proof {
                    let rr = r as int;
                    let cc = c as int;
                    let q1 = (rr, cc);
                    let q2 = (cc, nn - 1 - rr);
                    let q3 = (nn - 1 - rr, nn - 1 - cc);
                    let q4 = (nn - 1 - cc, rr);
                    // the four cycle cells hold their rotated values
                    if t == 1 {
                        assert(self.cell(q1.0, q1.1) == at_entry.cell(q4.0, q4.1));
                        assert(self.cell(q2.0, q2.1) == at_entry.cell(q1.0, q1.1));
                        assert(self.cell(q3.0, q3.1) == at_entry.cell(q2.0, q2.1));
                        assert(self.cell(q4.0, q4.1) == at_entry.cell(q3.0, q3.1));
                    } else {
                        assert(self.cell(q1.0, q1.1) == at_entry.cell(q2.0, q2.1));
                        assert(self.cell(q2.0, q2.1) == at_entry.cell(q3.0, q3.1));
                        assert(self.cell(q3.0, q3.1) == at_entry.cell(q4.0, q4.1));
                        assert(self.cell(q4.0, q4.1) == at_entry.cell(q1.0, q1.1));
                    }
                    // every other cell is untouched by the three swaps
                    assert forall|i: int, j: int|
                        at_entry.in_bounds(i, j) && (i, j) != q1 && (i, j) != q2 && (i, j) != q3 && (
                        i,
                        j,
                        ) != q4 implies #[trigger] self.cell(i, j) == at_entry.cell(i, j) by {
                        lemma_row_major_bound(i, j, nn, nn);
                        if i * nn + j == rr * nn + cc {
                            lemma_row_major_injective(i, j, rr, cc, nn);
                        }
                        if i * nn + j == cc * nn + (nn - 1 - rr) {
                            lemma_row_major_injective(i, j, cc, nn - 1 - rr, nn);
                        }
                        if i * nn + j == (nn - 1 - rr) * nn + (nn - 1 - cc) {
                            lemma_row_major_injective(i, j, nn - 1 - rr, nn - 1 - cc, nn);
                        }
                        if i * nn + j == (nn - 1 - cc) * nn + rr {
                            lemma_row_major_injective(i, j, nn - 1 - cc, rr, nn);
                        }
                    }
                    // cells whose leader is this loop position are the cycle
                    assert forall|i: int, j: int|
                        at_entry.in_bounds(i, j) && cycle_leader(nn, (i, j)) == q1 implies (i, j)
                        == q1 || (i, j) == q2 || (i, j) == q3 || (i, j) == q4 by {
                        lemma_leader_member(nn, (i, j));
                    }
                    // re-establish the invariant for the next position
                    assert forall|i: int, j: int|
                        old(self).in_bounds(i, j) && lex_lt(
                            cycle_leader(nn, (i, j)),
                            (rr, cc + 1),
                        ) implies #[trigger] self.cell(i, j) == ({
                        let s = rotated_cw_source(nn, nn, t as int, i, j);
                        old(self).cell(s.0, s.1)
                    }) by {
                        if !lex_lt(cycle_leader(nn, (i, j)), (rr, cc)) {
                            assert(cycle_leader(nn, (i, j)) == q1);
                        }
                    }
                }
                c = c + 1;
            }
            r = r + 1;
        }
        proof {
            assert forall|i: int, j: int| old(self).in_bounds(i, j) implies #[trigger] self.cell(
                i,
                j,
            ) == ({
                let s = rotated_cw_source(nn, nn, t as int, i, j);
                old(self).cell(s.0, s.1)
            }) by {
                if !(i == j && nn == 2 * i + 1) {
                    lemma_leader_covers(nn, (i, j));
                }
            }
        }
    }

    /// Flip the matrix in place around the horizontal axis: each of the
    /// first `rows / 2` rows is swapped element-wise with its mirror
    /// row; the middle row of an odd row count is untouched.
    pub fn flip_ud(&mut self)
        requires
            old(self).wf(),
        ensures
            final(self).wf(),
            final(self).rows == old(self).rows,
            final(self).columns == old(self).columns,
            forall|r: int, c: int|
                old(self).in_bounds(r, c) ==> #[trigger] final(self).cell(r, c) == old(self).cell(
                    old(self).rows - 1 - r,
                    c,
                ),
    {
        let rows = self.rows;
        let columns = self.columns;
        let mut r: usize = 0;
        while r < rows / 2
            invariant
                0 <= r <= rows / 2,
                rows == self.rows == old(self).rows,
                columns == self.columns == old(self).columns,
                self.wf(),
                forall|a: int, b: int|
                    0 <= b < columns && 0 <= a < rows && (a < r || a > rows - 1 - r)
                        ==> #[trigger] self.cell(a, b) == old(self).cell(rows - 1 - a, b),
                forall|a: int, b: int|
                    r <= a <= rows - 1 - r && 0 <= b < columns ==> #[trigger] self.cell(a, b)
                        == old(self).cell(a, b),
            decreases rows / 2 - r,
        {
            let mut c: usize = 0;
            while c < columns
                invariant
                    0 <= c <= columns,
                    0 <= r < rows / 2,
                    rows == self.rows == old(self).rows,
                    columns == self.columns == old(self).columns,
                    self.wf(),
                    forall|a: int, b: int|
                        0 <= b < columns && 0 <= a < rows && (a < r || a > rows - 1 - r)
                            ==> #[trigger] self.cell(a, b) == old(self).cell(rows - 1 - a, b),
                    forall|b: int|
                        0 <= b < c ==> #[trigger] self.cell(r as int, b) == old(self).cell(
                            rows - 1 - r,
                            b,
                        ),
                    forall|b: int|
                        0 <= b < c ==> #[trigger] self.cell(rows - 1 - r, b) == old(self).cell(
                            r as int,
                            b,
                        ),
                    forall|b: int|
                        c <= b < columns ==> #[trigger] self.cell(r as int, b) == old(self).cell(
                            r as int,
                            b,
                        ),
                    forall|b: int|
                        c <= b < columns ==> #[trigger] self.cell(rows - 1 - r, b) == old(
                            self,
                        ).cell(rows - 1 - r, b),
                    forall|a: int, b: int|
                        r < a < rows - 1 - r && 0 <= b < columns ==> #[trigger] self.cell(a, b)
                            == old(self).cell(a, b),
                decreases columns - c,
            {
                let ghost at_entry = *self;
                let i1 = self.idx_unchecked((r, c));
                let i2 = self.idx_unchecked((rows - 1 - r, c));
                swap_in_vec(&mut self.data, i1, i2);
                proof {
                    if i1 == i2 {
                        lemma_row_major_injective(
                            r as int,
                            c as int,
                            rows - 1 - r,
                            c as int,
                            columns as int,
                        );
                    }
                    assert forall|a: int, b: int|
                        at_entry.in_bounds(a, b) && !(a == r && b == c) && !(a == rows - 1 - r && b
                            == c) implies #[trigger] self.cell(a, b) == at_entry.cell(a, b) by {
                        lemma_row_major_bound(a, b, rows as int, columns as int);
                        if a * columns + b == r as int * columns + c {
                            lemma_row_major_injective(a, b, r as int, c as int, columns as int);
                        }
                        if a * columns + b == (rows - 1 - r) * columns + c {
                            lemma_row_major_injective(a, b, rows - 1 - r, c as int, columns as int);
                        }
                    }
                    assert(self.cell(r as int, c as int) == at_entry.cell(rows - 1 - r, c as int));
                    assert(self.cell(rows - 1 - r, c as int) == at_entry.cell(r as int, c as int));
                }
                c = c + 1;
            }
            r = r + 1;
        }
    }
}

} // verus!
