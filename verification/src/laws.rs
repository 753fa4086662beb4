//! The algebraic laws of the geometric operations: round trips of the
//! flips and rotations, the transpose involution, the equivalence of
//! rotation with transpose-and-flip compositions, the slice /
//! [`set_slice`](Matrix::set_slice) inverse, and the neighbour counts.
//!
//! Each law is stated over the relations that the operations' own
//! contracts establish, so that a reader sees exactly what has been
//! proved of any values the operations can produce.

use vstd::prelude::*;

use crate::matrix::{lemma_row_major_bound, Matrix};
use crate::transform::rotated_cw_source;

verus! {

/// A `Clone` implementation is faithful when everything it can return
/// equals its argument, as for `Copy` data and the usual value types.
/// The copy-producing laws hold up to this property: element clones
/// are all the copies contain.
pub open spec fn clone_faithful<C: Clone>() -> bool {
    forall|a: C, b: C| #[trigger] cloned::<C>(a, b) ==> b == a
}

/// What [`Matrix::flip_lr`] establishes between the old and the new
/// value, and [`Matrix::flipped_lr`] up to cloning of the cells.
pub open spec fn flip_lr_rel<C>(a: Matrix<C>, b: Matrix<C>) -> bool {
    &&& b.wf()
    &&& b.rows == a.rows
    &&& b.columns == a.columns
    &&& forall|r: int, c: int|
        a.in_bounds(r, c) ==> #[trigger] b.cell(r, c) == a.cell(r, a.columns - 1 - c)
}

/// What [`Matrix::flip_ud`] establishes between the old and the new
/// value.
pub open spec fn flip_ud_rel<C>(a: Matrix<C>, b: Matrix<C>) -> bool {
    &&& b.wf()
    &&& b.rows == a.rows
    &&& b.columns == a.columns
    &&& forall|r: int, c: int|
        a.in_bounds(r, c) ==> #[trigger] b.cell(r, c) == a.cell(a.rows - 1 - r, c)
}

/// What [`Matrix::transposed`] establishes between the source and the
/// copy.
pub open spec fn transposed_rel<C: Clone>(a: Matrix<C>, b: Matrix<C>) -> bool {
    &&& b.wf()
    &&& b.rows == a.columns
    &&& b.columns == a.rows
    &&& forall|r: int, c: int|
        a.in_bounds(r, c) ==> cloned(a.cell(r, c), #[trigger] b.cell(c, r))
}

/// What [`Matrix::rotate_cw`] establishes between the old and the new
/// value of a square matrix.
pub open spec fn rotate_cw_rel<C>(a: Matrix<C>, b: Matrix<C>, times: int) -> bool {
    &&& b.wf()
    &&& b.rows == a.rows
    &&& b.columns == a.columns
    &&& forall|i: int, j: int|
        a.in_bounds(i, j) ==> #[trigger] b.cell(i, j) == ({
            let s = rotated_cw_source(a.rows as int, a.columns as int, times % 4, i, j);
            a.cell(s.0, s.1)
        })
}

/// What [`Matrix::rotated_cw`] establishes between the source and the
/// copy, for any shape.
pub open spec fn rotated_cw_rel<C: Clone>(a: Matrix<C>, b: Matrix<C>, times: int) -> bool {
    &&& b.wf()
    &&& b.rows == (if times % 4 == 1 || times % 4 == 3 {
        a.columns
    } else {
        a.rows
    })
    &&& b.columns == (if times % 4 == 1 || times % 4 == 3 {
        a.rows
    } else {
        a.columns
    })
    &&& forall|i: int, j: int|
        0 <= i < b.rows && 0 <= j < b.columns ==> ({
            let s = rotated_cw_source(a.rows as int, a.columns as int, times % 4, i, j);
            cloned(a.cell(s.0, s.1), #[trigger] b.cell(i, j))
        })
}

/// Every cell of a freshly filled matrix reads back the fill value,
/// for faithful clones: what [`Matrix::new`] and [`Matrix::fill`]
/// establish of the store, read cell by cell.
pub proof fn lemma_filled_cells_hold_value<C: Clone>(m: Matrix<C>, value: C)
    requires
        clone_faithful::<C>(),
        m.wf(),
        forall|i: int| 0 <= i < m.store().len() ==> cloned(value, #[trigger] m.store()[i]),
    ensures
        forall|r: int, c: int| m.in_bounds(r, c) ==> #[trigger] m.cell(r, c) == value,
{
    assert forall|r: int, c: int| m.in_bounds(r, c) implies #[trigger] m.cell(r, c) == value by {
        lemma_row_major_bound(r, c, m.rows as int, m.columns as int);
    }
}

/// Two well-formed matrices of the same shape whose cells agree have
/// the same store.
pub proof fn lemma_cellwise_equal<C>(a: Matrix<C>, b: Matrix<C>)
    requires
        a.wf(),
        b.wf(),
        a.rows == b.rows,
        a.columns == b.columns,
        forall|r: int, c: int| a.in_bounds(r, c) ==> #[trigger] a.cell(r, c) == b.cell(r, c),
    ensures
        a.store() == b.store(),
{
    let rows = a.rows as int;
    let columns = a.columns as int;
    assert forall|k: int| 0 <= k < a.store().len() implies a.store()[k] == b.store()[k] by {
        let r = k / columns;
        let c = k % columns;
        vstd::arithmetic::div_mod::lemma_fundamental_div_mod(k, columns);
        vstd::arithmetic::div_mod::lemma_mod_division_less_than_divisor(k, columns);
        assert(0 <= r < rows) by (nonlinear_arith)
            requires
                0 <= k < rows * columns,
                k == columns * r + c,
                0 <= c < columns,
        ;
        assert(a.cell(r, c) == b.cell(r, c));
        assert(r * columns + c == k) by (nonlinear_arith)
            requires
                k == columns * r + c,
        ;
    }
    assert(a.store() =~= b.store());
}

/// Flipping left-right twice restores the matrix.
pub proof fn lemma_flip_lr_involution<C>(a: Matrix<C>, b: Matrix<C>, c: Matrix<C>)
    requires
        a.wf(),
        flip_lr_rel(a, b),
        flip_lr_rel(b, c),
    ensures
        c.rows == a.rows,
        c.columns == a.columns,
        c.store() == a.store(),
{
    lemma_cellwise_equal(a, c);
}

/// Flipping up-down twice restores the matrix.
pub proof fn lemma_flip_ud_involution<C>(a: Matrix<C>, b: Matrix<C>, c: Matrix<C>)
    requires
        a.wf(),
        flip_ud_rel(a, b),
        flip_ud_rel(b, c),
    ensures
        c.rows == a.rows,
        c.columns == a.columns,
        c.store() == a.store(),
{
    lemma_cellwise_equal(a, c);
}

/// Four clockwise quarter turns restore a square matrix.
pub proof fn lemma_rotate_cw_full_turn<C>(a: Matrix<C>, b: Matrix<C>)
    requires
        a.wf(),
        a.rows == a.columns,
        rotate_cw_rel(a, b, 4),
    ensures
        b.rows == a.rows,
        b.columns == a.columns,
        b.store() == a.store(),
{
    lemma_cellwise_equal(a, b);
}

/// Rotating a square matrix clockwise and then counter-clockwise by
/// the same number of quarter turns restores it: the in-place
/// counter-clockwise rotation is the clockwise one by the complement.
pub proof fn lemma_rotation_round_trip<C>(a: Matrix<C>, b: Matrix<C>, c: Matrix<C>, times: int)
    requires
        times >= 0,
        a.wf(),
        a.rows == a.columns,
        rotate_cw_rel(a, b, times),
        rotate_cw_rel(b, c, 4 - (times % 4)),
    ensures
        c.rows == a.rows,
        c.columns == a.columns,
        c.store() == a.store(),
{
    lemma_cellwise_equal(a, c);
}

/// Transposing twice restores the shape and contents, for faithful
/// clones.
pub proof fn lemma_transpose_involution<C: Clone>(a: Matrix<C>, b: Matrix<C>, c: Matrix<C>)
    requires
        clone_faithful::<C>(),
        a.wf(),
        transposed_rel(a, b),
        transposed_rel(b, c),
    ensures
        c.rows == a.rows,
        c.columns == a.columns,
        c.store() == a.store(),
{
    assert forall|r: int, cc: int| a.in_bounds(r, cc) implies #[trigger] a.cell(r, cc) == c.cell(
        r,
        cc,
    ) by {
        assert(cloned(a.cell(r, cc), b.cell(cc, r)));
        assert(cloned(b.cell(cc, r), c.cell(r, cc)));
    }
    lemma_cellwise_equal(a, c);
}

/// One clockwise quarter turn of a copy equals transposing and then
/// flipping left-right, for faithful clones.
pub proof fn lemma_quarter_turn_is_transpose_flip_lr<C: Clone>(
    g: Matrix<C>,
    rot: Matrix<C>,
    t: Matrix<C>,
    f: Matrix<C>,
)
    requires
        clone_faithful::<C>(),
        g.wf(),
        rotated_cw_rel(g, rot, 1),
        transposed_rel(g, t),
        flip_lr_rel(t, f),
    ensures
        f.rows == rot.rows,
        f.columns == rot.columns,
        f.store() == rot.store(),
{
    assert forall|i: int, j: int| rot.in_bounds(i, j) implies #[trigger] rot.cell(i, j) == f.cell(
        i,
        j,
    ) by {
        assert(cloned(g.cell(g.rows - 1 - j, i), rot.cell(i, j)));
        assert(cloned(g.cell(g.rows - 1 - j, i), t.cell(i, g.rows - 1 - j)));
        assert(f.cell(i, j) == t.cell(i, t.columns - 1 - j));
    }
    lemma_cellwise_equal(rot, f);
}

/// Three clockwise quarter turns of a copy equal transposing and then
/// flipping up-down, for faithful clones.
pub proof fn lemma_three_quarter_turn_is_transpose_flip_ud<C: Clone>(
    g: Matrix<C>,
    rot: Matrix<C>,
    t: Matrix<C>,
    f: Matrix<C>,
)
    requires
        clone_faithful::<C>(),
        g.wf(),
        rotated_cw_rel(g, rot, 3),
        transposed_rel(g, t),
        flip_ud_rel(t, f),
    ensures
        f.rows == rot.rows,
        f.columns == rot.columns,
        f.store() == rot.store(),
{
    assert forall|i: int, j: int| rot.in_bounds(i, j) implies #[trigger] rot.cell(i, j) == f.cell(
        i,
        j,
    ) by {
        assert(cloned(g.cell(j, g.columns - 1 - i), rot.cell(i, j)));
        assert(cloned(g.cell(j, g.columns - 1 - i), t.cell(g.columns - 1 - i, j)));
        assert(f.cell(i, j) == t.cell(t.rows - 1 - i, j));
    }
    lemma_cellwise_equal(rot, f);
}

/// Two clockwise quarter turns of a copy equal reversing the whole
/// store, for faithful clones: reversal is a shape-agnostic point
/// reflection.
pub proof fn lemma_half_turn_is_store_reversal<C: Clone>(g: Matrix<C>, rot: Matrix<C>)
    requires
        clone_faithful::<C>(),
        g.wf(),
        rotated_cw_rel(g, rot, 2),
    ensures
        rot.rows == g.rows,
        rot.columns == g.columns,
        rot.store().len() == g.store().len(),
        forall|k: int|
            0 <= k < g.store().len() ==> #[trigger] rot.store()[k] == g.store()[g.store().len() - 1
                - k],
{
    let rows = g.rows as int;
    let columns = g.columns as int;
    assert forall|k: int|
        0 <= k < g.store().len() implies #[trigger] rot.store()[k] == g.store()[g.store().len() - 1
        - k] by {
        let r = k / columns;
        let c = k % columns;
        vstd::arithmetic::div_mod::lemma_fundamental_div_mod(k, columns);
        vstd::arithmetic::div_mod::lemma_mod_division_less_than_divisor(k, columns);
        assert(0 <= r < rows) by (nonlinear_arith)
            requires
                0 <= k < rows * columns,
                k == columns * r + c,
                0 <= c < columns,
        ;
        assert(r * columns + c == k) by (nonlinear_arith)
            requires
                k == columns * r + c,
        ;
        assert(cloned(g.cell(rows - 1 - r, columns - 1 - c), rot.cell(r, c)));
        assert((rows - 1 - r) * columns + (columns - 1 - c) == rows * columns - 1 - k)
            by (nonlinear_arith)
            requires
                0 <= r < rows,
                0 <= c < columns,
                k == r * columns + c,
        ;
    }
}

/// Writing a copied sub-region back at its own origin restores the
/// matrix, for faithful clones.
pub proof fn lemma_slice_set_slice_inverse<C: Copy>(
    g: Matrix<C>,
    s: Matrix<C>,
    g2: Matrix<C>,
    r0: int,
    r1: int,
    c0: int,
    c1: int,
)
    requires
        clone_faithful::<C>(),
        g.wf(),
        0 <= r0 <= r1 <= g.rows,
        0 <= c0 <= c1 <= g.columns,
        // what `slice` establishes for the copied region
        s.wf(),
        s.rows == r1 - r0,
        s.columns == c1 - c0,
        forall|i: int, j: int|
            0 <= i < s.rows && 0 <= j < s.columns ==> cloned(
                g.cell(r0 + i, c0 + j),
                #[trigger] s.cell(i, j),
            ),
        // what `set_slice` establishes when the region is written back
        g2.wf(),
        g2.rows == g.rows,
        g2.columns == g.columns,
        forall|i: int, j: int|
            0 <= i < s.rows && 0 <= j < s.columns ==> #[trigger] g2.cell(r0 + i, c0 + j) == s.cell(
                i,
                j,
            ),
        forall|r: int, c: int|
            g.in_bounds(r, c) && !(r0 <= r < r0 + s.rows && c0 <= c < c0 + s.columns)
                ==> #[trigger] g2.cell(r, c) == g.cell(r, c),
    ensures
        g2.store() == g.store(),
{
    assert forall|r: int, c: int| g.in_bounds(r, c) implies #[trigger] g.cell(r, c) == g2.cell(
        r,
        c,
    ) by {
        if r0 <= r < r0 + s.rows && c0 <= c < c0 + s.columns {
            assert(cloned(g.cell(r, c), s.cell(r - r0, c - c0)));
            assert(g2.cell(r, c) == s.cell(r - r0, c - c0));
        }
    }
    lemma_cellwise_equal(g, g2);
}

/// In a matrix with at least two rows and two columns, a corner cell
/// has exactly three neighbours with diagonals and two without.
pub proof fn lemma_corner_neighbour_count<C>(m: &Matrix<C>, corner: (usize, usize))
    requires
        m.rows >= 2,
        m.columns >= 2,
        corner.0 == 0 || corner.0 == m.rows - 1,
        corner.1 == 0 || corner.1 == m.columns - 1,
    ensures
        m.neighbours_seq(corner, true).len() == 3,
        m.neighbours_seq(corner, false).len() == 2,
{
}

/// In a matrix with at least two rows and two columns, an interior
/// cell has exactly eight neighbours with diagonals and four without.
pub proof fn lemma_interior_neighbour_count<C>(m: &Matrix<C>, p: (usize, usize))
    requires
        0 < p.0,
        p.0 + 1 < m.rows,
        0 < p.1,
        p.1 + 1 < m.columns,
    ensures
        m.neighbours_seq(p, true).len() == 8,
        m.neighbours_seq(p, false).len() == 4,
{
}

/// A cell outside the matrix has no neighbours.
pub proof fn lemma_outside_no_neighbours<C>(m: &Matrix<C>, p: (usize, usize), diagonals: bool)
    requires
        !m.in_bounds(p.0 as int, p.1 as int),
    ensures
        m.neighbours_seq(p, diagonals).len() == 0,
{
}

} // verus!
