use vstd::prelude::*;

use crate::matrix::Matrix;

verus! {

/// What stepping from `index` by `direction` yields in a
/// `rows × columns` grid: the destination cell, or `None` when the
/// start lies outside the grid, the direction is the zero vector, or
/// the destination falls outside the grid.
pub open spec fn move_in_direction_spec(
    rows: int,
    columns: int,
    index: (int, int),
    direction: (int, int),
) -> Option<(int, int)> {
    let nr = index.0 + direction.0;
    let nc = index.1 + direction.1;
    if !(0 <= index.0 < rows) || !(0 <= index.1 < columns) || direction == (0int, 0int) {
        None
    } else if 0 <= nr < rows && 0 <= nc < columns {
        Some((nr, nc))
    } else {
        None
    }
}

/// The magnitude of a (possibly negative) step, as a `usize`.
fn magnitude(d: isize) -> (m: usize)
    ensures
        d >= 0 ==> m == d,
        d < 0 ==> m == -(d as int),
{
    if d >= 0 {
        d as usize
    } else {
        ((-(d + 1)) as usize) + 1
    }
}

/// Return the next cell stepping by `direction` from `index` in a
/// `rows × columns` grid, or `None` as
/// [`move_in_direction_spec`] describes. Any magnitude of step is
/// accepted; `(0, 0)` is not a valid direction.
pub fn move_in_direction(
    index: (usize, usize),
    direction: (isize, isize),
    rows: usize,
    columns: usize,
) -> (r: Option<(usize, usize)>)
    ensures
        ({
            let s = move_in_direction_spec(
                rows as int,
                columns as int,
                (index.0 as int, index.1 as int),
                (direction.0 as int, direction.1 as int),
            );
            match r {
                Some(p) => s == Some((p.0 as int, p.1 as int)),
                None => s is None,
            }
        }),
{
    let (row, col) = index;
    if row >= rows || col >= columns || (direction.0 == 0 && direction.1 == 0) {
        return None;
    }
    let (dr, dc) = direction;
    let nr_opt = if dr >= 0 {
        row.checked_add(magnitude(dr))
    } else {
        row.checked_sub(magnitude(dr))
    };
    let nc_opt = if dc >= 0 {
        col.checked_add(magnitude(dc))
    } else {
        col.checked_sub(magnitude(dc))
    };
    match (nr_opt, nc_opt) {
        (Some(nr), Some(nc)) => {
            if nr < rows && nc < columns {
                Some((nr, nc))
            } else {
                None
            }
        },
        _ => None,
    }
}

impl<C> Matrix<C> {
    /// What stepping by `direction` from `index` yields in this matrix.
    pub open spec fn step_spec(&self, index: (int, int), direction: (int, int)) -> Option<
        (int, int),
    > {
        move_in_direction_spec(self.rows as int, self.columns as int, index, direction)
    }

    /// Return the next cell in a given direction starting from a given
    /// cell, or `None` when the start lies outside the matrix, the
    /// direction is the zero vector, or the destination falls outside.
    /// Any magnitude of step is accepted, enabling non-adjacent
    /// stepping patterns.
    pub fn move_in_direction(&self, index: (usize, usize), direction: (isize, isize)) -> (r:
        Option<(usize, usize)>)
        ensures
            ({
                let s = self.step_spec(
                    (index.0 as int, index.1 as int),
                    (direction.0 as int, direction.1 as int),
                );
                match r {
                    Some(p) => s == Some((p.0 as int, p.1 as int)),
                    None => s is None,
                }
            }),
    {
        move_in_direction(index, direction, self.rows, self.columns)
    }

    /// Return the cells in a given direction starting from a given
    /// cell, in stepping order, up to the boundary of the matrix. The
    /// starting cell itself is excluded. The sequence is pinned down by
    /// its chain of steps: the first entry is the step from `index`,
    /// each entry is the step from the one before it, and the step
    /// from the last entry leaves the matrix.
    pub fn in_direction(&self, index: (usize, usize), direction: (isize, isize)) -> (v: Vec<
        (usize, usize),
    >)
        ensures
            ({
                let d = (direction.0 as int, direction.1 as int);
                &&& v@.len() == 0 ==> self.step_spec((index.0 as int, index.1 as int), d) is None
                &&& v@.len() > 0 ==> self.step_spec((index.0 as int, index.1 as int), d) == Some(
                    (v@[0].0 as int, v@[0].1 as int),
                )
                &&& forall|k: int|
                    1 <= k < v@.len() ==> self.step_spec((v@[k - 1].0 as int, v@[k - 1].1 as int), d)
                        == Some(((#[trigger] v@[k]).0 as int, v@[k].1 as int))
                &&& v@.len() > 0 ==> self.step_spec(
                    (v@[v@.len() - 1].0 as int, v@[v@.len() - 1].1 as int),
                    d,
                ) is None
            }),
    {
        let ghost d = (direction.0 as int, direction.1 as int);
        let mut v: Vec<(usize, usize)> = Vec::new();
        let mut cur = index;
        let mut done = false;
        while !done
            invariant
                d == (direction.0 as int, direction.1 as int),
                v@.len() == 0 ==> cur == index,
                v@.len() > 0 ==> cur == v@[v@.len() - 1],
                v@.len() > 0 ==> self.step_spec((index.0 as int, index.1 as int), d) == Some(
                    (v@[0].0 as int, v@[0].1 as int),
                ),
                forall|k: int|
                    1 <= k < v@.len() ==> self.step_spec((v@[k - 1].0 as int, v@[k - 1].1 as int), d)
                        == Some(((#[trigger] v@[k]).0 as int, v@[k].1 as int)),
                done ==> self.step_spec((cur.0 as int, cur.1 as int), d) is None,
            decreases
                    (if done {
                        0int
                    } else {
                        ray_measure(
                            self.rows as int,
                            self.columns as int,
                            (cur.0 as int, cur.1 as int),
                            d,
                        ) + 1
                    }),
        {
            match self.move_in_direction(cur, direction) {
                Some(n) => {
                    v.push(n);
                    cur = n;
                },
                None => {
                    done = true;
                },
            }
        }
        v
    }
}

/// A bound on how many further steps a ray can take before it leaves
/// the grid: the distance to the boundary along a moving coordinate.
spec fn ray_measure(rows: int, columns: int, p: (int, int), d: (int, int)) -> int {
    if !(0 <= p.0 < rows && 0 <= p.1 < columns) {
        0
    } else if d.0 > 0 {
        rows - p.0
    } else if d.0 < 0 {
        p.0 + 1
    } else if d.1 > 0 {
        columns - p.1
    } else if d.1 < 0 {
        p.1 + 1
    } else {
        0
    }
}

impl<C> Matrix<C> {
    /// Whether `p` is a neighbour of `cell`: both lie in the grid, `p`
    /// sits in the 3 × 3 block centered on `cell` without being `cell`
    /// itself, and, when diagonals are excluded, `p` shares a row or a
    /// column with `cell`.
    pub open spec fn is_neighbour(
        &self,
        cell: (usize, usize),
        p: (usize, usize),
        diagonals: bool,
    ) -> bool {
        &&& self.in_bounds(cell.0 as int, cell.1 as int)
        &&& self.in_bounds(p.0 as int, p.1 as int)
        &&& p != cell
        &&& -1 <= p.0 - cell.0 <= 1
        &&& -1 <= p.1 - cell.1 <= 1
        &&& (diagonals || p.0 == cell.0 || p.1 == cell.1)
    }

    /// The neighbours of `cell`, in row-major order: a sequence of up
    /// to eight one-cell segments, one per position of the 3 × 3 block
    /// around `cell`, each empty when its cell is not a neighbour.
    pub open spec fn neighbours_seq(&self, cell: (usize, usize), diagonals: bool) -> Seq<
        (usize, usize),
    > {
        self.neighbour_at(cell, diagonals, -1, -1) + self.neighbour_at(cell, diagonals, -1, 0)
            + self.neighbour_at(cell, diagonals, -1, 1) + self.neighbour_at(cell, diagonals, 0, -1)
            + self.neighbour_at(cell, diagonals, 0, 1) + self.neighbour_at(cell, diagonals, 1, -1)
            + self.neighbour_at(cell, diagonals, 1, 0) + self.neighbour_at(cell, diagonals, 1, 1)
    }

    /// The one-cell segment of [`neighbours_seq`](Matrix::neighbours_seq)
    /// for the block position offset by `(dr, dc)` from `cell`.
    pub open spec fn neighbour_at(
        &self,
        cell: (usize, usize),
        diagonals: bool,
        dr: int,
        dc: int,
    ) -> Seq<(usize, usize)> {
        let r = cell.0 + dr;
        let c = cell.1 + dc;
        if self.in_bounds(cell.0 as int, cell.1 as int) && self.in_bounds(r, c) && (diagonals || dr
            == 0 || dc == 0) {
            seq![(r as usize, c as usize)]
        } else {
            seq![]
        }
    }

    /// Return the neighbours of a given matrix cell, with or without
    /// considering diagonals, in row-major order. The list is
    /// materialized at the time of the call and does not change if new
    /// rows are added afterwards. A reference position outside the
    /// matrix has no neighbours.
    pub fn neighbours(&self, cell: (usize, usize), diagonals: bool) -> (v: Vec<(usize, usize)>)
        ensures
            v@ == self.neighbours_seq(cell, diagonals),
            forall|p: (usize, usize)| #[trigger]
                v@.contains(p) <==> self.is_neighbour(cell, p, diagonals),
    {
        let (r, c) = cell;
        let mut v: Vec<(usize, usize)> = Vec::new();
        if r < self.rows && c < self.columns {
            if diagonals && r >= 1 && c >= 1 {
                v.push((r - 1, c - 1));
            }
            if r >= 1 {
                v.push((r - 1, c));
            }
            if diagonals && r >= 1 && c + 1 < self.columns {
                v.push((r - 1, c + 1));
            }
            if c >= 1 {
                v.push((r, c - 1));
            }
            if c + 1 < self.columns {
                v.push((r, c + 1));
            }
            if diagonals && r + 1 < self.rows && c >= 1 {
                v.push((r + 1, c - 1));
            }
            if r + 1 < self.rows {
                v.push((r + 1, c));
            }
            if diagonals && r + 1 < self.rows && c + 1 < self.columns {
                v.push((r + 1, c + 1));
            }
        }
        proof {
            assert(v@ =~= self.neighbours_seq(cell, diagonals));
            assert forall|p: (usize, usize)| #[trigger]
                v@.contains(p) <==> self.is_neighbour(cell, p, diagonals) by {
                self.lemma_neighbours_seq_membership(cell, diagonals, p);
            }
        }
        v
    }

    /// A cell occurs in the neighbour sequence exactly when it is a
    /// neighbour.
    pub proof fn lemma_neighbours_seq_membership(
        &self,
        cell: (usize, usize),
        diagonals: bool,
        p: (usize, usize),
    )
        ensures
            self.neighbours_seq(cell, diagonals).contains(p) <==> self.is_neighbour(
                cell,
                p,
                diagonals,
            ),
    {
        let s1 = self.neighbour_at(cell, diagonals, -1, -1);
        let s2 = self.neighbour_at(cell, diagonals, -1, 0);
        let s3 = self.neighbour_at(cell, diagonals, -1, 1);
        let s4 = self.neighbour_at(cell, diagonals, 0, -1);
        let s5 = self.neighbour_at(cell, diagonals, 0, 1);
        let s6 = self.neighbour_at(cell, diagonals, 1, -1);
        let s7 = self.neighbour_at(cell, diagonals, 1, 0);
        let s8 = self.neighbour_at(cell, diagonals, 1, 1);
        lemma_contains_append(s1, s2, p);
        lemma_contains_append(s1 + s2, s3, p);
        lemma_contains_append(s1 + s2 + s3, s4, p);
        lemma_contains_append(s1 + s2 + s3 + s4, s5, p);
        lemma_contains_append(s1 + s2 + s3 + s4 + s5, s6, p);
        lemma_contains_append(s1 + s2 + s3 + s4 + s5 + s6, s7, p);
        lemma_contains_append(s1 + s2 + s3 + s4 + s5 + s6 + s7, s8, p);
        assert forall|dr: int, dc: int| -1 <= dr <= 1 && -1 <= dc <= 1 implies (
        self.neighbour_at(cell, diagonals, dr, dc).contains(p) <==> (self.neighbour_at(
            cell,
            diagonals,
            dr,
            dc,
        ).len() == 1 && p == (((cell.0 + dr) as usize, (cell.1 + dc) as usize)))) by {
            let seg = self.neighbour_at(cell, diagonals, dr, dc);
            if seg.len() == 1 {
                assert(seg[0] == (((cell.0 + dr) as usize, (cell.1 + dc) as usize)));
            }
        }
        if self.is_neighbour(cell, p, diagonals) {
            let dr = p.0 - cell.0;
            let dc = p.1 - cell.1;
            assert(self.neighbour_at(cell, diagonals, dr, dc).len() == 1);
        }
    }
}

/// Membership in an appended sequence splits over the two parts.
proof fn lemma_contains_append(a: Seq<(usize, usize)>, b: Seq<(usize, usize)>, x: (usize, usize))
    ensures
        (a + b).contains(x) <==> a.contains(x) || b.contains(x),
{
    if a.contains(x) {
        let k = choose|k: int| 0 <= k < a.len() && a[k] == x;
        assert((a + b)[k] == x);
    }
    if b.contains(x) {
        let k = choose|k: int| 0 <= k < b.len() && b[k] == x;
        assert((a + b)[a.len() + k] == x);
    }
    if (a + b).contains(x) {
        let k = choose|k: int| 0 <= k < (a + b).len() && (a + b)[k] == x;
        if k < a.len() {
            assert(a[k] == x);
        } else {
            assert(b[k - a.len()] == x);
        }
    }
}

} // verus!
