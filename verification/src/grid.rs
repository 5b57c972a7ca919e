//! Puzzle state: placed digits, candidate sets, candidate counts.
//!
//! A `Problem` holds a 9x9 grid of digits (0 meaning empty), one candidate
//! entry per cell and digit, and a per-cell candidate count.  The
//! well-formedness predicate `Problem::wf` ties the three together: a digit
//! is a candidate of a cell exactly when it does not already occur in the
//! cell's row, column, or 3x3 region, and every count equals the true size
//! of the cell's candidate set.

use vstd::prelude::*;

verus! {

use vstd::string::StringExecFns;

/// Flat index of cell (x, y) into the 81-entry cell vector.
pub open spec fn idx(x: int, y: int) -> int {
    9 * x + y
}

/// Flat index of digit `v` at cell (x, y) into the 729-entry candidate vector.
pub open spec fn oidx(x: int, y: int, v: int) -> int {
    81 * x + 9 * y + v - 1
}

/// (x, y) names a cell of the 9x9 grid.
pub open spec fn in_grid(x: int, y: int) -> bool {
    0 <= x < 9 && 0 <= y < 9
}

/// The two cells share a column, a row, or a 3x3 region.
pub open spec fn same_group(x1: int, y1: int, x2: int, y2: int) -> bool {
    x1 == x2 || y1 == y2 || (x1 / 3 == x2 / 3 && y1 / 3 == y2 / 3)
}

/// The digit stored at cell (x, y) of a flat cell sequence.
pub open spec fn cell_in(d: Seq<u8>, x: int, y: int) -> u8 {
    d[idx(x, y)]
}

/// Digit `v` is recorded as a candidate of cell (x, y).
pub open spec fn has_opt_in(o: Seq<u8>, x: int, y: int, v: u8) -> bool {
    o[oidx(x, y, v as int)] != 0
}

/// Digit `v` already occurs in some cell sharing a group with (x, y)
/// (possibly (x, y) itself), so it cannot be placed at (x, y).
pub open spec fn blocked_in(d: Seq<u8>, x: int, y: int, v: u8) -> bool {
    exists|x2: int, y2: int|
        in_grid(x2, y2) && #[trigger] same_group(x, y, x2, y2) && cell_in(d, x2, y2) == v
}

/// Number of digits in 1..=n recorded as candidates of cell (x, y).
pub open spec fn count_opts_upto(o: Seq<u8>, x: int, y: int, n: int) -> int
    decreases n,
{
    if n <= 0 {
        0
    } else {
        count_opts_upto(o, x, y, n - 1) + if o[oidx(x, y, n)] != 0 {
            1int
        } else {
            0int
        }
    }
}

/// Number of digits in 1..=9 recorded as candidates of cell (x, y).
pub open spec fn count_opts(o: Seq<u8>, x: int, y: int) -> int {
    count_opts_upto(o, x, y, 9)
}

/// Number of digits in 1..=n absent from the row, column, and region of
/// cell (x, y): the candidate count of the cell, recomputed from the cells
/// alone.
pub open spec fn free_upto(d: Seq<u8>, x: int, y: int, n: int) -> int
    decreases n,
{
    if n <= 0 {
        0
    } else {
        free_upto(d, x, y, n - 1) + if !blocked_in(d, x, y, n as u8) {
            1int
        } else {
            0int
        }
    }
}

/// Digit `v` occurs somewhere in column x.
pub open spec fn col_hit(d: Seq<u8>, x: int, v: u8) -> bool {
    exists|t: int| 0 <= t < 9 && #[trigger] cell_in(d, x, t) == v
}

/// Digit `v` occurs somewhere in row y.
pub open spec fn row_hit(d: Seq<u8>, y: int, v: u8) -> bool {
    exists|t: int| 0 <= t < 9 && #[trigger] cell_in(d, t, y) == v
}

/// Digit `v` occurs somewhere in the 3x3 region containing (x, y).
pub open spec fn region_hit(d: Seq<u8>, x: int, y: int, v: u8) -> bool {
    exists|i: int, j: int|
        3 * (x / 3) <= i < 3 * (x / 3) + 3 && 3 * (y / 3) <= j < 3 * (y / 3) + 3
            && #[trigger] cell_in(d, i, j) == v
}

/// No two distinct cells of a common group hold the same nonzero digit.
pub open spec fn valid_cells(d: Seq<u8>) -> bool {
    forall|x1: int, y1: int, x2: int, y2: int|
        #![trigger cell_in(d, x1, y1), cell_in(d, x2, y2)]
        in_grid(x1, y1) && in_grid(x2, y2) && !(x1 == x2 && y1 == y2) && same_group(x1, y1, x2, y2)
            && cell_in(d, x1, y1) != 0 ==> cell_in(d, x1, y1) != cell_in(d, x2, y2)
}

/// Every cell holds a nonzero digit.
pub open spec fn all_filled(d: Seq<u8>) -> bool {
    forall|x: int, y: int| in_grid(x, y) ==> #[trigger] cell_in(d, x, y) != 0
}

/// Which constraint group a rejected placement conflicted with.
#[derive(Clone, Copy, Debug, PartialEq, Eq)]
pub enum Group {
    Column,
    Row,
    Region,
}

/// Returned by `Problem::set` when the digit already occurs in the target
/// cell's column, row, or region.  `index` names the conflicting group:
/// the column index, the row index, or `3 * (x / 3) + y / 3` for the region.
#[derive(Clone, Copy, Debug, PartialEq, Eq)]
pub struct ConstraintViolation {
    pub group: Group,
    pub index: usize,
    pub value: u8,
}

/// The puzzle state.  `data[9 * x + y]` is the digit at cell (x, y), 0 when
/// empty.  `options[81 * x + 9 * y + v - 1]` is `v` when digit `v` is still a
/// candidate at (x, y) and 0 when it is not.  `optcounts[9 * x + y]` is the
/// number of candidates of (x, y).
#[derive(Debug, PartialEq, Eq)]
pub struct Problem {
    pub data: Vec<u8>,
    pub options: Vec<u8>,
    pub optcounts: Vec<u8>,
}

impl Problem {
    /// The flat cell sequence of this grid.
    pub open spec fn cells(self) -> Seq<u8> {
        self.data@
    }

    /// The digit at cell (x, y), 0 when empty.
    pub open spec fn cell(self, x: int, y: int) -> u8 {
        cell_in(self.data@, x, y)
    }

    /// Digit `v` is recorded as a candidate of cell (x, y).
    pub open spec fn has_opt(self, x: int, y: int, v: u8) -> bool {
        has_opt_in(self.options@, x, y, v)
    }

    /// Digit `v` already occurs in the column, row, or region of (x, y).
    pub open spec fn blocked(self, x: int, y: int, v: u8) -> bool {
        blocked_in(self.data@, x, y, v)
    }

    /// Well-formedness: the vectors have their fixed sizes, every cell digit
    /// is at most 9, every candidate entry is 0 or its own digit, every
    /// count equals the true candidate count, a digit is a candidate exactly
    /// when it is not blocked, and no constraint group repeats a digit.
    pub open spec fn wf(self) -> bool {
        &&& self.data@.len() == 81
        &&& self.options@.len() == 729
        &&& self.optcounts@.len() == 81
        &&& forall|x: int, y: int| in_grid(x, y) ==> #[trigger] cell_in(self.data@, x, y) <= 9
        &&& forall|x: int, y: int, v: u8|
            in_grid(x, y) && 1 <= v <= 9 ==> (#[trigger] self.options@[oidx(x, y, v as int)] == 0
                || self.options@[oidx(x, y, v as int)] == v)
        &&& forall|x: int, y: int|
            in_grid(x, y) ==> #[trigger] self.optcounts@[idx(x, y)] == count_opts(
                self.options@,
                x,
                y,
            )
        &&& forall|x: int, y: int, v: u8|
            in_grid(x, y) && 1 <= v <= 9 ==> (#[trigger] has_opt_in(self.options@, x, y, v)
                <==> !blocked_in(self.data@, x, y, v))
        &&& valid_cells(self.data@)
    }

    /// A fresh grid: every cell empty, every digit a candidate everywhere,
    /// every count 9.
    pub fn new() -> (r: Problem)
        ensures
            r.wf(),
            forall|x: int, y: int| in_grid(x, y) ==> #[trigger] r.cell(x, y) == 0,
            forall|x: int, y: int| in_grid(x, y) ==> #[trigger] r.optcounts@[idx(x, y)] == 9,
    {
        let mut data: Vec<u8> = Vec::new();
        let mut i: usize = 0;
        while i < 81
            invariant
                i <= 81,
                data@.len() == i,
                forall|k: int| 0 <= k < i ==> data@[k] == 0,
            decreases 81 - i,
        {
            data.push(0);
            i += 1;
        }
        let mut options: Vec<u8> = Vec::new();
        let mut j: usize = 0;
        while j < 729
            invariant
                j <= 729,
                options@.len() == j,
                forall|k: int| 0 <= k < j ==> options@[k] == k % 9 + 1,
            decreases 729 - j,
        {
            options.push((j % 9) as u8 + 1);
            j += 1;
        }
        let mut optcounts: Vec<u8> = Vec::new();
        let mut m: usize = 0;
        while m < 81
            invariant
                m <= 81,
                optcounts@.len() == m,
                forall|k: int| 0 <= k < m ==> optcounts@[k] == 9,
            decreases 81 - m,
        {
            optcounts.push(9);
            m += 1;
        }
        let r = Problem { data, options, optcounts };
        proof {
            assert forall|x: int, y: int, v: u8| in_grid(x, y) && 1 <= v <= 9 implies (
            #[trigger] r.options@[oidx(x, y, v as int)] == 0 || r.options@[oidx(x, y, v as int)]
                == v) by {
                let k = oidx(x, y, v as int);
                assert(0 <= k < 729);
                assert(k % 9 == v - 1);
            }
            assert forall|x: int, y: int, v: u8| in_grid(x, y) && 1 <= v <= 9 implies (
            #[trigger] has_opt_in(r.options@, x, y, v) && !blocked_in(r.data@, x, y, v)) by {
                let k = oidx(x, y, v as int);
                assert(0 <= k < 729);
                assert(k % 9 == v - 1);
                assert(r.options@[k] == v);
                if blocked_in(r.data@, x, y, v) {
                    let (x2, y2) = choose|x2: int, y2: int|
                        in_grid(x2, y2) && #[trigger] same_group(x, y, x2, y2) && cell_in(
                            r.data@,
                            x2,
                            y2,
                        ) == v;
                    assert(r.data@[idx(x2, y2)] == 0);
                }
            }
            assert forall|x: int, y: int| in_grid(x, y) implies #[trigger] r.optcounts@[idx(x, y)]
                == count_opts(r.options@, x, y) by {
                lemma_count_all_present(r.options@, x, y, 9);
            }
        }
        r
    }

    /// The digit at cell (x, y), 0 when the cell is empty.
    pub fn get(&self, x: usize, y: usize) -> (r: u8)
        requires
            x < 9,
            y < 9,
            self.data@.len() == 81,
        ensures
            r == self.cell(x as int, y as int),
    {
        self.data[9 * x + y]
    }

    /// The maintained candidate count of cell (x, y).
    pub fn count_options(&self, x: usize, y: usize) -> (r: u8)
        requires
            x < 9,
            y < 9,
            self.optcounts@.len() == 81,
        ensures
            r == self.optcounts@[idx(x as int, y as int)],
    {
        self.optcounts[9 * x + y]
    }

    /// Drop digit `value` from the candidate set of cell (x, y), decrementing
    /// the cell's count exactly when the candidate was present; a no-op on an
    /// absent candidate.
    pub fn remove_option(&mut self, x: usize, y: usize, value: u8)
        requires
            x < 9,
            y < 9,
            1 <= value <= 9,
            old(self).data@.len() == 81,
            old(self).options@.len() == 729,
            old(self).optcounts@.len() == 81,
            old(self).optcounts@[idx(x as int, y as int)] == count_opts(
                old(self).options@,
                x as int,
                y as int,
            ),
        ensures
            final(self).data@ == old(self).data@,
            final(self).options@ == old(self).options@.update(
                oidx(x as int, y as int, value as int),
                0,
            ),
            final(self).optcounts@.len() == 81,
            forall|i: int|
                0 <= i < 81 && i != idx(x as int, y as int) ==> final(self).optcounts@[i] == old(
                    self,
                ).optcounts@[i],
            final(self).optcounts@[idx(x as int, y as int)] == count_opts(
                final(self).options@,
                x as int,
                y as int,
            ),
    {
        let oi: usize = 81 * x + 9 * y + (value as usize) - 1;
        if self.options[oi] != 0 {
            proof {
                lemma_count_present(self.options@, x as int, y as int, value as int, 9);
            }
            let ci: usize = 9 * x + y;
            let c = self.optcounts[ci];
            self.optcounts.set(ci, c - 1);
            self.options.set(oi, 0);
            proof {
                lemma_count_drop(
                    old(self).options@,
                    self.options@,
                    x as int,
                    y as int,
                    value as int,
                    9,
                );
            }
        } else {
            proof {
                assert(self.options@ =~= old(self).options@.update(
                    oidx(x as int, y as int, value as int),
                    0,
                ));
                lemma_count_agree(old(self).options@, self.options@, x as int, y as int, 9);
            }
        }
    }

    /// Every cell is filled.
    pub open spec fn solved(self) -> bool {
        all_filled(self.data@)
    }

    /// Every empty cell still has at least one candidate.  A necessary, not
    /// sufficient, feasibility check.
    pub open spec fn solvable(self) -> bool {
        forall|x: int, y: int|
            in_grid(x, y) && #[trigger] cell_in(self.data@, x, y) == 0 ==> self.optcounts@[idx(
                x,
                y,
            )] != 0
    }

    /// True iff every cell is filled.
    #[verifier::loop_isolation(false)]
    pub fn is_solved(&self) -> (r: bool)
        requires
            self.data@.len() == 81,
        ensures
            r == self.solved(),
    {
        let mut x: usize = 0;
        while x < 9
            invariant
                x <= 9,
                forall|a: int, b: int| 0 <= a < x && 0 <= b < 9 ==> cell_in(self.data@, a, b) != 0,
            decreases 9 - x,
        {
            let mut y: usize = 0;
            while y < 9
                invariant
                    y <= 9,
                    forall|b: int| 0 <= b < y ==> cell_in(self.data@, x as int, b) != 0,
                decreases 9 - y,
            {
                if self.data[9 * x + y] == 0 {
                    proof {
                        assert(cell_in(self.data@, x as int, y as int) == 0);
                    }
                    return false;
                }
                y += 1;
            }
            x += 1;
        }
        true
    }

    /// True iff every empty cell has at least one candidate left.
    #[verifier::loop_isolation(false)]
    pub fn is_solvable(&self) -> (r: bool)
        requires
            self.data@.len() == 81,
            self.optcounts@.len() == 81,
        ensures
            r == self.solvable(),
    {
        let mut x: usize = 0;
        while x < 9
            invariant
                x <= 9,
                forall|a: int, b: int|
                    0 <= a < x && 0 <= b < 9 && cell_in(self.data@, a, b) == 0
                        ==> self.optcounts@[idx(a, b)] != 0,
            decreases 9 - x,
        {
            let mut y: usize = 0;
            while y < 9
                invariant
                    y <= 9,
                    forall|b: int|
                        0 <= b < y && cell_in(self.data@, x as int, b) == 0 ==> self.optcounts@[idx(
                            x as int,
                            b,
                        )] != 0,
                decreases 9 - y,
            {
                if self.data[9 * x + y] == 0 {
                    if self.optcounts[9 * x + y] == 0 {
                        proof {
                            assert(cell_in(self.data@, x as int, y as int) == 0);
                        }
                        return false;
                    }
                }
                y += 1;
            }
            x += 1;
        }
        true
    }

    /// A fresh traversal of the empty cells of this grid.
    pub fn iter_empty_coords(&self) -> (r: EmptyCells<'_>)
        requires
            self.data@.len() == 81,
        ensures
            r.problem == self,
            r.curx == 0,
            r.cury == 0,
            r.inv(),
    {
        EmptyCells::new(self)
    }

    /// An empty cell with few candidates, used as the branch point of the
    /// search.  The first empty cell with exactly 2 candidates is returned at
    /// once; otherwise a cell whose count is minimal among all empty cells.
    #[verifier::loop_isolation(false)]
    #[verifier::rlimit(60)]
    pub fn get_minimum_options_coord(&self) -> (r: (usize, usize))
        requires
            self.wf(),
            !all_filled(self.data@),
        ensures
            in_grid(r.0 as int, r.1 as int),
            self.cell(r.0 as int, r.1 as int) == 0,
            self.optcounts@[idx(r.0 as int, r.1 as int)] == 2 || forall|x: int, y: int|
                in_grid(x, y) && cell_in(self.data@, x, y) == 0 ==> self.optcounts@[idx(
                    r.0 as int,
                    r.1 as int,
                )] <= #[trigger] self.optcounts@[idx(x, y)],
    {
        let mut minimum: (usize, usize) = (0, 0);
        let mut mincount: u8 = 9;
        let mut it = EmptyCells::new(self);
        loop
            invariant
                it.problem == self,
                it.inv(),
                mincount <= 9,
                mincount < 9 ==> in_grid(minimum.0 as int, minimum.1 as int) && cell_in(
                    self.data@,
                    minimum.0 as int,
                    minimum.1 as int,
                ) == 0 && self.optcounts@[idx(minimum.0 as int, minimum.1 as int)] == mincount,
                mincount == 9 ==> minimum == (0usize, 0usize),
                forall|p: int|
                    0 <= p < it.pos() && #[trigger] self.data@[p] == 0 ==> self.optcounts@[p]
                        >= mincount,
            decreases 81 - it.pos(),
        {
            let ghost startpos = it.pos();
            let step = it.next();
            match step {
                None => {
                    proof {
                        lemma_first_empty(self.data@, startpos);
                    }
                    break ;
                },
                Some(cell) => {
                    let (cx, cy) = cell;
                    proof {
                        lemma_first_empty(self.data@, startpos);
                    }
                    let count = self.count_options(cx, cy);
                    proof {
                        assert(idx(cx as int, cy as int) == it.pos() - 1);
                    }
                    if count == 2 {
                        return (cx, cy);
                    }
                    if count < mincount {
                        mincount = count;
                        minimum = (cx, cy);
                    }
                },
            }
        }
        proof {
            if mincount == 9 {
                lemma_all_nine_origin_empty(*self);
                assert forall|x: int, y: int|
                    in_grid(x, y) && cell_in(self.data@, x, y) == 0 implies self.optcounts@[idx(
                    0,
                    0,
                )] <= #[trigger] self.optcounts@[idx(x, y)] by {
                    assert(self.data@[idx(x, y)] == 0);
                    lemma_count_upper(self.options@, 0, 0, 9);
                }
            } else {
                assert forall|x: int, y: int|
                    in_grid(x, y) && cell_in(self.data@, x, y) == 0 implies self.optcounts@[idx(
                    minimum.0 as int,
                    minimum.1 as int,
                )] <= #[trigger] self.optcounts@[idx(x, y)] by {
                    assert(self.data@[idx(x, y)] == 0);
                }
            }
        }
        minimum
    }

    /// The text rendering of the grid: nine rows in three blocks separated
    /// by dashed lines, empty cells drawn as spaces.
    pub fn format(&self) -> (r: String)
        requires
            self.data@.len() == 81,
        ensures
            r@ == render_grid(self.data@),
    {
        let mut out = String::new();
        push_row(&mut out, self, 0);
        push_row(&mut out, self, 1);
        push_row(&mut out, self, 2);
        push_separator(&mut out);
        push_row(&mut out, self, 3);
        push_row(&mut out, self, 4);
        push_row(&mut out, self, 5);
        push_separator(&mut out);
        push_row(&mut out, self, 6);
        push_row(&mut out, self, 7);
        push_row(&mut out, self, 8);
        proof {
            assert(out@ =~= render_grid(self.data@));
        }
        out
    }

    /// Place `value` at the empty cell (x, y).  The three constraint groups
    /// are scanned first: if the digit already occurs in the column, the row,
    /// or the region, the placement is rejected with a `ConstraintViolation`
    /// naming the first such group, and the grid is unchanged.  Otherwise the
    /// digit is written and eagerly removed from the candidate set of every
    /// cell sharing a group with (x, y), each count decremented exactly once
    /// per actual removal.
    #[verifier::loop_isolation(false)]
    #[verifier::rlimit(100)]
    pub fn set(&mut self, x: usize, y: usize, value: u8) -> (r: Result<(), ConstraintViolation>)
        requires
            old(self).wf(),
            x < 9,
            y < 9,
            1 <= value <= 9,
            old(self).cell(x as int, y as int) == 0,
        ensures
            r is Ok <==> !old(self).blocked(x as int, y as int, value),
            r is Err ==> *final(self) == *old(self),
            r is Ok ==> final(self).wf(),
            r is Ok ==> final(self).data@ == old(self).data@.update(
                idx(x as int, y as int),
                value,
            ),
            r is Ok ==> forall|x2: int, y2: int, v: u8|
                in_grid(x2, y2) && 1 <= v <= 9 ==> (#[trigger] has_opt_in(
                    final(self).options@,
                    x2,
                    y2,
                    v,
                ) <==> (has_opt_in(old(self).options@, x2, y2, v) && !(v == value && same_group(
                    x as int,
                    y as int,
                    x2,
                    y2,
                )))),
            match r {
                Ok(_) => true,
                Err(cv) => cv.value == value && match cv.group {
                    Group::Column => cv.index == x && col_hit(old(self).data@, x as int, value),
                    Group::Row => cv.index == y && !col_hit(old(self).data@, x as int, value)
                        && row_hit(old(self).data@, y as int, value),
                    Group::Region => cv.index == 3 * (x / 3) + y / 3 && !col_hit(
                        old(self).data@,
                        x as int,
                        value,
                    ) && !row_hit(old(self).data@, y as int, value) && region_hit(
                        old(self).data@,
                        x as int,
                        y as int,
                        value,
                    ),
                },
            },
    {
        let sx = x / 3;
        let sy = y / 3;
        // verify by column
        let mut t: usize = 0;
        while t < 9
            invariant
                t <= 9,
                forall|j: int| 0 <= j < t ==> cell_in(self.data@, x as int, j) != value,
            decreases 9 - t,
        {
            if self.data[9 * x + t] == value {
                proof {
                    assert(cell_in(self.data@, x as int, t as int) == value);
                    assert(same_group(x as int, y as int, x as int, t as int));
                }
                return Err(ConstraintViolation { group: Group::Column, index: x, value });
            }
            t += 1;
        }
        // verify by row
        let mut t: usize = 0;
        while t < 9
            invariant
                t <= 9,
                forall|j: int| 0 <= j < t ==> cell_in(self.data@, j, y as int) != value,
            decreases 9 - t,
        {
            if self.data[9 * t + y] == value {
                proof {
                    assert(cell_in(self.data@, t as int, y as int) == value);
                    assert(same_group(x as int, y as int, t as int, y as int));
                }
                return Err(ConstraintViolation { group: Group::Row, index: y, value });
            }
            t += 1;
        }
        // verify by region
        let mut i: usize = 3 * sx;
        while i < 3 * sx + 3
            invariant
                3 * sx <= i <= 3 * sx + 3,
                forall|a: int, b: int|
                    3 * (sx as int) <= a < i && 3 * (sy as int) <= b < 3 * (sy as int) + 3
                        ==> cell_in(self.data@, a, b) != value,
            decreases 3 * sx + 3 - i,
        {
            let mut j: usize = 3 * sy;
            while j < 3 * sy + 3
                invariant
                    3 * sy <= j <= 3 * sy + 3,
                    forall|b: int| 3 * (sy as int) <= b < j ==> cell_in(self.data@, i as int, b) != value,
                decreases 3 * sy + 3 - j,
            {
                if self.data[9 * i + j] == value {
                    proof {
                        assert(cell_in(self.data@, i as int, j as int) == value);
                        assert(i as int / 3 == x as int / 3);
                        assert(j as int / 3 == y as int / 3);
                        assert(same_group(x as int, y as int, i as int, j as int));
                    }
                    return Err(ConstraintViolation { group: Group::Region, index: 3 * sx + sy, value });
                }
                j += 1;
            }
            i += 1;
        }
        proof {
            assert forall|x2: int, y2: int|
                in_grid(x2, y2) && #[trigger] same_group(x as int, y as int, x2, y2)
                implies cell_in(self.data@, x2, y2) != value by {
                if x2 == x as int {
                    assert(cell_in(self.data@, x as int, y2) != value);
                } else if y2 == y as int {
                    assert(cell_in(self.data@, x2, y as int) != value);
                } else {
                    assert(3 * (sx as int) <= x2 < 3 * (sx as int) + 3);
                    assert(3 * (sy as int) <= y2 < 3 * (sy as int) + 3);
                    assert(cell_in(self.data@, x2, y2) != value);
                }
            }
            assert(!blocked_in(self.data@, x as int, y as int, value));
        }
        // Finally, we can set the value
        self.data.set(9 * x + y, value);
        // Remove the digit as a candidate from every cell of the column
        let mut t: usize = 0;
        while t < 9
            invariant
                t <= 9,
                self.data@ == old(self).data@.update(idx(x as int, y as int), value),
                self.options@.len() == 729,
                self.optcounts@.len() == 81,
                forall|x2: int, y2: int, v: u8|
                    in_grid(x2, y2) && 1 <= v <= 9 ==> (#[trigger] has_opt_in(
                        self.options@,
                        x2,
                        y2,
                        v,
                    ) <==> (has_opt_in(old(self).options@, x2, y2, v) && !(v == value && x2
                        == x as int && 0 <= y2 < t))),
                forall|x2: int, y2: int, v: u8|
                    in_grid(x2, y2) && 1 <= v <= 9 ==> (#[trigger] self.options@[oidx(
                        x2,
                        y2,
                        v as int,
                    )] == 0 || self.options@[oidx(x2, y2, v as int)] == v),
                forall|x2: int, y2: int|
                    in_grid(x2, y2) ==> #[trigger] self.optcounts@[idx(x2, y2)] == count_opts(
                        self.options@,
                        x2,
                        y2,
                    ),
            decreases 9 - t,
        {
            let ghost oprev = self.options@;
            let ghost cprev = self.optcounts@;
            self.remove_option(x, t, value);
            proof {
                reestablish_after_removal(
                    oprev,
                    cprev,
                    self.options@,
                    self.optcounts@,
                    x as int,
                    t as int,
                    value,
                );
            }
            t += 1;
        }
        // Remove it from every cell of the row
        let mut t: usize = 0;
        while t < 9
            invariant
                t <= 9,
                self.data@ == old(self).data@.update(idx(x as int, y as int), value),
                self.options@.len() == 729,
                self.optcounts@.len() == 81,
                forall|x2: int, y2: int, v: u8|
                    in_grid(x2, y2) && 1 <= v <= 9 ==> (#[trigger] has_opt_in(
                        self.options@,
                        x2,
                        y2,
                        v,
                    ) <==> (has_opt_in(old(self).options@, x2, y2, v) && !(v == value && (x2
                        == x as int || (y2 == y as int && 0 <= x2 < t))))),
                forall|x2: int, y2: int, v: u8|
                    in_grid(x2, y2) && 1 <= v <= 9 ==> (#[trigger] self.options@[oidx(
                        x2,
                        y2,
                        v as int,
                    )] == 0 || self.options@[oidx(x2, y2, v as int)] == v),
                forall|x2: int, y2: int|
                    in_grid(x2, y2) ==> #[trigger] self.optcounts@[idx(x2, y2)] == count_opts(
                        self.options@,
                        x2,
                        y2,
                    ),
            decreases 9 - t,
        {
            let ghost oprev = self.options@;
            let ghost cprev = self.optcounts@;
            self.remove_option(t, y, value);
            proof {
                reestablish_after_removal(
                    oprev,
                    cprev,
                    self.options@,
                    self.optcounts@,
                    t as int,
                    y as int,
                    value,
                );
            }
            t += 1;
        }
        // Remove it from every cell of the region
        let mut t: usize = 0;
        while t < 9
            invariant
                t <= 9,
                self.data@ == old(self).data@.update(idx(x as int, y as int), value),
                self.options@.len() == 729,
                self.optcounts@.len() == 81,
                forall|x2: int, y2: int, v: u8|
                    in_grid(x2, y2) && 1 <= v <= 9 ==> (#[trigger] has_opt_in(
                        self.options@,
                        x2,
                        y2,
                        v,
                    ) <==> (has_opt_in(old(self).options@, x2, y2, v) && !(v == value && (x2
                        == x as int || y2 == y as int || (3 * (sx as int) <= x2 < 3 * (sx as int)
                        + 3 && 3 * (sy as int) <= y2 < 3 * (sy as int) + 3 && 3 * (x2 - 3 * (
                    sx as int)) + (y2 - 3 * (sy as int)) < t))))),
                forall|x2: int, y2: int, v: u8|
                    in_grid(x2, y2) && 1 <= v <= 9 ==> (#[trigger] self.options@[oidx(
                        x2,
                        y2,
                        v as int,
                    )] == 0 || self.options@[oidx(x2, y2, v as int)] == v),
                forall|x2: int, y2: int|
                    in_grid(x2, y2) ==> #[trigger] self.optcounts@[idx(x2, y2)] == count_opts(
                        self.options@,
                        x2,
                        y2,
                    ),
            decreases 9 - t,
        {
            let ghost oprev = self.options@;
            let ghost cprev = self.optcounts@;
            let ri = 3 * sx + t / 3;
            let rj = 3 * sy + t % 3;
            self.remove_option(ri, rj, value);
            proof {
                reestablish_after_removal(
                    oprev,
                    cprev,
                    self.options@,
                    self.optcounts@,
                    ri as int,
                    rj as int,
                    value,
                );
            }
            t += 1;
        }
        proof {
            let dold = old(self).data@;
            let dnew = self.data@;
            assert forall|x2: int, y2: int, v: u8| in_grid(x2, y2) && 1 <= v <= 9 implies (
            #[trigger] has_opt_in(self.options@, x2, y2, v) <==> (has_opt_in(
                old(self).options@,
                x2,
                y2,
                v,
            ) && !(v == value && same_group(x as int, y as int, x2, y2)))) by {
                assert(same_group(x as int, y as int, x2, y2) <==> (x2 == x as int || y2
                    == y as int || (3 * (sx as int) <= x2 < 3 * (sx as int) + 3 && 3 * (sy as int)
                    <= y2 < 3 * (sy as int) + 3)));
            }
            assert forall|x2: int, y2: int, v: u8| in_grid(x2, y2) && 1 <= v <= 9 implies (
            #[trigger] has_opt_in(self.options@, x2, y2, v) <==> !blocked_in(dnew, x2, y2, v)) by {
                lemma_blocked_after_update(dold, x as int, y as int, value, x2, y2, v);
                assert(has_opt_in(old(self).options@, x2, y2, v) <==> !blocked_in(
                    dold,
                    x2,
                    y2,
                    v,
                ));
                assert(same_group(x as int, y as int, x2, y2) == same_group(
                    x2,
                    y2,
                    x as int,
                    y as int,
                ));
            }
            assert forall|x2: int, y2: int| in_grid(x2, y2) implies #[trigger] cell_in(
                dnew,
                x2,
                y2,
            ) <= 9 by {
                if x2 != x as int || y2 != y as int {
                    assert(idx(x2, y2) != idx(x as int, y as int));
                    assert(cell_in(dnew, x2, y2) == cell_in(dold, x2, y2));
                }
            }
            assert forall|x1: int, y1: int, x2: int, y2: int|
                in_grid(x1, y1) && in_grid(x2, y2) && !(x1 == x2 && y1 == y2) && same_group(
                    x1,
                    y1,
                    x2,
                    y2,
                ) && #[trigger] cell_in(dnew, x1, y1) != 0 implies cell_in(dnew, x1, y1)
                != #[trigger] cell_in(dnew, x2, y2) by {
                if x1 == x as int && y1 == y as int {
                    assert(idx(x2, y2) != idx(x as int, y as int));
                    assert(cell_in(dnew, x2, y2) == cell_in(dold, x2, y2));
                    assert(same_group(x as int, y as int, x2, y2));
                } else if x2 == x as int && y2 == y as int {
                    assert(idx(x1, y1) != idx(x as int, y as int));
                    assert(cell_in(dnew, x1, y1) == cell_in(dold, x1, y1));
                    assert(same_group(x as int, y as int, x1, y1));
                } else {
                    assert(cell_in(dnew, x1, y1) == cell_in(dold, x1, y1));
                    assert(cell_in(dnew, x2, y2) == cell_in(dold, x2, y2));
                }
            }
            assert(self.wf());
        }
        Ok(())
    }
}

/// After one candidate removal at cell (rx, ry), the per-cell count
/// relation still holds everywhere.
proof fn reestablish_after_removal(
    oprev: Seq<u8>,
    cprev: Seq<u8>,
    onew: Seq<u8>,
    cnew: Seq<u8>,
    rx: int,
    ry: int,
    value: u8,
)
    requires
        in_grid(rx, ry),
        1 <= value <= 9,
        oprev.len() == 729,
        cprev.len() == 81,
        cnew.len() == 81,
        onew == oprev.update(oidx(rx, ry, value as int), 0),
        forall|i: int| 0 <= i < 81 && i != idx(rx, ry) ==> cnew[i] == cprev[i],
        cnew[idx(rx, ry)] == count_opts(onew, rx, ry),
        forall|x2: int, y2: int|
            in_grid(x2, y2) ==> #[trigger] cprev[idx(x2, y2)] == count_opts(oprev, x2, y2),
        forall|x2: int, y2: int, v: u8|
            in_grid(x2, y2) && 1 <= v <= 9 ==> (#[trigger] oprev[oidx(x2, y2, v as int)] == 0
                || oprev[oidx(x2, y2, v as int)] == v),
    ensures
        forall|x2: int, y2: int|
            in_grid(x2, y2) ==> #[trigger] cnew[idx(x2, y2)] == count_opts(onew, x2, y2),
        forall|x2: int, y2: int, v: u8|
            in_grid(x2, y2) && 1 <= v <= 9 ==> (#[trigger] onew[oidx(x2, y2, v as int)] == 0
                || onew[oidx(x2, y2, v as int)] == v),
        forall|x2: int, y2: int, v: u8|
            in_grid(x2, y2) && 1 <= v <= 9 ==> (#[trigger] has_opt_in(onew, x2, y2, v) <==> (
            has_opt_in(oprev, x2, y2, v) && !(v == value && x2 == rx && y2 == ry))),
{
    assert forall|x2: int, y2: int| in_grid(x2, y2) implies #[trigger] cnew[idx(x2, y2)]
        == count_opts(onew, x2, y2) by {
        if x2 == rx && y2 == ry {
        } else {
            assert(idx(x2, y2) != idx(rx, ry));
            assert forall|v: int| 1 <= v <= 9 implies #[trigger] oprev[oidx(x2, y2, v)] == onew[oidx(
                x2,
                y2,
                v,
            )] by {
                assert(oidx(x2, y2, v) != oidx(rx, ry, value as int));
            }
            lemma_count_agree(oprev, onew, x2, y2, 9);
        }
    }
}

/// Placing a digit at an empty cell blocks exactly the placed digit at the
/// cells of its groups, and blocks nothing else anywhere.
pub proof fn lemma_blocked_after_update(d: Seq<u8>, x: int, y: int, value: u8, x2: int, y2: int, v: u8)
    requires
        d.len() == 81,
        in_grid(x, y),
        in_grid(x2, y2),
        1 <= value <= 9,
        1 <= v <= 9,
        cell_in(d, x, y) == 0,
    ensures
        blocked_in(d.update(idx(x, y), value), x2, y2, v) <==> (blocked_in(d, x2, y2, v) || (v
            == value && same_group(x2, y2, x, y))),
{
    let d2 = d.update(idx(x, y), value);
    if blocked_in(d2, x2, y2, v) {
        let (a, b) = choose|a: int, b: int|
            in_grid(a, b) && #[trigger] same_group(x2, y2, a, b) && cell_in(d2, a, b) == v;
        if a == x && b == y {
            assert(cell_in(d2, x, y) == value);
        } else {
            assert(idx(a, b) != idx(x, y));
            assert(cell_in(d, a, b) == cell_in(d2, a, b));
        }
    }
    if blocked_in(d, x2, y2, v) {
        let (a, b) = choose|a: int, b: int|
            in_grid(a, b) && #[trigger] same_group(x2, y2, a, b) && cell_in(d, a, b) == v;
        assert(idx(a, b) != idx(x, y));
        assert(cell_in(d2, a, b) == v);
        assert(blocked_in(d2, x2, y2, v));
    }
    if v == value && same_group(x2, y2, x, y) {
        assert(cell_in(d2, x, y) == v);
        assert(blocked_in(d2, x2, y2, v));
    }
}

/// A cell whose candidate entries are all present has candidate count n
/// over the digits 1..=n.
pub proof fn lemma_count_all_present(o: Seq<u8>, x: int, y: int, n: int)
    requires
        forall|v: int| 1 <= v <= n ==> #[trigger] o[oidx(x, y, v)] != 0,
    ensures
        count_opts_upto(o, x, y, n) == if n >= 0 {
            n
        } else {
            0
        },
    decreases n,
{
    if n > 0 {
        lemma_count_all_present(o, x, y, n - 1);
    }
}

/// Candidate counts only read the cell's own entries: sequences that agree
/// on them give the same count.
pub proof fn lemma_count_agree(o1: Seq<u8>, o2: Seq<u8>, x: int, y: int, n: int)
    requires
        forall|v: int| 1 <= v <= n ==> #[trigger] o1[oidx(x, y, v)] == o2[oidx(x, y, v)],
    ensures
        count_opts_upto(o1, x, y, n) == count_opts_upto(o2, x, y, n),
    decreases n,
{
    if n > 0 {
        lemma_count_agree(o1, o2, x, y, n - 1);
    }
}

/// A present candidate makes the count at least 1.
pub proof fn lemma_count_present(o: Seq<u8>, x: int, y: int, v: int, n: int)
    requires
        1 <= v <= n,
        o[oidx(x, y, v)] != 0,
    ensures
        count_opts_upto(o, x, y, n) >= 1,
    decreases n,
{
    lemma_count_nonneg(o, x, y, n - 1);
    if v < n {
        lemma_count_present(o, x, y, v, n - 1);
    }
}

/// Counts are never negative.
pub proof fn lemma_count_nonneg(o: Seq<u8>, x: int, y: int, n: int)
    ensures
        count_opts_upto(o, x, y, n) >= 0,
    decreases n,
{
    if n > 0 {
        lemma_count_nonneg(o, x, y, n - 1);
    }
}

/// Counts never exceed n.
pub proof fn lemma_count_upper(o: Seq<u8>, x: int, y: int, n: int)
    ensures
        count_opts_upto(o, x, y, n) <= if n >= 0 {
            n
        } else {
            0
        },
    decreases n,
{
    if n > 0 {
        lemma_count_upper(o, x, y, n - 1);
    }
}

/// Zeroing one present candidate entry lowers the cell's count by exactly 1.
pub proof fn lemma_count_drop(o1: Seq<u8>, o2: Seq<u8>, x: int, y: int, v: int, n: int)
    requires
        1 <= v <= 9,
        n <= 9,
        in_grid(x, y),
        o1.len() == 729,
        o1[oidx(x, y, v)] != 0,
        o2 == o1.update(oidx(x, y, v), 0u8),
    ensures
        v <= n ==> count_opts_upto(o2, x, y, n) == count_opts_upto(o1, x, y, n) - 1,
        v > n ==> count_opts_upto(o2, x, y, n) == count_opts_upto(o1, x, y, n),
    decreases n,
{
    if n > 0 {
        lemma_count_drop(o1, o2, x, y, v, n - 1);
        assert(oidx(x, y, n) != oidx(x, y, v) || n == v);
        assert(0 <= oidx(x, y, n) < 729);
    }
}

/// A count of at least 1 over 1..=n exhibits a present candidate.
pub proof fn lemma_count_exists(o: Seq<u8>, x: int, y: int, n: int)
    requires
        count_opts_upto(o, x, y, n) >= 1,
    ensures
        exists|v: int| 1 <= v <= n && #[trigger] o[oidx(x, y, v)] != 0,
    decreases n,
{
    if n > 0 {
        if o[oidx(x, y, n)] != 0 {
            assert(1 <= n <= n && o[oidx(x, y, n)] != 0);
        } else {
            lemma_count_exists(o, x, y, n - 1);
        }
    }
}

/// An absent candidate keeps the count over 1..=n strictly below n.
pub proof fn lemma_count_missing(o: Seq<u8>, x: int, y: int, v: int, n: int)
    requires
        1 <= v <= n,
        o[oidx(x, y, v)] == 0,
    ensures
        count_opts_upto(o, x, y, n) <= n - 1,
    decreases n,
{
    lemma_count_upper(o, x, y, n - 1);
    if v < n {
        lemma_count_missing(o, x, y, v, n - 1);
    }
}

/// The character rendering one cell: its digit, or a space when empty.
pub open spec fn digit_char(v: u8) -> char {
    if v == 1 {
        '1'
    } else if v == 2 {
        '2'
    } else if v == 3 {
        '3'
    } else if v == 4 {
        '4'
    } else if v == 5 {
        '5'
    } else if v == 6 {
        '6'
    } else if v == 7 {
        '7'
    } else if v == 8 {
        '8'
    } else if v == 9 {
        '9'
    } else {
        ' '
    }
}

/// One rendered text row: the nine cell characters of row y, space
/// separated, split into groups of three by `|` dividers, ending in a
/// newline.
pub open spec fn render_row(d: Seq<u8>, y: int) -> Seq<char> {
    seq![
        digit_char(cell_in(d, 0, y)),
        ' ',
        digit_char(cell_in(d, 1, y)),
        ' ',
        digit_char(cell_in(d, 2, y)),
        ' ',
        '|',
        ' ',
        digit_char(cell_in(d, 3, y)),
        ' ',
        digit_char(cell_in(d, 4, y)),
        ' ',
        digit_char(cell_in(d, 5, y)),
        ' ',
        '|',
        ' ',
        digit_char(cell_in(d, 6, y)),
        ' ',
        digit_char(cell_in(d, 7, y)),
        ' ',
        digit_char(cell_in(d, 8, y)),
        '\n',
    ]
}

/// The dashed separator drawn between blocks of three rows.
pub open spec fn render_separator() -> Seq<char> {
    seq![
        '-',
        '-',
        '-',
        '-',
        '-',
        '-',
        '+',
        '-',
        '-',
        '-',
        '-',
        '-',
        '-',
        '-',
        '+',
        '-',
        '-',
        '-',
        '-',
        '-',
        '-',
        '\n',
    ]
}

/// The full text rendering of a grid: three blocks of three rows with a
/// separator between consecutive blocks.
pub open spec fn render_grid(d: Seq<u8>) -> Seq<char> {
    render_row(d, 0) + render_row(d, 1) + render_row(d, 2) + render_separator() + render_row(d, 3)
        + render_row(d, 4) + render_row(d, 5) + render_separator() + render_row(d, 6) + render_row(
        d,
        7,
    ) + render_row(d, 8)
}

/// The one-character text of a digit, a space for an empty cell.
fn digit_str(v: u8) -> (r: &'static str)
    ensures
        r@ == seq![digit_char(v)],
{
    let r: &'static str = match v {
        1 => "1",
        2 => "2",
        3 => "3",
        4 => "4",
        5 => "5",
        6 => "6",
        7 => "7",
        8 => "8",
        9 => "9",
        _ => " ",
    };
    proof {
        reveal_strlit("1");
        reveal_strlit("2");
        reveal_strlit("3");
        reveal_strlit("4");
        reveal_strlit("5");
        reveal_strlit("6");
        reveal_strlit("7");
        reveal_strlit("8");
        reveal_strlit("9");
        reveal_strlit(" ");
        assert(r@ =~= seq![digit_char(v)]);
    }
    r
}

/// Append three space-separated cell characters to the output text.
fn push_triplet(out: &mut String, a: u8, b: u8, c: u8)
    ensures
        final(out)@ == old(out)@ + seq![
            digit_char(a),
            ' ',
            digit_char(b),
            ' ',
            digit_char(c),
        ],
{
    out.append(digit_str(a));
    out.append(" ");
    out.append(digit_str(b));
    out.append(" ");
    out.append(digit_str(c));
    proof {
        reveal_strlit(" ");
        assert(out@ =~= old(out)@ + seq![digit_char(a), ' ', digit_char(b), ' ', digit_char(c)]);
    }
}

/// Append one rendered row of the grid to the output text.
#[verifier::spinoff_prover]
#[verifier::rlimit(100)]
fn push_row(out: &mut String, p: &Problem, y: usize)
    requires
        y < 9,
        p.data@.len() == 81,
    ensures
        final(out)@ == old(out)@ + render_row(p.data@, y as int),
{
    push_triplet(out, p.get(0, y), p.get(1, y), p.get(2, y));
    out.append(" | ");
    push_triplet(out, p.get(3, y), p.get(4, y), p.get(5, y));
    out.append(" | ");
    push_triplet(out, p.get(6, y), p.get(7, y), p.get(8, y));
    out.append("\n");
    proof {
        reveal_strlit(" | ");
        reveal_strlit("\n");
        assert(out@ =~= old(out)@ + render_row(p.data@, y as int));
    }
}

/// Append the block separator to the output text.
fn push_separator(out: &mut String)
    ensures
        final(out)@ == old(out)@ + render_separator(),
{
    out.append("------+-------+------\n");
    proof {
        reveal_strlit("------+-------+------\n");
        assert(out@ =~= old(out)@ + render_separator());
    }
}

/// A row-major traversal of the empty cells of a borrowed grid.  It reads
/// the grid through the reference on every step, so it reflects the grid's
/// current state rather than a frozen snapshot.
pub struct EmptyCells<'a> {
    pub problem: &'a Problem,
    pub curx: usize,
    pub cury: usize,
}

/// The first position at or after `p` (in row-major flat order) holding an
/// empty cell, if any.
pub open spec fn first_empty_from(d: Seq<u8>, p: int) -> Option<int>
    decreases 81 - p,
{
    if p < 0 || p >= 81 {
        None
    } else if d[p] == 0 {
        Some(p)
    } else {
        first_empty_from(d, p + 1)
    }
}

/// The coordinates of all the empty cells at or after position `p`, in
/// row-major order: the sequence a traversal started there yields.  It is a
/// function of the grid's cells alone, so repeating a traversal over an
/// unmutated grid yields an identical sequence.
pub open spec fn empty_cells_from(d: Seq<u8>, p: int) -> Seq<(usize, usize)>
    decreases 81 - p,
{
    if p < 0 || p >= 81 {
        Seq::empty()
    } else if d[p] == 0 {
        seq![(((p / 9) as usize, (p % 9) as usize))] + empty_cells_from(d, p + 1)
    } else {
        empty_cells_from(d, p + 1)
    }
}

/// The yield-sequence peels off exactly the first empty position.
pub proof fn lemma_empty_cells_head(d: Seq<u8>, a: int)
    requires
        0 <= a <= 81,
    ensures
        match first_empty_from(d, a) {
            Some(q) => empty_cells_from(d, a) == seq![(((q / 9) as usize, (q % 9) as usize))]
                + empty_cells_from(d, q + 1),
            None => empty_cells_from(d, a) == Seq::<(usize, usize)>::empty(),
        },
    decreases 81 - a,
{
    if a < 81 && d[a] != 0 {
        lemma_empty_cells_head(d, a + 1);
    }
}

/// What `first_empty_from` returns: the first empty position, with nothing
/// empty before it.
pub proof fn lemma_first_empty(d: Seq<u8>, a: int)
    requires
        0 <= a <= 81,
    ensures
        match first_empty_from(d, a) {
            Some(p) => a <= p < 81 && d[p] == 0 && forall|q: int| a <= q < p ==> d[q] != 0,
            None => forall|q: int| a <= q < 81 ==> d[q] != 0,
        },
    decreases 81 - a,
{
    if a < 81 && d[a] != 0 {
        lemma_first_empty(d, a + 1);
    }
}

impl<'a> EmptyCells<'a> {
    /// The flat row-major position of the cursor.
    pub open spec fn pos(self) -> int {
        9 * self.curx + self.cury
    }

    /// The cursor stays within the grid, wrapping columns into rows.
    pub open spec fn inv(self) -> bool {
        &&& self.problem.data@.len() == 81
        &&& self.curx <= 9
        &&& self.cury < 9
        &&& (self.curx == 9 ==> self.cury == 0)
    }

    /// A traversal starting at the first cell.
    pub fn new(problem: &'a Problem) -> (r: EmptyCells<'a>)
        requires
            problem.data@.len() == 81,
        ensures
            r.problem == problem,
            r.curx == 0,
            r.cury == 0,
            r.inv(),
    {
        EmptyCells { problem, curx: 0, cury: 0 }
    }

    /// The next empty cell at or after the cursor, in row-major order, or
    /// `None` once the traversal is exhausted.  The result is a function of
    /// the grid's cells and the cursor alone, and each call peels exactly
    /// the head off the remaining yield-sequence, so repeating a traversal
    /// over an unchanged grid yields the same sequence.
    #[verifier::loop_isolation(false)]
    pub fn next(&mut self) -> (r: Option<(usize, usize)>)
        requires
            old(self).inv(),
        ensures
            final(self).inv(),
            final(self).problem == old(self).problem,
            match first_empty_from(old(self).problem.data@, old(self).pos()) {
                Some(p) => r == Some(((p / 9) as usize, (p % 9) as usize)) && final(self).pos() == p
                    + 1,
                None => r == None::<(usize, usize)> && final(self).pos() == 81,
            },
            match r {
                Some(c) => empty_cells_from(old(self).problem.data@, old(self).pos()) == seq![c]
                    + empty_cells_from(final(self).problem.data@, final(self).pos()),
                None => empty_cells_from(old(self).problem.data@, old(self).pos()) == Seq::<
                    (usize, usize),
                >::empty(),
            },
    {
        proof {
            lemma_empty_cells_head(self.problem.data@, self.pos());
        }
        while self.curx != 9
            invariant
                self.inv(),
                self.problem == old(self).problem,
                old(self).pos() <= self.pos() <= 81,
                first_empty_from(self.problem.data@, old(self).pos()) == first_empty_from(
                    self.problem.data@,
                    self.pos(),
                ),
            decreases 81 - self.pos(),
        {
            let rx = self.curx;
            let ry = self.cury;
            let ghost p = self.pos();
            let val = self.problem.get(rx, ry);
            self.cury += 1;
            if self.cury == 9 {
                self.cury = 0;
                self.curx += 1;
            }
            if val == 0 {
                proof {
                    assert(self.problem.data@[p] == 0);
                    assert(first_empty_from(self.problem.data@, p) == Some(p));
                    assert(p / 9 == rx as int);
                    assert(p % 9 == ry as int);
                    assert(self.pos() == p + 1);
                }
                return Some((rx, ry));
            }
            proof {
                assert(self.problem.data@[p] != 0);
                assert(first_empty_from(self.problem.data@, p) == first_empty_from(
                    self.problem.data@,
                    p + 1,
                ));
            }
        }
        None
    }
}

/// If some cell is empty and every empty cell still has all nine
/// candidates, then no cell is filled at all: in particular (0, 0) is empty.
proof fn lemma_all_nine_origin_empty(p: Problem)
    requires
        p.wf(),
        !all_filled(p.data@),
        forall|q: int| 0 <= q < 81 && #[trigger] p.data@[q] == 0 ==> p.optcounts@[q] >= 9,
    ensures
        cell_in(p.data@, 0, 0) == 0,
{
    if cell_in(p.data@, 0, 0) != 0 {
        let w = cell_in(p.data@, 0, 0);
        let (ex, ey) = choose|a: int, b: int| in_grid(a, b) && #[trigger] cell_in(p.data@, a, b) == 0;
        if cell_in(p.data@, 0, ey) == 0 {
            assert(same_group(0, ey, 0, 0));
            assert(blocked_in(p.data@, 0, ey, w));
            assert(!has_opt_in(p.options@, 0, ey, w));
            lemma_count_missing(p.options@, 0, ey, w as int, 9);
            assert(p.data@[idx(0, ey)] == 0);
            assert(false);
        } else {
            let u = cell_in(p.data@, 0, ey);
            assert(same_group(ex, ey, 0, ey));
            assert(blocked_in(p.data@, ex, ey, u));
            assert(!has_opt_in(p.options@, ex, ey, u));
            lemma_count_missing(p.options@, ex, ey, u as int, 9);
            assert(p.data@[idx(ex, ey)] == 0);
            assert(false);
        }
    }
}

impl Clone for Problem {
    /// A deep copy: the clone's cells, candidates, and counts all equal the
    /// original's, so search branches never share mutable state.
    fn clone(&self) -> (r: Problem)
        ensures
            r.data@ == self.data@,
            r.options@ == self.options@,
            r.optcounts@ == self.optcounts@,
    {
        let r = Problem {
            data: self.data.clone(),
            options: self.options.clone(),
            optcounts: self.optcounts.clone(),
        };
        proof {
            assert(r.data@ =~= self.data@);
            assert(r.options@ =~= self.options@);
            assert(r.optcounts@ =~= self.optcounts@);
        }
        r
    }
}

/// The maintained candidate count of any cell can be recomputed from the
/// cells alone: it equals the number of digits 1..=9 absent from the
/// cell's column, row, and region, independently of the incremental
/// bookkeeping that produced it.
pub proof fn lemma_count_matches_cells(p: Problem, x: int, y: int)
    requires
        p.wf(),
        in_grid(x, y),
    ensures
        p.optcounts@[idx(x, y)] == free_upto(p.data@, x, y, 9),
{
    lemma_count_free_agree(p, x, y, 9);
}

/// The candidate count and the from-scratch free-digit count agree digit
/// by digit on a well-formed grid.
proof fn lemma_count_free_agree(p: Problem, x: int, y: int, n: int)
    requires
        p.wf(),
        in_grid(x, y),
        n <= 9,
    ensures
        count_opts_upto(p.options@, x, y, n) == free_upto(p.data@, x, y, n),
    decreases n,
{
    if n > 0 {
        lemma_count_free_agree(p, x, y, n - 1);
        let vu = n as u8;
        assert(has_opt_in(p.options@, x, y, vu) <==> !blocked_in(p.data@, x, y, vu));
        assert(vu as int == n);
    }
}

/// A well-formed grid's candidate entries and counts are a function of its
/// cells alone: two well-formed grids with equal cells are equal in every
/// component.
pub proof fn lemma_state_determined_by_cells(p1: Problem, p2: Problem)
    requires
        p1.wf(),
        p2.wf(),
        p1.data@ == p2.data@,
    ensures
        p1.options@ == p2.options@,
        p1.optcounts@ == p2.optcounts@,
{
    assert forall|k: int| 0 <= k < 729 implies p1.options@[k] == p2.options@[k] by {
        let x = k / 81;
        let rem = k % 81;
        let y = rem / 9;
        let v = rem % 9 + 1;
        assert(81 * x + rem == k);
        assert(9 * y + (v - 1) == rem);
        assert(in_grid(x, y));
        assert(1 <= v <= 9);
        assert(oidx(x, y, v) == k);
        let vu = v as u8;
        assert(p1.options@[oidx(x, y, vu as int)] == 0 || p1.options@[oidx(x, y, vu as int)]
            == vu);
        assert(p2.options@[oidx(x, y, vu as int)] == 0 || p2.options@[oidx(x, y, vu as int)]
            == vu);
        assert(has_opt_in(p1.options@, x, y, vu) <==> !blocked_in(p1.data@, x, y, vu));
        assert(has_opt_in(p2.options@, x, y, vu) <==> !blocked_in(p2.data@, x, y, vu));
    }
    assert(p1.options@ =~= p2.options@);
    assert forall|k: int| 0 <= k < 81 implies p1.optcounts@[k] == p2.optcounts@[k] by {
        let x = k / 9;
        let y = k % 9;
        assert(idx(x, y) == k);
        assert(in_grid(x, y));
        lemma_count_agree(p1.options@, p2.options@, x, y, 9);
    }
    assert(p1.optcounts@ =~= p2.optcounts@);
}

/// Placements commute: applying two placements at distinct cells in either
/// order leaves exactly the same grid — cells, candidate sets, and counts
/// alike.  With `Problem::set`'s postcondition this makes the outcome of a
/// set of mutually non-conflicting placements independent of their order.
pub proof fn lemma_place_order_independent(
    p0: Seq<u8>,
    p12: Problem,
    p21: Problem,
    x1: int,
    y1: int,
    v1: u8,
    x2: int,
    y2: int,
    v2: u8,
)
    requires
        p12.wf(),
        p21.wf(),
        in_grid(x1, y1),
        in_grid(x2, y2),
        !(x1 == x2 && y1 == y2),
        p0.len() == 81,
        p12.data@ == p0.update(idx(x1, y1), v1).update(idx(x2, y2), v2),
        p21.data@ == p0.update(idx(x2, y2), v2).update(idx(x1, y1), v1),
    ensures
        p12.data@ == p21.data@,
        p12.options@ == p21.options@,
        p12.optcounts@ == p21.optcounts@,
{
    assert(idx(x1, y1) != idx(x2, y2));
    assert(p12.data@ =~= p21.data@);
    lemma_state_determined_by_cells(p12, p21);
}

/// Nine pairwise distinct digits drawn from 1..=9 include every digit.
#[verifier::spinoff_prover]
#[verifier::rlimit(100)]
proof fn lemma_nine_distinct_digits(vals: Seq<u8>, v: u8)
    requires
        vals.len() == 9,
        forall|i: int, j: int| 0 <= i < j < 9 ==> vals[i] != vals[j],
        forall|i: int| 0 <= i < 9 ==> 1 <= #[trigger] vals[i] <= 9,
        1 <= v <= 9,
    ensures
        exists|i: int| 0 <= i < 9 && vals[i] == v,
{
    if !(exists|i: int| 0 <= i < 9 && vals[i] == v) {
        assert(vals[0] != v && vals[1] != v && vals[2] != v && vals[3] != v && vals[4] != v
            && vals[5] != v && vals[6] != v && vals[7] != v && vals[8] != v);
        assert(false);
    }
}

/// A solved well-formed grid is a perfect solution: every column, every
/// row, and every region contains each digit 1..=9 at least once and,
/// since no group repeats a digit, exactly once.
pub proof fn lemma_solved_groups_complete(p: Problem)
    requires
        p.wf(),
        p.solved(),
    ensures
        forall|x: int, v: u8| 0 <= x < 9 && 1 <= v <= 9 ==> #[trigger] col_hit(p.data@, x, v),
        forall|y: int, v: u8| 0 <= y < 9 && 1 <= v <= 9 ==> #[trigger] row_hit(p.data@, y, v),
        forall|x: int, y: int, v: u8|
            in_grid(x, y) && 1 <= v <= 9 ==> #[trigger] region_hit(p.data@, x, y, v),
        forall|x1: int, y1: int, x2: int, y2: int|
            #![trigger cell_in(p.data@, x1, y1), cell_in(p.data@, x2, y2)]
            in_grid(x1, y1) && in_grid(x2, y2) && !(x1 == x2 && y1 == y2) && same_group(
                x1,
                y1,
                x2,
                y2,
            ) ==> cell_in(p.data@, x1, y1) != cell_in(p.data@, x2, y2),
{
    assert forall|x1: int, y1: int, x2: int, y2: int|
        #![trigger cell_in(p.data@, x1, y1), cell_in(p.data@, x2, y2)]
        in_grid(x1, y1) && in_grid(x2, y2) && !(x1 == x2 && y1 == y2) && same_group(
            x1,
            y1,
            x2,
            y2,
        ) implies cell_in(p.data@, x1, y1) != cell_in(p.data@, x2, y2) by {
        assert(cell_in(p.data@, x1, y1) != 0);
    }
    let d = p.data@;
    assert forall|x: int, v: u8| 0 <= x < 9 && 1 <= v <= 9 implies #[trigger] col_hit(
        d,
        x,
        v,
    ) by {
        let vals = Seq::new(9, |t: int| cell_in(d, x, t));
        assert forall|i: int, j: int| 0 <= i < j < 9 implies vals[i] != vals[j] by {
            assert(same_group(x, i, x, j));
            assert(cell_in(d, x, i) != 0);
        }
        assert forall|i: int| 0 <= i < 9 implies 1 <= #[trigger] vals[i] <= 9 by {
            assert(cell_in(d, x, i) != 0);
            assert(cell_in(d, x, i) <= 9);
        }
        lemma_nine_distinct_digits(vals, v);
        let i = choose|i: int| 0 <= i < 9 && vals[i] == v;
        assert(cell_in(d, x, i) == v);
    }
    assert forall|y: int, v: u8| 0 <= y < 9 && 1 <= v <= 9 implies #[trigger] row_hit(
        d,
        y,
        v,
    ) by {
        let vals = Seq::new(9, |t: int| cell_in(d, t, y));
        assert forall|i: int, j: int| 0 <= i < j < 9 implies vals[i] != vals[j] by {
            assert(same_group(i, y, j, y));
            assert(cell_in(d, i, y) != 0);
        }
        assert forall|i: int| 0 <= i < 9 implies 1 <= #[trigger] vals[i] <= 9 by {
            assert(cell_in(d, i, y) != 0);
            assert(cell_in(d, i, y) <= 9);
        }
        lemma_nine_distinct_digits(vals, v);
        let i = choose|i: int| 0 <= i < 9 && vals[i] == v;
        assert(cell_in(d, i, y) == v);
    }
    assert forall|x: int, y: int, v: u8| in_grid(x, y) && 1 <= v <= 9 implies #[trigger] region_hit(
        d,
        x,
        y,
        v,
    ) by {
        let bx = 3 * (x / 3);
        let by = 3 * (y / 3);
        let vals = Seq::new(9, |t: int| cell_in(d, bx + t / 3, by + t % 3));
        assert forall|i: int, j: int| 0 <= i < j < 9 implies vals[i] != vals[j] by {
            assert((bx + i / 3) / 3 == x / 3);
            assert((bx + j / 3) / 3 == x / 3);
            assert((by + i % 3) / 3 == y / 3);
            assert((by + j % 3) / 3 == y / 3);
            assert(same_group(bx + i / 3, by + i % 3, bx + j / 3, by + j % 3));
            assert(!(i / 3 == j / 3 && i % 3 == j % 3));
            assert(cell_in(d, bx + i / 3, by + i % 3) != 0);
        }
        assert forall|i: int| 0 <= i < 9 implies 1 <= #[trigger] vals[i] <= 9 by {
            assert(cell_in(d, bx + i / 3, by + i % 3) != 0);
            assert(cell_in(d, bx + i / 3, by + i % 3) <= 9);
        }
        lemma_nine_distinct_digits(vals, v);
        let i = choose|i: int| 0 <= i < 9 && vals[i] == v;
        assert(cell_in(d, bx + i / 3, by + i % 3) == v);
    }
}

/// Two distinct present candidates make the count at least 2.
pub proof fn lemma_count_two(o: Seq<u8>, x: int, y: int, v1: int, v2: int, n: int)
    requires
        1 <= v1 <= n,
        1 <= v2 <= n,
        v1 != v2,
        o[oidx(x, y, v1)] != 0,
        o[oidx(x, y, v2)] != 0,
    ensures
        count_opts_upto(o, x, y, n) >= 2,
    decreases n,
{
    if v1 == n {
        lemma_count_present(o, x, y, v2, n - 1);
    } else if v2 == n {
        lemma_count_present(o, x, y, v1, n - 1);
    } else {
        lemma_count_two(o, x, y, v1, v2, n - 1);
    }
}

} // verus!
