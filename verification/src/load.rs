//! Building a grid from clue values.
//!
//! The input text format is nine lines of nine digits; reading and
//! tokenising the text is plain I/O and lives outside the library.  What is
//! verified here is the loading rule itself: the clues are applied through
//! `Problem::set` one by one, line by line and column by column, and the
//! first clue that conflicts with an earlier one aborts the load with that
//! placement's `ConstraintViolation`.

use vstd::prelude::*;

use crate::grid::{
    cell_in, in_grid, same_group, valid_cells, ConstraintViolation, Problem,
};

verus! {

/// The cell sequence described by a line-major list of 81 clue values
/// (entry `9 * y + x` of the list is the clue of column x on line y).
pub open spec fn grid_of_clues(vals: Seq<u8>) -> Seq<u8> {
    Seq::new(81, |i: int| vals[9 * (i % 9) + i / 9])
}

/// Build a grid from 81 line-major clue values, 0 meaning no clue.  Every
/// nonzero clue is placed through `Problem::set` in reading order, so a
/// clue set that repeats a digit within a column, row, or region is
/// rejected with the offending placement's `ConstraintViolation`, before
/// any solving is attempted.
#[verifier::loop_isolation(false)]
#[verifier::rlimit(100)]
pub fn load_values(vals: &Vec<u8>) -> (r: Result<Problem, ConstraintViolation>)
    requires
        vals@.len() == 81,
        forall|i: int| 0 <= i < 81 ==> #[trigger] vals@[i] <= 9,
    ensures
        r is Ok <==> valid_cells(grid_of_clues(vals@)),
        r is Ok ==> (r->Ok_0).wf() && (r->Ok_0).data@ == grid_of_clues(vals@),
        r is Err ==> exists|x1: int, y1: int, x2: int, y2: int|
            #![trigger cell_in(grid_of_clues(vals@), x1, y1), cell_in(grid_of_clues(vals@), x2, y2)]
            in_grid(x1, y1) && in_grid(x2, y2) && !(x1 == x2 && y1 == y2) && same_group(
                x1,
                y1,
                x2,
                y2,
            ) && cell_in(grid_of_clues(vals@), x1, y1) == (r->Err_0).value && cell_in(
                grid_of_clues(vals@),
                x2,
                y2,
            ) == (r->Err_0).value,
{
    let mut problem = Problem::new();
    proof {
        assert forall|x: int, y: int| in_grid(x, y) implies #[trigger] cell_in(
            problem.data@,
            x,
            y,
        ) == 0 by {
            assert(problem.cell(x, y) == 0);
        }
    }
    let mut p: usize = 0;
    while p < 81
        invariant
            p <= 81,
            problem.wf(),
            forall|x: int, y: int|
                in_grid(x, y) ==> #[trigger] cell_in(problem.data@, x, y) == if 9 * y + x
                    < p {
                    vals@[9 * y + x]
                } else {
                    0u8
                },
        decreases 81 - p,
    {
        let v = vals[p];
        let x = p % 9;
        let y = p / 9;
        proof {
            assert(9 * (y as int) + x as int == p as int);
            assert(cell_in(problem.data@, x as int, y as int) == 0);
        }
        if v != 0 {
            let ghost before = problem;
            let res = problem.set(x, y, v);
            match res {
                Ok(_) => {
                    proof {
                        assert forall|x2: int, y2: int| in_grid(x2, y2) implies #[trigger] cell_in(
                            problem.data@,
                            x2,
                            y2,
                        ) == if 9 * y2 + x2 < p + 1 {
                            vals@[9 * y2 + x2]
                        } else {
                            0u8
                        } by {
                            if x2 == x as int && y2 == y as int {
                            } else {
                                assert(crate::grid::idx(x2, y2) != crate::grid::idx(
                                    x as int,
                                    y as int,
                                ));
                                assert(cell_in(problem.data@, x2, y2) == cell_in(
                                    before.data@,
                                    x2,
                                    y2,
                                ));
                                assert(9 * y2 + x2 != p as int);
                            }
                        }
                    }
                },
                Err(cv) => {
                    proof {
                        let g = grid_of_clues(vals@);
                        assert(before.blocked(x as int, y as int, v));
                        let (a, b) = choose|a: int, b: int|
                            in_grid(a, b) && #[trigger] same_group(x as int, y as int, a, b)
                                && cell_in(before.data@, a, b) == v;
                        assert(9 * b + a < p && vals@[9 * b + a] == v);
                        assert(cell_in(g, x as int, y as int) == vals@[9 * (y as int) + x as int]);
                        assert(cell_in(g, a, b) == vals@[9 * b + a]);
                        assert(!(a == x as int && b == y as int));
                        assert(!valid_cells(g));
                        assert(cv.value == v);
                        assert(cell_in(g, x as int, y as int) == cv.value && cell_in(g, a, b)
                            == cv.value);
                    }
                    return Err(cv);
                },
            }
        }
        p += 1;
    }
    proof {
        let g = grid_of_clues(vals@);
        assert forall|i: int| 0 <= i < 81 implies problem.data@[i] == g[i] by {
            let x = i / 9;
            let y = i % 9;
            assert(in_grid(x, y));
            assert(9 * x + y == i);
            assert(cell_in(problem.data@, x, y) == vals@[9 * y + x]);
            assert(g[i] == vals@[9 * (i % 9) + i / 9]);
        }
        assert(problem.data@ =~= g);
    }
    Ok(problem)
}

} // verus!
