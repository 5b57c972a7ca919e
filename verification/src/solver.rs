//! Forced-move propagation and backtracking search.
//!
//! `solve` fills every cell that has exactly one candidate left, re-checking
//! feasibility after each placement, and hands over to `fork` when no forced
//! move remains.  `fork` branches on an empty cell with few candidates,
//! trying each candidate on a cloned grid and recursing.  The contracts
//! state both soundness (a returned grid is a valid completion of the
//! input) and completeness (an `Unsolvable` answer means no completion of
//! the input exists at all).

use vstd::prelude::*;

use crate::grid::{
    all_filled, blocked_in, cell_in, count_opts, has_opt_in, idx, in_grid, lemma_count_exists,
    lemma_count_present, lemma_count_two, lemma_first_empty, oidx, same_group, valid_cells,
    Problem,
};

verus! {

/// Returned by the solver when a search branch, or the whole puzzle, admits
/// no solution.
#[derive(Clone, Copy, Debug, PartialEq, Eq)]
pub enum SolveError {
    Unsolvable,
}

/// Every cell holds a digit 1..=9.
pub open spec fn full_grid(d: Seq<u8>) -> bool {
    forall|x: int, y: int| in_grid(x, y) ==> 1 <= #[trigger] cell_in(d, x, y) <= 9
}

/// Every filled cell of `d0` keeps its digit in `d`.
pub open spec fn extends(d0: Seq<u8>, d: Seq<u8>) -> bool {
    forall|x: int, y: int|
        in_grid(x, y) && #[trigger] cell_in(d0, x, y) != 0 ==> cell_in(d, x, y) == cell_in(d0, x, y)
}

/// `d` is a solution of the puzzle whose clues are the filled cells of
/// `d0`: completely filled, respecting every row, column, and region
/// constraint, and agreeing with `d0` on its clues.
pub open spec fn is_completion(d0: Seq<u8>, d: Seq<u8>) -> bool {
    &&& d.len() == 81
    &&& full_grid(d)
    &&& valid_cells(d)
    &&& extends(d0, d)
}

/// Number of empty cells among the first n positions.
pub open spec fn zeros_upto(d: Seq<u8>, n: int) -> int
    decreases n,
{
    if n <= 0 {
        0
    } else {
        zeros_upto(d, n - 1) + if d[n - 1] == 0 {
            1int
        } else {
            0int
        }
    }
}

/// Number of empty cells of the grid.
pub open spec fn count_zeros(d: Seq<u8>) -> int {
    zeros_upto(d, 81)
}

/// Filling one empty cell lowers the number of empty cells by exactly 1.
pub proof fn lemma_zeros_update(d: Seq<u8>, d2: Seq<u8>, i: int, v: u8, n: int)
    requires
        d.len() == 81,
        0 <= i < 81,
        n <= 81,
        d[i] == 0,
        v != 0,
        d2 == d.update(i, v),
    ensures
        i < n ==> zeros_upto(d2, n) == zeros_upto(d, n) - 1,
        i >= n ==> zeros_upto(d2, n) == zeros_upto(d, n),
    decreases n,
{
    if n > 0 {
        lemma_zeros_update(d, d2, i, v, n - 1);
    }
}

/// The number of empty cells is never negative.
pub proof fn lemma_zeros_nonneg(d: Seq<u8>, n: int)
    ensures
        zeros_upto(d, n) >= 0,
    decreases n,
{
    if n > 0 {
        lemma_zeros_nonneg(d, n - 1);
    }
}

/// Soundness of the feasibility check: a grid that still admits a
/// completion has a candidate left in every empty cell, so
/// `is_solvable() == false` implies that no completion exists.
pub proof fn lemma_completion_implies_solvable(p: Problem, d: Seq<u8>)
    requires
        p.wf(),
        is_completion(p.data@, d),
    ensures
        p.solvable(),
{
    assert forall|x: int, y: int|
        in_grid(x, y) && #[trigger] cell_in(p.data@, x, y) == 0 implies p.optcounts@[idx(x, y)]
        != 0 by {
        let w = cell_in(d, x, y);
        assert(1 <= w <= 9);
        if blocked_in(p.data@, x, y, w) {
            let (a, b) = choose|a: int, b: int|
                in_grid(a, b) && #[trigger] same_group(x, y, a, b) && cell_in(p.data@, a, b) == w;
            assert(cell_in(d, a, b) == w);
            assert(cell_in(d, x, y) != cell_in(d, a, b));
            assert(false);
        }
        assert(has_opt_in(p.options@, x, y, w));
        lemma_count_present(p.options@, x, y, w as int, 9);
    }
}

/// A forced move never loses solutions: when every candidate of an empty
/// cell except `v` is gone, every completion of the grid already places `v`
/// there, so the completions of the grid and of the grid-with-`v`-placed
/// coincide.
pub proof fn lemma_forced_preserves_completion(p: Problem, x: int, y: int, v: u8, d: Seq<u8>)
    requires
        p.wf(),
        in_grid(x, y),
        p.cell(x, y) == 0,
        1 <= v <= 9,
        forall|w: u8| 1 <= w <= 9 && w != v ==> !p.has_opt(x, y, w),
        is_completion(p.data@, d),
    ensures
        is_completion(p.data@.update(idx(x, y), v), d),
        cell_in(d, x, y) == v,
{
    let w = cell_in(d, x, y);
    assert(1 <= w <= 9);
    if blocked_in(p.data@, x, y, w) {
        let (a, b) = choose|a: int, b: int|
            in_grid(a, b) && #[trigger] same_group(x, y, a, b) && cell_in(p.data@, a, b) == w;
        assert(cell_in(d, a, b) == w);
        assert(cell_in(d, x, y) != cell_in(d, a, b));
        assert(false);
    }
    assert(p.has_opt(x, y, w));
    assert(w == v);
    let d2 = p.data@.update(idx(x, y), v);
    assert forall|a: int, b: int|
        in_grid(a, b) && #[trigger] cell_in(d2, a, b) != 0 implies cell_in(d, a, b) == cell_in(
        d2,
        a,
        b,
    ) by {
        if a == x && b == y {
        } else {
            assert(idx(a, b) != idx(x, y));
            assert(cell_in(d2, a, b) == cell_in(p.data@, a, b));
        }
    }
}

/// A move the propagation pass owes to the grid: an empty cell whose
/// candidate set is exactly the one digit carried with it.
pub open spec fn forced_move(p: Problem, m: (usize, usize, u8)) -> bool {
    &&& in_grid(m.0 as int, m.1 as int)
    &&& p.cell(m.0 as int, m.1 as int) == 0
    &&& 1 <= m.2 <= 9
    &&& p.has_opt(m.0 as int, m.1 as int, m.2)
    &&& p.optcounts@[idx(m.0 as int, m.1 as int)] == 1
    &&& forall|w: u8| 1 <= w <= 9 && w != m.2 ==> !p.has_opt(m.0 as int, m.1 as int, w)
}

/// Collect every empty cell with exactly one candidate, paired with that
/// candidate, in row-major order of discovery.
#[verifier::loop_isolation(false)]
#[verifier::rlimit(60)]
pub fn get_trivial_moves(problem: &Problem) -> (moves: Vec<(usize, usize, u8)>)
    requires
        problem.wf(),
    ensures
        forall|k: int| 0 <= k < moves@.len() ==> forced_move(*problem, #[trigger] moves@[k]),
        forall|k1: int, k2: int|
            0 <= k1 < k2 < moves@.len() ==> idx(moves@[k1].0 as int, moves@[k1].1 as int) < idx(
                moves@[k2].0 as int,
                moves@[k2].1 as int,
            ),
        forall|x: int, y: int|
            in_grid(x, y) && #[trigger] cell_in(problem.data@, x, y) == 0 && problem.optcounts@[idx(
                x,
                y,
            )] == 1 ==> exists|k: int|
                0 <= k < moves@.len() && (#[trigger] moves@[k]).0 as int == x && moves@[k].1 as int
                    == y,
{
    let mut moves: Vec<(usize, usize, u8)> = Vec::new();
    let mut it = problem.iter_empty_coords();
    loop
        invariant
            it.problem == problem,
            it.inv(),
            forall|k: int| 0 <= k < moves@.len() ==> forced_move(*problem, #[trigger] moves@[k]),
            forall|k: int|
                0 <= k < moves@.len() ==> idx(
                    (#[trigger] moves@[k]).0 as int,
                    moves@[k].1 as int,
                ) < it.pos(),
            forall|k1: int, k2: int|
                0 <= k1 < k2 < moves@.len() ==> idx(moves@[k1].0 as int, moves@[k1].1 as int)
                    < idx(moves@[k2].0 as int, moves@[k2].1 as int),
            forall|x: int, y: int|
                in_grid(x, y) && idx(x, y) < it.pos() && #[trigger] cell_in(problem.data@, x, y)
                    == 0 && problem.optcounts@[idx(x, y)] == 1 ==> exists|k: int|
                    0 <= k < moves@.len() && (#[trigger] moves@[k]).0 as int == x
                        && moves@[k].1 as int == y,
        decreases 81 - it.pos(),
    {
        let ghost startpos = it.pos();
        let step = it.next();
        match step {
            None => {
                proof {
                    lemma_first_empty(problem.data@, startpos);
                    assert forall|x: int, y: int|
                        in_grid(x, y) && #[trigger] cell_in(problem.data@, x, y) == 0
                            && problem.optcounts@[idx(x, y)] == 1 implies exists|k: int|
                        0 <= k < moves@.len() && (#[trigger] moves@[k]).0 as int == x
                            && moves@[k].1 as int == y by {
                        assert(idx(x, y) < 81);
                    }
                }
                return moves;
            },
            Some(cell) => {
                let (cx, cy) = cell;
                proof {
                    lemma_first_empty(problem.data@, startpos);
                    assert(idx(cx as int, cy as int) == it.pos() - 1);
                }
                let count = problem.count_options(cx, cy);
                if count == 1 {
                    proof {
                        assert(count_opts(problem.options@, cx as int, cy as int) == 1);
                        lemma_count_exists(problem.options@, cx as int, cy as int, 9);
                    }
                    let ghost uv = choose|v: int|
                        1 <= v <= 9 && #[trigger] problem.options@[oidx(cx as int, cy as int, v)]
                            != 0;
                    let ghost prevmoves = moves@;
                    let mut n: usize = 0;
                    while n < 9
                        invariant
                            n <= 9,
                            n <= uv - 1 ==> moves@ == prevmoves,
                            n > uv - 1 ==> moves@ == prevmoves.push(
                                (cx, cy, uv as u8),
                            ),
                        decreases 9 - n,
                    {
                        let candidate = problem.options[81 * cx + 9 * cy + n];
                        proof {
                            assert(oidx(cx as int, cy as int, n as int + 1) == 81 * (cx as int) + 9
                                * (cy as int) + n as int);
                            let ghost vv: u8 = (n + 1) as u8;
                            assert(problem.options@[oidx(cx as int, cy as int, vv as int)] == 0
                                || problem.options@[oidx(cx as int, cy as int, vv as int)] == vv);
                            if candidate != 0 && n as int + 1 != uv {
                                lemma_count_two(
                                    problem.options@,
                                    cx as int,
                                    cy as int,
                                    n as int + 1,
                                    uv,
                                    9,
                                );
                            }
                        }
                        if candidate != 0 {
                            moves.push((cx, cy, candidate));
                        }
                        n += 1;
                    }
                    proof {
                        assert(moves@ == prevmoves.push((cx, cy, uv as u8)));
                        assert forall|w: u8|
                            1 <= w <= 9 && w != uv as u8 implies !problem.has_opt(
                            cx as int,
                            cy as int,
                            w,
                        ) by {
                            if problem.has_opt(cx as int, cy as int, w) {
                                lemma_count_two(
                                    problem.options@,
                                    cx as int,
                                    cy as int,
                                    w as int,
                                    uv,
                                    9,
                                );
                            }
                        }
                        assert(forced_move(*problem, (cx, cy, uv as u8)));
                        assert forall|x: int, y: int|
                            in_grid(x, y) && idx(x, y) < it.pos() && #[trigger] cell_in(
                                problem.data@,
                                x,
                                y,
                            ) == 0 && problem.optcounts@[idx(x, y)] == 1 implies exists|k: int|
                            0 <= k < moves@.len() && (#[trigger] moves@[k]).0 as int == x
                                && moves@[k].1 as int == y by {
                            if idx(x, y) < startpos {
                                let k = choose|k: int|
                                    0 <= k < prevmoves.len() && (#[trigger] prevmoves[k]).0 as int
                                        == x && prevmoves[k].1 as int == y;
                                assert(moves@[k] == prevmoves[k]);
                            } else if idx(x, y) == idx(cx as int, cy as int) {
                                assert(x == cx as int && y == cy as int);
                                let k = moves@.len() - 1;
                                assert(moves@[k] == (cx, cy, uv as u8));
                            } else {
                                assert(problem.data@[idx(x, y)] != 0);
                                assert(false);
                            }
                        }
                    }
                } else {
                    proof {
                        assert forall|x: int, y: int|
                            in_grid(x, y) && idx(x, y) < it.pos() && #[trigger] cell_in(
                                problem.data@,
                                x,
                                y,
                            ) == 0 && problem.optcounts@[idx(x, y)] == 1 implies exists|k: int|
                            0 <= k < moves@.len() && (#[trigger] moves@[k]).0 as int == x
                                && moves@[k].1 as int == y by {
                            if idx(x, y) >= startpos {
                                if idx(x, y) == idx(cx as int, cy as int) {
                                    assert(x == cx as int && y == cy as int);
                                    assert(problem.optcounts@[idx(x, y)] != 1);
                                } else {
                                    assert(problem.data@[idx(x, y)] != 0);
                                }
                                assert(false);
                            }
                        }
                    }
                }
            },
        }
    }
}

/// Solve the puzzle.  Forced moves (cells with a single candidate) are
/// collected and applied in passes, feasibility re-checked after every
/// placement; when a pass finds no forced move the search forks.  `Ok`
/// carries a completely filled, constraint-respecting grid that keeps every
/// clue of the input; `Err` means no such completion of the input exists.
#[verifier::loop_isolation(false)]
#[verifier::rlimit(100)]
pub fn solve(problem: Problem) -> (r: Result<Problem, SolveError>)
    requires
        problem.wf(),
    ensures
        match r {
            Ok(sol) => sol.wf() && sol.solved() && is_completion(problem.data@, sol.data@),
            Err(_) => forall|d: Seq<u8>| !is_completion(problem.data@, d),
        },
    decreases count_zeros(problem.data@), 1int,
{
    let ghost orig = problem;
    let mut problem = problem;
    while !problem.is_solved()
        invariant
            problem.wf(),
            count_zeros(problem.data@) <= count_zeros(orig.data@),
            extends(orig.data@, problem.data@),
            forall|d: Seq<u8>|
                #![trigger is_completion(orig.data@, d)]
                #![trigger is_completion(problem.data@, d)]
                is_completion(orig.data@, d) <==> is_completion(problem.data@, d),
        decreases count_zeros(problem.data@),
    {
        let moves = get_trivial_moves(&problem);
        if moves.len() == 0 {
            let ghost cur = problem;
            proof {
                lemma_zeros_nonneg(problem.data@, 81);
            }
            let r = fork(problem);
            proof {
                if r is Ok {
                    let sol = r->Ok_0;
                    assert forall|a: int, b: int|
                        in_grid(a, b) && #[trigger] cell_in(orig.data@, a, b) != 0 implies cell_in(
                        sol.data@,
                        a,
                        b,
                    ) == cell_in(orig.data@, a, b) by {
                        assert(cell_in(cur.data@, a, b) == cell_in(orig.data@, a, b));
                    }
                } else {
                    assert forall|d: Seq<u8>| !is_completion(orig.data@, d) by {
                        if is_completion(orig.data@, d) {
                            assert(is_completion(cur.data@, d));
                        }
                    }
                }
            }
            return r;
        }
        let ghost loopstart = problem;
        proof {
            assert forall|j: int, w: u8|
                0 <= j < moves@.len() && 1 <= w <= 9 && w != moves@[j].2 implies !has_opt_in(
                problem.options@,
                moves@[j].0 as int,
                moves@[j].1 as int,
                w,
            ) by {
                assert(forced_move(loopstart, moves@[j]));
                assert(!loopstart.has_opt(moves@[j].0 as int, moves@[j].1 as int, w));
            }
        }
        let mut k: usize = 0;
        while k < moves.len()
            invariant
                k <= moves.len(),
                problem.wf(),
                count_zeros(problem.data@) == count_zeros(loopstart.data@) - k,
                extends(orig.data@, problem.data@),
                forall|d: Seq<u8>|
                    #![trigger is_completion(orig.data@, d)]
                    #![trigger is_completion(problem.data@, d)]
                    is_completion(orig.data@, d) <==> is_completion(problem.data@, d),
                forall|j: int|
                    k <= j < moves@.len() ==> cell_in(
                        problem.data@,
                        (#[trigger] moves@[j]).0 as int,
                        moves@[j].1 as int,
                    ) == 0,
                forall|j: int, w: u8|
                    k <= j < moves@.len() && 1 <= w <= 9 && w != moves@[j].2 ==> !(#[trigger] has_opt_in(
                        problem.options@,
                        moves@[j].0 as int,
                        moves@[j].1 as int,
                        w,
                    )),
                k == 0 ==> problem == loopstart,
                k > 0 ==> problem.solvable(),
            decreases moves@.len() - k,
        {
            let m = moves[k];
            let (mx, my, mv) = m;
            proof {
                assert(forced_move(loopstart, moves@[k as int]));
                if k == 0 {
                    assert(problem.has_opt(mx as int, my as int, mv));
                } else {
                    assert(cell_in(problem.data@, mx as int, my as int) == 0);
                    assert(problem.optcounts@[idx(mx as int, my as int)] != 0);
                    assert(count_opts(problem.options@, mx as int, my as int) >= 1);
                    lemma_count_exists(problem.options@, mx as int, my as int, 9);
                    let w = choose|v: int|
                        1 <= v <= 9 && #[trigger] problem.options@[oidx(mx as int, my as int, v)]
                            != 0;
                    assert(has_opt_in(problem.options@, mx as int, my as int, w as u8));
                    if w as u8 != mv {
                        assert(!has_opt_in(problem.options@, mx as int, my as int, w as u8));
                    }
                    assert(problem.has_opt(mx as int, my as int, mv));
                }
                assert(!blocked_in(problem.data@, mx as int, my as int, mv));
            }
            let ghost before = problem;
            let res = problem.set(mx, my, mv);
            res.unwrap();
            proof {
                lemma_zeros_update(
                    before.data@,
                    problem.data@,
                    idx(mx as int, my as int),
                    mv,
                    81,
                );
                assert forall|d: Seq<u8>|
                    #![trigger is_completion(orig.data@, d)]
                    #![trigger is_completion(problem.data@, d)]
                    is_completion(orig.data@, d) <==> is_completion(problem.data@, d) by {
                    if is_completion(before.data@, d) {
                        lemma_forced_preserves_completion(
                            before,
                            mx as int,
                            my as int,
                            mv,
                            d,
                        );
                    }
                    if is_completion(problem.data@, d) {
                        assert forall|a: int, b: int|
                            in_grid(a, b) && #[trigger] cell_in(before.data@, a, b) != 0
                                implies cell_in(d, a, b) == cell_in(before.data@, a, b) by {
                            assert(idx(a, b) != idx(mx as int, my as int));
                            assert(cell_in(problem.data@, a, b) == cell_in(before.data@, a, b));
                        }
                        assert(is_completion(before.data@, d));
                    }
                }
                assert forall|j: int|
                    k + 1 <= j < moves@.len() implies cell_in(
                    problem.data@,
                    (#[trigger] moves@[j]).0 as int,
                    moves@[j].1 as int,
                ) == 0 by {
                    assert(idx(moves@[k as int].0 as int, moves@[k as int].1 as int) < idx(
                        moves@[j].0 as int,
                        moves@[j].1 as int,
                    ));
                    assert(cell_in(before.data@, moves@[j].0 as int, moves@[j].1 as int) == 0);
                }
            }
            if !problem.is_solvable() {
                proof {
                    assert forall|d: Seq<u8>| !is_completion(orig.data@, d) by {
                        if is_completion(orig.data@, d) {
                            assert(is_completion(problem.data@, d));
                            lemma_completion_implies_solvable(problem, d);
                        }
                    }
                }
                return Err(SolveError::Unsolvable);
            }
            k += 1;
        }
        proof {
            lemma_zeros_nonneg(problem.data@, 81);
            assert(count_zeros(problem.data@) == count_zeros(loopstart.data@) - moves@.len());
        }
    }
    Ok(problem)
}

/// Branch the search on an empty cell with few candidates: each candidate
/// is tried in ascending digit order on a cloned grid, recursing into
/// `solve`; the first success is returned, and exhaustion of all the
/// candidates proves that no completion of this branch's grid exists.
#[verifier::loop_isolation(false)]
#[verifier::rlimit(100)]
pub fn fork(problem: Problem) -> (r: Result<Problem, SolveError>)
    requires
        problem.wf(),
        !all_filled(problem.data@),
    ensures
        match r {
            Ok(sol) => sol.wf() && sol.solved() && is_completion(problem.data@, sol.data@),
            Err(_) => forall|d: Seq<u8>| !is_completion(problem.data@, d),
        },
    decreases count_zeros(problem.data@), 0int,
{
    let coord = problem.get_minimum_options_coord();
    let (fx, fy) = coord;
    proof {
        assert forall|d: Seq<u8>| #[trigger] is_completion(problem.data@, d) implies exists|v: u8|
            (v as int) > 0 && v <= 9 && has_opt_in(problem.options@, fx as int, fy as int, v)
                && cell_in(d, fx as int, fy as int) == v by {
            let w = cell_in(d, fx as int, fy as int);
            assert(1 <= w <= 9);
            if blocked_in(problem.data@, fx as int, fy as int, w) {
                let (a, b) = choose|a: int, b: int|
                    in_grid(a, b) && #[trigger] same_group(fx as int, fy as int, a, b) && cell_in(
                        problem.data@,
                        a,
                        b,
                    ) == w;
                assert(cell_in(d, a, b) == w);
                assert(cell_in(d, fx as int, fy as int) != cell_in(d, a, b));
                assert(false);
            }
            assert(has_opt_in(problem.options@, fx as int, fy as int, w));
        }
    }
    let mut n: usize = 0;
    while n < 9
        invariant
            n <= 9,
            forall|d: Seq<u8>| #[trigger] is_completion(problem.data@, d) ==> exists|v: u8|
                (v as int) > n && v <= 9 && has_opt_in(problem.options@, fx as int, fy as int, v)
                    && cell_in(d, fx as int, fy as int) == v,
        decreases 9 - n,
    {
        let candidate = problem.options[81 * fx + 9 * fy + n];
        proof {
            assert(oidx(fx as int, fy as int, n as int + 1) == 81 * (fx as int) + 9 * (fy as int)
                + n as int);
            let ghost vv: u8 = (n + 1) as u8;
            assert(problem.options@[oidx(fx as int, fy as int, vv as int)] == 0
                || problem.options@[oidx(fx as int, fy as int, vv as int)] == vv);
        }
        if candidate != 0 {
            proof {
                assert(candidate == (n + 1) as u8);
                assert(has_opt_in(problem.options@, fx as int, fy as int, candidate));
                assert(!blocked_in(problem.data@, fx as int, fy as int, candidate));
            }
            let mut attempt = problem.clone();
            proof {
                assert(attempt.wf());
                assert(attempt.cell(fx as int, fy as int) == 0);
            }
            let res = attempt.set(fx, fy, candidate);
            res.unwrap();
            proof {
                lemma_zeros_update(
                    problem.data@,
                    attempt.data@,
                    idx(fx as int, fy as int),
                    candidate,
                    81,
                );
                lemma_zeros_nonneg(attempt.data@, 81);
            }
            match solve(attempt) {
                Ok(sol) => {
                    proof {
                        assert forall|a: int, b: int|
                            in_grid(a, b) && #[trigger] cell_in(problem.data@, a, b) != 0
                                implies cell_in(sol.data@, a, b) == cell_in(
                            problem.data@,
                            a,
                            b,
                        ) by {
                            assert(idx(a, b) != idx(fx as int, fy as int));
                            assert(cell_in(attempt.data@, a, b) == cell_in(problem.data@, a, b));
                        }
                    }
                    return Ok(sol);
                },
                Err(_) => {
                    proof {
                        assert forall|d: Seq<u8>| #[trigger] is_completion(problem.data@, d)
                            implies exists|v: u8|
                            (v as int) > n + 1 && v <= 9 && has_opt_in(
                                problem.options@,
                                fx as int,
                                fy as int,
                                v,
                            ) && cell_in(d, fx as int, fy as int) == v by {
                            let v = choose|v: u8|
                                (v as int) > n && v <= 9 && has_opt_in(
                                    problem.options@,
                                    fx as int,
                                    fy as int,
                                    v,
                                ) && cell_in(d, fx as int, fy as int) == v;
                            if v as int == n + 1 {
                                assert forall|a: int, b: int|
                                    in_grid(a, b) && #[trigger] cell_in(attempt.data@, a, b) != 0
                                        implies cell_in(d, a, b) == cell_in(
                                    attempt.data@,
                                    a,
                                    b,
                                ) by {
                                    if a == fx as int && b == fy as int {
                                        assert(cell_in(attempt.data@, a, b) == candidate);
                                        assert(cell_in(d, a, b) == v);
                                    } else {
                                        assert(idx(a, b) != idx(fx as int, fy as int));
                                        assert(cell_in(attempt.data@, a, b) == cell_in(
                                            problem.data@,
                                            a,
                                            b,
                                        ));
                                    }
                                }
                                assert(is_completion(attempt.data@, d));
                                assert(false);
                            }
                        }
                    }
                },
            }
        } else {
            proof {
                assert forall|d: Seq<u8>| #[trigger] is_completion(problem.data@, d)
                    implies exists|v: u8|
                    (v as int) > n + 1 && v <= 9 && has_opt_in(
                        problem.options@,
                        fx as int,
                        fy as int,
                        v,
                    ) && cell_in(d, fx as int, fy as int) == v by {
                    let v = choose|v: u8|
                        (v as int) > n && v <= 9 && has_opt_in(
                            problem.options@,
                            fx as int,
                            fy as int,
                            v,
                        ) && cell_in(d, fx as int, fy as int) == v;
                    assert(v as int != n + 1);
                }
            }
        }
        n += 1;
    }
    proof {
        assert forall|d: Seq<u8>| !is_completion(problem.data@, d) by {
            if is_completion(problem.data@, d) {
                let v = choose|v: u8|
                    (v as int) > 9 && v <= 9 && has_opt_in(
                        problem.options@,
                        fx as int,
                        fy as int,
                        v,
                    ) && cell_in(d, fx as int, fy as int) == v;
                assert(false);
            }
        }
    }
    Err(SolveError::Unsolvable)
}

} // verus!
