use sudoku::grid::{Group, Problem};
use sudoku::load::load_values;
use sudoku::solver::{get_trivial_moves, solve, SolveError};

/// Parse a nine-line puzzle text into the 81 line-major clue values.
fn parse_vals(text: &str) -> Vec<u8> {
    let mut vals = vec![0u8; 81];
    for (y, line) in text.split('\n').enumerate() {
        if y >= 9 {
            break;
        }
        for (x, tok) in line.split(' ').enumerate() {
            vals[9 * y + x] = tok.parse().unwrap();
        }
    }
    vals
}

/// Check that a grid is completely filled and repeats no digit within any
/// column, row, or region.
fn check_solution(p: &Problem) {
    assert!(p.is_solved());
    for y in 0..9 {
        let mut seen = [false; 10];
        for x in 0..9 {
            let v = p.get(x, y) as usize;
            assert!((1..=9).contains(&v));
            assert!(!seen[v]);
            seen[v] = true;
        }
    }
    for x in 0..9 {
        let mut seen = [false; 10];
        for y in 0..9 {
            let v = p.get(x, y) as usize;
            assert!(!seen[v]);
            seen[v] = true;
        }
    }
    for bx in [0, 3, 6] {
        for by in [0, 3, 6] {
            let mut seen = [false; 10];
            for i in 0..3 {
                for j in 0..3 {
                    let v = p.get(bx + i, by + j) as usize;
                    assert!(!seen[v]);
                    seen[v] = true;
                }
            }
        }
    }
}

#[test]
fn classic_puzzle_unique_solution() {
    let input = "5 3 0 0 7 0 0 0 0\n6 0 0 1 9 5 0 0 0\n0 9 8 0 0 0 0 6 0\n8 0 0 0 6 0 0 0 3\n4 0 0 8 0 3 0 0 1\n7 0 0 0 2 0 0 0 6\n0 6 0 0 0 0 2 8 0\n0 0 0 4 1 9 0 0 5\n0 0 0 0 8 0 0 7 9";
    let vals = parse_vals(input);
    let p = load_values(&vals).unwrap();
    let solved = solve(p).unwrap();
    let expected = [
        [5, 3, 4, 6, 7, 8, 9, 1, 2],
        [6, 7, 2, 1, 9, 5, 3, 4, 8],
        [1, 9, 8, 3, 4, 2, 5, 6, 7],
        [8, 5, 9, 7, 6, 1, 4, 2, 3],
        [4, 2, 6, 8, 5, 3, 7, 9, 1],
        [7, 1, 3, 9, 2, 4, 8, 5, 6],
        [9, 6, 1, 5, 3, 7, 2, 8, 4],
        [2, 8, 7, 4, 1, 9, 6, 3, 5],
        [3, 4, 5, 2, 8, 6, 1, 7, 9],
    ];
    for y in 0..9 {
        for x in 0..9 {
            assert_eq!(solved.get(x, y), expected[y][x]);
        }
    }
    check_solution(&solved);
}

#[test]
fn solved_grid_renders_expected_rows() {
    let input = "5 3 0 0 7 0 0 0 0\n6 0 0 1 9 5 0 0 0\n0 9 8 0 0 0 0 6 0\n8 0 0 0 6 0 0 0 3\n4 0 0 8 0 3 0 0 1\n7 0 0 0 2 0 0 0 6\n0 6 0 0 0 0 2 8 0\n0 0 0 4 1 9 0 0 5\n0 0 0 0 8 0 0 7 9";
    let vals = parse_vals(input);
    let solved = solve(load_values(&vals).unwrap()).unwrap();
    let text = solved.format();
    let lines: Vec<&str> = text.lines().collect();
    assert_eq!(lines[0], "5 3 4 | 6 7 8 | 9 1 2");
    assert_eq!(lines[3], "------+-------+------");
    assert_eq!(lines[10], "3 4 5 | 2 8 6 | 1 7 9");
}

#[test]
fn duplicate_clue_in_row_rejected() {
    let mut vals = vec![0u8; 81];
    vals[0] = 5; // line 0, column 0
    vals[5] = 5; // line 0, column 5
    let err = load_values(&vals).unwrap_err();
    assert_eq!(err.group, Group::Row);
    assert_eq!(err.index, 0);
    assert_eq!(err.value, 5);
}

#[test]
fn duplicate_clue_in_column_rejected() {
    let mut vals = vec![0u8; 81];
    vals[9 * 1 + 2] = 8; // line 1, column 2
    vals[9 * 7 + 2] = 8; // line 7, column 2
    let err = load_values(&vals).unwrap_err();
    assert_eq!(err.group, Group::Column);
    assert_eq!(err.index, 2);
    assert_eq!(err.value, 8);
}

#[test]
fn empty_grid_solvable() {
    let vals = vec![0u8; 81];
    let p = load_values(&vals).unwrap();
    assert!(p.is_solvable());
    let solved = solve(p).unwrap();
    check_solution(&solved);
}

#[test]
fn clues_preserved_by_solve() {
    let mut vals = vec![0u8; 81];
    vals[9 * 2 + 3] = 6; // line 2, column 3
    vals[9 * 8 + 8] = 1; // line 8, column 8
    let p = load_values(&vals).unwrap();
    let solved = solve(p).unwrap();
    assert_eq!(solved.get(3, 2), 6);
    assert_eq!(solved.get(8, 8), 1);
    check_solution(&solved);
}

#[test]
fn dead_end_grid_unsolvable() {
    // line 0 holds 1..8 in its first eight columns, and a 9 lower down in
    // the last column: the cell at line 0, column 8 has no candidate left
    let mut vals = vec![0u8; 81];
    for x in 0..8 {
        vals[x] = (x + 1) as u8;
    }
    vals[9 * 4 + 8] = 9;
    let p = load_values(&vals).unwrap();
    assert!(!p.is_solvable());
    assert!(matches!(solve(p), Err(SolveError::Unsolvable)));
}

#[test]
fn forced_move_found() {
    let mut p = Problem::new();
    for x in 0..8usize {
        p.set(x, 0, (x + 1) as u8).unwrap();
    }
    let moves = get_trivial_moves(&p);
    assert_eq!(moves, vec![(8, 0, 9)]);
}

#[test]
fn no_forced_moves_on_fresh_grid() {
    let p = Problem::new();
    assert!(get_trivial_moves(&p).is_empty());
}
