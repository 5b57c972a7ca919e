use sudoku::grid::{ConstraintViolation, Group, Problem};

#[test]
fn fresh_grid_is_open_everywhere() {
    let p = Problem::new();
    for x in 0..9 {
        for y in 0..9 {
            assert_eq!(p.get(x, y), 0);
            assert_eq!(p.count_options(x, y), 9);
        }
    }
    assert!(!p.is_solved());
    assert!(p.is_solvable());
}

#[test]
fn place_updates_cell_and_propagates() {
    let mut p = Problem::new();
    assert!(p.set(4, 4, 5).is_ok());
    assert_eq!(p.get(4, 4), 5);
    // the column, row, and region of (4, 4) each lost candidate 5
    assert_eq!(p.count_options(4, 0), 8);
    assert_eq!(p.count_options(0, 4), 8);
    assert_eq!(p.count_options(3, 3), 8);
    // the placed cell's own candidate set lost it too
    assert_eq!(p.count_options(4, 4), 8);
    // an unrelated cell is untouched
    assert_eq!(p.count_options(0, 0), 9);
}

#[test]
fn removal_is_idempotent() {
    let mut p = Problem::new();
    // (0, 4) shares both its row and its region with nothing placed yet;
    // removing the same candidate twice must decrement the count only once
    p.remove_option(0, 4, 7);
    assert_eq!(p.count_options(0, 4), 8);
    p.remove_option(0, 4, 7);
    assert_eq!(p.count_options(0, 4), 8);
}

#[test]
fn conflict_in_column() {
    let mut p = Problem::new();
    p.set(0, 0, 7).unwrap();
    let e = p.set(0, 5, 7).unwrap_err();
    assert_eq!(
        e,
        ConstraintViolation { group: Group::Column, index: 0, value: 7 }
    );
    // the grid is unchanged by the rejected placement
    assert_eq!(p.get(0, 5), 0);
}

#[test]
fn conflict_in_row() {
    let mut p = Problem::new();
    p.set(0, 2, 4).unwrap();
    let e = p.set(6, 2, 4).unwrap_err();
    assert_eq!(
        e,
        ConstraintViolation { group: Group::Row, index: 2, value: 4 }
    );
}

#[test]
fn conflict_in_region() {
    let mut p = Problem::new();
    p.set(0, 0, 3).unwrap();
    let e = p.set(1, 1, 3).unwrap_err();
    assert_eq!(
        e,
        ConstraintViolation { group: Group::Region, index: 0, value: 3 }
    );
}

#[test]
fn candidate_counts_recomputable() {
    let mut p = Problem::new();
    let placements = [(0usize, 0usize, 1u8), (4, 4, 5), (8, 8, 9), (2, 7, 4)];
    for &(x, y, v) in placements.iter() {
        p.set(x, y, v).unwrap();
    }
    for x in 0..9 {
        for y in 0..9 {
            // recompute the count from the cells alone
            let mut cnt = 0u8;
            for v in 1..=9u8 {
                let mut blocked = false;
                for t in 0..9 {
                    if p.get(x, t) == v || p.get(t, y) == v {
                        blocked = true;
                    }
                }
                let bx = 3 * (x / 3);
                let by = 3 * (y / 3);
                for i in bx..bx + 3 {
                    for j in by..by + 3 {
                        if p.get(i, j) == v {
                            blocked = true;
                        }
                    }
                }
                if !blocked {
                    cnt += 1;
                }
            }
            assert_eq!(p.count_options(x, y), cnt);
        }
    }
}

#[test]
fn place_order_independent() {
    let mut a = Problem::new();
    a.set(0, 0, 1).unwrap();
    a.set(4, 4, 2).unwrap();
    a.set(8, 0, 3).unwrap();
    let mut b = Problem::new();
    b.set(8, 0, 3).unwrap();
    b.set(0, 0, 1).unwrap();
    b.set(4, 4, 2).unwrap();
    assert_eq!(a, b);
}

#[test]
fn empty_cells_idempotent() {
    let mut p = Problem::new();
    p.set(0, 0, 1).unwrap();
    p.set(3, 5, 7).unwrap();
    let mut first = Vec::new();
    let mut it = p.iter_empty_coords();
    while let Some(c) = it.next() {
        first.push(c);
    }
    let mut second = Vec::new();
    let mut it2 = p.iter_empty_coords();
    while let Some(c) = it2.next() {
        second.push(c);
    }
    assert_eq!(first, second);
    assert_eq!(first.len(), 79);
    assert!(!first.contains(&(0, 0)));
    assert!(!first.contains(&(3, 5)));
    assert_eq!(first[0], (0, 1));
}

#[test]
fn minimum_candidate_cell_shortcut() {
    let mut p = Problem::new();
    for x in 0..7usize {
        p.set(x, 0, (x + 1) as u8).unwrap();
    }
    // (7, 0) and (8, 0) are the first cells left with exactly 2 candidates
    let m = p.get_minimum_options_coord();
    assert_eq!(m, (7, 0));
    assert_eq!(p.count_options(7, 0), 2);
}

#[test]
fn clone_is_deep() {
    let mut p = Problem::new();
    p.set(0, 0, 1).unwrap();
    let mut q = p.clone();
    assert_eq!(p, q);
    q.set(8, 8, 9).unwrap();
    assert_eq!(p.get(8, 8), 0);
    assert_eq!(p.count_options(8, 0), 8);
}

#[test]
fn format_draws_blocks() {
    let mut p = Problem::new();
    p.set(0, 0, 5).unwrap();
    p.set(4, 0, 7).unwrap();
    let text = p.format();
    let lines: Vec<&str> = text.lines().collect();
    assert_eq!(lines.len(), 11);
    assert_eq!(lines[0], "5     |   7   |      ");
    assert_eq!(lines[3], "------+-------+------");
    assert_eq!(lines[7], "------+-------+------");
    assert_eq!(lines[10], "      |       |      ");
}
