use sudoku::{prepare, solve, Pattern, Possibilities, Solution, Template};

/// Check that an 81-character string is a fully solved grid: every row,
/// column and box holds each of '1'..='9' exactly once.
fn assert_solved(s: &str) {
    let b = s.as_bytes();
    assert_eq!(b.len(), 81);
    for &ch in b {
        assert!((b'1'..=b'9').contains(&ch));
    }
    for group in 0..9 {
        let mut row = [0usize; 9];
        let mut col = [0usize; 9];
        let mut boxx = [0usize; 9];
        for k in 0..9 {
            row[(b[9 * group + k] - b'1') as usize] += 1;
            col[(b[9 * k + group] - b'1') as usize] += 1;
            let r = group / 3 * 3 + k / 3;
            let c = group % 3 * 3 + k % 3;
            boxx[(b[9 * r + c] - b'1') as usize] += 1;
        }
        assert_eq!(row, [1; 9]);
        assert_eq!(col, [1; 9]);
        assert_eq!(boxx, [1; 9]);
    }
}

#[test]
fn pattern_has_with_remove() {
    let p = Pattern::empty();
    assert!(!p.has(4, 7));
    let q = p.with(4, 7);
    assert!(q.has(4, 7));
    assert!(!q.has(4, 6));
    let mut q2 = q;
    assert!(q2.remove(4, 7));
    assert!(!q2.remove(4, 7));
    assert!(!q2.has(4, 7));
}

#[test]
fn pattern_subset_intersect() {
    let a = Pattern::empty().with(0, 0).with(8, 8);
    let b = a.with(3, 3);
    assert!(a.is_subset(b));
    assert!(!b.is_subset(a));
    assert!(a.intersects(b));
    assert!(!a.intersects(Pattern::empty()));
    assert!(Pattern::empty().is_subset(a));
}

#[test]
fn pattern_universe_is_81_cells() {
    // Complementing twice gives the same pattern back; the complement of full is
    // empty, so no bits beyond the 81 cells ever appear.
    let full = Pattern::full();
    for r in 0..9 {
        for c in 0..9 {
            assert!(full.has(r, c));
        }
    }
    assert_eq!(full.complement(), Pattern::empty());
    assert_eq!(Pattern::empty().complement(), full);
    let a = Pattern::empty().with(2, 5).with(7, 1);
    assert_eq!(a.complement().complement(), a);
    assert_eq!(a.or(a.complement()), full);
    assert_eq!(a.and(a.complement()), Pattern::empty());
}

#[test]
fn catalog_has_46656_legal_distinct_entries() {
    let all = Template::all();
    assert_eq!(all.len(), 46656);
    // Every entry is a legal single-digit layout.
    for idx in [0usize, 1, 12345, 46655] {
        let p = Template(idx).as_pattern(&all);
        for group in 0..9 {
            let mut in_row = 0;
            let mut in_col = 0;
            let mut in_box = 0;
            for k in 0..9 {
                if p.has(group, k) {
                    in_row += 1;
                }
                if p.has(k, group) {
                    in_col += 1;
                }
                let r = group / 3 * 3 + k / 3;
                let c = group % 3 * 3 + k % 3;
                if p.has(r, c) {
                    in_box += 1;
                }
            }
            assert_eq!(in_row, 1);
            assert_eq!(in_col, 1);
            assert_eq!(in_box, 1);
        }
    }
    assert_ne!(Template(0).as_pattern(&all), Template(1).as_pattern(&all));
    assert_ne!(Template(0).as_pattern(&all), Template(46655).as_pattern(&all));
}

#[test]
fn within_filters_exactly_the_subsets() {
    let all = Template::all();
    // Everything fits inside the full pattern.
    assert_eq!(Template::within(&all, Pattern::full()).len(), 46656);
    // Nothing fits inside the empty pattern.
    assert_eq!(Template::within(&all, Pattern::empty()).len(), 0);
    // Exactly one entry fits inside a single entry's own pattern.
    let t = Template(31415);
    let v = Template::within(&all, t.as_pattern(&all));
    assert_eq!(v.len(), 1);
    assert_eq!(v[0], t);
}

#[test]
fn counters_track_live_counts() {
    let mut p = Possibilities::new();
    p.set(0, 0, 5).unwrap();
    p.set(4, 4, 5).unwrap();
    p.set(8, 3, 2).unwrap();
    for r in 0..9 {
        for c in 0..9 {
            let mut live = 0;
            for d in 0..9 {
                if p.patterns[d].has(r, c) {
                    live += 1;
                }
            }
            assert_eq!(p.cell_constraints[9 * r + c], live);
        }
    }
    for d in 0..9 {
        for g in 0..9 {
            let mut in_row = 0;
            let mut in_col = 0;
            let mut in_box = 0;
            for k in 0..9 {
                if p.patterns[d].has(g, k) {
                    in_row += 1;
                }
                if p.patterns[d].has(k, g) {
                    in_col += 1;
                }
                if p.patterns[d].has(g / 3 * 3 + k / 3, g % 3 * 3 + k % 3) {
                    in_box += 1;
                }
            }
            assert_eq!(p.row_constraints[9 * g + d], in_row);
            assert_eq!(p.col_constraints[9 * g + d], in_col);
            assert_eq!(p.box_constraints[9 * g + d], in_box);
        }
    }
}

#[test]
fn set_again_is_a_no_op() {
    let mut p = Possibilities::new();
    p.set(2, 3, 7).unwrap();
    p.set(6, 6, 1).unwrap();
    let patterns = p.patterns;
    let cells = p.cell_constraints;
    let rows = p.row_constraints;
    let cols = p.col_constraints;
    let boxes = p.box_constraints;
    p.set(2, 3, 7).unwrap();
    assert_eq!(p.patterns, patterns);
    assert_eq!(p.cell_constraints, cells);
    assert_eq!(p.row_constraints, rows);
    assert_eq!(p.col_constraints, cols);
    assert_eq!(p.box_constraints, boxes);
}

#[test]
fn empty_grid_yields_one_full_solution() {
    let out = solve(vec![0u8; 81], 1);
    assert_eq!(out.len(), 1);
    assert_solved(&out[0]);
}

#[test]
fn empty_grid_yields_two_distinct_solutions() {
    let out = solve(vec![0u8; 81], 2);
    assert_eq!(out.len(), 2);
    assert_solved(&out[0]);
    assert_solved(&out[1]);
    assert_ne!(out[0], out[1]);
}

#[test]
fn duplicate_clue_in_row_is_contradictory() {
    // Digit 5 twice in row 0: columns 0 and 3.
    let mut grid = [[0u8; 9]; 9];
    grid[0][0] = 5;
    grid[0][3] = 5;
    assert!(prepare(&grid).is_err());

    let mut flat = vec![0u8; 81];
    flat[0] = 5;
    flat[3] = 5;
    assert!(solve(flat, 2).is_empty());
}

#[test]
fn seventeen_clue_puzzle_has_unique_solution() {
    let text = "000000010400000000020000000000050407008000300001090000300400200050100000000806000";
    let puzzle: Vec<u8> = text.bytes().map(|b| b - b'0').collect();
    let out = solve(puzzle.clone(), 2);
    assert_eq!(out.len(), 1);
    assert_solved(&out[0]);
    let s = out[0].as_bytes();
    for i in 0..81 {
        if puzzle[i] != 0 {
            assert_eq!(s[i], b'0' + puzzle[i]);
        }
    }
    // Propagation prunes the template lists far below the catalog's 46656.
    let mut grid = [[0u8; 9]; 9];
    for i in 0..81 {
        grid[i / 9][i % 9] = puzzle[i];
    }
    let p = prepare(&grid).unwrap();
    let all = Template::all();
    let mut smallest = usize::MAX;
    for d in 0..9 {
        let n = Template::within(&all, p.patterns[d]).len();
        if n < smallest {
            smallest = n;
        }
    }
    assert!(smallest < 4000);
}

#[test]
fn unique_returns_the_forced_solution() {
    // Solve an empty grid once, then hand most of that solution back as
    // clues: propagation forces the rest, and unique() must return it.
    let solved = solve(vec![0u8; 81], 1).remove(0);
    let digits: Vec<u8> = solved.bytes().map(|b| b - b'0').collect();
    let mut grid = [[0u8; 9]; 9];
    for i in 0..81 {
        // Withhold one column of clues.
        if i % 9 != 4 {
            grid[i / 9][i % 9] = digits[i];
        }
    }
    let p = prepare(&grid).unwrap();
    let all = Template::all();
    let sol: Solution = p.unique(&all).unwrap();
    assert!(sol.is_valid(&all));
    let g = sol.to_grid(&all);
    assert_eq!(g, digits);
}

#[test]
fn unique_returns_nothing_when_underdetermined() {
    let p = prepare(&[[0u8; 9]; 9]).unwrap();
    let all = Template::all();
    assert!(p.unique(&all).is_none());
}

#[test]
fn prepare_leaves_exactly_the_clue_digit() {
    let mut grid = [[0u8; 9]; 9];
    grid[3][5] = 9;
    let p = prepare(&grid).unwrap();
    for d in 0..9 {
        assert_eq!(p.patterns[d].has(3, 5), d == 8);
    }
}

#[test]
fn solve_rejects_out_of_range_clue() {
    let mut flat = vec![0u8; 81];
    flat[40] = 10;
    assert!(solve(flat, 1).is_empty());
}

#[test]
fn committed_clue_clears_its_peers() {
    let mut p = Possibilities::new();
    p.set(0, 0, 5).unwrap();
    for k in 1..9 {
        assert!(!p.patterns[4].has(0, k));
        assert!(!p.patterns[4].has(k, 0));
    }
    for r in 0..3 {
        for c in 0..3 {
            if (r, c) != (0, 0) {
                assert!(!p.patterns[4].has(r, c));
            }
        }
    }
    assert!(p.patterns[4].has(0, 0));
}
