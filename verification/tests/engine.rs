use futoshiki_core::futoshiki::{generate_from_grid, Inequality};
use futoshiki_core::generator::{generate, Difficulty};
use futoshiki_core::solver::{count_solutions, filter_gt, filter_lt, get_max, get_min, popcount9, State};
use futoshiki_core::sudoku::generate_complete_grid;

/// A well-known valid complete Sudoku grid.
fn sample_grid() -> Vec<u8> {
    vec![
        5, 3, 4, 6, 7, 8, 9, 1, 2, //
        6, 7, 2, 1, 9, 5, 3, 4, 8, //
        1, 9, 8, 3, 4, 2, 5, 6, 7, //
        8, 5, 9, 7, 6, 1, 4, 2, 3, //
        4, 2, 6, 8, 5, 3, 7, 9, 1, //
        7, 1, 3, 9, 2, 4, 8, 5, 6, //
        9, 6, 1, 5, 3, 7, 2, 8, 4, //
        2, 8, 7, 4, 1, 9, 6, 3, 5, //
        3, 4, 5, 2, 8, 6, 1, 7, 9, //
    ]
}

#[test]
fn test_complete_grid_rows_cols_blocks() {
    let grid = generate_complete_grid().expect("synthesis failed");
    assert_eq!(grid.len(), 81);
    for unit in 0..9 {
        let mut row_seen = [false; 10];
        let mut col_seen = [false; 10];
        let mut blk_seen = [false; 10];
        for k in 0..9 {
            let row_val = grid[unit * 9 + k] as usize;
            let col_val = grid[k * 9 + unit] as usize;
            let blk_idx = ((unit / 3) * 3 + k / 3) * 9 + (unit % 3) * 3 + k % 3;
            let blk_val = grid[blk_idx] as usize;
            assert!((1..=9).contains(&row_val));
            assert!(!row_seen[row_val], "row {} repeats {}", unit, row_val);
            assert!(!col_seen[col_val], "col {} repeats {}", unit, col_val);
            assert!(!blk_seen[blk_val], "block {} repeats {}", unit, blk_val);
            row_seen[row_val] = true;
            col_seen[col_val] = true;
            blk_seen[blk_val] = true;
        }
    }
}

#[test]
fn test_derived_relations_count_and_strictness() {
    let grid = sample_grid();
    let relations = generate_from_grid(&grid);
    assert_eq!(relations.len(), 144);
    for iq in &relations {
        assert!(iq.a < 81 && iq.b < 81);
        assert!(grid[iq.a] < grid[iq.b], "relation ({}, {}) not strict", iq.a, iq.b);
        let (lo, hi) = if iq.a < iq.b { (iq.a, iq.b) } else { (iq.b, iq.a) };
        let adjacent = (hi == lo + 1 && lo / 9 == hi / 9) || hi == lo + 9;
        assert!(adjacent, "relation ({}, {}) not adjacent", iq.a, iq.b);
    }
}

#[test]
fn test_derived_relation_orientation() {
    let mut grid = vec![0u8; 81];
    grid[0] = 5;
    grid[1] = 3;
    let relations = generate_from_grid(&grid);
    assert_eq!(relations[0], Inequality { a: 1, b: 0 });
}

#[test]
fn test_solution_cap_respected() {
    let empty = vec![0u8; 81];
    let none: Vec<Inequality> = Vec::new();
    assert_eq!(count_solutions(&empty, &none, 0), 0);
    assert_eq!(count_solutions(&empty, &none, 1), 1);
    assert_eq!(count_solutions(&empty, &none, 2), 2);
    assert_eq!(count_solutions(&empty, &none, 3), 3);
}

#[test]
fn test_full_grid_unique() {
    let grid = sample_grid();
    let none: Vec<Inequality> = Vec::new();
    assert_eq!(count_solutions(&grid, &none, 2), 1);

    let relations = generate_from_grid(&grid);
    assert_eq!(count_solutions(&grid, &relations, 2), 1);
}

#[test]
fn test_full_grid_violated_relation() {
    let grid = sample_grid();
    // grid[0] = 5, grid[1] = 3: claiming value[0] < value[1] is false
    let wrong = vec![Inequality { a: 0, b: 1 }];
    assert_eq!(count_solutions(&grid, &wrong, 2), 0);
}

#[test]
fn test_verification_idempotent() {
    let puzzle = generate("Easy").expect("generation failed");
    let mut working = vec![0u8; 81];
    for i in 0..81 {
        if puzzle.grid[i] != -1 {
            working[i] = puzzle.grid[i] as u8;
        }
    }
    assert_eq!(count_solutions(&working, &puzzle.constraints, 2), 1);
}

#[test]
fn test_classic_keeps_all_relations() {
    let puzzle = generate("Classic").expect("generation failed");
    assert!(puzzle.constraints.len() <= 144);
    assert_eq!(puzzle.constraints.len(), 144);
    let intra = puzzle
        .constraints
        .iter()
        .filter(|iq| iq.is_intra_block())
        .count();
    assert_eq!(intra, 108, "Classic must include all intra-block relations");
}

#[test]
fn test_difficulty_parse_and_tables() {
    assert_eq!(Difficulty::from_str("Easy"), Difficulty::Easy);
    assert_eq!(Difficulty::from_str("Normal"), Difficulty::Normal);
    assert_eq!(Difficulty::from_str("Hard"), Difficulty::Hard);
    assert_eq!(Difficulty::from_str("Expert"), Difficulty::Expert);
    assert_eq!(Difficulty::from_str("Classic"), Difficulty::Classic);
    assert_eq!(Difficulty::from_str("unknown"), Difficulty::Normal);
    assert_eq!(Difficulty::from_str("easy"), Difficulty::Normal);

    assert_eq!(Difficulty::Easy.hint_range(), (30, 40));
    assert_eq!(Difficulty::Normal.hint_range(), (23, 29));
    assert_eq!(Difficulty::Hard.hint_range(), (16, 22));
    assert_eq!(Difficulty::Expert.hint_range(), (8, 15));
    assert_eq!(Difficulty::Classic.hint_range(), (0, 0));

    assert_eq!(Difficulty::Easy.inter_block_keep_percent(), 70);
    assert_eq!(Difficulty::Normal.inter_block_keep_percent(), 50);
    assert_eq!(Difficulty::Hard.inter_block_keep_percent(), 35);
    assert_eq!(Difficulty::Expert.inter_block_keep_percent(), 20);
    assert_eq!(Difficulty::Classic.inter_block_keep_percent(), 100);

    assert_eq!(Difficulty::Easy.initial_reveals(), 20);
    assert_eq!(Difficulty::Normal.initial_reveals(), 12);
    assert_eq!(Difficulty::Hard.initial_reveals(), 6);
    assert_eq!(Difficulty::Expert.initial_reveals(), 0);
    assert_eq!(Difficulty::Classic.initial_reveals(), 0);
}

#[test]
fn test_domain_helpers() {
    // bits 1 and 3 set: values 2 and 4
    let mask: u16 = 0b1010;
    assert_eq!(get_min(mask), 2);
    assert_eq!(get_max(mask), 4);
    assert_eq!(popcount9(mask), 2);
    assert_eq!(popcount9(0x1FF), 9);

    // keep values strictly below 4: only value 2 remains
    assert_eq!(filter_lt(mask, 4), 0b10);
    // keep values strictly above 2: only value 4 remains
    assert_eq!(filter_gt(mask, 2), 0b1000);
    // no value below 1
    assert_eq!(filter_lt(0x1FF, 1), 0);
    // every value above 0
    assert_eq!(filter_gt(0x1FF, 0), 0x1FF);
}

#[test]
fn test_state_restrict() {
    let mut state = State::new();
    assert!(state.restrict(0, 0b1));
    assert!(state.restrict(0, 0b1));
    // the domain of cell 0 is now {1}; removing it must fail
    assert!(!state.restrict(0, 0b10));
}

#[test]
fn test_inconsistent_fixed_cells_count_zero() {
    // two equal fixed values in one row
    let mut dup_row = vec![0u8; 81];
    dup_row[0] = 1;
    dup_row[1] = 1;
    let none: Vec<Inequality> = Vec::new();
    assert_eq!(count_solutions(&dup_row, &none, 2), 0);

    // a fully-assigned grid of all 1s is mutually inconsistent everywhere
    let ones = vec![1u8; 81];
    assert_eq!(count_solutions(&ones, &none, 2), 0);

    // a relation violated by its two fixed endpoints
    let mut mis = vec![0u8; 81];
    mis[0] = 5;
    mis[1] = 3;
    let wrong = vec![Inequality { a: 0, b: 1 }];
    assert_eq!(count_solutions(&mis, &wrong, 2), 0);
}

#[test]
fn test_unrecognized_name_generates() {
    // an unrecognized name falls back to a mid-tier level and still yields
    // a well-formed puzzle
    let puzzle = generate("whatever").expect("generation failed");
    assert_eq!(puzzle.grid.len(), 81);
    for &v in &puzzle.grid {
        assert!(v == -1 || (1..=9).contains(&v));
    }
    assert!(puzzle.constraints.len() <= 144);
}
