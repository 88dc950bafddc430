use sudoku_solver::board::{get_box_num, is_board_solved, possible_vals, remove_val, update_board, SudokuBoard};
use sudoku_solver::radix::format_radix;
use sudoku_solver::solver::{build_board, solve_board, solve_board_with_guesses};
use sudoku_solver::square::CheckablySquare;

fn empty_clues(n: usize) -> Vec<Vec<Option<i32>>> {
    vec![vec![None; n]; n]
}

/// A valid full grid of side `k * k`, built by shifting rows.
fn pattern_grid(k: usize) -> Vec<Vec<i32>> {
    let n = k * k;
    let mut g = vec![vec![0; n]; n];
    for r in 0..n {
        for c in 0..n {
            g[r][c] = ((k * (r % k) + r / k + c) % n + 1) as i32;
        }
    }
    g
}

fn board_from_values(values: Vec<Vec<Option<i32>>>) -> SudokuBoard {
    let n = values.len();
    SudokuBoard {
        values,
        val_in_row: vec![vec![false; n]; n],
        val_in_col: vec![vec![false; n]; n],
        val_in_box: vec![vec![false; n]; n],
    }
}

fn keeps_clues(board: &SudokuBoard, clues: &Vec<Vec<Option<i32>>>) -> bool {
    for r in 0..clues.len() {
        for c in 0..clues.len() {
            if clues[r][c].is_some() && board.values[r][c] != clues[r][c] {
                return false;
            }
        }
    }
    true
}

fn all_candidates(board: &SudokuBoard, n: i32) -> Vec<Vec<Vec<i32>>> {
    let mut out = Vec::new();
    for r in 0..n as usize {
        let mut row = Vec::new();
        for c in 0..n as usize {
            row.push(possible_vals(board, r, c, get_box_num(r, c, n), n));
        }
        out.push(row);
    }
    out
}

#[test]
fn empty_four_by_four_is_solved() {
    let clues = empty_clues(4);
    let mut board = build_board(&clues, 4).ok().unwrap();
    assert!(solve_board(&mut board, 4));
    assert_eq!(is_board_solved(&board, 4), 1);
    for r in 0..4 {
        for c in 0..4 {
            assert!(board.values[r][c].is_some());
        }
    }
}

#[test]
fn two_equal_clues_in_a_row_are_a_contradiction() {
    let mut clues = empty_clues(9);
    clues[0][0] = Some(5);
    clues[0][1] = Some(5);
    let err = build_board(&clues, 9).err().unwrap();
    assert_eq!((err.row, err.col, err.value), (0, 1, 5));
}

#[test]
fn two_equal_clues_in_a_column_are_a_contradiction() {
    let mut clues = empty_clues(9);
    clues[2][4] = Some(7);
    clues[8][4] = Some(7);
    let err = build_board(&clues, 9).err().unwrap();
    assert_eq!((err.row, err.col, err.value), (8, 4, 7));
}

#[test]
fn two_equal_clues_in_a_box_are_a_contradiction() {
    let mut clues = empty_clues(9);
    clues[3][3] = Some(2);
    clues[5][5] = Some(2);
    let err = build_board(&clues, 9).err().unwrap();
    assert_eq!((err.row, err.col, err.value), (5, 5, 2));
}

#[test]
fn consistent_clues_build_a_board_that_holds_them() {
    let mut clues = empty_clues(9);
    clues[0][0] = Some(5);
    clues[4][7] = Some(5);
    clues[8][8] = Some(1);
    let board = build_board(&clues, 9).ok().unwrap();
    assert_eq!(board.values, clues);
    assert!(board.val_in_row[4][0] && board.val_in_row[4][4]);
    assert!(board.val_in_col[4][0] && board.val_in_col[4][7]);
    assert!(board.val_in_box[4][0] && board.val_in_box[4][5]);
    assert!(board.val_in_box[0][8]);
    assert!(!board.val_in_row[4][1]);
}

#[test]
fn nearly_full_row_is_completed() {
    let mut clues = empty_clues(9);
    for c in 0..8 {
        clues[0][c] = Some(c as i32 + 1);
    }
    let mut board = build_board(&clues, 9).ok().unwrap();
    assert_eq!(possible_vals(&board, 0, 8, get_box_num(0, 8, 9), 9), vec![9]);
    assert!(solve_board(&mut board, 9));
    assert_eq!(board.values[0][8], Some(9));
    assert!(keeps_clues(&board, &clues));
    assert_eq!(is_board_solved(&board, 9), 1);
}

#[test]
fn full_grid_with_swapped_cells_is_invalid() {
    let g = pattern_grid(3);
    let mut values: Vec<Vec<Option<i32>>> = g.iter().map(|row| row.iter().map(|v| Some(*v)).collect()).collect();
    let a = values[0][0];
    values[0][0] = values[0][1];
    values[0][1] = a;
    let mut board = board_from_values(values.clone());
    assert_eq!(is_board_solved(&board, 9), -1);
    assert!(!solve_board(&mut board, 9));
    assert_eq!(board.values, values);
}

#[test]
fn valid_full_grid_is_solved() {
    let g = pattern_grid(3);
    let clues: Vec<Vec<Option<i32>>> = g.iter().map(|row| row.iter().map(|v| Some(*v)).collect()).collect();
    let mut board = build_board(&clues, 9).ok().unwrap();
    assert_eq!(is_board_solved(&board, 9), 1);
    assert!(solve_board(&mut board, 9));
    assert_eq!(board.values, clues);
}

#[test]
fn sixteen_by_sixteen_puzzle_is_solved() {
    let g = pattern_grid(4);
    let mut clues: Vec<Vec<Option<i32>>> = g.iter().map(|row| row.iter().map(|v| Some(*v)).collect()).collect();
    for r in 0..16 {
        for c in 0..16 {
            if (r * 7 + c * 3) % 5 == 0 || (r / 4 == 1 && c / 4 == 2) {
                clues[r][c] = None;
            }
        }
    }
    let mut board = build_board(&clues, 16).ok().unwrap();
    assert!(solve_board(&mut board, 16));
    assert!(keeps_clues(&board, &clues));
    assert_eq!(is_board_solved(&board, 16), 1);
}

#[test]
fn sixteen_by_sixteen_gaps_across_a_box_boundary() {
    // Row 5 misses 13 and 14, in columns 7 and 8: two neighbouring boxes.
    let g = pattern_grid(4);
    let mut clues: Vec<Vec<Option<i32>>> = g.iter().map(|row| row.iter().map(|v| Some(*v)).collect()).collect();
    let mut empty = Vec::new();
    for c in 0..16 {
        if g[5][c] == 13 || g[5][c] == 14 {
            clues[5][c] = None;
            empty.push(c);
        }
    }
    let mut board = build_board(&clues, 16).ok().unwrap();
    assert!(solve_board(&mut board, 16));
    for c in empty {
        assert_eq!(board.values[5][c], Some(g[5][c]));
    }
    assert_eq!(is_board_solved(&board, 16), 1);
}

#[test]
fn unsolvable_puzzle_leaves_board_unchanged() {
    let mut clues = empty_clues(4);
    clues[0][0] = Some(1);
    clues[0][1] = Some(2);
    clues[1][3] = Some(3);
    let mut board = build_board(&clues, 4).ok().unwrap();
    let before_values = board.values.clone();
    let before_rows = board.val_in_row.clone();
    let before_cols = board.val_in_col.clone();
    let before_boxes = board.val_in_box.clone();
    assert!(!solve_board(&mut board, 4));
    assert_eq!(board.values, before_values);
    assert_eq!(board.val_in_row, before_rows);
    assert_eq!(board.val_in_col, before_cols);
    assert_eq!(board.val_in_box, before_boxes);
}

#[test]
fn solving_twice_gives_the_same_unique_solution() {
    let g = pattern_grid(3);
    let mut clues: Vec<Vec<Option<i32>>> = g.iter().map(|row| row.iter().map(|v| Some(*v)).collect()).collect();
    clues[0][0] = None;
    clues[4][4] = None;
    clues[8][2] = None;
    clues[2][7] = None;
    let mut first = build_board(&clues, 9).ok().unwrap();
    let mut second = build_board(&clues, 9).ok().unwrap();
    assert!(solve_board(&mut first, 9));
    assert!(solve_board(&mut second, 9));
    assert_eq!(first.values, second.values);
    assert_eq!(first.values[4][4], Some(g[4][4]));
}

#[test]
fn place_then_unplace_restores_candidates() {
    let mut clues = empty_clues(9);
    clues[0][0] = Some(3);
    clues[4][5] = Some(8);
    let mut board = build_board(&clues, 9).ok().unwrap();
    let before = all_candidates(&board, 9);
    let before_values = board.values.clone();
    assert!(update_board(&mut board, 7, 1, 2, 9));
    assert_eq!(board.values[1][2], Some(7));
    assert!(board.val_in_row[6][1] && board.val_in_col[6][2] && board.val_in_box[6][0]);
    assert!(remove_val(&mut board, 7, 1, 2, 9));
    assert_eq!(all_candidates(&board, 9), before);
    assert_eq!(board.values, before_values);
}

#[test]
fn illegal_placement_is_refused() {
    let mut clues = empty_clues(9);
    clues[0][0] = Some(5);
    let mut board = build_board(&clues, 9).ok().unwrap();
    assert!(!update_board(&mut board, 5, 0, 8, 9));
    assert!(!update_board(&mut board, 5, 8, 0, 9));
    assert!(!update_board(&mut board, 5, 2, 2, 9));
    assert_eq!(board.values, clues);
    assert!(update_board(&mut board, 5, 3, 3, 9));
}

#[test]
fn candidates_are_listed_in_ascending_order() {
    let mut clues = empty_clues(9);
    clues[0][0] = Some(1);
    clues[0][1] = Some(9);
    clues[5][4] = Some(2);
    clues[1][3] = Some(6);
    let board = build_board(&clues, 9).ok().unwrap();
    assert_eq!(possible_vals(&board, 0, 4, get_box_num(0, 4, 9), 9), vec![3, 4, 5, 7, 8]);
}

#[test]
fn box_numbers_follow_rows_of_boxes() {
    assert_eq!(get_box_num(0, 0, 9), 0);
    assert_eq!(get_box_num(0, 8, 9), 2);
    assert_eq!(get_box_num(4, 4, 9), 4);
    assert_eq!(get_box_num(8, 0, 9), 6);
    assert_eq!(get_box_num(8, 8, 9), 8);
    assert_eq!(get_box_num(3, 1, 4), 2);
    assert_eq!(get_box_num(5, 9, 16), 6);
    assert_eq!(get_box_num(15, 15, 16), 15);
}

#[test]
fn squares_and_roots() {
    assert!(9.is_square());
    assert_eq!(9.root(), 3);
    assert!(16.is_square());
    assert_eq!(16.root(), 4);
    assert!(4.is_square());
    assert_eq!(4.root(), 2);
    assert!(!10.is_square());
    assert_eq!(10.root(), -1);
    assert!(1.is_square());
    assert_eq!(1.root(), 1);
    assert!(!0.is_square());
    assert!(!(-9).is_square());
    assert_eq!((-9).root(), -1);
    assert!(2147395600.is_square());
    assert_eq!(2147395600.root(), 46340);
    assert!(!i32::MAX.is_square());
}

#[test]
fn status_reports_in_progress_on_an_empty_cell() {
    let clues = empty_clues(4);
    let board = build_board(&clues, 4).ok().unwrap();
    assert_eq!(is_board_solved(&board, 4), 0);
}

#[test]
fn numbers_are_written_in_the_given_base() {
    assert_eq!(format_radix(0, 10), "0");
    assert_eq!(format_radix(9, 10), "9");
    assert_eq!(format_radix(10, 17), "a");
    assert_eq!(format_radix(16, 17), "g");
    assert_eq!(format_radix(17, 17), "10");
    assert_eq!(format_radix(255, 16), "ff");
    assert_eq!(format_radix(5, 2), "101");
    assert_eq!(format_radix(35, 36), "z");
    assert_eq!(format_radix(u32::MAX, 16), "ffffffff");
}

#[test]
fn single_gap_is_filled_without_guessing() {
    let g = pattern_grid(3);
    let mut clues: Vec<Vec<Option<i32>>> = g.iter().map(|row| row.iter().map(|v| Some(*v)).collect()).collect();
    clues[0][8] = None;
    let mut board = build_board(&clues, 9).ok().unwrap();
    let (solved, guesses) = solve_board_with_guesses(&mut board, 9);
    assert!(solved);
    assert_eq!(guesses, 0);
    assert_eq!(board.values[0][8], Some(9));
    for r in 0..9 {
        for c in 0..9 {
            assert_eq!(board.values[r][c], Some(g[r][c]));
        }
    }
}

#[test]
fn empty_board_needs_guesses() {
    let clues = empty_clues(9);
    let mut board = build_board(&clues, 9).ok().unwrap();
    let (solved, guesses) = solve_board_with_guesses(&mut board, 9);
    assert!(solved);
    assert!(guesses > 0);
    assert_eq!(is_board_solved(&board, 9), 1);
}

#[test]
fn one_by_one_board_is_solved() {
    let clues = empty_clues(1);
    let mut board = build_board(&clues, 1).ok().unwrap();
    assert!(solve_board(&mut board, 1));
    assert_eq!(board.values, vec![vec![Some(1)]]);
    assert_eq!(get_box_num(0, 0, 1), 0);
}

#[test]
fn correct_full_grid_with_unset_caches_is_solved_at_once() {
    let g = pattern_grid(2);
    let values: Vec<Vec<Option<i32>>> = g.iter().map(|row| row.iter().map(|v| Some(*v)).collect()).collect();
    let mut board = SudokuBoard { values: values.clone(), val_in_row: vec![], val_in_col: vec![], val_in_box: vec![] };
    assert_eq!(is_board_solved(&board, 4), 1);
    assert!(solve_board(&mut board, 4));
    assert_eq!(board.values, values);
}
