use std::collections::HashMap;
use sudoku::board::{Board, Cell};
use sudoku::candidates::CandidateSet;
use sudoku::consts::{nyt_easy_map, nyt_easy_vec, nyt_hard_map, nyt_hard_vec};
use sudoku::solver::{
    apply_pass, pencil_and_place_complex, pencil_and_place_simple, run_to_fixpoint, solve,
    work_one_box, Outcome, Pass, Solver,
};

fn board_of(givens: &[(usize, u8)]) -> Board {
    let mut map = HashMap::new();
    for (idx, digit) in givens {
        map.insert(*idx, *digit);
    }
    Board::new(map)
}

fn shares_unit(i: usize, j: usize) -> bool {
    let same_row = i / 9 == j / 9;
    let same_col = i % 9 == j % 9;
    let same_block = (i / 27, (i % 9) / 3) == (j / 27, (j % 9) / 3);
    same_row || same_col || same_block
}

fn conflicts(board: &Board) -> Vec<(usize, usize)> {
    let mut found = Vec::new();
    for i in 0..81usize {
        for j in (i + 1)..81usize {
            if shares_unit(i, j) {
                if let (Cell::Placed(d), Cell::Placed(e)) = (board.cell(i), board.cell(j)) {
                    if d == e {
                        found.push((i, j));
                    }
                }
            }
        }
    }
    found
}

fn never_adds(before: &Board, after: &Board) -> bool {
    (0..81usize).all(|idx| match (before.cell(idx), after.cell(idx)) {
        (Cell::Placed(d), Cell::Placed(e)) => d == e,
        (Cell::Placed(_), Cell::Open(_)) => false,
        (Cell::Open(c), Cell::Placed(d)) => c.contains(d),
        (Cell::Open(c), Cell::Open(c2)) => c2.is_subset(&c),
    })
}

#[test]
fn presets_hold_the_givens() {
    let easy = nyt_easy_vec();
    assert_eq!(easy.len(), 38);
    assert_eq!(easy[0], (0, 4));
    assert_eq!(easy[37], (80, 7));
    let map = nyt_easy_map();
    assert_eq!(map.len(), 38);
    assert_eq!(map.get(&0), Some(&4));
    assert_eq!(map.get(&49), Some(&6));
    assert_eq!(map.get(&2), None);
    let hard = nyt_hard_vec();
    assert_eq!(hard.len(), 24);
    let map = nyt_hard_map();
    assert_eq!(map.len(), 24);
    assert_eq!(map.get(&14), Some(&1));
    assert_eq!(map.get(&80), Some(&4));
}

#[test]
fn empty_board_stalls_at_once() {
    let board = Board::empty_board();
    let solved = solve(board);
    assert_eq!(solved, board);
    for idx in 0..81 {
        assert_eq!(solved.cell(idx), Cell::Open(CandidateSet::one_to_nine()));
    }
    let end = run_to_fixpoint(Solver::init_with_board(board), Pass::Simple);
    assert_eq!(end.outcome, Outcome::Stalled);
    assert_eq!(end.solver.get_board(), board);
    // Nine blocks were tried, each in vain.
    assert_eq!(end.steps, 9);
    assert_eq!(end.solver.last_box(), 0);
    let end = run_to_fixpoint(Solver::init_with_board(board), Pass::Complex);
    assert_eq!(end.outcome, Outcome::Stalled);
    assert_eq!(end.solver.get_board(), board);
    assert_eq!(end.steps, 9);
}

#[test]
fn easy_board_is_solved_by_the_simple_pass() {
    let board = Board::new(nyt_easy_map());
    assert!(conflicts(&board).is_empty());
    let solved = solve(board);
    assert!(solved.is_solved());
    assert!(conflicts(&solved).is_empty());
    for (idx, digit) in nyt_easy_vec() {
        assert_eq!(solved.cell(idx), Cell::Placed(digit));
    }
    // Each row holds each digit once.
    for row in 0..9usize {
        let mut seen = CandidateSet::empty();
        for col in 0..9usize {
            if let Cell::Placed(d) = solved.cell(9 * row + col) {
                seen = seen.union(&CandidateSet::single(d));
            }
        }
        assert_eq!(seen, CandidateSet::one_to_nine());
    }
    assert!(never_adds(&board, &solved));
    let end = run_to_fixpoint(Solver::init_with_board(board), Pass::Simple);
    assert_eq!(end.outcome, Outcome::Solved);
    assert_eq!(end.solver.get_board(), solved);
    assert!(end.steps >= 9);
    // 43 open cells with nine candidates each, nine steps for each unit of weight.
    assert!(end.steps <= 9 * 43 * 10 + 9);
}

#[test]
fn hard_board_stalls_without_a_conflict() {
    let board = Board::new(nyt_hard_map());
    let end = run_to_fixpoint(Solver::init_with_board(board), Pass::Simple);
    let solved = end.solver.get_board();
    assert_eq!(solved, solve(board));
    assert_eq!(end.outcome == Outcome::Solved, solved.is_solved());
    assert!(end.steps <= 9 * 57 * 10 + 9);
    assert!(conflicts(&solved).is_empty());
    assert!(never_adds(&board, &solved));
    for (idx, digit) in nyt_hard_vec() {
        assert_eq!(solved.cell(idx), Cell::Placed(digit));
    }
}

#[test]
fn solving_twice_is_solving_once() {
    for board in [
        Board::empty_board(),
        Board::new(nyt_easy_map()),
        Board::new(nyt_hard_map()),
        board_of(&[(0, 1), (1, 1)]),
        board_of(&[(0, 1), (10, 2), (20, 3), (30, 4), (40, 5)]),
    ] {
        let once = solve(board);
        assert_eq!(solve(once), once);
    }
}

#[test]
fn solve_adds_no_conflict_to_a_contradictory_board() {
    let board = board_of(&[(0, 5), (8, 5), (40, 3), (41, 4), (49, 3)]);
    let before = conflicts(&board);
    assert_eq!(before, vec![(0, 8), (40, 49)]);
    let solved = solve(board);
    assert_eq!(conflicts(&solved), before);
    assert!(never_adds(&board, &solved));
}

#[test]
fn the_scheduler_goes_round_the_pending_blocks() {
    let full_block: Vec<(usize, u8)> = vec![
        (3, 1), (4, 2), (5, 3), (12, 4), (13, 5), (14, 6), (21, 7), (22, 8), (23, 9),
    ];
    let board = board_of(&full_block);
    let mut solver = Solver::init_with_board(board);
    assert_eq!(solver.last_box(), 0);
    assert!(solver.is_finished(1));
    assert!(!solver.is_finished(0));
    // Block 1 is complete, so block 2 is next, then 3, ... 8, 0, 2.
    let mut order = Vec::new();
    for _ in 0..9 {
        let bx = solver.get_unsolved_box().unwrap();
        order.push(bx.index());
        assert_eq!(solver.last_box() as usize, bx.index());
    }
    assert_eq!(order, vec![2, 3, 4, 5, 6, 7, 8, 0, 2]);
    assert_eq!(solver.get_board(), board);
}

#[test]
fn the_scheduler_finds_nothing_on_a_solved_board() {
    let solved = solve(Board::new(nyt_easy_map()));
    let mut solver = Solver::init_with_board(solved);
    for b in 0..9u8 {
        assert!(solver.is_finished(b));
    }
    assert!(solver.get_unsolved_box().is_none());
    assert_eq!(solver.last_box(), 0);
    let after = work_one_box(solver, None);
    assert_eq!(after, solver);
    let end = run_to_fixpoint(solver, Pass::Complex);
    assert_eq!(end.outcome, Outcome::Solved);
    assert_eq!(end.solver.get_board(), solved);
    assert_eq!(end.steps, 0);
}

#[test]
fn work_one_box_on_a_chosen_block() {
    // The other eight cells of row 0 are placed: the complex pass places
    // the last one, the simple pass does so too (as a hidden single).
    let board = board_of(&[(1, 2), (2, 3), (3, 4), (4, 5), (5, 6), (6, 7), (7, 8), (8, 9)]);
    let solver = Solver::init_with_board(board);
    let next = work_one_box(solver, Some(0));
    assert_eq!(next.last_box(), 0);
    assert_eq!(next.get_board().cell(0), Cell::Placed(1));
    // The pass strikes before it places: cell 9 keeps the 1 until the next pass.
    assert_eq!(next.get_board().pencilmarks(9).to_vec(), vec![1, 4, 5, 6, 7, 8, 9]);
    let again = work_one_box(next, Some(0));
    assert_eq!(again.get_board().pencilmarks(9).to_vec(), vec![4, 5, 6, 7, 8, 9]);
    assert_eq!(next.get_board().cell(27), Cell::Open(CandidateSet::one_to_nine()));
    assert!(never_adds(&board, &next.get_board()));
    // Block 4 sees the givens of its columns only.
    let next = work_one_box(solver, Some(4));
    assert_eq!(next.get_board().pencilmarks(30).to_vec(), vec![1, 2, 3, 5, 6, 7, 8, 9]);
    assert_eq!(next.get_board().pencilmarks(49).to_vec(), vec![1, 2, 3, 4, 6, 7, 8, 9]);
    assert_eq!(next.get_board().cell(0), board.cell(0));
    assert_eq!(next.last_box(), 0);
}

#[test]
fn work_one_box_lets_the_scheduler_choose() {
    let board = board_of(&[(1, 2), (2, 3), (3, 4), (4, 5), (5, 6), (6, 7), (7, 8), (8, 9)]);
    let solver = Solver::init_with_board(board);
    let next = work_one_box(solver, None);
    assert_eq!(next.last_box(), 1);
    // In block 1, row 0 is placed; the other cells lose 4, 5, 6 and nothing else.
    assert_eq!(next.get_board().pencilmarks(12).to_vec(), vec![1, 2, 3, 7, 8, 9]);
    assert_eq!(next.get_board().cell(0), Cell::Open(CandidateSet::one_to_nine()));
    let next = work_one_box(next, None);
    assert_eq!(next.last_box(), 2);
    assert_eq!(next.get_board().pencilmarks(15).to_vec(), vec![1, 2, 3, 4, 5, 6]);
}

#[test]
fn a_pass_marks_the_block_it_finishes() {
    let board = board_of(&[(0, 1), (1, 2), (2, 3), (9, 4), (10, 5), (11, 6), (18, 7), (19, 8)]);
    let solver = Solver::init_with_board(board);
    assert!(!solver.is_finished(0));
    let bx = board.get_box(0);
    let simple = pencil_and_place_simple(solver, bx);
    assert_eq!(simple.get_board().cell(20), Cell::Placed(9));
    assert!(simple.is_finished(0));
    assert!(!simple.is_finished(1));
    let complex = pencil_and_place_complex(solver, bx);
    assert_eq!(complex.get_board(), simple.get_board());
    assert_eq!(apply_pass(solver, bx, Pass::Simple), simple);
    assert_eq!(apply_pass(solver, bx, Pass::Complex), complex);
}

#[test]
fn the_complex_pass_places_a_naked_single_that_the_simple_pass_leaves() {
    // Cell 0 sees 2..9: in its row, its column and its block. Digit 1 is
    // also a candidate of other cells of the block, so it is no hidden single.
    let board = board_of(&[(3, 2), (6, 3), (27, 4), (54, 5), (10, 6), (11, 7), (19, 8), (20, 9)]);
    let solver = Solver::init_with_board(board);
    let bx = board.get_box(0);
    let simple = pencil_and_place_simple(solver, bx);
    assert_eq!(simple.get_board().pencilmarks(0).to_vec(), vec![1]);
    let complex = pencil_and_place_complex(solver, bx);
    assert_eq!(complex.get_board().cell(0), Cell::Placed(1));
}
