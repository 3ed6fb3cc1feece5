use std::collections::{HashMap, HashSet};
use sudoku::board::{Board, Cell, SquareState};
use sudoku::candidates::CandidateSet;
use sudoku::techniques::box_line::place_simple_pencilmarks;
use sudoku::techniques::cycles::resolve_cycle_pencilmarks;
use sudoku::techniques::hidden_single::type_1_pencilmark_collapse;
use sudoku::techniques::naked_single::type_2_pencilmark_collapse;
use sudoku::techniques::pointing::place_derived_pencilmarks;
use sudoku::techniques::subsets::resolve_subset_pencilmarks;

fn board_of(givens: &[(usize, u8)]) -> Board {
    let mut map = HashMap::new();
    for (idx, digit) in givens {
        map.insert(*idx, *digit);
    }
    Board::new(map)
}

fn board_with_marks(marked: &[(usize, &[u8])]) -> Board {
    let mut squares = Vec::new();
    for idx in 0..81usize {
        let mut set: HashSet<u8> = (1..=9u8).collect();
        for (cell, digits) in marked {
            if *cell == idx {
                set = digits.iter().copied().collect();
            }
        }
        squares.push(SquareState::new(None, set));
    }
    Board::from_square_state_vec(squares).unwrap()
}

fn never_adds(before: &Board, after: &Board) -> bool {
    (0..81usize).all(|idx| match (before.cell(idx), after.cell(idx)) {
        (Cell::Placed(d), Cell::Placed(e)) => d == e,
        (Cell::Placed(_), Cell::Open(_)) => false,
        (Cell::Open(c), Cell::Placed(d)) => c.contains(d),
        (Cell::Open(c), Cell::Open(c2)) => c2.is_subset(&c),
    })
}

#[test]
fn box_line_reduction_strikes_what_the_cell_sees() {
    // 5 in the block, 7 in the row outside it, 9 in the column outside it.
    let board = board_of(&[(10, 5), (6, 7), (72, 9), (40, 1)]);
    let bx = board.get_box(0);
    let next = place_simple_pencilmarks(board, &bx);
    assert_eq!(next.pencilmarks(0).to_vec(), vec![1, 2, 3, 4, 6, 8]);
    assert_eq!(next.pencilmarks(1).to_vec(), vec![1, 2, 3, 4, 6, 8, 9]);
    assert_eq!(next.pencilmarks(9).to_vec(), vec![1, 2, 3, 4, 6, 7, 8]);
    assert_eq!(next.pencilmarks(20).to_vec(), vec![1, 2, 3, 4, 6, 7, 8, 9]);
    assert_eq!(next.cell(10), Cell::Placed(5));
    // Outside the block nothing is struck.
    assert_eq!(next.cell(3), Cell::Open(CandidateSet::one_to_nine()));
    assert_eq!(next.cell(27), Cell::Open(CandidateSet::one_to_nine()));
    assert!(never_adds(&board, &next));
    // A second application changes nothing.
    assert_eq!(place_simple_pencilmarks(next, &bx), next);
}

#[test]
fn hidden_single_places_the_ninth_digit_of_a_block() {
    let board = board_of(&[(0, 1), (1, 2), (2, 3), (9, 4), (10, 5), (11, 6), (18, 7), (19, 8)]);
    let bx = board.get_box(0);
    let next = type_1_pencilmark_collapse(board, &bx);
    assert_eq!(next.cell(20), Cell::Placed(9));
    assert!(next.box_finished(&bx));
    for idx in [0usize, 1, 2, 9, 10, 11, 18, 19] {
        assert_eq!(next.cell(idx), board.cell(idx));
    }
    assert_eq!(next.cell(21), Cell::Open(CandidateSet::one_to_nine()));
    assert!(never_adds(&board, &next));
}

#[test]
fn hidden_single_passes_over_a_digit_with_two_homes() {
    // 4 is a candidate of cells 0 and 1 only, 6 of cell 2 only.
    let mut marked: Vec<(usize, &[u8])> = Vec::new();
    marked.push((0, &[1, 4]));
    marked.push((1, &[2, 4]));
    marked.push((2, &[3, 6]));
    for idx in [9usize, 10, 11, 18, 19, 20] {
        marked.push((idx, &[1, 2, 3, 5, 7, 8, 9]));
    }
    let board = board_with_marks(&marked);
    let bx = board.get_box(0);
    let next = type_1_pencilmark_collapse(board, &bx);
    assert_eq!(next.cell(2), Cell::Placed(6));
    assert_eq!(next.cell(0), board.cell(0));
    assert_eq!(next.cell(1), board.cell(1));
    assert_eq!(next.cell(9), board.cell(9));
}

#[test]
fn hidden_single_skips_digits_placed_in_the_block() {
    // 5 is placed in the block; cell 1 still lists it, alone.
    let mut squares = Vec::new();
    for idx in 0..81usize {
        let square = match idx {
            0 => SquareState::new(Some(5), HashSet::new()),
            1 => SquareState::new(None, [5u8, 6, 7].into_iter().collect()),
            2 | 9 | 10 | 11 | 18 | 19 | 20 => SquareState::new(None, [6u8, 7].into_iter().collect()),
            _ => SquareState::new(None, HashSet::new()),
        };
        squares.push(square);
    }
    let board = Board::from_square_state_vec(squares).unwrap();
    let bx = board.get_box(0);
    assert_eq!(type_1_pencilmark_collapse(board, &bx), board);
}

#[test]
fn naked_single_places_the_last_candidate() {
    // The other eight cells of row 0 are placed.
    let board = board_of(&[(1, 2), (2, 3), (3, 4), (4, 5), (5, 6), (6, 7), (7, 8), (8, 9)]);
    let bx = board.get_box(0);
    let reduced = place_simple_pencilmarks(board, &bx);
    assert_eq!(reduced.pencilmarks(0).to_vec(), vec![1]);
    let next = type_2_pencilmark_collapse(reduced, &bx);
    assert_eq!(next.cell(0), Cell::Placed(1));
    assert_eq!(next.cell(9), reduced.cell(9));
    assert_eq!(reduced.pencilmarks(9).to_vec(), vec![1, 4, 5, 6, 7, 8, 9]);
    assert!(never_adds(&reduced, &next));
}

#[test]
fn naked_single_leaves_cells_with_several_or_no_candidates() {
    let board = board_with_marks(&[(0, &[4, 5]), (1, &[8]), (12, &[3])]);
    let board = board.pencil_out(2, &CandidateSet::one_to_nine());
    let bx = board.get_box(0);
    let next = type_2_pencilmark_collapse(board, &bx);
    assert_eq!(next.cell(1), Cell::Placed(8));
    assert_eq!(next.cell(0), board.cell(0));
    assert_eq!(next.cell(2), Cell::Open(CandidateSet::empty()));
    // Cell 12 is in another block.
    assert_eq!(next.cell(12), board.cell(12));
}

#[test]
fn pointing_strikes_what_a_neighbour_claims_for_the_row() {
    // In block 1, digits 5 and 6 are candidates in row 0 only.
    let mut marked: Vec<(usize, &[u8])> = Vec::new();
    for idx in [3usize, 4, 5] {
        marked.push((idx, &[5, 6]));
    }
    for idx in [12usize, 13, 14, 21, 22, 23] {
        marked.push((idx, &[1, 2, 3, 4]));
    }
    let board = board_with_marks(&marked);
    let bx = board.get_box(0);
    let next = place_derived_pencilmarks(board, &bx);
    for idx in [0usize, 1, 2] {
        assert_eq!(next.pencilmarks(idx).to_vec(), vec![1, 2, 3, 4, 7, 8, 9]);
    }
    for idx in [9usize, 10, 11, 18, 19, 20] {
        assert_eq!(next.cell(idx), Cell::Open(CandidateSet::one_to_nine()));
    }
    assert_eq!(next.cell(3), board.cell(3));
    assert_eq!(next.cell(6), board.cell(6));
    assert!(never_adds(&board, &next));
}

#[test]
fn pointing_strikes_what_a_neighbour_claims_for_the_column() {
    // In block 6, digit 9 is a candidate in column 2 only.
    let mut marked: Vec<(usize, &[u8])> = Vec::new();
    for idx in [54usize, 55, 63, 64, 72, 73] {
        marked.push((idx, &[1, 2, 3, 4, 5, 6, 7, 8]));
    }
    let board = board_with_marks(&marked);
    let bx = board.get_box(0);
    let next = place_derived_pencilmarks(board, &bx);
    for idx in [2usize, 11, 20] {
        assert_eq!(next.pencilmarks(idx).to_vec(), vec![1, 2, 3, 4, 5, 6, 7, 8]);
    }
    for idx in [0usize, 1, 9, 10, 18, 19] {
        assert_eq!(next.cell(idx), Cell::Open(CandidateSet::one_to_nine()));
    }
    // The block in the middle of the stack is treated alike.
    let middle = board.get_box(3);
    let next = place_derived_pencilmarks(board, &middle);
    for idx in [29usize, 38, 47] {
        assert_eq!(next.pencilmarks(idx).to_vec(), vec![1, 2, 3, 4, 5, 6, 7, 8]);
    }
    assert_eq!(next.cell(27), Cell::Open(CandidateSet::one_to_nine()));
}

#[test]
fn pointing_changes_nothing_on_an_empty_board() {
    let board = Board::empty_board();
    for b in 0..9u8 {
        let bx = board.get_box(b);
        assert_eq!(place_derived_pencilmarks(board, &bx), board);
    }
}

#[test]
fn naked_pair_is_struck_from_the_rest_of_the_block() {
    let board = board_with_marks(&[(0, &[1, 2]), (1, &[1, 2])]);
    let bx = board.get_box(0);
    let next = resolve_subset_pencilmarks(board, &bx);
    assert_eq!(next.pencilmarks(0).to_vec(), vec![1, 2]);
    assert_eq!(next.pencilmarks(1).to_vec(), vec![1, 2]);
    for idx in [2usize, 9, 10, 11, 18, 19, 20] {
        assert_eq!(next.pencilmarks(idx).to_vec(), vec![3, 4, 5, 6, 7, 8, 9]);
    }
    assert_eq!(next.cell(3), Cell::Open(CandidateSet::one_to_nine()));
    assert!(never_adds(&board, &next));
}

#[test]
fn naked_triple_with_a_cell_that_holds_a_part_of_it() {
    let board = board_with_marks(&[(0, &[1, 2, 3]), (10, &[1, 2]), (20, &[2, 3])]);
    let bx = board.get_box(0);
    let next = resolve_subset_pencilmarks(board, &bx);
    assert_eq!(next.pencilmarks(0).to_vec(), vec![1, 2, 3]);
    assert_eq!(next.pencilmarks(10).to_vec(), vec![1, 2]);
    assert_eq!(next.pencilmarks(20).to_vec(), vec![2, 3]);
    for idx in [1usize, 2, 9, 11, 18, 19] {
        assert_eq!(next.pencilmarks(idx).to_vec(), vec![4, 5, 6, 7, 8, 9]);
    }
}

#[test]
fn a_pair_in_one_cell_only_is_no_naked_subset() {
    let board = board_with_marks(&[(0, &[1, 2])]);
    let bx = board.get_box(0);
    assert_eq!(resolve_subset_pencilmarks(board, &bx), board);
}

#[test]
fn cycle_of_three_cells_strikes_its_digits_from_the_rest() {
    let board = board_with_marks(&[(0, &[1, 2]), (1, &[2, 3]), (9, &[1, 3])]);
    let bx = board.get_box(0);
    let next = resolve_cycle_pencilmarks(board, &bx);
    assert_eq!(next.pencilmarks(0).to_vec(), vec![1, 2]);
    assert_eq!(next.pencilmarks(1).to_vec(), vec![2, 3]);
    assert_eq!(next.pencilmarks(9).to_vec(), vec![1, 3]);
    for idx in [2usize, 10, 11, 18, 19, 20] {
        assert_eq!(next.pencilmarks(idx).to_vec(), vec![4, 5, 6, 7, 8, 9]);
    }
    assert_eq!(next.cell(3), Cell::Open(CandidateSet::one_to_nine()));
    assert!(never_adds(&board, &next));
}

#[test]
fn cycle_of_four_cells_goes_to_the_lowest_cell_each_time() {
    // From cell 0 the walk may go to cell 1 or to cell 9: it goes to cell 1,
    // then to cell 2, then to cell 9, which shares a candidate with cell 0.
    let board = board_with_marks(&[(0, &[1, 2]), (1, &[2, 3]), (2, &[3, 4]), (9, &[4, 1])]);
    let bx = board.get_box(0);
    let next = resolve_cycle_pencilmarks(board, &bx);
    for idx in [0usize, 1, 2, 9] {
        assert_eq!(next.cell(idx), board.cell(idx));
    }
    for idx in [10usize, 11, 18, 19, 20] {
        assert_eq!(next.pencilmarks(idx).to_vec(), vec![5, 6, 7, 8, 9]);
    }
}

#[test]
fn a_walk_that_does_not_come_back_strikes_nothing() {
    let two = board_with_marks(&[(0, &[1, 2]), (1, &[2, 3])]);
    let bx = two.get_box(0);
    assert_eq!(resolve_cycle_pencilmarks(two, &bx), two);
    let line = board_with_marks(&[(0, &[1, 2]), (1, &[2, 3]), (2, &[3, 4])]);
    assert_eq!(resolve_cycle_pencilmarks(line, &bx), line);
    let same_pair = board_with_marks(&[(0, &[1, 2]), (1, &[1, 2]), (2, &[1, 2])]);
    assert_eq!(resolve_cycle_pencilmarks(same_pair, &bx), same_pair);
    let apart = board_with_marks(&[(0, &[1, 2]), (1, &[3, 4]), (2, &[5, 6])]);
    assert_eq!(resolve_cycle_pencilmarks(apart, &bx), apart);
    let wide = board_with_marks(&[(0, &[1, 2]), (1, &[2, 3, 4]), (2, &[1, 3])]);
    assert_eq!(resolve_cycle_pencilmarks(wide, &bx), wide);
}

#[test]
fn two_cycles_in_one_block() {
    let board = board_with_marks(&[
        (0, &[1, 2]),
        (1, &[2, 3]),
        (2, &[1, 3]),
        (9, &[4, 5]),
        (10, &[5, 6]),
        (11, &[4, 6]),
    ]);
    let bx = board.get_box(0);
    let next = resolve_cycle_pencilmarks(board, &bx);
    for idx in [0usize, 1, 2, 9, 10, 11] {
        assert_eq!(next.cell(idx), board.cell(idx));
    }
    for idx in [18usize, 19, 20] {
        assert_eq!(next.pencilmarks(idx).to_vec(), vec![7, 8, 9]);
    }
}

#[test]
fn the_cells_of_a_cycle_are_used_up() {
    // Cells 0, 1, 2 form a cycle. Cell 9 could walk on to cell 0 or to cell
    // 2, but both are used up: its walk ends where it starts. The cycle
    // strikes 1 from cell 9.
    let board = board_with_marks(&[(0, &[1, 2]), (1, &[2, 3]), (2, &[1, 3]), (9, &[1, 4])]);
    let bx = board.get_box(0);
    let next = resolve_cycle_pencilmarks(board, &bx);
    assert_eq!(next.pencilmarks(9).to_vec(), vec![4]);
    for idx in [0usize, 1, 2] {
        assert_eq!(next.cell(idx), board.cell(idx));
    }
    for idx in [10usize, 11, 18, 19, 20] {
        assert_eq!(next.pencilmarks(idx).to_vec(), vec![4, 5, 6, 7, 8, 9]);
    }
}

#[test]
fn cycle_elimination_done_twice_changes_nothing_more() {
    let board = board_with_marks(&[(0, &[1, 2]), (1, &[2, 3]), (9, &[1, 3])]);
    let bx = board.get_box(0);
    let once = resolve_cycle_pencilmarks(board, &bx);
    assert_eq!(resolve_cycle_pencilmarks(once, &bx), once);
}

#[test]
fn techniques_leave_a_finished_block_alone() {
    let board = board_of(&[(0, 1), (1, 2), (2, 3), (9, 4), (10, 5), (11, 6), (18, 7), (19, 8), (20, 9)]);
    let bx = board.get_box(0);
    assert_eq!(place_simple_pencilmarks(board, &bx), board);
    assert_eq!(type_1_pencilmark_collapse(board, &bx), board);
    assert_eq!(type_2_pencilmark_collapse(board, &bx), board);
    assert_eq!(place_derived_pencilmarks(board, &bx), board);
    assert_eq!(resolve_subset_pencilmarks(board, &bx), board);
    assert_eq!(resolve_cycle_pencilmarks(board, &bx), board);
}
