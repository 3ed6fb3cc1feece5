use std::collections::{HashMap, HashSet};
use sudoku::board::{Board, Cell, DecodeError, SquareState};
use sudoku::candidates::CandidateSet;

fn marks(digits: &[u8]) -> HashSet<u8> {
    digits.iter().copied().collect()
}

fn open_squares() -> Vec<SquareState> {
    let mut squares = Vec::new();
    for _ in 0..81 {
        squares.push(SquareState::new(None, HashSet::new()));
    }
    squares
}

#[test]
fn test_things() {
    let empty = Board::empty_board();
    assert!(!empty.is_solved());
    for idx in 0..81 {
        assert_eq!(empty.cell(idx), Cell::Open(CandidateSet::one_to_nine()));
        assert_eq!(empty.digit(idx), None);
    }
    let placed = empty.place(40, 5);
    assert_eq!(placed.cell(40), Cell::Placed(5));
    assert_eq!(placed.digit(40), Some(5));
    assert!(placed.pencilmarks(40).is_empty());
    assert_eq!(placed.cell(39), Cell::Open(CandidateSet::one_to_nine()));
    assert_eq!(placed.cell(31), Cell::Open(CandidateSet::one_to_nine()));
    assert_eq!(empty.cell(40), Cell::Open(CandidateSet::one_to_nine()));
}

#[test]
fn new_places_the_givens_and_nothing_else() {
    let mut givens = HashMap::new();
    givens.insert(0usize, 4u8);
    givens.insert(80usize, 7u8);
    let board = Board::new(givens);
    assert_eq!(board.cell(0), Cell::Placed(4));
    assert_eq!(board.cell(80), Cell::Placed(7));
    for idx in 1..80 {
        assert_eq!(board.cell(idx), Cell::Open(CandidateSet::one_to_nine()));
    }
    assert_eq!(Board::new(HashMap::new()), Board::empty_board());
}

#[test]
fn pencil_out_strikes_candidates_of_open_cells_only() {
    let board = Board::empty_board().place(3, 9);
    let struck = board.pencil_out(4, &CandidateSet::new(&vec![1, 2, 9]));
    assert_eq!(struck.pencilmarks(4).to_vec(), vec![3, 4, 5, 6, 7, 8]);
    assert_eq!(struck.cell(3), Cell::Placed(9));
    let same = board.pencil_out(3, &CandidateSet::one_to_nine());
    assert_eq!(same, board);
    let mut in_place = board;
    in_place.pencil_out_mut(4, &CandidateSet::new(&vec![1, 2, 9]));
    assert_eq!(in_place, struck);
    in_place.place_mut(4, 3);
    assert_eq!(in_place.cell(4), Cell::Placed(3));
}

#[test]
fn placed_and_left_to_place_in_a_block() {
    let board = Board::empty_board().place(0, 1).place(10, 5).place(20, 9).place(3, 7);
    let first = board.get_box(0);
    assert_eq!(board.placed(&first).to_vec(), vec![1, 5, 9]);
    assert_eq!(board.left_to_place(&first).to_vec(), vec![2, 3, 4, 6, 7, 8]);
    let second = board.get_box(1);
    assert_eq!(board.placed(&second).to_vec(), vec![7]);
    assert!(!board.box_finished(&first));
}

#[test]
fn decoding_80_squares_is_an_error() {
    let mut squares = open_squares();
    squares.pop();
    assert_eq!(squares.len(), 80);
    assert_eq!(
        Board::from_square_state_vec(squares),
        Err(DecodeError::WrongLength { found: 80 })
    );
}

#[test]
fn decoding_82_squares_or_none_is_an_error() {
    let mut squares = open_squares();
    squares.push(SquareState::new(None, HashSet::new()));
    assert_eq!(
        Board::from_square_state_vec(squares),
        Err(DecodeError::WrongLength { found: 82 })
    );
    assert_eq!(
        Board::from_square_state_vec(Vec::new()),
        Err(DecodeError::WrongLength { found: 0 })
    );
}

#[test]
fn decoding_a_digit_out_of_range_is_an_error() {
    let mut squares = open_squares();
    squares[17] = SquareState::new(Some(10), HashSet::new());
    squares[30] = SquareState::new(Some(0), HashSet::new());
    assert_eq!(
        Board::from_square_state_vec(squares),
        Err(DecodeError::DigitOutOfRange { index: 17, digit: 10 })
    );
    let mut squares = open_squares();
    squares[80] = SquareState::new(Some(0), marks(&[1, 2]));
    assert_eq!(
        Board::from_square_state_vec(squares),
        Err(DecodeError::DigitOutOfRange { index: 80, digit: 0 })
    );
}

#[test]
fn untouched_squares_decode_as_fully_open() {
    let board = Board::from_square_state_vec(open_squares()).unwrap();
    assert_eq!(board, Board::empty_board());
}

#[test]
fn decoding_keeps_digits_and_candidates() {
    let mut squares = open_squares();
    squares[0] = SquareState::new(Some(6), marks(&[1, 2, 3]));
    squares[1] = SquareState::new(None, marks(&[2, 8]));
    squares[2] = SquareState::new(None, marks(&[0, 5, 12]));
    squares[3] = SquareState::new(None, marks(&[0, 77]));
    let board = Board::from_square_state_vec(squares).unwrap();
    assert_eq!(board.cell(0), Cell::Placed(6));
    assert_eq!(board.pencilmarks(1).to_vec(), vec![2, 8]);
    assert_eq!(board.pencilmarks(2).to_vec(), vec![5]);
    assert_eq!(board.cell(3), Cell::Open(CandidateSet::one_to_nine()));
    assert_eq!(board.cell(4), Cell::Open(CandidateSet::one_to_nine()));
}

#[test]
fn encoding_lists_digit_or_candidates() {
    let board = Board::empty_board().place(5, 2).pencil_out(6, &CandidateSet::new(&vec![1, 2, 3, 4, 5, 6]));
    let squares = board.to_square_state_vec();
    assert_eq!(squares.len(), 81);
    assert_eq!(squares[5].contents(), Some(2));
    assert!(squares[5].pencilmarks().is_empty());
    assert_eq!(squares[6].contents(), None);
    assert_eq!(*squares[6].pencilmarks(), marks(&[7, 8, 9]));
    assert_eq!(*squares[7].pencilmarks(), marks(&[1, 2, 3, 4, 5, 6, 7, 8, 9]));
}

#[test]
fn wire_round_trip_gives_the_board_back() {
    let board = Board::empty_board()
        .place(0, 9)
        .place(44, 1)
        .pencil_out(6, &CandidateSet::new(&vec![1, 2, 3]))
        .pencil_out(70, &CandidateSet::new(&vec![2, 3, 4, 5, 6, 7, 8, 9]));
    let back = Board::from_square_state_vec(board.to_square_state_vec()).unwrap();
    assert_eq!(back, board);
}

#[test]
fn a_cell_with_no_candidate_left_comes_back_fully_open() {
    let board = Board::empty_board().pencil_out(6, &CandidateSet::one_to_nine());
    assert!(board.pencilmarks(6).is_empty());
    let back = Board::from_square_state_vec(board.to_square_state_vec()).unwrap();
    assert_eq!(back.cell(6), Cell::Open(CandidateSet::one_to_nine()));
    assert_ne!(back, board);
}

#[test]
fn same_as_compares_cells() {
    let a = Board::empty_board().place(1, 1);
    let b = Board::empty_board().place(1, 1);
    let c = Board::empty_board().place(1, 2);
    assert!(a.same_as(&b));
    assert!(!a.same_as(&c));
    assert!(!a.same_as(&Board::empty_board()));
}
