//! The grid of 81 cells and the operations that change one cell.

use crate::candidates::CandidateSet;
use crate::geometry::{
    block_cell, block_of, in_grid, lemma_block_cell, lemma_place_in_block, place_in_block,
    SudokuBox,
};
use std::collections::HashMap;
use std::collections::HashSet;
use vstd::prelude::*;

verus! {

broadcast use vstd::std_specs::hash::group_hash_axioms;

/// One cell of the grid: a digit that is final, or the digits that nothing
/// has excluded yet.
#[derive(Clone, Copy, Debug, PartialEq, Eq, Structural)]
pub enum Cell {
    Placed(u8),
    Open(CandidateSet),
}

impl Cell {
    /// A placed digit lies between 1 and 9, and a candidate set is well
    /// formed.
    pub open spec fn wf(self) -> bool {
        match self {
            Cell::Placed(d) => 1 <= d <= 9,
            Cell::Open(c) => c.wf(),
        }
    }

    /// Digit `d` is a candidate of the cell. A placed cell has none.
    pub open spec fn has(self, d: u8) -> bool {
        match self {
            Cell::Placed(_) => false,
            Cell::Open(c) => c.has(d),
        }
    }

    /// The candidates of the cell: none for a placed cell.
    pub open spec fn candidates(self) -> CandidateSet {
        match self {
            Cell::Placed(_) => CandidateSet::spec_empty(),
            Cell::Open(c) => c,
        }
    }
}

/// Every one of the 81 cells is well formed.
pub open spec fn grid_wf(g: Seq<Cell>) -> bool {
    &&& g.len() == 81
    &&& forall|i: int| 0 <= i < 81 ==> (#[trigger] g[i]).wf()
}

/// The grid in which every cell is open to all nine digits.
pub open spec fn empty_grid() -> Seq<Cell> {
    Seq::new(81, |i: int| Cell::Open(CandidateSet::spec_full()))
}

/// Cell `j` of `g` holds the placed digit `d`.
pub open spec fn placed_at(g: Seq<Cell>, j: int, d: u8) -> bool {
    g[j] == Cell::Placed(d)
}

/// Digit `d` is a candidate of cell `j` of `g`.
pub open spec fn candidate_at(g: Seq<Cell>, j: int, d: u8) -> bool {
    g[j].has(d)
}

/// Digit `d` is placed in some cell of block `b`.
pub open spec fn placed_in_block(g: Seq<Cell>, b: int, d: u8) -> bool {
    exists|j: int| in_grid(j) && block_of(j) == b && #[trigger] placed_at(g, j, d)
}

/// Every cell of block `b` is placed.
pub open spec fn block_complete(g: Seq<Cell>, b: int) -> bool {
    forall|j: int| in_grid(j) && block_of(j) == b ==> (#[trigger] g[j]) is Placed
}

/// Every cell of the grid is placed.
pub open spec fn grid_solved(g: Seq<Cell>) -> bool {
    forall|j: int| in_grid(j) ==> (#[trigger] g[j]) is Placed
}

/// The grid after digit `d` was placed in cell `idx`.
pub open spec fn grid_place(g: Seq<Cell>, idx: int, d: u8) -> Seq<Cell> {
    g.update(idx, Cell::Placed(d))
}

/// The grid after the digits of `marks` were struck from the candidates of
/// cell `idx`. A placed cell stays as it is.
pub open spec fn grid_pencil_out(g: Seq<Cell>, idx: int, marks: CandidateSet) -> Seq<Cell> {
    match g[idx] {
        Cell::Placed(_) => g,
        Cell::Open(c) => g.update(idx, Cell::Open(c.spec_difference(marks))),
    }
}

/// The grid with the digits of `givens` placed and every other cell open to
/// all nine digits.
pub open spec fn grid_of_givens(givens: Map<usize, u8>) -> Seq<Cell> {
    Seq::new(
        81,
        |i: int|
            if givens.contains_key(i as usize) {
                Cell::Placed(givens[i as usize])
            } else {
                Cell::Open(CandidateSet::spec_full())
            },
    )
}

/// One cell as it travels outside the library: the placed digit, if there
/// is one, and the candidates that remain.
#[derive(Debug, PartialEq, Eq)]
pub struct SquareState {
    contents: Option<u8>,
    pencilmarks: HashSet<u8>,
}

impl View for SquareState {
    type V = (Option<u8>, Set<u8>);

    /// The placed digit and the set of candidates.
    closed spec fn view(&self) -> (Option<u8>, Set<u8>) {
        (self.contents, self.pencilmarks@)
    }
}

impl SquareState {
    /// A square with the given digit and candidates.
    pub fn new(contents: Option<u8>, pencilmarks: HashSet<u8>) -> (s: SquareState)
        ensures
            s@ == (contents, pencilmarks@),
    {
        SquareState { contents, pencilmarks }
    }

    /// The placed digit, if there is one.
    pub fn contents(&self) -> (c: Option<u8>)
        ensures
            c == self@.0,
    {
        self.contents
    }

    /// The candidates that remain.
    pub fn pencilmarks(&self) -> (p: &HashSet<u8>)
        ensures
            p@ == self@.1,
    {
        &self.pencilmarks
    }
}

/// Why a sequence of squares is not a board.
#[derive(Clone, Copy, Debug, PartialEq, Eq, Structural)]
pub enum DecodeError {
    /// The sequence does not hold 81 squares.
    WrongLength { found: usize },
    /// The square at `index` holds a digit outside 1..=9.
    DigitOutOfRange { index: usize, digit: u8 },
}

/// The square at `i` holds a digit outside 1..=9.
pub open spec fn bad_digit_at(squares: Seq<(Option<u8>, Set<u8>)>, i: int) -> bool {
    squares[i].0 matches Some(d) && !(1 <= d <= 9)
}

/// The cell that a square stands for. A square with no digit and no
/// candidate between 1 and 9 was never touched: it is open to all nine digits.
pub open spec fn decode_square(s: (Option<u8>, Set<u8>)) -> Cell {
    match s.0 {
        Some(d) => Cell::Placed(d),
        None => {
            let marks = CandidateSet::of(|d: u8| s.1.contains(d));
            if marks == CandidateSet::spec_empty() {
                Cell::Open(CandidateSet::spec_full())
            } else {
                Cell::Open(marks)
            }
        },
    }
}

/// The square that stands for a cell.
pub open spec fn encode_cell(c: Cell) -> (Option<u8>, Set<u8>) {
    match c {
        Cell::Placed(d) => (Some(d), Set::empty()),
        Cell::Open(marks) => (None, marks@),
    }
}

/// The grid that 81 squares stand for.
pub open spec fn decode_grid(squares: Seq<(Option<u8>, Set<u8>)>) -> Seq<Cell> {
    Seq::new(81, |i: int| decode_square(squares[i]))
}

/// The 81 squares that stand for a grid.
pub open spec fn encode_grid(g: Seq<Cell>) -> Seq<(Option<u8>, Set<u8>)> {
    Seq::new(81, |i: int| encode_cell(g[i]))
}

/// The squares of a list, each by its view.
pub open spec fn squares_view(squares: Seq<SquareState>) -> Seq<(Option<u8>, Set<u8>)> {
    Seq::new(squares.len(), |i: int| squares[i]@)
}

/// What is wrong with a sequence of squares: its length, or else the first
/// digit that is out of range.
pub open spec fn decode_error(squares: Seq<(Option<u8>, Set<u8>)>) -> Option<DecodeError> {
    if squares.len() != 81 {
        Some(DecodeError::WrongLength { found: squares.len() as usize })
    } else if exists|i: int| 0 <= i < 81 && bad_digit_at(squares, i) {
        let i = choose|i: int|
            0 <= i < 81 && bad_digit_at(squares, i) && forall|j: int|
                0 <= j < i ==> !bad_digit_at(squares, j);
        Some(DecodeError::DigitOutOfRange { index: i as usize, digit: squares[i].0->0 })
    } else {
        None
    }
}

/// The 9 by 9 grid.
#[derive(Clone, Copy, Debug, PartialEq, Eq)]
pub struct Board {
    cells: [Cell; 81],
}

impl View for Board {
    type V = Seq<Cell>;

    /// The 81 cells, row by row.
    closed spec fn view(&self) -> Seq<Cell> {
        self.cells@
    }
}

impl Board {
    /// The board's cells form a well-formed grid.
    pub open spec fn wf(&self) -> bool {
        grid_wf(self@)
    }

    /// Two boards with the same cells are the same board.
    pub proof fn lemma_ext(self, other: Board)
        requires
            self@ == other@,
        ensures
            self == other,
    {
        assert(self.cells =~= other.cells);
    }

    /// The board in which every cell is open to all nine digits.
    pub fn empty_board() -> (board: Board)
        ensures
            board@ == empty_grid(),
            board.wf(),
    {
        let board = Board { cells: [Cell::Open(CandidateSet::one_to_nine()); 81] };
        assert(board@ =~= empty_grid());
        board
    }

    /// The cell with number `idx`.
    pub fn cell(&self, idx: usize) -> (c: Cell)
        requires
            idx < 81,
        ensures
            c == self@[idx as int],
    {
        self.cells[idx]
    }

    /// The digit placed in cell `idx`, if there is one.
    pub fn digit(&self, idx: usize) -> (d: Option<u8>)
        requires
            idx < 81,
        ensures
            d == match self@[idx as int] {
                Cell::Placed(p) => Some(p),
                Cell::Open(_) => None,
            },
    {
        match self.cells[idx] {
            Cell::Placed(p) => Some(p),
            Cell::Open(_) => None,
        }
    }

    /// The candidates of cell `idx`: none where a digit is placed.
    pub fn pencilmarks(&self, idx: usize) -> (c: CandidateSet)
        requires
            idx < 81,
        ensures
            c == self@[idx as int].candidates(),
            self.wf() ==> c.wf(),
            forall|d: u8| c.has(d) == candidate_at(self@, idx as int, d),
    {
        match self.cells[idx] {
            Cell::Placed(_) => CandidateSet::empty(),
            Cell::Open(c) => c,
        }
    }

    /// The block with number `bx`.
    pub fn get_box(&self, bx: u8) -> (b: SudokuBox)
        requires
            bx < 9,
        ensures
            b.wf(),
            b.id() == bx,
    {
        SudokuBox::of_index(bx as usize)
    }

    /// The digits placed in the cells `inds`.
    pub fn placed_among<const N: usize>(&self, inds: &[usize; N]) -> (r: CandidateSet)
        requires
            self.wf(),
            forall|k: int| 0 <= k < N ==> #[trigger] inds[k] < 81,
        ensures
            r.wf(),
            forall|d: u8|
                r.has(d) == exists|k: int| 0 <= k < N && #[trigger] placed_at(self@, inds[k] as int, d),
    {
        let mut r = CandidateSet::empty();
        let mut n: usize = 0;
        while n < N
            invariant
                n <= N,
                self.wf(),
                forall|k: int| 0 <= k < N ==> #[trigger] inds[k] < 81,
                r.wf(),
                forall|d: u8|
                    r.has(d) == exists|k: int|
                        0 <= k < n && #[trigger] placed_at(self@, inds[k] as int, d),
            decreases N - n,
        {
            let j = inds[n];
            assert(inds[n as int] < 81);
            let ghost before = r;
            if let Cell::Placed(p) = self.cells[j] {
                assert(self@[j as int].wf());
                let s = CandidateSet::single(p);
                r = r.union(&s);
            }
            proof {
                assert forall|d: u8|
                    r.has(d) == exists|k: int|
                        0 <= k < n + 1 && #[trigger] placed_at(self@, inds[k] as int, d) by {
                    if before.has(d) {
                        let k = choose|k: int|
                            0 <= k < n && #[trigger] placed_at(self@, inds[k] as int, d);
                        assert(placed_at(self@, inds[k] as int, d));
                    }
                    if placed_at(self@, inds[n as int] as int, d) {
                        assert(r.has(d));
                    }
                    if exists|k: int|
                        0 <= k < n + 1 && #[trigger] placed_at(self@, inds[k] as int, d) {
                        let k = choose|k: int|
                            0 <= k < n + 1 && #[trigger] placed_at(self@, inds[k] as int, d);
                        if k < n {
                            assert(before.has(d));
                        }
                    }
                }
            }
            n = n + 1;
        }
        r
    }

    /// The union of the candidates of the cells `inds`.
    pub fn pencilmarks_among<const N: usize>(&self, inds: &[usize; N]) -> (r: CandidateSet)
        requires
            self.wf(),
            forall|k: int| 0 <= k < N ==> #[trigger] inds[k] < 81,
        ensures
            r.wf(),
            forall|d: u8|
                r.has(d) == exists|k: int|
                    0 <= k < N && #[trigger] candidate_at(self@, inds[k] as int, d),
    {
        let mut r = CandidateSet::empty();
        let mut n: usize = 0;
        while n < N
            invariant
                n <= N,
                self.wf(),
                forall|k: int| 0 <= k < N ==> #[trigger] inds[k] < 81,
                r.wf(),
                forall|d: u8|
                    r.has(d) == exists|k: int|
                        0 <= k < n && #[trigger] candidate_at(self@, inds[k] as int, d),
            decreases N - n,
        {
            let j = inds[n];
            assert(inds[n as int] < 81);
            let ghost before = r;
            assert(self@[j as int].wf());
            let marks = self.pencilmarks(j);
            r = r.union(&marks);
            proof {
                assert forall|d: u8|
                    r.has(d) == exists|k: int|
                        0 <= k < n + 1 && #[trigger] candidate_at(self@, inds[k] as int, d) by {
                    if before.has(d) {
                        let k = choose|k: int|
                            0 <= k < n && #[trigger] candidate_at(self@, inds[k] as int, d);
                        assert(candidate_at(self@, inds[k] as int, d));
                    }
                    if candidate_at(self@, inds[n as int] as int, d) {
                        assert(r.has(d));
                    }
                    if exists|k: int|
                        0 <= k < n + 1 && #[trigger] candidate_at(self@, inds[k] as int, d) {
                        let k = choose|k: int|
                            0 <= k < n + 1 && #[trigger] candidate_at(self@, inds[k] as int, d);
                        if k < n {
                            assert(before.has(d));
                        }
                    }
                }
            }
            n = n + 1;
        }
        r
    }

    /// The digits placed in the block.
    pub fn placed(&self, bx: &SudokuBox) -> (r: CandidateSet)
        requires
            self.wf(),
            bx.wf(),
        ensures
            r.wf(),
            forall|d: u8| r.has(d) == placed_in_block(self@, bx.id(), d),
    {
        let inds = bx.inds();
        proof {
            bx.lemma_id();
            assert forall|k: int| 0 <= k < 9 implies #[trigger] inds[k] < 81 by {
                lemma_block_cell(bx.id(), k);
            }
        }
        let r = self.placed_among(&inds);
        proof {
            assert forall|d: u8| r.has(d) == placed_in_block(self@, bx.id(), d) by {
                if r.has(d) {
                    let k = choose|k: int|
                        0 <= k < 9 && #[trigger] placed_at(self@, inds[k] as int, d);
                    lemma_block_cell(bx.id(), k);
                    assert(placed_at(self@, inds[k] as int, d));
                }
                if placed_in_block(self@, bx.id(), d) {
                    let j = choose|j: int|
                        in_grid(j) && block_of(j) == bx.id() && #[trigger] placed_at(self@, j, d);
                    lemma_place_in_block(j);
                    let k = place_in_block(j);
                    assert(inds[k] == j);
                    assert(placed_at(self@, inds[k] as int, d));
                }
            }
        }
        r
    }

    /// The digits that are not placed in the block yet.
    pub fn left_to_place(&self, bx: &SudokuBox) -> (r: CandidateSet)
        requires
            self.wf(),
            bx.wf(),
        ensures
            r.wf(),
            forall|d: u8| r.has(d) == (1 <= d <= 9 && !placed_in_block(self@, bx.id(), d)),
    {
        let all = CandidateSet::one_to_nine();
        let placed = self.placed(bx);
        all.difference(&placed)
    }

    /// The board with the digits of `marks` struck from the candidates of
    /// cell `idx`. Where a digit is placed, nothing changes.
    pub fn pencil_out(&self, idx: usize, marks: &CandidateSet) -> (board: Board)
        requires
            self.wf(),
            idx < 81,
        ensures
            board@ == grid_pencil_out(self@, idx as int, *marks),
            board.wf(),
    {
        let mut board = *self;
        board.pencil_out_mut(idx, marks);
        board
    }

    /// Strikes the digits of `marks` from the candidates of cell `idx`.
    /// Where a digit is placed, nothing changes.
    pub fn pencil_out_mut(&mut self, idx: usize, marks: &CandidateSet)
        requires
            old(self).wf(),
            idx < 81,
        ensures
            final(self)@ == grid_pencil_out(old(self)@, idx as int, *marks),
            final(self).wf(),
    {
        if let Cell::Open(c) = self.cells[idx] {
            assert(self@[idx as int].wf());
            self.cells[idx] = Cell::Open(c.difference(marks));
        }
    }

    /// The board with `digit` placed in cell `idx`. Whether a peer of the
    /// cell holds the same digit is not looked at.
    pub fn place(&self, idx: usize, digit: u8) -> (board: Board)
        requires
            self.wf(),
            idx < 81,
            1 <= digit <= 9,
        ensures
            board@ == grid_place(self@, idx as int, digit),
            board.wf(),
    {
        let mut board = *self;
        board.place_mut(idx, digit);
        board
    }

    /// Places `digit` in cell `idx`. Whether a peer of the cell holds the
    /// same digit is not looked at.
    pub fn place_mut(&mut self, idx: usize, digit: u8)
        requires
            old(self).wf(),
            idx < 81,
            1 <= digit <= 9,
        ensures
            final(self)@ == grid_place(old(self)@, idx as int, digit),
            final(self).wf(),
    {
        self.cells[idx] = Cell::Placed(digit);
    }

    /// The board with the digits of `digits` placed, each in the cell that
    /// it is keyed by, and every other cell open to all nine digits.
    /// Nothing is struck from the candidates of the cells around a given.
    pub fn new(digits: HashMap<usize, u8>) -> (board: Board)
        requires
            forall|k: usize| #[trigger] digits@.contains_key(k) ==> k < 81 && 1 <= digits@[k] <= 9,
        ensures
            board@ == grid_of_givens(digits@),
            board.wf(),
    {
        let mut board = Board::empty_board();
        let mut i: usize = 0;
        while i < 81
            invariant
                i <= 81,
                board.wf(),
                forall|k: usize|
                    #[trigger] digits@.contains_key(k) ==> k < 81 && 1 <= digits@[k] <= 9,
                forall|j: int| 0 <= j < i ==> #[trigger] board@[j] == grid_of_givens(digits@)[j],
                forall|j: int| i <= j < 81 ==> #[trigger] board@[j] == empty_grid()[j],
            decreases 81 - i,
        {
            match digits.get(&i) {
                Some(d) => {
                    board.place_mut(i, *d);
                },
                None => {},
            }
            i = i + 1;
        }
        assert(board@ =~= grid_of_givens(digits@));
        board
    }

    /// Is every cell of the block placed?
    pub fn box_finished(&self, bx: &SudokuBox) -> (done: bool)
        requires
            self.wf(),
            bx.wf(),
        ensures
            done == block_complete(self@, bx.id()),
    {
        let inds = bx.inds();
        let mut p: usize = 0;
        proof {
            bx.lemma_id();
        }
        while p < 9
            invariant
                p <= 9,
                0 <= bx.id() < 9,
                forall|q: int| 0 <= q < 9 ==> #[trigger] inds[q] == block_cell(bx.id(), q),
                forall|q: int| 0 <= q < p ==> (#[trigger] self@[block_cell(bx.id(), q)]) is Placed,
            decreases 9 - p,
        {
            proof {
                lemma_block_cell(bx.id(), p as int);
            }
            let j = inds[p];
            assert(inds[p as int] == block_cell(bx.id(), p as int));
            match self.cells[j] {
                Cell::Open(_) => {
                    return false;
                },
                Cell::Placed(_) => {},
            }
            p = p + 1;
        }
        proof {
            assert forall|j: int| in_grid(j) && block_of(j) == bx.id() implies (
            #[trigger] self@[j]) is Placed by {
                lemma_place_in_block(j);
                assert(self@[block_cell(bx.id(), place_in_block(j))] is Placed);
            }
        }
        true
    }

    /// Is every cell placed?
    pub fn is_solved(&self) -> (done: bool)
        ensures
            done == grid_solved(self@),
    {
        let mut i: usize = 0;
        while i < 81
            invariant
                i <= 81,
                forall|j: int| 0 <= j < i ==> (#[trigger] self@[j]) is Placed,
            decreases 81 - i,
        {
            match self.cells[i] {
                Cell::Open(_) => {
                    return false;
                },
                Cell::Placed(_) => {},
            }
            i = i + 1;
        }
        true
    }

    /// Do the two boards hold the same cells?
    pub fn same_as(&self, other: &Board) -> (same: bool)
        ensures
            same == (self@ == other@),
    {
        let mut i: usize = 0;
        while i < 81
            invariant
                i <= 81,
                forall|j: int| 0 <= j < i ==> #[trigger] self@[j] == other@[j],
            decreases 81 - i,
        {
            if self.cells[i] != other.cells[i] {
                return false;
            }
            i = i + 1;
        }
        assert(self@ =~= other@);
        true
    }

    /// The board that the squares stand for, one square per cell, row by
    /// row. A sequence that does not hold 81 squares is refused, and so is a
    /// digit outside 1..=9. Of a square's candidates only the values between
    /// 1 and 9 count, and a square with a digit has none.
    pub fn from_square_state_vec(squares: Vec<SquareState>) -> (r: Result<Board, DecodeError>)
        ensures
            match r {
                Ok(board) => {
                    &&& decode_error(squares_view(squares@)) is None
                    &&& board@ == decode_grid(squares_view(squares@))
                    &&& board.wf()
                },
                Err(e) => decode_error(squares_view(squares@)) == Some(e),
            },
    {
        let ghost w = squares_view(squares@);
        if squares.len() != 81 {
            return Err(DecodeError::WrongLength { found: squares.len() });
        }
        let mut board = Board::empty_board();
        let mut i: usize = 0;
        while i < 81
            invariant
                i <= 81,
                squares.len() == 81,
                w == squares_view(squares@),
                forall|j: int| 0 <= j < i ==> !bad_digit_at(w, j),
                forall|j: int| 0 <= j < i ==> #[trigger] board@[j] == decode_square(w[j]),
                forall|j: int| 0 <= j < 81 ==> (#[trigger] board@[j]).wf(),
                board@.len() == 81,
            decreases 81 - i,
        {
            let square = &squares[i];
            assert(w[i as int] == square@);
            match square.contents {
                Some(d) => {
                    if d < 1 || d > 9 {
                        proof {
                            assert(bad_digit_at(w, i as int));
                            let k = choose|k: int|
                                0 <= k < 81 && bad_digit_at(w, k) && forall|j: int|
                                    0 <= j < k ==> !bad_digit_at(w, j);
                            assert(k == i);
                        }
                        return Err(DecodeError::DigitOutOfRange { index: i, digit: d });
                    }
                    board.cells[i] = Cell::Placed(d);
                },
                None => {
                    let marks = marks_of_set(&square.pencilmarks);
                    if marks.is_empty() {
                        board.cells[i] = Cell::Open(CandidateSet::one_to_nine());
                    } else {
                        board.cells[i] = Cell::Open(marks);
                    }
                },
            }
            i = i + 1;
        }
        assert(board@ =~= decode_grid(w));
        Ok(board)
    }

    /// The 81 squares that stand for the board, row by row: for a placed
    /// cell its digit and no candidate, for an open cell its candidates.
    pub fn to_square_state_vec(&self) -> (squares: Vec<SquareState>)
        requires
            self.wf(),
        ensures
            squares_view(squares@) == encode_grid(self@),
    {
        let mut squares: Vec<SquareState> = Vec::new();
        let mut i: usize = 0;
        while i < 81
            invariant
                i <= 81,
                self.wf(),
                squares.len() == i,
                forall|j: int| 0 <= j < i ==> (#[trigger] squares@[j])@ == encode_cell(self@[j]),
            decreases 81 - i,
        {
            let square = match self.cells[i] {
                Cell::Placed(d) => SquareState { contents: Some(d), pencilmarks: HashSet::new() },
                Cell::Open(marks) => {
                    assert(self@[i as int].wf());
                    SquareState { contents: None, pencilmarks: set_of_marks(&marks) }
                },
            };
            squares.push(square);
            i = i + 1;
        }
        assert(squares_view(squares@) =~= encode_grid(self@));
        squares
    }
}

/// The digits between 1 and 9 that a hash set holds.
pub fn marks_of_set(set: &HashSet<u8>) -> (marks: CandidateSet)
    ensures
        marks == CandidateSet::of(|d: u8| set@.contains(d)),
        marks.wf(),
        forall|d: u8| marks.has(d) == (1 <= d <= 9 && set@.contains(d)),
{
    let mut marks = CandidateSet::empty();
    let mut d: u8 = 1;
    while d <= 9
        invariant
            1 <= d <= 10,
            marks.wf(),
            forall|e: u8| marks.has(e) == (1 <= e < d && set@.contains(e)),
        decreases 10 - d,
    {
        if set.contains(&d) {
            let one = CandidateSet::single(d);
            marks = marks.union(&one);
        }
        d = d + 1;
    }
    proof {
        CandidateSet::lemma_of(|d: u8| set@.contains(d));
        marks.lemma_equal(CandidateSet::of(|d: u8| set@.contains(d)));
    }
    marks
}

/// The digits of a candidate set, as a hash set.
pub fn set_of_marks(marks: &CandidateSet) -> (set: HashSet<u8>)
    ensures
        set@ == marks@,
{
    let mut set: HashSet<u8> = HashSet::new();
    let mut d: u8 = 1;
    while d <= 9
        invariant
            1 <= d <= 10,
            forall|e: u8| #[trigger] set@.contains(e) == (marks.has(e) && 1 <= e < d),
        decreases 10 - d,
    {
        if marks.contains(d) {
            set.insert(d);
        }
        d = d + 1;
    }
    proof {
        assert forall|e: u8| set@.contains(e) == marks@.contains(e) by {
            if marks.has(e) {
                marks.lemma_has_range(e);
            }
        }
        assert(set@ =~= marks@);
    }
    set
}

} // verus!
