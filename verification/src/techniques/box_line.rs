//! Box-line reduction: a digit that is placed cannot recur among the cells
//! that see it.

use crate::board::{placed_at, placed_in_block, Board, Cell};
use crate::candidates::CandidateSet;
use crate::geometry::{
    block_cell, block_has_col, block_has_row, block_of, col_of, in_grid, lemma_block_cell,
    lemma_cell_at, lemma_outside_col, lemma_outside_col_index, lemma_outside_row,
    lemma_outside_row_index, lemma_place_in_block, outside_col, outside_row, row_of, shares_unit,
    SudokuBox,
};
use crate::techniques::{refines, same_outside_block, strike_block, strike_in_block};
use vstd::prelude::*;

verus! {

/// Digit `d` is placed in a cell that shares a row, a column or a block
/// with cell `i`.
pub open spec fn seen_by(g: Seq<Cell>, i: int, d: u8) -> bool {
    exists|j: int| in_grid(j) && shares_unit(i, j) && #[trigger] placed_at(g, j, d)
}

/// Digit `d` is placed in row `r` outside block `b`.
pub open spec fn placed_in_row_outside(g: Seq<Cell>, b: int, r: int, d: u8) -> bool {
    exists|j: int| in_grid(j) && row_of(j) == r && block_of(j) != b && #[trigger] placed_at(g, j, d)
}

/// Digit `d` is placed in column `c` outside block `b`.
pub open spec fn placed_in_col_outside(g: Seq<Cell>, b: int, c: int, d: u8) -> bool {
    exists|j: int| in_grid(j) && col_of(j) == c && block_of(j) != b && #[trigger] placed_at(g, j, d)
}

/// What box-line reduction strikes: from cell `i` every digit that a cell
/// sharing a unit with `i` holds.
pub open spec fn box_line_struck(g: Seq<Cell>) -> spec_fn(int, u8) -> bool {
    |i: int, d: u8| seen_by(g, i, d)
}

/// The grid after box-line reduction in block `b`: each open cell of the
/// block has lost the digits placed in its row, in its column and in the
/// block.
pub open spec fn box_line_grid(g: Seq<Cell>, b: int) -> Seq<Cell> {
    strike_in_block(g, b, box_line_struck(g))
}

/// A digit is seen by a cell of block `b` where it is placed in the block,
/// or outside the block in the cell's row or column.
pub proof fn lemma_seen_by(g: Seq<Cell>, b: int, i: int, d: u8)
    requires
        in_grid(i),
        block_of(i) == b,
    ensures
        seen_by(g, i, d) == (placed_in_block(g, b, d) || placed_in_row_outside(g, b, row_of(i), d)
            || placed_in_col_outside(g, b, col_of(i), d)),
{
    if seen_by(g, i, d) {
        let j = choose|j: int| in_grid(j) && shares_unit(i, j) && #[trigger] placed_at(g, j, d);
        if block_of(j) == b {
            assert(placed_in_block(g, b, d));
        } else if row_of(j) == row_of(i) {
            assert(placed_in_row_outside(g, b, row_of(i), d));
        } else {
            assert(placed_in_col_outside(g, b, col_of(i), d));
        }
    }
    if placed_in_block(g, b, d) {
        let j = choose|j: int| in_grid(j) && block_of(j) == b && #[trigger] placed_at(g, j, d);
        assert(shares_unit(i, j));
    }
    if placed_in_row_outside(g, b, row_of(i), d) {
        let j = choose|j: int|
            in_grid(j) && row_of(j) == row_of(i) && block_of(j) != b && #[trigger] placed_at(
                g,
                j,
                d,
            );
        assert(shares_unit(i, j));
    }
    if placed_in_col_outside(g, b, col_of(i), d) {
        let j = choose|j: int|
            in_grid(j) && col_of(j) == col_of(i) && block_of(j) != b && #[trigger] placed_at(
                g,
                j,
                d,
            );
        assert(shares_unit(i, j));
    }
}

/// The digits placed in row `row` outside the block.
pub fn placed_outside_row(board: &Board, bx: &SudokuBox, row: usize) -> (r: CandidateSet)
    requires
        board.wf(),
        bx.wf(),
        block_has_row(bx.id(), row as int),
    ensures
        r.wf(),
        forall|d: u8| r.has(d) == placed_in_row_outside(board@, bx.id(), row as int, d),
{
    let out = bx.row_inds_outside_box(row);
    let ghost b = bx.id();
    proof {
        bx.lemma_id();
        assert forall|k: int| 0 <= k < 6 implies #[trigger] out[k] < 81 by {
            lemma_outside_col(b, k);
        }
    }
    let r = board.placed_among(&out);
    proof {
        assert forall|d: u8| r.has(d) == placed_in_row_outside(board@, b, row as int, d) by {
            if r.has(d) {
                let k = choose|k: int| 0 <= k < 6 && #[trigger] placed_at(board@, out[k] as int, d);
                lemma_outside_col(b, k);
                lemma_cell_at(row as int, outside_col(b, k));
                assert(placed_at(board@, 9 * row + outside_col(b, k), d));
            }
            if placed_in_row_outside(board@, b, row as int, d) {
                let j = choose|j: int|
                    in_grid(j) && row_of(j) == row && block_of(j) != b && #[trigger] placed_at(
                        board@,
                        j,
                        d,
                    );
                lemma_place_in_block(j);
                let k = lemma_outside_col_index(b, col_of(j));
                assert(out[k] == j);
                assert(placed_at(board@, out[k] as int, d));
            }
        }
    }
    r
}

/// The digits placed in column `col` outside the block.
pub fn placed_outside_col(board: &Board, bx: &SudokuBox, col: usize) -> (r: CandidateSet)
    requires
        board.wf(),
        bx.wf(),
        block_has_col(bx.id(), col as int),
    ensures
        r.wf(),
        forall|d: u8| r.has(d) == placed_in_col_outside(board@, bx.id(), col as int, d),
{
    let out = bx.col_inds_outside_box(col);
    let ghost b = bx.id();
    proof {
        bx.lemma_id();
        assert forall|k: int| 0 <= k < 6 implies #[trigger] out[k] < 81 by {
            lemma_outside_row(b, k);
        }
    }
    let r = board.placed_among(&out);
    proof {
        assert forall|d: u8| r.has(d) == placed_in_col_outside(board@, b, col as int, d) by {
            if r.has(d) {
                let k = choose|k: int| 0 <= k < 6 && #[trigger] placed_at(board@, out[k] as int, d);
                lemma_outside_row(b, k);
                lemma_cell_at(outside_row(b, k), col as int);
                assert(placed_at(board@, 9 * outside_row(b, k) + col, d));
            }
            if placed_in_col_outside(board@, b, col as int, d) {
                let j = choose|j: int|
                    in_grid(j) && col_of(j) == col && block_of(j) != b && #[trigger] placed_at(
                        board@,
                        j,
                        d,
                    );
                lemma_place_in_block(j);
                let k = lemma_outside_row_index(b, row_of(j));
                assert(out[k] == j);
                assert(placed_at(board@, out[k] as int, d));
            }
        }
    }
    r
}

/// Box-line reduction: strikes from each open cell of the block the digits
/// that are placed in the cell's row or column outside the block, and the
/// digits that are placed in the block.
pub fn place_simple_pencilmarks(board: Board, current_box: &SudokuBox) -> (next: Board)
    requires
        board.wf(),
        current_box.wf(),
    ensures
        next@ == box_line_grid(board@, current_box.id()),
        next.wf(),
        refines(board@, next@),
        same_outside_block(board@, next@, current_box.id()),
{
    let ghost g = board@;
    let ghost b = current_box.id();
    proof {
        current_box.lemma_id();
    }
    let placed = board.placed(current_box);
    let rows = current_box.rows();
    let cols = current_box.cols();
    let mut row_seen: [CandidateSet; 3] = [CandidateSet::empty(); 3];
    let mut col_seen: [CandidateSet; 3] = [CandidateSet::empty(); 3];
    let mut a: usize = 0;
    while a < 3
        invariant
            a <= 3,
            board.wf(),
            current_box.wf(),
            g == board@,
            b == current_box.id(),
            0 <= b < 9,
            forall|k: int| 0 <= k < 3 ==> #[trigger] rows[k] == 3 * (b / 3) + k,
            forall|k: int| 0 <= k < 3 ==> #[trigger] cols[k] == 3 * (b % 3) + k,
            forall|k: int| 0 <= k < a ==> (#[trigger] row_seen[k]).wf(),
            forall|k: int| 0 <= k < a ==> (#[trigger] col_seen[k]).wf(),
            forall|k: int, d: u8|
                0 <= k < a ==> (#[trigger] row_seen[k].has(d)) == placed_in_row_outside(
                    g,
                    b,
                    3 * (b / 3) + k,
                    d,
                ),
            forall|k: int, d: u8|
                0 <= k < a ==> (#[trigger] col_seen[k].has(d)) == placed_in_col_outside(
                    g,
                    b,
                    3 * (b % 3) + k,
                    d,
                ),
        decreases 3 - a,
    {
        assert(rows[a as int] == 3 * (b / 3) + a);
        assert(cols[a as int] == 3 * (b % 3) + a);
        let in_row = placed_outside_row(&board, current_box, rows[a]);
        let in_col = placed_outside_col(&board, current_box, cols[a]);
        row_seen[a] = in_row;
        col_seen[a] = in_col;
        a = a + 1;
    }
    let mut strikes: [CandidateSet; 9] = [CandidateSet::empty(); 9];
    let mut p: usize = 0;
    while p < 9
        invariant
            p <= 9,
            0 <= b < 9,
            placed.wf(),
            forall|d: u8| placed.has(d) == placed_in_block(g, b, d),
            forall|k: int| 0 <= k < 3 ==> (#[trigger] row_seen[k]).wf(),
            forall|k: int| 0 <= k < 3 ==> (#[trigger] col_seen[k]).wf(),
            forall|k: int, d: u8|
                0 <= k < 3 ==> (#[trigger] row_seen[k].has(d)) == placed_in_row_outside(
                    g,
                    b,
                    3 * (b / 3) + k,
                    d,
                ),
            forall|k: int, d: u8|
                0 <= k < 3 ==> (#[trigger] col_seen[k].has(d)) == placed_in_col_outside(
                    g,
                    b,
                    3 * (b % 3) + k,
                    d,
                ),
            forall|q: int, d: u8|
                0 <= q < p ==> (#[trigger] strikes[q].has(d)) == seen_by(g, block_cell(b, q), d),
        decreases 9 - p,
    {
        assert(row_seen[(p / 3) as int].wf());
        assert(col_seen[(p % 3) as int].wf());
        let lines = row_seen[p / 3].union(&col_seen[p % 3]);
        let all = placed.union(&lines);
        strikes[p] = all;
        proof {
            lemma_block_cell(b, p as int);
            assert forall|d: u8| all.has(d) == seen_by(g, block_cell(b, p as int), d) by {
                lemma_seen_by(g, b, block_cell(b, p as int), d);
                assert(row_seen[(p / 3) as int].has(d) == placed_in_row_outside(
                    g,
                    b,
                    3 * (b / 3) + (p / 3) as int,
                    d,
                ));
                assert(col_seen[(p % 3) as int].has(d) == placed_in_col_outside(
                    g,
                    b,
                    3 * (b % 3) + (p % 3) as int,
                    d,
                ));
            }
        }
        p = p + 1;
    }
    strike_block(&board, current_box, &strikes, Ghost(box_line_struck(g)))
}

} // verus!
