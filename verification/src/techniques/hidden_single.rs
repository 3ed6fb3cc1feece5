//! Hidden single: a digit with one home left in a block goes there.

use crate::board::{candidate_at, grid_wf, placed_in_block, Board, Cell};
use crate::geometry::{
    block_cell, block_of, in_grid, lemma_block_cell, lemma_place_in_block, place_in_block,
    SudokuBox,
};
use crate::techniques::{cell_refines, refines, same_outside_block};
use vstd::prelude::*;

verus! {

/// Digit `d` is a candidate of a cell of block `b` other than cell `i`.
pub open spec fn candidate_elsewhere(g: Seq<Cell>, b: int, i: int, d: u8) -> bool {
    exists|j: int| in_grid(j) && block_of(j) == b && j != i && #[trigger] candidate_at(g, j, d)
}

/// Cell `i` is the one cell of block `b` that can still take digit `d`:
/// the digit is not placed in the block, and is a candidate of `i` and of
/// no other cell of the block.
pub open spec fn hidden_single_at(g: Seq<Cell>, b: int, i: int, d: u8) -> bool {
    &&& 1 <= d <= 9
    &&& !placed_in_block(g, b, d)
    &&& candidate_at(g, i, d)
    &&& !candidate_elsewhere(g, b, i, d)
}

/// The largest digit up to `n` that is a hidden single at cell `i`, or 0 if
/// there is none.
pub open spec fn hidden_digit_upto(g: Seq<Cell>, b: int, i: int, n: nat) -> u8
    decreases n,
{
    if n == 0 {
        0
    } else if hidden_single_at(g, b, i, n as u8) {
        n as u8
    } else {
        hidden_digit_upto(g, b, i, (n - 1) as nat)
    }
}

/// The digit that the hidden-single technique places in cell `i`, or 0 if
/// it places none. Where a cell is the last home of two digits, which no
/// solvable puzzle allows, the larger digit is taken.
pub open spec fn hidden_digit(g: Seq<Cell>, b: int, i: int) -> u8 {
    hidden_digit_upto(g, b, i, 9)
}

/// Cell `i` after the hidden singles among the digits up to `n` were placed
/// in block `b`.
pub open spec fn hidden_single_cell(g: Seq<Cell>, b: int, i: int, n: nat) -> Cell {
    if block_of(i) == b && hidden_digit_upto(g, b, i, n) != 0 {
        Cell::Placed(hidden_digit_upto(g, b, i, n))
    } else {
        g[i]
    }
}

/// The grid after the hidden-single technique in block `b`: every digit
/// that is not placed in the block, and is a candidate of exactly one of its
/// cells, is placed in that cell.
pub open spec fn hidden_single_grid(g: Seq<Cell>, b: int) -> Seq<Cell> {
    Seq::new(81, |i: int| hidden_single_cell(g, b, i, 9))
}

/// A digit that the hidden-single technique places is a hidden single.
pub proof fn lemma_hidden_digit(g: Seq<Cell>, b: int, i: int, n: nat)
    requires
        n <= 9,
    ensures
        hidden_digit_upto(g, b, i, n) != 0 ==> 1 <= hidden_digit_upto(g, b, i, n) <= n
            && hidden_single_at(g, b, i, hidden_digit_upto(g, b, i, n)),
        hidden_digit_upto(g, b, i, n) == 0 ==> forall|d: u8|
            1 <= d <= n ==> !hidden_single_at(g, b, i, d),
    decreases n,
{
    if n > 0 {
        lemma_hidden_digit(g, b, i, (n - 1) as nat);
    }
}

/// The hidden-single technique keeps the grid well formed, only places
/// candidates, and leaves the other blocks alone.
pub proof fn lemma_hidden_single_grid(g: Seq<Cell>, b: int)
    requires
        grid_wf(g),
    ensures
        grid_wf(hidden_single_grid(g, b)),
        refines(g, hidden_single_grid(g, b)),
        same_outside_block(g, hidden_single_grid(g, b), b),
{
    let r = hidden_single_grid(g, b);
    assert forall|i: int| 0 <= i < 81 implies (#[trigger] r[i]).wf() && cell_refines(g[i], r[i]) by {
        assert(g[i].wf());
        lemma_hidden_digit(g, b, i, 9);
        match g[i] {
            Cell::Placed(_) => {},
            Cell::Open(m) => {},
        }
    }
}

/// Hidden single: every digit that is not placed in the block, and is a
/// candidate of exactly one of its cells, is placed in that cell. A digit
/// that is a candidate of no cell or of several is passed over.
pub fn type_1_pencilmark_collapse(board: Board, current_box: &SudokuBox) -> (next: Board)
    requires
        board.wf(),
        current_box.wf(),
    ensures
        next@ == hidden_single_grid(board@, current_box.id()),
        next.wf(),
        refines(board@, next@),
        same_outside_block(board@, next@, current_box.id()),
{
    let ghost g = board@;
    let ghost b = current_box.id();
    proof {
        current_box.lemma_id();
    }
    let mut next = board;
    let left = board.left_to_place(current_box);
    let inds = current_box.inds();
    let mut d: u8 = 1;
    while d <= 9
        invariant
            1 <= d <= 10,
            0 <= b < 9,
            b == current_box.id(),
            g == board@,
            grid_wf(g),
            next.wf(),
            forall|e: u8| left.has(e) == (1 <= e <= 9 && !placed_in_block(g, b, e)),
            forall|q: int| 0 <= q < 9 ==> #[trigger] inds[q] == block_cell(b, q),
            forall|j: int|
                0 <= j < 81 ==> #[trigger] next@[j] == hidden_single_cell(g, b, j, (d - 1) as nat),
        decreases 10 - d,
    {
        let mut count: usize = 0;
        let mut last_index: usize = 0;
        let ghost mut last_place: int = 0;
        let ghost mut first_place: int = 0;
        if left.contains(d) {
            let mut p: usize = 0;
            while p < 9
                invariant
                    p <= 9,
                    0 <= b < 9,
                    g == board@,
                    count <= p,
                    forall|q: int| 0 <= q < 9 ==> #[trigger] inds[q] == block_cell(b, q),
                    count == 0 ==> forall|q: int|
                        0 <= q < p ==> !candidate_at(g, #[trigger] block_cell(b, q), d),
                    count >= 1 ==> 0 <= last_place < p && last_index == block_cell(b, last_place)
                        && candidate_at(g, block_cell(b, last_place), d),
                    count == 1 ==> forall|q: int|
                        0 <= q < p && q != last_place ==> !candidate_at(
                            g,
                            #[trigger] block_cell(b, q),
                            d,
                        ),
                    count >= 2 ==> 0 <= first_place < last_place && candidate_at(
                        g,
                        block_cell(b, first_place),
                        d,
                    ),
                decreases 9 - p,
            {
                let j = inds[p];
                proof {
                    lemma_block_cell(b, p as int);
                    assert(inds[p as int] == block_cell(b, p as int));
                }
                if board.pencilmarks(j).contains(d) {
                    proof {
                        if count >= 1 {
                            first_place = last_place;
                        }
                        last_place = p as int;
                    }
                    count = count + 1;
                    last_index = j;
                }
                p = p + 1;
            }
        }
        let ghost before = next@;
        if count == 1 {
            proof {
                lemma_block_cell(b, last_place);
            }
            next.place_mut(last_index, d);
        }
        proof {
            assert forall|j: int| 0 <= j < 81 implies #[trigger] next@[j] == hidden_single_cell(
                g,
                b,
                j,
                d as nat,
            ) by {
                lemma_place_in_block(j);
                if block_of(j) == b {
                    let q = place_in_block(j);
                    assert(block_cell(b, q) == j);
                    if !left.has(d) {
                        assert(!hidden_single_at(g, b, j, d));
                    } else if count == 0 {
                        assert(!candidate_at(g, block_cell(b, q), d));
                        assert(!hidden_single_at(g, b, j, d));
                    } else if count == 1 {
                        if q == last_place {
                            assert(j == last_index);
                            if candidate_elsewhere(g, b, j, d) {
                                let o = choose|o: int|
                                    in_grid(o) && block_of(o) == b && o != j
                                        && #[trigger] candidate_at(g, o, d);
                                lemma_place_in_block(o);
                                assert(!candidate_at(g, block_cell(b, place_in_block(o)), d));
                            }
                            assert(hidden_single_at(g, b, j, d));
                        } else {
                            assert(!candidate_at(g, block_cell(b, q), d));
                            assert(!hidden_single_at(g, b, j, d));
                            assert(j != last_index) by {
                                lemma_block_cell(b, last_place);
                            }
                        }
                    } else {
                        lemma_block_cell(b, last_place);
                        lemma_block_cell(b, first_place);
                        let o = if q == last_place {
                            block_cell(b, first_place)
                        } else {
                            block_cell(b, last_place)
                        };
                        assert(candidate_at(g, o, d));
                        assert(candidate_elsewhere(g, b, j, d));
                        assert(!hidden_single_at(g, b, j, d));
                    }
                } else {
                    if count == 1 {
                        lemma_block_cell(b, last_place);
                    }
                }
            }
        }
        d = d + 1;
    }
    proof {
        assert(next@ =~= hidden_single_grid(g, b));
        lemma_hidden_single_grid(g, b);
    }
    next
}

} // verus!
