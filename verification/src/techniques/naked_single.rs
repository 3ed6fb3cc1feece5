//! Naked single: a cell with one candidate left takes it.

use crate::board::{grid_wf, Board, Cell};
use crate::candidates::CandidateSet;
use crate::geometry::{
    block_cell, block_of, lemma_block_cell, lemma_place_in_block, place_in_block, SudokuBox,
};
use crate::techniques::{cell_refines, refines, same_outside_block};
use vstd::prelude::*;

verus! {

/// The cell after the naked-single technique: an open cell with exactly one
/// candidate takes it as its digit.
pub open spec fn naked_single_cell(c: Cell) -> Cell {
    match c {
        Cell::Placed(_) => c,
        Cell::Open(m) => if m.spec_count() == 1 {
            Cell::Placed(m.spec_first())
        } else {
            c
        },
    }
}

/// The grid after the naked-single technique in block `b`: every open cell
/// of the block that has exactly one candidate left takes it as its digit.
pub open spec fn naked_single_grid(g: Seq<Cell>, b: int) -> Seq<Cell> {
    Seq::new(
        81,
        |i: int|
            if block_of(i) == b {
                naked_single_cell(g[i])
            } else {
                g[i]
            },
    )
}

/// The naked-single technique keeps the grid well formed, only places
/// candidates, and leaves the other blocks alone.
pub proof fn lemma_naked_single_grid(g: Seq<Cell>, b: int)
    requires
        grid_wf(g),
    ensures
        grid_wf(naked_single_grid(g, b)),
        refines(g, naked_single_grid(g, b)),
        same_outside_block(g, naked_single_grid(g, b), b),
{
    let r = naked_single_grid(g, b);
    assert forall|i: int| 0 <= i < 81 implies (#[trigger] r[i]).wf() && cell_refines(g[i], r[i]) by {
        assert(g[i].wf());
        match g[i] {
            Cell::Placed(_) => {},
            Cell::Open(m) => {
                m.lemma_first();
                if m.spec_first() != 0 {
                    m.lemma_has_range(m.spec_first());
                }
            },
        }
    }
}

/// Naked single: every open cell of the block that has exactly one
/// candidate left takes it as its digit.
pub fn type_2_pencilmark_collapse(board: Board, current_box: &SudokuBox) -> (next: Board)
    requires
        board.wf(),
        current_box.wf(),
    ensures
        next@ == naked_single_grid(board@, current_box.id()),
        next.wf(),
        refines(board@, next@),
        same_outside_block(board@, next@, current_box.id()),
{
    let ghost g = board@;
    let ghost b = current_box.id();
    proof {
        current_box.lemma_id();
    }
    let mut next = board;
    let inds = current_box.inds();
    let mut p: usize = 0;
    while p < 9
        invariant
            p <= 9,
            0 <= b < 9,
            g == board@,
            grid_wf(g),
            next.wf(),
            forall|q: int| 0 <= q < 9 ==> #[trigger] inds[q] == block_cell(b, q),
            forall|j: int|
                0 <= j < 81 && block_of(j) == b && place_in_block(j) < p ==> #[trigger] next@[j]
                    == naked_single_cell(g[j]),
            forall|j: int|
                0 <= j < 81 && !(block_of(j) == b && place_in_block(j) < p) ==> #[trigger] next@[j]
                    == g[j],
        decreases 9 - p,
    {
        let i = inds[p];
        proof {
            lemma_block_cell(b, p as int);
            assert(inds[p as int] == block_cell(b, p as int));
            assert(g[i as int].wf());
        }
        let ghost before = next@;
        let marks = board.pencilmarks(i);
        if marks.count() == 1 {
            let digit = marks.first();
            proof {
                marks.lemma_first();
                marks.lemma_has_range(digit);
                if g[i as int] is Placed {
                    CandidateSet::spec_empty().lemma_count();
                    CandidateSet::lemma_of(|d: u8| false);
                }
            }
            next.place_mut(i, digit);
        }
        proof {
            if g[i as int] is Placed {
                CandidateSet::spec_empty().lemma_count();
                CandidateSet::lemma_of(|d: u8| false);
            }
            assert(next@[i as int] == naked_single_cell(g[i as int]));
            assert forall|j: int|
                0 <= j < 81 && block_of(j) == b && place_in_block(j) < p + 1 implies #[trigger] next@[j]
                == naked_single_cell(g[j]) by {
                lemma_place_in_block(j);
                if place_in_block(j) != p {
                    assert(j != i);
                    assert(next@[j] == before[j]);
                }
            }
            assert forall|j: int|
                0 <= j < 81 && !(block_of(j) == b && place_in_block(j) < p + 1) implies #[trigger] next@[j]
                == g[j] by {
                assert(j != i);
                assert(next@[j] == before[j]);
            }
        }
        p = p + 1;
    }
    proof {
        assert forall|j: int| 0 <= j < 81 implies #[trigger] next@[j] == naked_single_grid(g, b)[j] by {
            lemma_place_in_block(j);
        }
        assert(next@ =~= naked_single_grid(g, b));
        lemma_naked_single_grid(g, b);
    }
    next
}

} // verus!
