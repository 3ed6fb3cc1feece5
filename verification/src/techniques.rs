//! The deduction techniques. Each takes a board and one of its blocks and
//! gives the next board; none of them guesses. A technique reads the board
//! it was given and writes to a copy, so what it does to one cell never
//! depends on what it has just done to another.
//!
//! This module holds what the techniques share: what a technique may do to a
//! cell, and the striking of candidates from the cells of a block.

pub mod box_line;
pub mod cycles;
pub mod hidden_single;
pub mod naked_single;
pub mod pointing;
pub mod subsets;

use crate::board::{candidate_at, grid_wf, Board, Cell};
use crate::candidates::CandidateSet;
use crate::geometry::{
    block_cell, block_of, lemma_block_cell, lemma_place_in_block, place_in_block, SudokuBox,
};
use vstd::prelude::*;

verus! {

/// What a technique may do to one cell: a placed cell stays as it is, an
/// open cell loses candidates or takes one of its candidates as its digit.
pub open spec fn cell_refines(before: Cell, after: Cell) -> bool {
    match before {
        Cell::Placed(_) => after == before,
        Cell::Open(c) => match after {
            Cell::Placed(d) => c.has(d),
            Cell::Open(c2) => c2.spec_is_subset(c),
        },
    }
}

/// What a technique may do to a grid: see `cell_refines`.
pub open spec fn refines(before: Seq<Cell>, after: Seq<Cell>) -> bool {
    forall|i: int|
        #![trigger before[i]]
        #![trigger after[i]]
        0 <= i < 81 ==> cell_refines(before[i], after[i])
}

/// Outside block `b` the two grids are the same.
pub open spec fn same_outside_block(before: Seq<Cell>, after: Seq<Cell>, b: int) -> bool {
    forall|i: int|
        #![trigger before[i]]
        #![trigger after[i]]
        0 <= i < 81 && block_of(i) != b ==> after[i] == before[i]
}

/// The cell without the candidates that satisfy `struck`. A placed cell
/// stays as it is.
pub open spec fn strike_cell(c: Cell, struck: spec_fn(u8) -> bool) -> Cell {
    match c {
        Cell::Placed(_) => c,
        Cell::Open(m) => Cell::Open(CandidateSet::of(|d: u8| m.has(d) && !struck(d))),
    }
}

/// Cell `i` of `g` without the candidates `d` for which `struck(i, d)` holds.
pub open spec fn strike_at(g: Seq<Cell>, i: int, struck: spec_fn(int, u8) -> bool) -> Cell {
    strike_cell(g[i], |d: u8| struck(i, d))
}

/// The grid in which each cell `i` of block `b` has lost the candidates `d`
/// for which `struck(i, d)` holds.
pub open spec fn strike_in_block(g: Seq<Cell>, b: int, struck: spec_fn(int, u8) -> bool) -> Seq<
    Cell,
> {
    Seq::new(
        81,
        |i: int|
            if block_of(i) == b {
                strike_at(g, i, struck)
            } else {
                g[i]
            },
    )
}

/// Striking candidates in a block keeps the grid well formed, only removes
/// candidates, and leaves the other blocks alone.
pub proof fn lemma_strike_in_block(g: Seq<Cell>, b: int, struck: spec_fn(int, u8) -> bool)
    requires
        grid_wf(g),
    ensures
        grid_wf(strike_in_block(g, b, struck)),
        refines(g, strike_in_block(g, b, struck)),
        same_outside_block(g, strike_in_block(g, b, struck), b),
        forall|i: int|
            0 <= i < 81 ==> (#[trigger] strike_in_block(g, b, struck)[i] is Placed) == (g[i] is Placed),
{
    let r = strike_in_block(g, b, struck);
    assert forall|i: int| 0 <= i < 81 implies (#[trigger] r[i]).wf() && cell_refines(g[i], r[i]) by {
        assert(g[i].wf());
        if block_of(i) == b {
            match g[i] {
                Cell::Placed(_) => {},
                Cell::Open(m) => {
                    CandidateSet::lemma_of(|d: u8| m.has(d) && !(|d: u8| struck(i, d))(d));
                },
            }
        } else {
            match g[i] {
                Cell::Placed(_) => {},
                Cell::Open(m) => {},
            }
        }
    }
}

/// Applies to each cell of the block the strikes listed for its place.
pub(crate) fn strike_block(
    board: &Board,
    bx: &SudokuBox,
    strikes: &[CandidateSet; 9],
    Ghost(struck): Ghost<spec_fn(int, u8) -> bool>,
) -> (next: Board)
    requires
        board.wf(),
        bx.wf(),
        forall|p: int, d: u8|
            0 <= p < 9 && candidate_at(board@, block_cell(bx.id(), p), d) ==> (
            #[trigger] strikes[p].has(d)) == struck(block_cell(bx.id(), p), d),
    ensures
        next@ == strike_in_block(board@, bx.id(), struck),
        next.wf(),
        refines(board@, next@),
        same_outside_block(board@, next@, bx.id()),
{
    let ghost g = board@;
    let ghost b = bx.id();
    let inds = bx.inds();
    let mut next = *board;
    let mut p: usize = 0;
    proof {
        bx.lemma_id();
    }
    while p < 9
        invariant
            p <= 9,
            0 <= b < 9,
            b == bx.id(),
            g == board@,
            grid_wf(g),
            next.wf(),
            forall|q: int| 0 <= q < 9 ==> #[trigger] inds[q] == block_cell(b, q),
            forall|q: int, d: u8|
                0 <= q < 9 && candidate_at(g, block_cell(b, q), d) ==> (
                #[trigger] strikes[q].has(d)) == struck(block_cell(b, q), d),
            forall|j: int|
                0 <= j < 81 && block_of(j) == b && place_in_block(j) < p ==> #[trigger] next@[j]
                    == strike_at(g, j, struck),
            forall|j: int|
                0 <= j < 81 && !(block_of(j) == b && place_in_block(j) < p) ==> #[trigger] next@[j]
                    == g[j],
        decreases 9 - p,
    {
        let idx = inds[p];
        proof {
            lemma_block_cell(b, p as int);
            assert(inds[p as int] == block_cell(b, p as int));
        }
        let ghost before = next@;
        next.pencil_out_mut(idx, &strikes[p]);
        proof {
            let i = idx as int;
            assert(before[i] == g[i]);
            assert(g[i].wf());
            match g[i] {
                Cell::Placed(_) => {},
                Cell::Open(m) => {
                    let s = strikes[p as int];
                    CandidateSet::lemma_of(|d: u8| m.has(d) && !s.has(d));
                    CandidateSet::lemma_of(|d: u8| m.has(d) && !(|d: u8| struck(i, d))(d));
                    assert forall|d: u8| 1 <= d <= 9 implies m.spec_difference(s).has(d)
                        == CandidateSet::of(|d: u8| m.has(d) && !(|d: u8| struck(i, d))(d)).has(
                        d,
                    ) by {
                        if m.has(d) {
                            assert(candidate_at(g, block_cell(b, p as int), d));
                            assert(strikes[p as int].has(d) == struck(block_cell(b, p as int), d));
                        }
                    }
                    m.spec_difference(s).lemma_equal(
                        CandidateSet::of(|d: u8| m.has(d) && !(|d: u8| struck(i, d))(d)),
                    );
                },
            }
            assert(next@[i] == strike_at(g, i, struck));
            assert forall|j: int|
                0 <= j < 81 && block_of(j) == b && place_in_block(j) < p + 1 implies #[trigger] next@[j]
                == strike_at(g, j, struck) by {
                lemma_place_in_block(j);
                if place_in_block(j) == p {
                    assert(j == i);
                } else {
                    assert(j != i);
                    assert(next@[j] == before[j]);
                }
            }
            assert forall|j: int|
                0 <= j < 81 && !(block_of(j) == b && place_in_block(j) < p + 1) implies #[trigger] next@[j]
                == g[j] by {
                assert(j != i);
                assert(next@[j] == before[j]);
            }
        }
        p = p + 1;
    }
    proof {
        assert forall|j: int| 0 <= j < 81 implies #[trigger] next@[j] == strike_in_block(
            g,
            b,
            struck,
        )[j] by {
            lemma_place_in_block(j);
        }
        assert(next@ =~= strike_in_block(g, b, struck));
        lemma_strike_in_block(g, b, struck);
    }
    next
}

} // verus!
