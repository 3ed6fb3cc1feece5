//! Naked subsets: n digits confined to n cells of a block leave its other
//! cells.

use crate::board::{candidate_at, Board, Cell};
use crate::candidates::CandidateSet;
use crate::geometry::{
    block_cell, block_of, in_grid, lemma_block_cell, lemma_place_in_block, place_in_block,
    SudokuBox,
};
use crate::techniques::{refines, same_outside_block, strike_block, strike_in_block};
use vstd::prelude::*;

verus! {

/// Cell `j` is open and all its candidates are in `s`.
pub open spec fn fits_within(g: Seq<Cell>, j: int, s: CandidateSet) -> bool {
    g[j] is Open && g[j].candidates().spec_is_subset(s)
}

/// The number of cells among the first `n` of block `b` that are open and
/// have all their candidates in `s`.
pub open spec fn fitting_upto(g: Seq<Cell>, b: int, s: CandidateSet, n: nat) -> nat
    decreases n,
{
    if n == 0 {
        0
    } else {
        fitting_upto(g, b, s, (n - 1) as nat) + if fits_within(g, block_cell(b, n - 1), s) {
            1nat
        } else {
            0nat
        }
    }
}

/// The candidates of cell `k` are a locked set of block `b`: the cell is
/// open, and the open cells of the block whose candidates all lie in the set
/// are as many as the set has digits.
pub open spec fn locked_set(g: Seq<Cell>, b: int, k: int) -> bool {
    g[k] is Open && fitting_upto(g, b, g[k].candidates(), 9) == g[k].candidates().spec_count()
}

/// The locked set of cell `k` strikes digit `d` from cell `i`: `d` is in
/// the set, and `i` is not one of the cells that the set is confined to.
pub open spec fn subset_strike(g: Seq<Cell>, b: int, k: int, i: int, d: u8) -> bool {
    locked_set(g, b, k) && candidate_at(g, k, d) && !fits_within(g, i, g[k].candidates())
}

/// What the naked-subset technique strikes from cell `i` of block `b`: the
/// digits of every locked set of the block that `i` does not belong to.
pub open spec fn subset_struck(g: Seq<Cell>, b: int) -> spec_fn(int, u8) -> bool {
    |i: int, d: u8|
        exists|k: int| in_grid(k) && block_of(k) == b && #[trigger] subset_strike(g, b, k, i, d)
}

/// The grid after the naked-subset technique in block `b`. Where the
/// candidates of a cell form a set of n digits, and exactly n open cells of
/// the block have all their candidates in that set, the digits of the set
/// are struck from every other cell of the block.
pub open spec fn subset_grid(g: Seq<Cell>, b: int) -> Seq<Cell> {
    strike_in_block(g, b, subset_struck(g, b))
}

/// Is the cell open, with all its candidates in `s`?
pub fn cell_fits(board: &Board, idx: usize, s: &CandidateSet) -> (fits: bool)
    requires
        board.wf(),
        idx < 81,
    ensures
        fits == fits_within(board@, idx as int, *s),
{
    assert(board@[idx as int].wf());
    match board.cell(idx) {
        Cell::Placed(_) => false,
        Cell::Open(c) => c.is_subset(s),
    }
}

/// The number of open cells of the block that have all their candidates in
/// `s`.
pub fn fitting_cells(board: &Board, bx: &SudokuBox, s: &CandidateSet) -> (n: usize)
    requires
        board.wf(),
        bx.wf(),
    ensures
        n == fitting_upto(board@, bx.id(), *s, 9),
        n <= 9,
{
    let inds = bx.inds();
    let ghost b = bx.id();
    proof {
        bx.lemma_id();
    }
    let mut n: usize = 0;
    let mut p: usize = 0;
    while p < 9
        invariant
            p <= 9,
            n <= p,
            board.wf(),
            0 <= b < 9,
            forall|q: int| 0 <= q < 9 ==> #[trigger] inds[q] == block_cell(b, q),
            n == fitting_upto(board@, b, *s, p as nat),
        decreases 9 - p,
    {
        proof {
            lemma_block_cell(b, p as int);
            assert(inds[p as int] == block_cell(b, p as int));
        }
        if cell_fits(board, inds[p], s) {
            n = n + 1;
        }
        p = p + 1;
    }
    n
}

/// Naked subset: where the candidates of a cell of the block form a set of
/// n digits, and exactly n open cells of the block have all their
/// candidates in that set, those digits can go nowhere else, and are struck
/// from every other cell of the block. Only sets that are the candidates of
/// some cell are tried.
pub fn resolve_subset_pencilmarks(board: Board, current_box: &SudokuBox) -> (next: Board)
    requires
        board.wf(),
        current_box.wf(),
    ensures
        next@ == subset_grid(board@, current_box.id()),
        next.wf(),
        refines(board@, next@),
        same_outside_block(board@, next@, current_box.id()),
{
    let ghost g = board@;
    let ghost b = current_box.id();
    proof {
        current_box.lemma_id();
    }
    let inds = current_box.inds();
    let mut marks: [CandidateSet; 9] = [CandidateSet::empty(); 9];
    let mut locked: [bool; 9] = [false; 9];
    let mut k: usize = 0;
    while k < 9
        invariant
            k <= 9,
            board.wf(),
            current_box.wf(),
            g == board@,
            b == current_box.id(),
            0 <= b < 9,
            forall|q: int| 0 <= q < 9 ==> #[trigger] inds[q] == block_cell(b, q),
            forall|q: int| 0 <= q < k ==> (#[trigger] marks[q]) == g[block_cell(b, q)].candidates(),
            forall|q: int| 0 <= q < k ==> (#[trigger] locked[q]) == locked_set(g, b, block_cell(b, q)),
        decreases 9 - k,
    {
        proof {
            lemma_block_cell(b, k as int);
            assert(inds[k as int] == block_cell(b, k as int));
            assert(g[block_cell(b, k as int)].wf());
        }
        let cell = board.cell(inds[k]);
        let own = board.pencilmarks(inds[k]);
        let is_locked = match cell {
            Cell::Placed(_) => false,
            Cell::Open(_) => fitting_cells(&board, current_box, &own) == own.count(),
        };
        marks[k] = own;
        locked[k] = is_locked;
        k = k + 1;
    }
    let mut strikes: [CandidateSet; 9] = [CandidateSet::empty(); 9];
    let mut p: usize = 0;
    while p < 9
        invariant
            p <= 9,
            board.wf(),
            g == board@,
            0 <= b < 9,
            forall|q: int| 0 <= q < 9 ==> #[trigger] inds[q] == block_cell(b, q),
            forall|q: int| 0 <= q < 9 ==> (#[trigger] marks[q]) == g[block_cell(b, q)].candidates(),
            forall|q: int| 0 <= q < 9 ==> (#[trigger] locked[q]) == locked_set(g, b, block_cell(b, q)),
            forall|q: int, d: u8|
                0 <= q < p ==> (#[trigger] strikes[q].has(d)) == subset_struck(g, b)(
                    block_cell(b, q),
                    d,
                ),
        decreases 9 - p,
    {
        let ghost i = block_cell(b, p as int);
        proof {
            lemma_block_cell(b, p as int);
            assert(inds[p as int] == i);
        }
        let mut acc = CandidateSet::empty();
        let mut k: usize = 0;
        while k < 9
            invariant
                k <= 9,
                board.wf(),
                g == board@,
                0 <= b < 9,
                p < 9,
                i == block_cell(b, p as int),
                in_grid(i),
                acc.wf(),
                forall|q: int| 0 <= q < 9 ==> #[trigger] inds[q] == block_cell(b, q),
                forall|q: int|
                    0 <= q < 9 ==> (#[trigger] marks[q]) == g[block_cell(b, q)].candidates(),
                forall|q: int|
                    0 <= q < 9 ==> (#[trigger] locked[q]) == locked_set(g, b, block_cell(b, q)),
                forall|d: u8|
                    acc.has(d) == exists|n: int|
                        0 <= n < k && #[trigger] subset_strike(g, b, block_cell(b, n), i, d),
            decreases 9 - k,
        {
            let ghost before = acc;
            proof {
                lemma_block_cell(b, k as int);
                assert(marks[k as int] == g[block_cell(b, k as int)].candidates());
                assert(locked[k as int] == locked_set(g, b, block_cell(b, k as int)));
                assert(g[block_cell(b, k as int)].wf());
            }
            if locked[k] {
                let set = marks[k];
                if !cell_fits(&board, inds[p], &set) {
                    acc = acc.union(&set);
                }
            }
            proof {
                assert forall|d: u8|
                    acc.has(d) == exists|n: int|
                        0 <= n < k + 1 && #[trigger] subset_strike(g, b, block_cell(b, n), i, d) by {
                    if before.has(d) {
                        let n = choose|n: int|
                            0 <= n < k && #[trigger] subset_strike(g, b, block_cell(b, n), i, d);
                        assert(subset_strike(g, b, block_cell(b, n), i, d));
                    }
                    if subset_strike(g, b, block_cell(b, k as int), i, d) {
                        assert(acc.has(d));
                    }
                    if exists|n: int|
                        0 <= n < k + 1 && #[trigger] subset_strike(g, b, block_cell(b, n), i, d) {
                        let n = choose|n: int|
                            0 <= n < k + 1 && #[trigger] subset_strike(g, b, block_cell(b, n), i, d);
                        if n < k {
                            assert(before.has(d));
                        }
                    }
                }
            }
            k = k + 1;
        }
        strikes[p] = acc;
        proof {
            assert forall|d: u8| acc.has(d) == subset_struck(g, b)(i, d) by {
                if acc.has(d) {
                    let n = choose|n: int|
                        0 <= n < 9 && #[trigger] subset_strike(g, b, block_cell(b, n), i, d);
                    lemma_block_cell(b, n);
                    assert(subset_strike(g, b, block_cell(b, n), i, d));
                }
                if subset_struck(g, b)(i, d) {
                    let o = choose|o: int|
                        in_grid(o) && block_of(o) == b && #[trigger] subset_strike(g, b, o, i, d);
                    lemma_place_in_block(o);
                    assert(subset_strike(g, b, block_cell(b, place_in_block(o)), i, d));
                }
            }
        }
        p = p + 1;
    }
    strike_block(&board, current_box, &strikes, Ghost(subset_struck(g, b)))
}

} // verus!
