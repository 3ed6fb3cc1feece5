//! What holds of the library as a whole: of the wire format, and of the
//! solver on every board.

use crate::board::{
    bad_digit_at, candidate_at, decode_error, decode_grid, decode_square, encode_grid, grid_wf,
    placed_at, placed_in_block, Cell,
};
use crate::candidates::CandidateSet;
use crate::geometry::{block_of, in_grid, shares_unit};
use crate::techniques::{cell_refines, lemma_strike_in_block, refines, same_outside_block};
use crate::techniques::box_line::{box_line_grid, box_line_struck, seen_by};
use crate::techniques::cycles::{cycle_grid, cycle_struck};
use crate::techniques::hidden_single::{
    candidate_elsewhere, hidden_digit, hidden_single_at, hidden_single_grid, lemma_hidden_digit,
    lemma_hidden_single_grid,
};
use crate::techniques::naked_single::{lemma_naked_single_grid, naked_single_grid};
use crate::techniques::pointing::{pointing_grid, pointing_struck};
use crate::techniques::subsets::{subset_grid, subset_struck};
use crate::solver::{
    grid_weight, idle_run, lemma_next_pending, lemma_pass_grid, lemma_progress, lemma_run_grid,
    lemma_run_settled, next_pending, pass_grid, run_grid, simple_pass_grid, solve_grid, Pass,
};
use vstd::prelude::*;

verus! {

/// Encoding a grid and decoding the result gives the grid back, if no open
/// cell of it is without a candidate: such a cell would come back open to
/// all nine digits.
pub proof fn lemma_wire_round_trip(g: Seq<Cell>)
    requires
        grid_wf(g),
        forall|i: int| 0 <= i < 81 ==> #[trigger] g[i] != Cell::Open(CandidateSet::spec_empty()),
    ensures
        decode_error(encode_grid(g)) is None,
        decode_grid(encode_grid(g)) == g,
{
    let w = encode_grid(g);
    assert forall|i: int| 0 <= i < 81 implies !bad_digit_at(w, i) && decode_square(w[i])
        == #[trigger] g[i] by {
        assert(g[i].wf());
        match g[i] {
            Cell::Placed(_) => {},
            Cell::Open(m) => {
                let back = CandidateSet::of(|d: u8| w[i].1.contains(d));
                CandidateSet::lemma_of(|d: u8| w[i].1.contains(d));
                assert forall|d: u8| 1 <= d <= 9 implies back.has(d) == m.has(d) by {
                    assert(m@.contains(d) == m.has(d));
                }
                back.lemma_equal(m);
            },
        }
    }
    assert(decode_grid(w) =~= g);
}

/// No technique adds anything: after any one of the six, in any block,
/// every cell's candidates are among those it had, a digit that was placed
/// was a candidate of its cell, and a placed cell is as it was. The grid
/// stays well formed.
pub proof fn lemma_techniques_refine(g: Seq<Cell>, b: int)
    requires
        grid_wf(g),
    ensures
        grid_wf(box_line_grid(g, b)) && refines(g, box_line_grid(g, b)),
        grid_wf(hidden_single_grid(g, b)) && refines(g, hidden_single_grid(g, b)),
        grid_wf(naked_single_grid(g, b)) && refines(g, naked_single_grid(g, b)),
        grid_wf(pointing_grid(g, b)) && refines(g, pointing_grid(g, b)),
        grid_wf(subset_grid(g, b)) && refines(g, subset_grid(g, b)),
        grid_wf(cycle_grid(g, b)) && refines(g, cycle_grid(g, b)),
{
    lemma_strike_in_block(g, b, box_line_struck(g));
    lemma_hidden_single_grid(g, b);
    lemma_naked_single_grid(g, b);
    lemma_strike_in_block(g, b, pointing_struck(g, b));
    lemma_strike_in_block(g, b, subset_struck(g, b));
    lemma_strike_in_block(g, b, cycle_struck(g, b));
}

/// Neither pass adds anything, and a pass in one block leaves the other
/// blocks as they were.
pub proof fn lemma_passes_refine(pass: Pass, g: Seq<Cell>, b: int)
    requires
        grid_wf(g),
    ensures
        grid_wf(pass_grid(pass, g, b)),
        refines(g, pass_grid(pass, g, b)),
        same_outside_block(g, pass_grid(pass, g, b), b),
{
    lemma_pass_grid(pass, g, b);
}

/// Two different cells that share a unit hold the same digit.
pub open spec fn conflict(g: Seq<Cell>, i: int, j: int) -> bool {
    i != j && shares_unit(i, j) && g[i] is Placed && g[i] == g[j]
}

/// No two cells that share a unit hold the same digit.
pub open spec fn conflict_free(g: Seq<Cell>) -> bool {
    forall|i: int, j: int| in_grid(i) && in_grid(j) ==> !conflict(g, i, j)
}

/// A digit that the simple pass places in a cell is held by no other cell
/// that shares a unit with it, neither before the pass nor after it.
pub proof fn lemma_simple_pass_places_soundly(g: Seq<Cell>, b: int, i: int, j: int)
    requires
        grid_wf(g),
        in_grid(i),
        in_grid(j),
        i != j,
        shares_unit(i, j),
        g[i] is Open,
        simple_pass_grid(g, b)[i] is Placed,
    ensures
        simple_pass_grid(g, b)[j] != simple_pass_grid(g, b)[i],
{
    let bl = box_line_grid(g, b);
    let r = simple_pass_grid(g, b);
    lemma_strike_in_block(g, b, box_line_struck(g));
    lemma_hidden_digit(bl, b, i, 9);
    lemma_hidden_digit(bl, b, j, 9);
    assert(bl[i] is Open);
    let d = hidden_digit(bl, b, i);
    assert(block_of(i) == b && d != 0);
    assert(r[i] == Cell::Placed(d));
    assert(hidden_single_at(bl, b, i, d));
    if r[j] == r[i] {
        if block_of(j) == b {
            if hidden_digit(bl, b, j) != 0 {
                assert(candidate_at(bl, j, d));
                assert(candidate_elsewhere(bl, b, i, d));
            } else {
                assert(placed_at(bl, j, d));
                assert(placed_in_block(bl, b, d));
            }
        } else {
            assert(bl[j] == g[j]);
            assert(placed_at(g, j, d));
            assert(seen_by(g, i, d));
            let m = g[i]->Open_0;
            CandidateSet::lemma_of(|e: u8| m.has(e) && !(|e: u8| box_line_struck(g)(i, e))(e));
            assert(!candidate_at(bl, i, d));
        }
    }
}

/// The simple pass never makes two cells that share a unit hold the same
/// digit: where they do after the pass, they did before.
pub proof fn lemma_simple_pass_adds_no_conflict(g: Seq<Cell>, b: int, i: int, j: int)
    requires
        grid_wf(g),
        in_grid(i),
        in_grid(j),
        conflict(simple_pass_grid(g, b), i, j),
    ensures
        conflict(g, i, j),
{
    let r = simple_pass_grid(g, b);
    lemma_pass_grid(Pass::Simple, g, b);
    assert(cell_refines(g[i], r[i]));
    assert(cell_refines(g[j], r[j]));
    if g[i] is Open {
        lemma_simple_pass_places_soundly(g, b, i, j);
    } else if g[j] is Open {
        lemma_simple_pass_places_soundly(g, b, j, i);
    }
}

/// The scheduler with the simple pass never makes two cells that share a
/// unit hold the same digit: where they do in the end, they did at the start.
pub proof fn lemma_run_adds_no_conflict(g: Seq<Cell>, cursor: int, idle: int, i: int, j: int)
    requires
        grid_wf(g),
        0 <= cursor < 9,
        0 <= idle <= 9,
        in_grid(i),
        in_grid(j),
        conflict(run_grid(Pass::Simple, g, cursor, idle), i, j),
    ensures
        conflict(g, i, j),
    decreases grid_weight(g), 9 - idle,
{
    if idle < 9 {
        lemma_next_pending(g, cursor);
        match next_pending(g, cursor) {
            None => {},
            Some(b) => {
                let g2 = pass_grid(Pass::Simple, g, b);
                lemma_pass_grid(Pass::Simple, g, b);
                if g2 == g {
                    lemma_run_adds_no_conflict(g, b, idle + 1, i, j);
                } else {
                    lemma_progress(g, g2);
                    lemma_run_adds_no_conflict(g2, b, 0, i, j);
                    lemma_simple_pass_adds_no_conflict(g, b, i, j);
                }
            },
        }
    }
}

/// Solving is sound: if `solve` places digit `d` in a cell, no other cell
/// of its row, column or block holds `d` on the board that `solve` returns.
/// This holds of every board, also of one that starts with a contradiction.
pub proof fn lemma_solve_places_soundly(g: Seq<Cell>, i: int, j: int, d: u8)
    requires
        grid_wf(g),
        in_grid(i),
        in_grid(j),
        i != j,
        shares_unit(i, j),
        g[i] is Open,
        solve_grid(g)[i] == Cell::Placed(d),
    ensures
        solve_grid(g)[j] != Cell::Placed(d),
{
    if solve_grid(g)[j] == Cell::Placed(d) {
        assert(conflict(solve_grid(g), i, j));
        lemma_run_adds_no_conflict(g, 0, 0, i, j);
    }
}

/// A board without a contradiction is solved into a board without one.
pub proof fn lemma_solve_keeps_conflict_free(g: Seq<Cell>)
    requires
        grid_wf(g),
        conflict_free(g),
    ensures
        conflict_free(solve_grid(g)),
{
    assert forall|i: int, j: int| in_grid(i) && in_grid(j) implies !conflict(
        solve_grid(g),
        i,
        j,
    ) by {
        if conflict(solve_grid(g), i, j) {
            lemma_run_adds_no_conflict(g, 0, 0, i, j);
        }
    }
}

/// Solving only removes candidates and places digits: every cell's
/// candidates after `solve` are among those before, a digit that `solve`
/// places was a candidate, and a placed cell stays as it is.
pub proof fn lemma_solve_refines(g: Seq<Cell>)
    requires
        grid_wf(g),
    ensures
        grid_wf(solve_grid(g)),
        refines(g, solve_grid(g)),
{
    assert(idle_run(Pass::Simple, g, 0, 0));
    lemma_run_grid(Pass::Simple, g, 0, 0);
}

/// Solving a solved board changes nothing: `solve(solve(b)) == solve(b)`.
pub proof fn lemma_solve_idempotent(g: Seq<Cell>)
    requires
        grid_wf(g),
    ensures
        solve_grid(solve_grid(g)) == solve_grid(g),
{
    assert(idle_run(Pass::Simple, g, 0, 0));
    lemma_run_grid(Pass::Simple, g, 0, 0);
    lemma_run_settled(Pass::Simple, solve_grid(g), 0, 0);
}

/// Running the scheduler to the end twice is running it once, for either
/// pass and from any block.
pub proof fn lemma_run_idempotent(pass: Pass, g: Seq<Cell>, cursor: int, again: int)
    requires
        grid_wf(g),
        0 <= cursor < 9,
        0 <= again < 9,
    ensures
        run_grid(pass, run_grid(pass, g, cursor, 0), again, 0) == run_grid(pass, g, cursor, 0),
{
    assert(idle_run(pass, g, cursor, 0));
    lemma_run_grid(pass, g, cursor, 0);
    lemma_run_settled(pass, run_grid(pass, g, cursor, 0), again, 0);
}

} // verus!
