//! The scheduler: which block is worked next, and when the work ends.

use crate::board::{block_complete, grid_solved, grid_wf, Board, Cell};
use crate::geometry::{block_of, in_grid, lemma_place_in_block, SudokuBox};
use crate::techniques::{cell_refines, lemma_strike_in_block, refines, same_outside_block};
use crate::techniques::box_line::{box_line_grid, box_line_struck, place_simple_pencilmarks};
use crate::techniques::cycles::{cycle_grid, cycle_struck, resolve_cycle_pencilmarks};
use crate::techniques::hidden_single::{
    hidden_single_grid, lemma_hidden_single_grid, type_1_pencilmark_collapse,
};
use crate::techniques::naked_single::{
    lemma_naked_single_grid, naked_single_grid, type_2_pencilmark_collapse,
};
use vstd::prelude::*;

verus! {

/// The two fixed sequences of techniques.
#[derive(Clone, Copy, Debug, PartialEq, Eq, Structural)]
pub enum Pass {
    /// Box-line reduction, then hidden single.
    Simple,
    /// Box-line reduction, cycle elimination, hidden single, naked single.
    Complex,
}

/// The grid after the simple pass in block `b`.
pub open spec fn simple_pass_grid(g: Seq<Cell>, b: int) -> Seq<Cell> {
    hidden_single_grid(box_line_grid(g, b), b)
}

/// The grid after the complex pass in block `b`.
pub open spec fn complex_pass_grid(g: Seq<Cell>, b: int) -> Seq<Cell> {
    naked_single_grid(hidden_single_grid(cycle_grid(box_line_grid(g, b), b), b), b)
}

/// The grid after `pass` in block `b`.
pub open spec fn pass_grid(pass: Pass, g: Seq<Cell>, b: int) -> Seq<Cell> {
    match pass {
        Pass::Simple => simple_pass_grid(g, b),
        Pass::Complex => complex_pass_grid(g, b),
    }
}

/// What one technique may do, done twice, is what one technique may do.
pub proof fn lemma_refines_trans(a: Seq<Cell>, b: Seq<Cell>, c: Seq<Cell>)
    requires
        refines(a, b),
        refines(b, c),
    ensures
        refines(a, c),
{
    assert forall|i: int| 0 <= i < 81 implies cell_refines(a[i], c[i]) by {
        assert(cell_refines(a[i], b[i]));
        assert(cell_refines(b[i], c[i]));
    }
}

/// A pass keeps the grid well formed, only removes candidates or places
/// one, and leaves the other blocks alone.
pub proof fn lemma_pass_grid(pass: Pass, g: Seq<Cell>, b: int)
    requires
        grid_wf(g),
    ensures
        grid_wf(pass_grid(pass, g, b)),
        refines(g, pass_grid(pass, g, b)),
        same_outside_block(g, pass_grid(pass, g, b), b),
{
    let g1 = box_line_grid(g, b);
    lemma_strike_in_block(g, b, box_line_struck(g));
    match pass {
        Pass::Simple => {
            lemma_hidden_single_grid(g1, b);
            lemma_refines_trans(g, g1, simple_pass_grid(g, b));
        },
        Pass::Complex => {
            let g2 = cycle_grid(g1, b);
            lemma_strike_in_block(g1, b, cycle_struck(g1, b));
            let g3 = hidden_single_grid(g2, b);
            lemma_hidden_single_grid(g2, b);
            let g4 = naked_single_grid(g3, b);
            lemma_naked_single_grid(g3, b);
            lemma_refines_trans(g, g1, g2);
            lemma_refines_trans(g, g2, g3);
            lemma_refines_trans(g, g3, g4);
        },
    }
}

/// A block that was complete stays complete, whatever a technique does.
pub proof fn lemma_complete_stays(before: Seq<Cell>, after: Seq<Cell>, b: int)
    requires
        refines(before, after),
        block_complete(before, b),
    ensures
        block_complete(after, b),
{
    assert forall|j: int| in_grid(j) && block_of(j) == b implies (#[trigger] after[j]) is Placed by {
        assert(before[j] is Placed);
        assert(cell_refines(before[j], after[j]));
    }
}

/// Work in one block does not change whether another block is complete.
pub proof fn lemma_complete_elsewhere(before: Seq<Cell>, after: Seq<Cell>, b: int, other: int)
    requires
        same_outside_block(before, after, b),
        other != b,
    ensures
        block_complete(after, other) == block_complete(before, other),
{
    if block_complete(before, other) {
        assert forall|j: int| in_grid(j) && block_of(j) == other implies (
        #[trigger] after[j]) is Placed by {
            assert(before[j] is Placed);
        }
    }
    if block_complete(after, other) {
        assert forall|j: int| in_grid(j) && block_of(j) == other implies (
        #[trigger] before[j]) is Placed by {
            assert(after[j] is Placed);
        }
    }
}

/// The block `k` steps before `cursor`, going round from block 0 to block 8.
pub open spec fn back(cursor: int, k: int) -> int {
    (cursor + 9 - k) % 9
}

/// The block `u` steps after `cursor`, going round from block 8 to block 0.
pub open spec fn forth(cursor: int, u: int) -> int {
    (cursor + u) % 9
}

/// The first block that is not complete among those `t`, `t + 1`, ... up to
/// 9 steps after `cursor`, going round from block 8 to block 0; or `None`.
pub open spec fn pending_from(g: Seq<Cell>, cursor: int, t: int) -> Option<int>
    decreases 10 - t,
{
    if t > 9 {
        None
    } else if !block_complete(g, forth(cursor, t)) {
        Some(forth(cursor, t))
    } else {
        pending_from(g, cursor, t + 1)
    }
}

/// The block to work next: the first one after `cursor` that is not
/// complete, going round from block 8 to block 0, with `cursor` itself tried
/// last. `None` if every block is complete.
pub open spec fn next_pending(g: Seq<Cell>, cursor: int) -> Option<int> {
    pending_from(g, cursor, 1)
}

/// What is left of a number below 27 when it is divided by 9.
pub proof fn lemma_mod_nine(x: int)
    requires
        0 <= x < 27,
    ensures
        x % 9 == if x < 9 {
            x
        } else if x < 18 {
            x - 9
        } else {
            x - 18
        },
{
}

/// No block is pending exactly when the grid is solved.
pub proof fn lemma_next_pending(g: Seq<Cell>, cursor: int)
    requires
        0 <= cursor < 9,
    ensures
        next_pending(g, cursor) is None <==> grid_solved(g),
        next_pending(g, cursor) matches Some(b) ==> 0 <= b < 9 && !block_complete(g, b),
{
    lemma_pending_from(g, cursor, 1);
    if next_pending(g, cursor) is None {
        assert forall|j: int| in_grid(j) implies (#[trigger] g[j]) is Placed by {
            lemma_place_in_block(j);
            let b = block_of(j);
            let t = if b > cursor {
                b - cursor
            } else {
                b - cursor + 9
            };
            lemma_mod_nine(cursor + t);
            assert(forth(cursor, t) == b);
            assert(block_complete(g, forth(cursor, t)));
        }
    }
    if grid_solved(g) {
        if next_pending(g, cursor) is Some {
            let b = next_pending(g, cursor)->0;
            assert(block_complete(g, b));
        }
    }
}

/// What `pending_from` finds is a block that is not complete, and what it
/// passes over is complete.
pub proof fn lemma_pending_from(g: Seq<Cell>, cursor: int, t: int)
    requires
        0 <= cursor < 9,
        1 <= t <= 10,
    ensures
        pending_from(g, cursor, t) matches Some(b) ==> 0 <= b < 9 && !block_complete(g, b),
        pending_from(g, cursor, t) is None ==> forall|u: int|
            t <= u <= 9 ==> block_complete(g, #[trigger] forth(cursor, u)),
    decreases 10 - t,
{
    if t <= 9 {
        lemma_pending_from(g, cursor, t + 1);
    }
}

/// A board with the scheduler's bookkeeping: which blocks are complete, and
/// which block was worked last.
#[derive(Clone, Copy, Debug, PartialEq, Eq)]
pub struct Solver {
    board: Board,
    boxes: [bool; 9],
    last_box: u8,
}

impl Solver {
    /// The cells of the board.
    pub closed spec fn grid(&self) -> Seq<Cell> {
        self.board@
    }

    /// The block that was worked last.
    pub closed spec fn cursor(&self) -> int {
        self.last_box as int
    }

    /// For each block, whether it is marked complete.
    pub closed spec fn flags(&self) -> Seq<bool> {
        self.boxes@
    }

    /// The board is well formed, the cursor is a block, and a block is
    /// marked complete exactly when each of its cells is placed.
    pub open spec fn wf(&self) -> bool {
        &&& grid_wf(self.grid())
        &&& 0 <= self.cursor() < 9
        &&& self.flags().len() == 9
        &&& forall|b: int| 0 <= b < 9 ==> #[trigger] self.flags()[b] == block_complete(self.grid(), b)
    }

    /// Two solvers with the same board and the same cursor are the same, if
    /// both are well formed.
    pub proof fn lemma_ext(self, other: Solver)
        requires
            self.wf(),
            other.wf(),
            self.grid() == other.grid(),
            self.cursor() == other.cursor(),
        ensures
            self == other,
    {
        self.board.lemma_ext(other.board);
        assert(self.boxes =~= other.boxes);
    }

    /// Marks the block complete if each of its cells is placed.
    fn mark_if_finished(&mut self, bx: SudokuBox)
        requires
            grid_wf(old(self).grid()),
            bx.wf(),
        ensures
            final(self).grid() == old(self).grid(),
            final(self).cursor() == old(self).cursor(),
            final(self).flags() == old(self).flags().update(
                bx.id(),
                old(self).flags()[bx.id()] || block_complete(old(self).grid(), bx.id()),
            ),
    {
        let idx = bx.index();
        if self.board.box_finished(&bx) {
            self.boxes[idx] = true;
        }
        assert(self.flags() =~= old(self).flags().update(
            bx.id(),
            old(self).flags()[bx.id()] || block_complete(old(self).grid(), bx.id()),
        ));
    }

    /// The block to work next, which becomes the block worked last: the
    /// first block after the one worked last that is not complete, going
    /// round from block 8 to block 0. `None`, and no change, if every block
    /// is complete.
    pub fn get_unsolved_box(&mut self) -> (next: Option<SudokuBox>)
        requires
            old(self).wf(),
        ensures
            final(self).wf(),
            final(self).grid() == old(self).grid(),
            match next {
                Some(bx) => bx.wf() && Some(bx.id()) == next_pending(
                    old(self).grid(),
                    old(self).cursor(),
                ) && final(self).cursor() == bx.id(),
                None => next_pending(old(self).grid(), old(self).cursor()) is None
                    && final(self).cursor() == old(self).cursor(),
            },
    {
        let ghost g = self.grid();
        let ghost cursor = self.cursor();
        let mut t: u8 = 1;
        while t <= 9
            invariant
                1 <= t <= 10,
                self.wf(),
                *self == *old(self),
                g == self.grid(),
                cursor == self.cursor(),
                next_pending(g, cursor) == pending_from(g, cursor, t as int),
            decreases 10 - t,
        {
            let idx = (self.last_box + t) % 9;
            assert(self.flags()[idx as int] == block_complete(g, idx as int));
            if !self.boxes[idx as usize] {
                self.last_box = idx;
                return Some(self.board.get_box(idx));
            }
            t = t + 1;
        }
        None
    }

    /// The scheduler for `board`, with every block marked according to the
    /// board, and block 0 taken as the block worked last.
    pub fn init_with_board(board: Board) -> (solver: Solver)
        requires
            board.wf(),
        ensures
            solver.wf(),
            solver.grid() == board@,
            solver.cursor() == 0,
    {
        let mut new_solver = Solver { board, boxes: [false; 9], last_box: 0 };
        let mut j: u8 = 0;
        while j < 9
            invariant
                j <= 9,
                new_solver.grid() == board@,
                grid_wf(board@),
                new_solver.cursor() == 0,
                new_solver.flags().len() == 9,
                forall|b: int|
                    0 <= b < j ==> #[trigger] new_solver.flags()[b] == block_complete(board@, b),
                forall|b: int| j <= b < 9 ==> !(#[trigger] new_solver.flags()[b]),
            decreases 9 - j,
        {
            let bx = new_solver.board.get_box(j);
            new_solver.mark_if_finished(bx);
            j = j + 1;
        }
        new_solver
    }

    /// The board.
    pub fn get_board(&self) -> (board: Board)
        ensures
            board@ == self.grid(),
    {
        self.board
    }

    /// The block that was worked last.
    pub fn last_box(&self) -> (bx: u8)
        ensures
            bx == self.cursor(),
    {
        self.last_box
    }

    /// Is block `bx` marked complete?
    pub fn is_finished(&self, bx: u8) -> (done: bool)
        requires
            self.wf(),
            bx < 9,
        ensures
            done == block_complete(self.grid(), bx as int),
    {
        assert(self.flags()[bx as int] == block_complete(self.grid(), bx as int));
        self.boxes[bx as usize]
    }
}

/// The solver after `pass` in the block, with the block marked complete if
/// each of its cells is now placed.
pub fn apply_pass(solver: Solver, current_box: SudokuBox, pass: Pass) -> (next: Solver)
    requires
        solver.wf(),
        current_box.wf(),
    ensures
        next.wf(),
        next.grid() == pass_grid(pass, solver.grid(), current_box.id()),
        next.cursor() == solver.cursor(),
{
    match pass {
        Pass::Simple => pencil_and_place_simple(solver, current_box),
        Pass::Complex => pencil_and_place_complex(solver, current_box),
    }
}

/// The simple pass in the block: box-line reduction, then hidden single.
/// The block is marked complete if each of its cells is now placed.
pub fn pencil_and_place_simple(board: Solver, current_box: SudokuBox) -> (next: Solver)
    requires
        board.wf(),
        current_box.wf(),
    ensures
        next.wf(),
        next.grid() == simple_pass_grid(board.grid(), current_box.id()),
        next.cursor() == board.cursor(),
{
    let ghost g = board.grid();
    let ghost b = current_box.id();
    let mut next_board = board;
    next_board.board = place_simple_pencilmarks(next_board.board, &current_box);
    next_board.board = type_1_pencilmark_collapse(next_board.board, &current_box);
    next_board.mark_if_finished(current_box);
    proof {
        current_box.lemma_id();
        lemma_pass_grid(Pass::Simple, g, b);
        lemma_flags(g, next_board.grid(), b, board.flags(), next_board.flags());
    }
    next_board
}

/// The complex pass in the block: box-line reduction, cycle elimination,
/// hidden single, naked single. The block is marked complete if each of its
/// cells is now placed.
pub fn pencil_and_place_complex(board: Solver, current_box: SudokuBox) -> (next: Solver)
    requires
        board.wf(),
        current_box.wf(),
    ensures
        next.wf(),
        next.grid() == complex_pass_grid(board.grid(), current_box.id()),
        next.cursor() == board.cursor(),
{
    let ghost g = board.grid();
    let ghost b = current_box.id();
    let mut next_board = board;
    next_board.board = place_simple_pencilmarks(next_board.board, &current_box);
    next_board.board = resolve_cycle_pencilmarks(next_board.board, &current_box);
    next_board.board = type_1_pencilmark_collapse(next_board.board, &current_box);
    next_board.board = type_2_pencilmark_collapse(next_board.board, &current_box);
    next_board.mark_if_finished(current_box);
    proof {
        current_box.lemma_id();
        lemma_pass_grid(Pass::Complex, g, b);
        lemma_flags(g, next_board.grid(), b, board.flags(), next_board.flags());
    }
    next_board
}

/// After work in block `b`, the marks are right again once the mark of `b`
/// is brought up to date.
proof fn lemma_flags(before: Seq<Cell>, after: Seq<Cell>, b: int, old_flags: Seq<bool>, flags: Seq<bool>)
    requires
        0 <= b < 9,
        refines(before, after),
        same_outside_block(before, after, b),
        old_flags.len() == 9,
        forall|o: int| 0 <= o < 9 ==> #[trigger] old_flags[o] == block_complete(before, o),
        flags == old_flags.update(b, old_flags[b] || block_complete(after, b)),
    ensures
        flags.len() == 9,
        forall|o: int| 0 <= o < 9 ==> #[trigger] flags[o] == block_complete(after, o),
{
    assert forall|o: int| 0 <= o < 9 implies #[trigger] flags[o] == block_complete(after, o) by {
        if o == b {
            if old_flags[b] {
                lemma_complete_stays(before, after, b);
            }
        } else {
            lemma_complete_elsewhere(before, after, b, o);
            assert(flags[o] == old_flags[o]);
        }
    }
}

/// One step of interactive solving: the complex pass in one block. With a
/// block number, that block is worked and the cursor stays. With none, the
/// scheduler picks the block, which becomes the block worked last; if every
/// block is complete, nothing changes.
pub fn work_one_box(solver: Solver, box_index: Option<u8>) -> (next: Solver)
    requires
        solver.wf(),
        box_index matches Some(b) ==> b < 9,
    ensures
        next.wf(),
        match box_index {
            Some(b) => next.grid() == complex_pass_grid(solver.grid(), b as int) && next.cursor()
                == solver.cursor(),
            None => match next_pending(solver.grid(), solver.cursor()) {
                Some(b) => next.grid() == complex_pass_grid(solver.grid(), b) && next.cursor() == b,
                None => next == solver,
            },
        },
{
    let mut new_solver = solver;
    let working_box = match box_index {
        None => match new_solver.get_unsolved_box() {
            Some(sudoku_box) => sudoku_box,
            None => {
                proof {
                    new_solver.lemma_ext(solver);
                }
                return new_solver;
            },
        },
        Some(box_index) => new_solver.board.get_box(box_index),
    };
    pencil_and_place_complex(new_solver, working_box)
}

/// How much is left to decide in a cell: nothing in a placed cell, and in
/// an open cell one more than the number of its candidates.
pub open spec fn cell_weight(c: Cell) -> nat {
    match c {
        Cell::Placed(_) => 0,
        Cell::Open(m) => 1 + m.spec_count(),
    }
}

/// The weights of the first `n` cells, added up.
pub open spec fn weight_upto(g: Seq<Cell>, n: nat) -> nat
    decreases n,
{
    if n == 0 {
        0
    } else {
        weight_upto(g, (n - 1) as nat) + cell_weight(g[n - 1])
    }
}

/// How much is left to decide in the grid: at most 810, and 0 exactly when
/// the grid is solved.
pub open spec fn grid_weight(g: Seq<Cell>) -> nat {
    weight_upto(g, 81)
}

/// What a technique does to a cell never adds to its weight, and takes
/// from it if the cell changes.
pub proof fn lemma_cell_weight(before: Cell, after: Cell)
    requires
        before.wf(),
        after.wf(),
        cell_refines(before, after),
    ensures
        cell_weight(after) <= cell_weight(before),
        after != before ==> cell_weight(after) < cell_weight(before),
{
    match before {
        Cell::Placed(_) => {},
        Cell::Open(c) => match after {
            Cell::Placed(_) => {},
            Cell::Open(c2) => {
                c2.lemma_count_subset(c);
                if c2 != c {
                    if forall|d: u8| c.has(d) ==> c2.has(d) {
                        c2.lemma_equal(c);
                    }
                    let d = choose|d: u8| c.has(d) && !c2.has(d);
                    assert(c.has(d) && !c2.has(d));
                }
            },
        },
    }
}

/// What a technique does to a grid never adds to the weight of its first
/// `n` cells, and takes from it if one of them changes.
pub proof fn lemma_weight_upto(before: Seq<Cell>, after: Seq<Cell>, n: nat)
    requires
        grid_wf(before),
        grid_wf(after),
        refines(before, after),
        n <= 81,
    ensures
        weight_upto(after, n) <= weight_upto(before, n),
        (exists|i: int| 0 <= i < n && before[i] != after[i]) ==> weight_upto(after, n)
            < weight_upto(before, n),
    decreases n,
{
    if n > 0 {
        lemma_weight_upto(before, after, (n - 1) as nat);
        assert(before[n - 1].wf());
        assert(after[n - 1].wf());
        assert(cell_refines(before[n - 1], after[n - 1]));
        lemma_cell_weight(before[n - 1], after[n - 1]);
        if exists|i: int| 0 <= i < n && before[i] != after[i] {
            let i = choose|i: int| 0 <= i < n && before[i] != after[i];
            if i < n - 1 {
                assert(0 <= i < n - 1 && before[i] != after[i]);
            }
        }
    }
}

/// A technique that changes the grid takes from its weight.
pub proof fn lemma_progress(before: Seq<Cell>, after: Seq<Cell>)
    requires
        grid_wf(before),
        grid_wf(after),
        refines(before, after),
    ensures
        grid_weight(after) <= grid_weight(before),
        after != before ==> grid_weight(after) < grid_weight(before),
{
    lemma_weight_upto(before, after, 81);
    if after != before {
        if forall|i: int| 0 <= i < 81 ==> before[i] == after[i] {
            assert(before =~= after);
        }
    }
}

/// The grid that the scheduler ends with, from grid `g` with block `cursor`
/// worked last, after `idle` steps in a row that changed nothing. Each step
/// applies `pass` to the next block that is not complete. The work ends when
/// every block is complete, or when nine steps in a row changed nothing: by
/// then every block that is not complete has been tried in vain.
pub open spec fn run_grid(pass: Pass, g: Seq<Cell>, cursor: int, idle: int) -> Seq<Cell>
    decreases grid_weight(g), 9 - idle,
    when grid_wf(g) && 0 <= cursor < 9 && 0 <= idle
    via run_grid_decreases
{
    if idle >= 9 {
        g
    } else {
        match next_pending(g, cursor) {
            None => g,
            Some(b) => if pass_grid(pass, g, b) == g {
                run_grid(pass, g, b, idle + 1)
            } else {
                run_grid(pass, pass_grid(pass, g, b), b, 0)
            },
        }
    }
}

#[via_fn]
proof fn run_grid_decreases(pass: Pass, g: Seq<Cell>, cursor: int, idle: int) {
    if idle < 9 {
        match next_pending(g, cursor) {
            None => {},
            Some(b) => {
                lemma_next_pending(g, cursor);
                lemma_pass_grid(pass, g, b);
                lemma_progress(g, pass_grid(pass, g, b));
            },
        }
    }
}

/// The number of steps that the scheduler takes from grid `g`: see
/// `run_grid`.
pub open spec fn run_steps(pass: Pass, g: Seq<Cell>, cursor: int, idle: int) -> nat
    decreases grid_weight(g), 9 - idle,
    when grid_wf(g) && 0 <= cursor < 9 && 0 <= idle
    via run_steps_decreases
{
    if idle >= 9 {
        0
    } else {
        match next_pending(g, cursor) {
            None => 0,
            Some(b) => if pass_grid(pass, g, b) == g {
                1 + run_steps(pass, g, b, idle + 1)
            } else {
                1 + run_steps(pass, pass_grid(pass, g, b), b, 0)
            },
        }
    }
}

#[via_fn]
proof fn run_steps_decreases(pass: Pass, g: Seq<Cell>, cursor: int, idle: int) {
    if idle < 9 {
        match next_pending(g, cursor) {
            None => {},
            Some(b) => {
                lemma_next_pending(g, cursor);
                lemma_pass_grid(pass, g, b);
                lemma_progress(g, pass_grid(pass, g, b));
            },
        }
    }
}

/// The first `n` cells of a well-formed grid weigh at most 10 each.
pub proof fn lemma_weight_bound(g: Seq<Cell>, n: nat)
    requires
        grid_wf(g),
        n <= 81,
    ensures
        weight_upto(g, n) <= 10 * n,
    decreases n,
{
    if n > 0 {
        lemma_weight_bound(g, (n - 1) as nat);
        match g[n - 1] {
            Cell::Placed(_) => {},
            Cell::Open(m) => {
                m.lemma_count();
            },
        }
    }
}

/// The scheduler always comes to an end: it takes at most nine steps for
/// each unit of the grid's weight and nine more, 7299 at most.
pub proof fn lemma_run_steps(pass: Pass, g: Seq<Cell>, cursor: int, idle: int)
    requires
        grid_wf(g),
        0 <= cursor < 9,
        0 <= idle <= 9,
    ensures
        run_steps(pass, g, cursor, idle) <= 9 * grid_weight(g) + 9 - idle,
        run_steps(pass, g, cursor, idle) <= 7299,
    decreases grid_weight(g), 9 - idle,
{
    lemma_weight_bound(g, 81);
    if idle < 9 {
        lemma_next_pending(g, cursor);
        match next_pending(g, cursor) {
            None => {},
            Some(b) => {
                let g2 = pass_grid(pass, g, b);
                lemma_pass_grid(pass, g, b);
                if g2 == g {
                    lemma_run_steps(pass, g, b, idle + 1);
                } else {
                    lemma_progress(g, g2);
                    lemma_run_steps(pass, g2, b, 0);
                }
            },
        }
    }
}

/// The grid that `solve` ends with: the simple pass, block after block from
/// the block after block 0, until the grid is solved or nothing moves.
pub open spec fn solve_grid(g: Seq<Cell>) -> Seq<Cell> {
    run_grid(Pass::Simple, g, 0, 0)
}

/// Nothing is left to do in block `b` by `pass`: the block is complete,
/// or the pass leaves the grid as it is.
pub open spec fn settled(pass: Pass, g: Seq<Cell>, b: int) -> bool {
    block_complete(g, b) || pass_grid(pass, g, b) == g
}

/// Nothing is left to do in any block by `pass`.
pub open spec fn all_settled(pass: Pass, g: Seq<Cell>) -> bool {
    forall|b: int| 0 <= b < 9 ==> #[trigger] settled(pass, g, b)
}

/// The last `idle` blocks up to `cursor` are settled.
pub open spec fn idle_run(pass: Pass, g: Seq<Cell>, cursor: int, idle: int) -> bool {
    forall|k: int| 0 <= k < idle ==> #[trigger] settled(pass, g, back(cursor, k))
}

/// The block that the scheduler picks lies `t` steps after the cursor, and
/// the blocks before it are complete.
pub proof fn lemma_pending_steps(g: Seq<Cell>, cursor: int, from: int) -> (t: int)
    requires
        0 <= cursor < 9,
        1 <= from <= 10,
        pending_from(g, cursor, from) is Some,
    ensures
        from <= t <= 9,
        pending_from(g, cursor, from) == Some(forth(cursor, t)),
        !block_complete(g, forth(cursor, t)),
        forall|u: int| from <= u < t ==> block_complete(g, #[trigger] forth(cursor, u)),
    decreases 10 - from,
{
    if !block_complete(g, forth(cursor, from)) {
        from
    } else {
        lemma_pending_steps(g, cursor, from + 1)
    }
}

/// After a step that changed nothing, one more block is known to be
/// settled.
pub proof fn lemma_idle_step(pass: Pass, g: Seq<Cell>, cursor: int, idle: int, b: int)
    requires
        0 <= cursor < 9,
        0 <= idle < 9,
        idle_run(pass, g, cursor, idle),
        next_pending(g, cursor) == Some(b),
        pass_grid(pass, g, b) == g,
    ensures
        idle_run(pass, g, b, idle + 1),
{
    let t = lemma_pending_steps(g, cursor, 1);
    assert forall|k: int| 0 <= k < idle + 1 implies #[trigger] settled(pass, g, back(b, k)) by {
        lemma_back_forth(cursor, t, k);
        if k == 0 {
        } else if k < t {
            assert(block_complete(g, forth(cursor, t - k)));
        } else {
            assert(settled(pass, g, back(cursor, k - t)));
        }
    }
}

/// Going `t` steps forth and `k` steps back is going `t - k` steps forth,
/// or `k - t` steps back.
pub proof fn lemma_back_forth(cursor: int, t: int, k: int)
    requires
        0 <= cursor < 9,
        0 <= t <= 9,
        0 <= k <= 9,
    ensures
        0 <= forth(cursor, t) < 9,
        0 <= back(cursor, k) < 9,
        k == 0 ==> back(forth(cursor, t), k) == forth(cursor, t),
        k < t ==> back(forth(cursor, t), k) == forth(cursor, t - k),
        k >= t ==> back(forth(cursor, t), k) == back(cursor, k - t),
{
    lemma_mod_nine(cursor + t);
    lemma_mod_nine(cursor + 9 - k);
    let f = forth(cursor, t);
    lemma_mod_nine(f + 9 - k);
    if k < t {
        lemma_mod_nine(cursor + t - k);
    } else {
        lemma_mod_nine(cursor + 9 - (k - t));
    }
}

/// Nine settled blocks in a row are all the blocks.
pub proof fn lemma_idle_full(pass: Pass, g: Seq<Cell>, cursor: int)
    requires
        0 <= cursor < 9,
        idle_run(pass, g, cursor, 9),
    ensures
        all_settled(pass, g),
{
    assert forall|b: int| 0 <= b < 9 implies #[trigger] settled(pass, g, b) by {
        let k = if b <= cursor {
            cursor - b
        } else {
            cursor + 9 - b
        };
        assert(back(cursor, k) == b);
        assert(settled(pass, g, back(cursor, k)));
    }
}

/// The scheduler ends with a well-formed grid that comes from the first by
/// removing candidates and placing digits, and in which nothing is left to
/// do in any block.
pub proof fn lemma_run_grid(pass: Pass, g: Seq<Cell>, cursor: int, idle: int)
    requires
        grid_wf(g),
        0 <= cursor < 9,
        0 <= idle <= 9,
        idle_run(pass, g, cursor, idle),
    ensures
        grid_wf(run_grid(pass, g, cursor, idle)),
        refines(g, run_grid(pass, g, cursor, idle)),
        all_settled(pass, run_grid(pass, g, cursor, idle)),
    decreases grid_weight(g), 9 - idle,
{
    lemma_refines_self(g);
    if idle >= 9 {
        lemma_idle_full(pass, g, cursor);
    } else {
        lemma_next_pending(g, cursor);
        match next_pending(g, cursor) {
            None => {
                assert forall|b: int| 0 <= b < 9 implies #[trigger] settled(pass, g, b) by {
                    assert forall|j: int| in_grid(j) && block_of(j) == b implies (
                    #[trigger] g[j]) is Placed by {}
                }
            },
            Some(b) => {
                let g2 = pass_grid(pass, g, b);
                lemma_pass_grid(pass, g, b);
                if g2 == g {
                    lemma_idle_step(pass, g, cursor, idle, b);
                    lemma_run_grid(pass, g, b, idle + 1);
                } else {
                    lemma_progress(g, g2);
                    lemma_run_grid(pass, g2, b, 0);
                    lemma_refines_trans(g, g2, run_grid(pass, g2, b, 0));
                }
            },
        }
    }
}

/// Leaving a grid as it is is something a technique may do.
pub proof fn lemma_refines_self(g: Seq<Cell>)
    ensures
        refines(g, g),
{
    assert forall|i: int| 0 <= i < 81 implies cell_refines(g[i], g[i]) by {
        match g[i] {
            Cell::Placed(_) => {},
            Cell::Open(c) => {},
        }
    }
}

/// Where nothing is left to do in any block, the scheduler ends with the
/// grid it was given.
pub proof fn lemma_run_settled(pass: Pass, g: Seq<Cell>, cursor: int, idle: int)
    requires
        grid_wf(g),
        0 <= cursor < 9,
        0 <= idle <= 9,
        all_settled(pass, g),
    ensures
        run_grid(pass, g, cursor, idle) == g,
    decreases 9 - idle,
{
    if idle < 9 {
        lemma_next_pending(g, cursor);
        match next_pending(g, cursor) {
            None => {},
            Some(b) => {
                assert(settled(pass, g, b));
                lemma_run_settled(pass, g, b, idle + 1);
            },
        }
    }
}

/// How the scheduler's work ended.
#[derive(Clone, Copy, Debug, PartialEq, Eq, Structural)]
pub enum Outcome {
    /// Every cell is placed.
    Solved,
    /// Cells are open, and the pass changes nothing in any block.
    Stalled,
}

/// The scheduler's work, brought to its end.
#[derive(Clone, Copy, Debug, PartialEq, Eq)]
pub struct FixpointRun {
    /// The solver at the end.
    pub solver: Solver,
    /// How the work ended.
    pub outcome: Outcome,
    /// The number of steps taken: of passes applied to a block.
    pub steps: usize,
}

/// Applies `pass` to block after block, as the scheduler picks them, until
/// every block is complete or nine steps in a row have changed nothing: by
/// then every block that is not complete has been tried in vain. Every step
/// that changes the board takes from its weight, so the work always ends.
pub fn run_to_fixpoint(solver: Solver, pass: Pass) -> (end: FixpointRun)
    requires
        solver.wf(),
    ensures
        end.solver.wf(),
        end.solver.grid() == run_grid(pass, solver.grid(), solver.cursor(), 0),
        end.outcome == Outcome::Solved <==> grid_solved(end.solver.grid()),
        end.steps == run_steps(pass, solver.grid(), solver.cursor(), 0),
        end.steps <= 9 * grid_weight(solver.grid()) + 9,
        all_settled(pass, end.solver.grid()),
        refines(solver.grid(), end.solver.grid()),
{
    let ghost g0 = solver.grid();
    let ghost c0 = solver.cursor();
    let mut current = solver;
    let mut idle: u8 = 0;
    let mut steps: usize = 0;
    let mut outcome = Outcome::Stalled;
    let mut unsolved = true;
    proof {
        lemma_run_steps(pass, g0, c0, 0);
    }
    while unsolved
        invariant
            current.wf(),
            idle <= 9,
            grid_wf(g0),
            0 <= c0 < 9,
            run_steps(pass, g0, c0, 0) <= 7299,
            unsolved ==> run_grid(pass, g0, c0, 0) == run_grid(
                pass,
                current.grid(),
                current.cursor(),
                idle as int,
            ),
            unsolved ==> run_steps(pass, g0, c0, 0) == steps + run_steps(
                pass,
                current.grid(),
                current.cursor(),
                idle as int,
            ),
            !unsolved ==> run_grid(pass, g0, c0, 0) == current.grid(),
            !unsolved ==> run_steps(pass, g0, c0, 0) == steps,
            !unsolved ==> (outcome == Outcome::Solved <==> grid_solved(current.grid())),
            unsolved ==> outcome == Outcome::Stalled,
            idle > 0 ==> !block_complete(current.grid(), current.cursor()),
        decreases grid_weight(current.grid()), 9 - idle, if unsolved { 1int } else { 0int },
    {
        let ghost g = current.grid();
        let ghost c = current.cursor();
        proof {
            lemma_next_pending(g, c);
        }
        if idle >= 9 {
            proof {
                if grid_solved(g) {
                    assert forall|j: int| in_grid(j) && block_of(j) == c implies (
                    #[trigger] g[j]) is Placed by {}
                }
            }
            unsolved = false;
        } else {
            match current.get_unsolved_box() {
                None => {
                    outcome = Outcome::Solved;
                    unsolved = false;
                },
                Some(current_box) => {
                    let ghost b = current_box.id();
                    let next = apply_pass(current, current_box, pass);
                    proof {
                        lemma_pass_grid(pass, g, b);
                        lemma_progress(g, next.grid());
                    }
                    if next.get_board().same_as(&current.get_board()) {
                        idle = idle + 1;
                    } else {
                        idle = 0;
                    }
                    steps = steps + 1;
                    current = next;
                },
            }
        }
    }
    proof {
        assert(idle_run(pass, g0, c0, 0));
        lemma_run_grid(pass, g0, c0, 0);
    }
    FixpointRun { solver: current, outcome, steps }
}

/// Solves as far as the simple pass goes: box-line reduction and hidden
/// single, block after block, until every cell is placed or nothing moves.
/// Never guesses. A board that cannot be finished this way comes back with
/// open cells.
pub fn solve(board: Board) -> (solved: Board)
    requires
        board.wf(),
    ensures
        solved@ == solve_grid(board@),
        solved.wf(),
        refines(board@, solved@),
        all_settled(Pass::Simple, solved@),
{
    let solver = Solver::init_with_board(board);
    let end = run_to_fixpoint(solver, Pass::Simple);
    end.solver.get_board()
}

} // verus!
