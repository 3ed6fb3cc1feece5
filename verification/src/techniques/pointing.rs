//! Pointing: what a neighbouring block claims for a row or a column cannot
//! go into that row or column here.

use crate::board::{candidate_at, Board, Cell};
use crate::candidates::CandidateSet;
use crate::geometry::{
    block_cell, block_col, block_has_col, block_has_row, block_of, block_row, col_of, in_grid,
    lemma_block_cell, lemma_cell_at, lemma_place_in_block, row_of, SudokuBox,
};
use crate::techniques::{refines, same_outside_block, strike_block, strike_in_block};
use vstd::prelude::*;

verus! {

/// Digit `d` is a candidate of a cell of block `a` in row `r`.
pub open spec fn candidate_in_block_row(g: Seq<Cell>, a: int, r: int, d: u8) -> bool {
    exists|j: int|
        in_grid(j) && block_of(j) == a && row_of(j) == r && #[trigger] candidate_at(g, j, d)
}

/// Digit `d` is a candidate of a cell of block `a` outside row `r`.
pub open spec fn candidate_in_block_off_row(g: Seq<Cell>, a: int, r: int, d: u8) -> bool {
    exists|j: int|
        in_grid(j) && block_of(j) == a && row_of(j) != r && #[trigger] candidate_at(g, j, d)
}

/// Within block `a`, digit `d` is a candidate in row `r` and nowhere
/// else: the block claims the digit for that row.
pub open spec fn row_claimed_by(g: Seq<Cell>, a: int, r: int, d: u8) -> bool {
    candidate_in_block_row(g, a, r, d) && !candidate_in_block_off_row(g, a, r, d)
}

/// One of the two blocks beside block `b` in its band claims digit `d`
/// for row `r`.
pub open spec fn row_claimed(g: Seq<Cell>, b: int, r: int, d: u8) -> bool {
    exists|a: int|
        0 <= a < 9 && a != b && a / 3 == b / 3 && #[trigger] row_claimed_by(g, a, r, d)
}

/// The candidates of the cells of the block in row `row`.
pub fn pencilmarks_in_row(board: &Board, bx: &SudokuBox, row: usize) -> (r: CandidateSet)
    requires
        board.wf(),
        bx.wf(),
        block_has_row(bx.id(), row as int),
    ensures
        r.wf(),
        forall|d: u8| r.has(d) == candidate_in_block_row(board@, bx.id(), row as int, d),
{
    let inside = bx.row_inds_inside_box(row);
    let ghost a = bx.id();
    proof {
        bx.lemma_id();
        assert forall|k: int| 0 <= k < 3 implies #[trigger] inside[k] < 81 by {
            lemma_cell_at(row as int, block_col(a, k));
        }
    }
    let r = board.pencilmarks_among(&inside);
    proof {
        assert forall|d: u8| r.has(d) == candidate_in_block_row(board@, a, row as int, d) by {
            if r.has(d) {
                let k = choose|k: int|
                    0 <= k < 3 && #[trigger] candidate_at(board@, inside[k] as int, d);
                lemma_cell_at(row as int, block_col(a, k));
                assert(candidate_at(board@, 9 * row + block_col(a, k), d));
            }
            if candidate_in_block_row(board@, a, row as int, d) {
                let j = choose|j: int|
                    in_grid(j) && block_of(j) == a && row_of(j) == row && #[trigger] candidate_at(
                        board@,
                        j,
                        d,
                    );
                lemma_place_in_block(j);
                let k = col_of(j) % 3;
                assert(inside[k] == j);
                assert(candidate_at(board@, inside[k] as int, d));
            }
        }
    }
    r
}

/// The digits that the block claims for row `row`: its candidates in that
/// row that are candidates nowhere else in the block.
pub fn claimed_in_row(board: &Board, bx: &SudokuBox, row: usize) -> (r: CandidateSet)
    requires
        board.wf(),
        bx.wf(),
        block_has_row(bx.id(), row as int),
    ensures
        r.wf(),
        forall|d: u8| r.has(d) == row_claimed_by(board@, bx.id(), row as int, d),
{
    let ghost g = board@;
    let ghost a = bx.id();
    proof {
        bx.lemma_id();
    }
    let here = pencilmarks_in_row(board, bx, row);
    let lines = bx.rows();
    let mut off = CandidateSet::empty();
    let mut k: usize = 0;
    while k < 3
        invariant
            k <= 3,
            board.wf(),
            bx.wf(),
            g == board@,
            a == bx.id(),
            0 <= a < 9,
            off.wf(),
            forall|n: int| 0 <= n < 3 ==> #[trigger] lines[n] == block_row(a, n),
            forall|d: u8|
                off.has(d) == exists|n: int|
                    0 <= n < k && block_row(a, n) != row && #[trigger] candidate_in_block_row(
                        g,
                        a,
                        block_row(a, n),
                        d,
                    ),
        decreases 3 - k,
    {
        let other = lines[k];
        assert(lines[k as int] == block_row(a, k as int));
        let ghost before = off;
        if other != row {
            let there = pencilmarks_in_row(board, bx, other);
            off = off.union(&there);
        }
        proof {
            assert forall|d: u8|
                off.has(d) == exists|n: int|
                    0 <= n < k + 1 && block_row(a, n) != row && #[trigger] candidate_in_block_row(
                        g,
                        a,
                        block_row(a, n),
                        d,
                    ) by {
                if before.has(d) {
                    let n = choose|n: int|
                        0 <= n < k && block_row(a, n) != row && #[trigger] candidate_in_block_row(
                            g,
                            a,
                            block_row(a, n),
                            d,
                        );
                    assert(candidate_in_block_row(g, a, block_row(a, n), d));
                }
                if other != row && candidate_in_block_row(g, a, block_row(a, k as int), d) {
                    assert(off.has(d));
                }
                if exists|n: int|
                    0 <= n < k + 1 && block_row(a, n) != row && #[trigger] candidate_in_block_row(
                        g,
                        a,
                        block_row(a, n),
                        d,
                    ) {
                    let n = choose|n: int|
                        0 <= n < k + 1 && block_row(a, n) != row && #[trigger] candidate_in_block_row(
                            g,
                            a,
                            block_row(a, n),
                            d,
                        );
                    if n < k {
                        assert(before.has(d));
                    }
                }
            }
        }
        k = k + 1;
    }
    let r = here.difference(&off);
    proof {
        assert forall|d: u8| off.has(d) == candidate_in_block_off_row(g, a, row as int, d) by {
            if off.has(d) {
                let n = choose|n: int|
                    0 <= n < 3 && block_row(a, n) != row && #[trigger] candidate_in_block_row(
                        g,
                        a,
                        block_row(a, n),
                        d,
                    );
                let j = choose|j: int|
                    in_grid(j) && block_of(j) == a && row_of(j) == block_row(a, n)
                        && #[trigger] candidate_at(g, j, d);
                assert(candidate_at(g, j, d));
            }
            if candidate_in_block_off_row(g, a, row as int, d) {
                let j = choose|j: int|
                    in_grid(j) && block_of(j) == a && row_of(j) != row && #[trigger] candidate_at(
                        g,
                        j,
                        d,
                    );
                lemma_place_in_block(j);
                let n = row_of(j) % 3;
                assert(block_row(a, n) == row_of(j));
                assert(candidate_at(g, j, d));
                assert(candidate_in_block_row(g, a, block_row(a, n), d));
            }
        }
    }
    r
}

/// The digits that the two blocks beside the block in its band claim for
/// row `row`.
pub fn claimed_beside_in_row(board: &Board, bx: &SudokuBox, row: usize) -> (r: CandidateSet)
    requires
        board.wf(),
        bx.wf(),
        block_has_row(bx.id(), row as int),
    ensures
        r.wf(),
        forall|d: u8| r.has(d) == row_claimed(board@, bx.id(), row as int, d),
{
    let ghost g = board@;
    let ghost b = bx.id();
    let idx = bx.index();
    let mut r = CandidateSet::empty();
    let mut t: usize = 0;
    while t < 3
        invariant
            t <= 3,
            board.wf(),
            g == board@,
            b == idx,
            idx < 9,
            block_has_row(b, row as int),
            r.wf(),
            forall|d: u8|
                r.has(d) == exists|n: int|
                    0 <= n < t && 3 * (b / 3) + n != b && #[trigger] row_claimed_by(
                        g,
                        3 * (b / 3) + n,
                        row as int,
                        d,
                    ),
        decreases 3 - t,
    {
        let a = 3 * (idx / 3) + t;
        let ghost before = r;
        if a != idx {
            let beside = SudokuBox::of_index(a);
            let claim = claimed_in_row(board, &beside, row);
            r = r.union(&claim);
        }
        proof {
            assert forall|d: u8|
                r.has(d) == exists|n: int|
                    0 <= n < t + 1 && 3 * (b / 3) + n != b && #[trigger] row_claimed_by(
                        g,
                        3 * (b / 3) + n,
                        row as int,
                        d,
                    ) by {
                if before.has(d) {
                    let n = choose|n: int|
                        0 <= n < t && 3 * (b / 3) + n != b && #[trigger] row_claimed_by(
                            g,
                            3 * (b / 3) + n,
                            row as int,
                            d,
                        );
                    assert(row_claimed_by(g, 3 * (b / 3) + n, row as int, d));
                }
                if a != idx && row_claimed_by(g, a as int, row as int, d) {
                    assert(r.has(d));
                    assert(row_claimed_by(g, 3 * (b / 3) + t as int, row as int, d));
                }
                if exists|n: int|
                    0 <= n < t + 1 && 3 * (b / 3) + n != b && #[trigger] row_claimed_by(
                        g,
                        3 * (b / 3) + n,
                        row as int,
                        d,
                    ) {
                    let n = choose|n: int|
                        0 <= n < t + 1 && 3 * (b / 3) + n != b && #[trigger] row_claimed_by(
                            g,
                            3 * (b / 3) + n,
                            row as int,
                            d,
                        );
                    if n < t {
                        assert(before.has(d));
                    }
                }
            }
        }
        t = t + 1;
    }
    proof {
        assert forall|d: u8| r.has(d) == row_claimed(g, b, row as int, d) by {
            if r.has(d) {
                let n = choose|n: int|
                    0 <= n < 3 && 3 * (b / 3) + n != b && #[trigger] row_claimed_by(
                        g,
                        3 * (b / 3) + n,
                        row as int,
                        d,
                    );
                assert(row_claimed_by(g, 3 * (b / 3) + n, row as int, d));
            }
            if row_claimed(g, b, row as int, d) {
                let a = choose|a: int|
                    0 <= a < 9 && a != b && a / 3 == b / 3 && #[trigger] row_claimed_by(
                        g,
                        a,
                        row as int,
                        d,
                    );
                let n = a % 3;
                assert(3 * (b / 3) + n == a);
                assert(row_claimed_by(g, 3 * (b / 3) + n, row as int, d));
            }
        }
    }
    r
}

/// Digit `d` is a candidate of a cell of block `a` in column `c`.
pub open spec fn candidate_in_block_col(g: Seq<Cell>, a: int, c: int, d: u8) -> bool {
    exists|j: int|
        in_grid(j) && block_of(j) == a && col_of(j) == c && #[trigger] candidate_at(g, j, d)
}

/// Digit `d` is a candidate of a cell of block `a` outside column `c`.
pub open spec fn candidate_in_block_off_col(g: Seq<Cell>, a: int, c: int, d: u8) -> bool {
    exists|j: int|
        in_grid(j) && block_of(j) == a && col_of(j) != c && #[trigger] candidate_at(g, j, d)
}

/// Within block `a`, digit `d` is a candidate in column `c` and nowhere
/// else: the block claims the digit for that column.
pub open spec fn col_claimed_by(g: Seq<Cell>, a: int, c: int, d: u8) -> bool {
    candidate_in_block_col(g, a, c, d) && !candidate_in_block_off_col(g, a, c, d)
}

/// One of the two blocks beside block `b` in its stack claims digit `d`
/// for column `c`.
pub open spec fn col_claimed(g: Seq<Cell>, b: int, c: int, d: u8) -> bool {
    exists|a: int|
        0 <= a < 9 && a != b && a % 3 == b % 3 && #[trigger] col_claimed_by(g, a, c, d)
}

/// The candidates of the cells of the block in column `col`.
pub fn pencilmarks_in_col(board: &Board, bx: &SudokuBox, col: usize) -> (r: CandidateSet)
    requires
        board.wf(),
        bx.wf(),
        block_has_col(bx.id(), col as int),
    ensures
        r.wf(),
        forall|d: u8| r.has(d) == candidate_in_block_col(board@, bx.id(), col as int, d),
{
    let inside = bx.col_inds_inside_box(col);
    let ghost a = bx.id();
    proof {
        bx.lemma_id();
        assert forall|k: int| 0 <= k < 3 implies #[trigger] inside[k] < 81 by {
            lemma_cell_at(block_row(a, k), col as int);
        }
    }
    let r = board.pencilmarks_among(&inside);
    proof {
        assert forall|d: u8| r.has(d) == candidate_in_block_col(board@, a, col as int, d) by {
            if r.has(d) {
                let k = choose|k: int|
                    0 <= k < 3 && #[trigger] candidate_at(board@, inside[k] as int, d);
                lemma_cell_at(block_row(a, k), col as int);
                assert(candidate_at(board@, 9 * block_row(a, k) + col, d));
            }
            if candidate_in_block_col(board@, a, col as int, d) {
                let j = choose|j: int|
                    in_grid(j) && block_of(j) == a && col_of(j) == col && #[trigger] candidate_at(
                        board@,
                        j,
                        d,
                    );
                lemma_place_in_block(j);
                let k = row_of(j) % 3;
                assert(inside[k] == j);
                assert(candidate_at(board@, inside[k] as int, d));
            }
        }
    }
    r
}

/// The digits that the block claims for column `col`: its candidates in that
/// column that are candidates nowhere else in the block.
pub fn claimed_in_col(board: &Board, bx: &SudokuBox, col: usize) -> (r: CandidateSet)
    requires
        board.wf(),
        bx.wf(),
        block_has_col(bx.id(), col as int),
    ensures
        r.wf(),
        forall|d: u8| r.has(d) == col_claimed_by(board@, bx.id(), col as int, d),
{
    let ghost g = board@;
    let ghost a = bx.id();
    proof {
        bx.lemma_id();
    }
    let here = pencilmarks_in_col(board, bx, col);
    let lines = bx.cols();
    let mut off = CandidateSet::empty();
    let mut k: usize = 0;
    while k < 3
        invariant
            k <= 3,
            board.wf(),
            bx.wf(),
            g == board@,
            a == bx.id(),
            0 <= a < 9,
            off.wf(),
            forall|n: int| 0 <= n < 3 ==> #[trigger] lines[n] == block_col(a, n),
            forall|d: u8|
                off.has(d) == exists|n: int|
                    0 <= n < k && block_col(a, n) != col && #[trigger] candidate_in_block_col(
                        g,
                        a,
                        block_col(a, n),
                        d,
                    ),
        decreases 3 - k,
    {
        let other = lines[k];
        assert(lines[k as int] == block_col(a, k as int));
        let ghost before = off;
        if other != col {
            let there = pencilmarks_in_col(board, bx, other);
            off = off.union(&there);
        }
        proof {
            assert forall|d: u8|
                off.has(d) == exists|n: int|
                    0 <= n < k + 1 && block_col(a, n) != col && #[trigger] candidate_in_block_col(
                        g,
                        a,
                        block_col(a, n),
                        d,
                    ) by {
                if before.has(d) {
                    let n = choose|n: int|
                        0 <= n < k && block_col(a, n) != col && #[trigger] candidate_in_block_col(
                            g,
                            a,
                            block_col(a, n),
                            d,
                        );
                    assert(candidate_in_block_col(g, a, block_col(a, n), d));
                }
                if other != col && candidate_in_block_col(g, a, block_col(a, k as int), d) {
                    assert(off.has(d));
                }
                if exists|n: int|
                    0 <= n < k + 1 && block_col(a, n) != col && #[trigger] candidate_in_block_col(
                        g,
                        a,
                        block_col(a, n),
                        d,
                    ) {
                    let n = choose|n: int|
                        0 <= n < k + 1 && block_col(a, n) != col && #[trigger] candidate_in_block_col(
                            g,
                            a,
                            block_col(a, n),
                            d,
                        );
                    if n < k {
                        assert(before.has(d));
                    }
                }
            }
        }
        k = k + 1;
    }
    let r = here.difference(&off);
    proof {
        assert forall|d: u8| off.has(d) == candidate_in_block_off_col(g, a, col as int, d) by {
            if off.has(d) {
                let n = choose|n: int|
                    0 <= n < 3 && block_col(a, n) != col && #[trigger] candidate_in_block_col(
                        g,
                        a,
                        block_col(a, n),
                        d,
                    );
                let j = choose|j: int|
                    in_grid(j) && block_of(j) == a && col_of(j) == block_col(a, n)
                        && #[trigger] candidate_at(g, j, d);
                assert(candidate_at(g, j, d));
            }
            if candidate_in_block_off_col(g, a, col as int, d) {
                let j = choose|j: int|
                    in_grid(j) && block_of(j) == a && col_of(j) != col && #[trigger] candidate_at(
                        g,
                        j,
                        d,
                    );
                lemma_place_in_block(j);
                let n = col_of(j) % 3;
                assert(block_col(a, n) == col_of(j));
                assert(candidate_at(g, j, d));
                assert(candidate_in_block_col(g, a, block_col(a, n), d));
            }
        }
    }
    r
}

/// The digits that the two blocks beside the block in its stack claim for
/// column `col`.
pub fn claimed_beside_in_col(board: &Board, bx: &SudokuBox, col: usize) -> (r: CandidateSet)
    requires
        board.wf(),
        bx.wf(),
        block_has_col(bx.id(), col as int),
    ensures
        r.wf(),
        forall|d: u8| r.has(d) == col_claimed(board@, bx.id(), col as int, d),
{
    let ghost g = board@;
    let ghost b = bx.id();
    let idx = bx.index();
    let mut r = CandidateSet::empty();
    let mut t: usize = 0;
    while t < 3
        invariant
            t <= 3,
            board.wf(),
            g == board@,
            b == idx,
            idx < 9,
            block_has_col(b, col as int),
            r.wf(),
            forall|d: u8|
                r.has(d) == exists|n: int|
                    0 <= n < t && b % 3 + 3 * n != b && #[trigger] col_claimed_by(
                        g,
                        b % 3 + 3 * n,
                        col as int,
                        d,
                    ),
        decreases 3 - t,
    {
        let a = idx % 3 + 3 * t;
        let ghost before = r;
        if a != idx {
            let beside = SudokuBox::of_index(a);
            let claim = claimed_in_col(board, &beside, col);
            r = r.union(&claim);
        }
        proof {
            assert forall|d: u8|
                r.has(d) == exists|n: int|
                    0 <= n < t + 1 && b % 3 + 3 * n != b && #[trigger] col_claimed_by(
                        g,
                        b % 3 + 3 * n,
                        col as int,
                        d,
                    ) by {
                if before.has(d) {
                    let n = choose|n: int|
                        0 <= n < t && b % 3 + 3 * n != b && #[trigger] col_claimed_by(
                            g,
                            b % 3 + 3 * n,
                            col as int,
                            d,
                        );
                    assert(col_claimed_by(g, b % 3 + 3 * n, col as int, d));
                }
                if a != idx && col_claimed_by(g, a as int, col as int, d) {
                    assert(r.has(d));
                    assert(col_claimed_by(g, b % 3 + 3 * t as int, col as int, d));
                }
                if exists|n: int|
                    0 <= n < t + 1 && b % 3 + 3 * n != b && #[trigger] col_claimed_by(
                        g,
                        b % 3 + 3 * n,
                        col as int,
                        d,
                    ) {
                    let n = choose|n: int|
                        0 <= n < t + 1 && b % 3 + 3 * n != b && #[trigger] col_claimed_by(
                            g,
                            b % 3 + 3 * n,
                            col as int,
                            d,
                        );
                    if n < t {
                        assert(before.has(d));
                    }
                }
            }
        }
        t = t + 1;
    }
    proof {
        assert forall|d: u8| r.has(d) == col_claimed(g, b, col as int, d) by {
            if r.has(d) {
                let n = choose|n: int|
                    0 <= n < 3 && b % 3 + 3 * n != b && #[trigger] col_claimed_by(
                        g,
                        b % 3 + 3 * n,
                        col as int,
                        d,
                    );
                assert(col_claimed_by(g, b % 3 + 3 * n, col as int, d));
            }
            if col_claimed(g, b, col as int, d) {
                let a = choose|a: int|
                    0 <= a < 9 && a != b && a % 3 == b % 3 && #[trigger] col_claimed_by(
                        g,
                        a,
                        col as int,
                        d,
                    );
                let n = a / 3;
                assert(b % 3 + 3 * n == a);
                assert(col_claimed_by(g, b % 3 + 3 * n, col as int, d));
            }
        }
    }
    r
}

/// What pointing strikes from cell `i` of block `b`: the digits that a block
/// beside `b` claims for the cell's row or for its column.
pub open spec fn pointing_struck(g: Seq<Cell>, b: int) -> spec_fn(int, u8) -> bool {
    |i: int, d: u8| row_claimed(g, b, row_of(i), d) || col_claimed(g, b, col_of(i), d)
}

/// The grid after pointing in block `b`. Where, within a block beside `b`
/// in its band, a digit is a candidate in one row only, the digit must go
/// into that row there, so it is struck from the cells of `b` in that row.
/// Columns and the blocks of the stack are treated alike.
pub open spec fn pointing_grid(g: Seq<Cell>, b: int) -> Seq<Cell> {
    strike_in_block(g, b, pointing_struck(g, b))
}

/// Pointing: strikes from each open cell of the block the digits that a
/// neighbouring block claims for the cell's row or column. A block claims a
/// digit for a row if, among its own cells, the digit is a candidate in that
/// row and in no other row; the neighbours are the two other blocks of the
/// band. For columns, they are the two other blocks of the stack.
pub fn place_derived_pencilmarks(board: Board, current_box: &SudokuBox) -> (next: Board)
    requires
        board.wf(),
        current_box.wf(),
    ensures
        next@ == pointing_grid(board@, current_box.id()),
        next.wf(),
        refines(board@, next@),
        same_outside_block(board@, next@, current_box.id()),
{
    let ghost g = board@;
    let ghost b = current_box.id();
    proof {
        current_box.lemma_id();
    }
    let rows = current_box.rows();
    let cols = current_box.cols();
    let mut row_claims: [CandidateSet; 3] = [CandidateSet::empty(); 3];
    let mut col_claims: [CandidateSet; 3] = [CandidateSet::empty(); 3];
    let mut a: usize = 0;
    while a < 3
        invariant
            a <= 3,
            board.wf(),
            current_box.wf(),
            g == board@,
            b == current_box.id(),
            0 <= b < 9,
            forall|k: int| 0 <= k < 3 ==> #[trigger] rows[k] == 3 * (b / 3) + k,
            forall|k: int| 0 <= k < 3 ==> #[trigger] cols[k] == 3 * (b % 3) + k,
            forall|k: int| 0 <= k < a ==> (#[trigger] row_claims[k]).wf(),
            forall|k: int| 0 <= k < a ==> (#[trigger] col_claims[k]).wf(),
            forall|k: int, d: u8|
                0 <= k < a ==> (#[trigger] row_claims[k].has(d)) == row_claimed(
                    g,
                    b,
                    3 * (b / 3) + k,
                    d,
                ),
            forall|k: int, d: u8|
                0 <= k < a ==> (#[trigger] col_claims[k].has(d)) == col_claimed(
                    g,
                    b,
                    3 * (b % 3) + k,
                    d,
                ),
        decreases 3 - a,
    {
        assert(rows[a as int] == 3 * (b / 3) + a);
        assert(cols[a as int] == 3 * (b % 3) + a);
        let in_row = claimed_beside_in_row(&board, current_box, rows[a]);
        let in_col = claimed_beside_in_col(&board, current_box, cols[a]);
        row_claims[a] = in_row;
        col_claims[a] = in_col;
        a = a + 1;
    }
    let mut strikes: [CandidateSet; 9] = [CandidateSet::empty(); 9];
    let mut p: usize = 0;
    while p < 9
        invariant
            p <= 9,
            0 <= b < 9,
            forall|k: int| 0 <= k < 3 ==> (#[trigger] row_claims[k]).wf(),
            forall|k: int| 0 <= k < 3 ==> (#[trigger] col_claims[k]).wf(),
            forall|k: int, d: u8|
                0 <= k < 3 ==> (#[trigger] row_claims[k].has(d)) == row_claimed(
                    g,
                    b,
                    3 * (b / 3) + k,
                    d,
                ),
            forall|k: int, d: u8|
                0 <= k < 3 ==> (#[trigger] col_claims[k].has(d)) == col_claimed(
                    g,
                    b,
                    3 * (b % 3) + k,
                    d,
                ),
            forall|q: int, d: u8|
                0 <= q < p ==> (#[trigger] strikes[q].has(d)) == pointing_struck(g, b)(
                    block_cell(b, q),
                    d,
                ),
        decreases 9 - p,
    {
        assert(row_claims[(p / 3) as int].wf());
        assert(col_claims[(p % 3) as int].wf());
        let all = row_claims[p / 3].union(&col_claims[p % 3]);
        strikes[p] = all;
        proof {
            lemma_block_cell(b, p as int);
            assert forall|d: u8| all.has(d) == pointing_struck(g, b)(block_cell(b, p as int), d) by {
                assert(row_claims[(p / 3) as int].has(d) == row_claimed(
                    g,
                    b,
                    3 * (b / 3) + (p / 3) as int,
                    d,
                ));
                assert(col_claims[(p % 3) as int].has(d) == col_claimed(
                    g,
                    b,
                    3 * (b % 3) + (p % 3) as int,
                    d,
                ));
            }
        }
        p = p + 1;
    }
    strike_block(&board, current_box, &strikes, Ghost(pointing_struck(g, b)))
}

} // verus!
