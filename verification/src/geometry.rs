//! Rows, columns and blocks of the grid.
//!
//! The 81 cells are numbered row by row: cell `9 * row + col`. The nine
//! blocks are numbered the same way, three to a band: block
//! `3 * (row / 3) + col / 3`.

use vstd::prelude::*;

verus! {

/// `i` is the number of a cell.
pub open spec fn in_grid(i: int) -> bool {
    0 <= i < 81
}

/// The row of cell `i`.
pub open spec fn row_of(i: int) -> int {
    i / 9
}

/// The column of cell `i`.
pub open spec fn col_of(i: int) -> int {
    i % 9
}

/// The block of cell `i`.
pub open spec fn block_of(i: int) -> int {
    3 * (row_of(i) / 3) + col_of(i) / 3
}

/// Cells `i` and `j` lie in one row, one column or one block. Every cell
/// shares a unit with itself.
pub open spec fn shares_unit(i: int, j: int) -> bool {
    row_of(i) == row_of(j) || col_of(i) == col_of(j) || block_of(i) == block_of(j)
}

/// Row `r` passes through block `b`.
pub open spec fn block_has_row(b: int, r: int) -> bool {
    0 <= r < 9 && r / 3 == b / 3
}

/// Column `c` passes through block `b`.
pub open spec fn block_has_col(b: int, c: int) -> bool {
    0 <= c < 9 && c / 3 == b % 3
}

/// The `k`-th row of block `b`, for `k` in 0..3.
pub open spec fn block_row(b: int, k: int) -> int {
    3 * (b / 3) + k
}

/// The `k`-th column of block `b`, for `k` in 0..3.
pub open spec fn block_col(b: int, k: int) -> int {
    3 * (b % 3) + k
}

/// The `p`-th cell of block `b` in ascending order, for `p` in 0..9.
pub open spec fn block_cell(b: int, p: int) -> int {
    9 * block_row(b, p / 3) + block_col(b, p % 3)
}

/// The place of cell `i` within its block: `block_cell(block_of(i), place_in_block(i)) == i`.
pub open spec fn place_in_block(i: int) -> int {
    3 * (row_of(i) % 3) + col_of(i) % 3
}

/// The `k`-th column, in ascending order, that does not pass through block
/// `b`, for `k` in 0..6.
pub open spec fn outside_col(b: int, k: int) -> int {
    if k < 3 * (b % 3) {
        k
    } else {
        k + 3
    }
}

/// The `k`-th row, in ascending order, that does not pass through block
/// `b`, for `k` in 0..6.
pub open spec fn outside_row(b: int, k: int) -> int {
    if k < 3 * (b / 3) {
        k
    } else {
        k + 3
    }
}

/// The cells of a block are cells of the grid, lie in that block, and are
/// found again by their place.
pub proof fn lemma_block_cell(b: int, p: int)
    requires
        0 <= b < 9,
        0 <= p < 9,
    ensures
        in_grid(block_cell(b, p)),
        block_of(block_cell(b, p)) == b,
        place_in_block(block_cell(b, p)) == p,
        row_of(block_cell(b, p)) == block_row(b, p / 3),
        col_of(block_cell(b, p)) == block_col(b, p % 3),
{
}

/// Every cell is the cell of its block at its place.
pub proof fn lemma_place_in_block(i: int)
    requires
        in_grid(i),
    ensures
        0 <= block_of(i) < 9,
        0 <= place_in_block(i) < 9,
        0 <= row_of(i) < 9,
        0 <= col_of(i) < 9,
        block_cell(block_of(i), place_in_block(i)) == i,
        block_has_row(block_of(i), row_of(i)),
        block_has_col(block_of(i), col_of(i)),
        i == 9 * row_of(i) + col_of(i),
{
}

/// The columns outside a block are the columns that do not pass through it.
pub proof fn lemma_outside_col(b: int, k: int)
    requires
        0 <= b < 9,
        0 <= k < 6,
    ensures
        0 <= outside_col(b, k) < 9,
        !block_has_col(b, outside_col(b, k)),
{
}

/// A column that does not pass through a block is one of the six outside it.
pub proof fn lemma_outside_col_index(b: int, c: int) -> (k: int)
    requires
        0 <= b < 9,
        0 <= c < 9,
        !block_has_col(b, c),
    ensures
        0 <= k < 6,
        outside_col(b, k) == c,
{
    if c < 3 * (b % 3) {
        c
    } else {
        c - 3
    }
}

/// The rows outside a block are the rows that do not pass through it.
pub proof fn lemma_outside_row(b: int, k: int)
    requires
        0 <= b < 9,
        0 <= k < 6,
    ensures
        0 <= outside_row(b, k) < 9,
        !block_has_row(b, outside_row(b, k)),
{
}

/// A row that does not pass through a block is one of the six outside it.
pub proof fn lemma_outside_row_index(b: int, r: int) -> (k: int)
    requires
        0 <= b < 9,
        0 <= r < 9,
        !block_has_row(b, r),
    ensures
        0 <= k < 6,
        outside_row(b, k) == r,
{
    if r < 3 * (b / 3) {
        r
    } else {
        r - 3
    }
}

/// The cell in row `r` and column `c`.
pub proof fn lemma_cell_at(r: int, c: int)
    requires
        0 <= r < 9,
        0 <= c < 9,
    ensures
        in_grid(9 * r + c),
        row_of(9 * r + c) == r,
        col_of(9 * r + c) == c,
        block_of(9 * r + c) == 3 * (r / 3) + c / 3,
{
}

/// The block that holds cell `idx`.
pub fn get_box_index(idx: usize) -> (bx: u8)
    requires
        idx < 81,
    ensures
        bx == block_of(idx as int),
        bx < 9,
{
    let row = idx / 9;
    let col = idx % 9;
    let band = row / 3;
    let stack = col / 3;
    let bx = 3 * band + stack;
    bx as u8
}

/// One of the nine blocks, with the rows and columns that pass through it
/// and its nine cells. A view of the grid's geometry: it holds no digit.
#[derive(Clone, Copy, Debug)]
pub struct SudokuBox {
    rows: [usize; 3],
    cols: [usize; 3],
    inds: [usize; 9],
    idx: usize,
}

impl SudokuBox {
    /// The number of the block.
    pub closed spec fn id(self) -> int {
        self.idx as int
    }

    /// The rows, columns and cells are those of block `id()`, in ascending
    /// order.
    pub closed spec fn wf(self) -> bool {
        &&& self.idx < 9
        &&& forall|k: int| 0 <= k < 3 ==> #[trigger] self.rows[k] == block_row(self.idx as int, k)
        &&& forall|k: int| 0 <= k < 3 ==> #[trigger] self.cols[k] == block_col(self.idx as int, k)
        &&& forall|p: int| 0 <= p < 9 ==> #[trigger] self.inds[p] == block_cell(self.idx as int, p)
    }

    /// A well-formed block has a number below 9.
    pub proof fn lemma_id(self)
        requires
            self.wf(),
        ensures
            0 <= self.id() < 9,
    {
    }

    /// The block with number `idx`, given its rows and its columns.
    pub fn new(rows: [usize; 3], cols: [usize; 3], idx: usize) -> (bx: SudokuBox)
        requires
            idx < 9,
            forall|k: int| 0 <= k < 3 ==> #[trigger] rows[k] == block_row(idx as int, k),
            forall|k: int| 0 <= k < 3 ==> #[trigger] cols[k] == block_col(idx as int, k),
        ensures
            bx.wf(),
            bx.id() == idx,
    {
        let mut inds: [usize; 9] = [0; 9];
        let mut i: usize = 0;
        while i < 3
            invariant
                i <= 3,
                idx < 9,
                forall|k: int| 0 <= k < 3 ==> #[trigger] rows[k] == block_row(idx as int, k),
                forall|k: int| 0 <= k < 3 ==> #[trigger] cols[k] == block_col(idx as int, k),
                forall|p: int| 0 <= p < 3 * i ==> #[trigger] inds[p] == block_cell(idx as int, p),
            decreases 3 - i,
        {
            let mut j: usize = 0;
            while j < 3
                invariant
                    i < 3,
                    j <= 3,
                    idx < 9,
                    forall|k: int| 0 <= k < 3 ==> #[trigger] rows[k] == block_row(idx as int, k),
                    forall|k: int| 0 <= k < 3 ==> #[trigger] cols[k] == block_col(idx as int, k),
                    forall|p: int|
                        0 <= p < 3 * i + j ==> #[trigger] inds[p] == block_cell(idx as int, p),
                decreases 3 - j,
            {
                inds[3 * i + j] = 9 * rows[i] + cols[j];
                j = j + 1;
            }
            i = i + 1;
        }
        SudokuBox { rows, cols, inds, idx }
    }

    /// The block with number `idx`.
    pub fn of_index(idx: usize) -> (bx: SudokuBox)
        requires
            idx < 9,
        ensures
            bx.wf(),
            bx.id() == idx,
    {
        let y = (idx / 3) * 3;
        let x = (idx % 3) * 3;
        let rows: [usize; 3] = [y, y + 1, y + 2];
        let cols: [usize; 3] = [x, x + 1, x + 2];
        SudokuBox::new(rows, cols, idx)
    }

    /// The number of the block.
    pub fn index(&self) -> (idx: usize)
        requires
            self.wf(),
        ensures
            idx == self.id(),
            idx < 9,
    {
        self.idx
    }

    /// The three rows that pass through the block, in ascending order.
    pub fn rows(&self) -> (rows: [usize; 3])
        requires
            self.wf(),
        ensures
            forall|k: int| 0 <= k < 3 ==> #[trigger] rows[k] == block_row(self.id(), k),
    {
        self.rows
    }

    /// The three columns that pass through the block, in ascending order.
    pub fn cols(&self) -> (cols: [usize; 3])
        requires
            self.wf(),
        ensures
            forall|k: int| 0 <= k < 3 ==> #[trigger] cols[k] == block_col(self.id(), k),
    {
        self.cols
    }

    /// The nine cells of the block, in ascending order.
    pub fn inds(&self) -> (inds: [usize; 9])
        requires
            self.wf(),
        ensures
            forall|p: int| 0 <= p < 9 ==> #[trigger] inds[p] == block_cell(self.id(), p),
    {
        self.inds
    }

    /// The six cells of row `row` that lie outside the block, in ascending
    /// order.
    pub fn row_inds_outside_box(&self, row: usize) -> (out: [usize; 6])
        requires
            self.wf(),
            block_has_row(self.id(), row as int),
        ensures
            forall|k: int|
                0 <= k < 6 ==> #[trigger] out[k] == 9 * row + outside_col(self.id(), k),
    {
        let first = self.cols[0];
        assert(first == block_col(self.idx as int, 0));
        let mut out: [usize; 6] = [0; 6];
        let mut k: usize = 0;
        while k < 6
            invariant
                k <= 6,
                row < 9,
                first == 3 * (self.idx % 3),
                self.idx < 9,
                forall|n: int|
                    0 <= n < k ==> #[trigger] out[n] == 9 * row + outside_col(self.idx as int, n),
            decreases 6 - k,
        {
            let col = if k < first {
                k
            } else {
                k + 3
            };
            out[k] = 9 * row + col;
            k = k + 1;
        }
        out
    }

    /// The three cells of row `row` that lie inside the block, in ascending
    /// order.
    pub fn row_inds_inside_box(&self, row: usize) -> (inside: [usize; 3])
        requires
            self.wf(),
            block_has_row(self.id(), row as int),
        ensures
            forall|k: int| 0 <= k < 3 ==> #[trigger] inside[k] == 9 * row + block_col(self.id(), k),
    {
        assert(self.cols[0] == block_col(self.idx as int, 0));
        assert(self.cols[1] == block_col(self.idx as int, 1));
        assert(self.cols[2] == block_col(self.idx as int, 2));
        [9 * row + self.cols[0], 9 * row + self.cols[1], 9 * row + self.cols[2]]
    }

    /// The six cells of column `col` that lie outside the block, in
    /// ascending order.
    pub fn col_inds_outside_box(&self, col: usize) -> (out: [usize; 6])
        requires
            self.wf(),
            block_has_col(self.id(), col as int),
        ensures
            forall|k: int|
                0 <= k < 6 ==> #[trigger] out[k] == 9 * outside_row(self.id(), k) + col,
    {
        let first = self.rows[0];
        assert(first == block_row(self.idx as int, 0));
        let mut out: [usize; 6] = [0; 6];
        let mut k: usize = 0;
        while k < 6
            invariant
                k <= 6,
                col < 9,
                first == 3 * (self.idx / 3),
                self.idx < 9,
                forall|n: int|
                    0 <= n < k ==> #[trigger] out[n] == 9 * outside_row(self.idx as int, n) + col,
            decreases 6 - k,
        {
            let row = if k < first {
                k
            } else {
                k + 3
            };
            out[k] = 9 * row + col;
            k = k + 1;
        }
        out
    }

    /// The three cells of column `col` that lie inside the block, in
    /// ascending order.
    pub fn col_inds_inside_box(&self, col: usize) -> (inside: [usize; 3])
        requires
            self.wf(),
            block_has_col(self.id(), col as int),
        ensures
            forall|k: int| 0 <= k < 3 ==> #[trigger] inside[k] == 9 * block_row(self.id(), k) + col,
    {
        assert(self.rows[0] == block_row(self.idx as int, 0));
        assert(self.rows[1] == block_row(self.idx as int, 1));
        assert(self.rows[2] == block_row(self.idx as int, 2));
        [9 * self.rows[0] + col, 9 * self.rows[1] + col, 9 * self.rows[2] + col]
    }
}

} // verus!
