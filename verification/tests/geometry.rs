use sudoku::geometry::{get_box_index, SudokuBox};

#[test]
fn test_idx() {
    assert_eq!(get_box_index(0), 0);
    assert_eq!(get_box_index(8), 2);
    assert_eq!(get_box_index(20), 0);
    assert_eq!(get_box_index(27), 3);
    assert_eq!(get_box_index(30), 4);
    assert_eq!(get_box_index(40), 4);
    assert_eq!(get_box_index(53), 5);
    assert_eq!(get_box_index(72), 6);
    assert_eq!(get_box_index(80), 8);
    for idx in 0..81usize {
        let row = idx / 9;
        let col = idx % 9;
        assert_eq!(get_box_index(idx) as usize, 3 * (row / 3) + col / 3);
    }
}

#[test]
fn block_rows_columns_and_cells() {
    let middle = SudokuBox::of_index(4);
    assert_eq!(middle.index(), 4);
    assert_eq!(middle.rows(), [3, 4, 5]);
    assert_eq!(middle.cols(), [3, 4, 5]);
    assert_eq!(middle.inds(), [30, 31, 32, 39, 40, 41, 48, 49, 50]);
    let last = SudokuBox::of_index(8);
    assert_eq!(last.inds(), [60, 61, 62, 69, 70, 71, 78, 79, 80]);
    let second = SudokuBox::new([0, 1, 2], [3, 4, 5], 1);
    assert_eq!(second.inds(), [3, 4, 5, 12, 13, 14, 21, 22, 23]);
}

#[test]
fn row_and_column_segments() {
    let left = SudokuBox::of_index(3);
    assert_eq!(left.row_inds_inside_box(4), [36, 37, 38]);
    assert_eq!(left.row_inds_outside_box(4), [39, 40, 41, 42, 43, 44]);
    assert_eq!(left.col_inds_inside_box(1), [28, 37, 46]);
    assert_eq!(left.col_inds_outside_box(1), [1, 10, 19, 55, 64, 73]);
    let middle = SudokuBox::of_index(4);
    assert_eq!(middle.row_inds_outside_box(3), [27, 28, 29, 33, 34, 35]);
    assert_eq!(middle.col_inds_outside_box(5), [5, 14, 23, 59, 68, 77]);
    let last = SudokuBox::of_index(8);
    assert_eq!(last.row_inds_outside_box(8), [72, 73, 74, 75, 76, 77]);
    assert_eq!(last.col_inds_inside_box(6), [60, 69, 78]);
}

#[test]
fn every_cell_is_in_the_block_that_lists_it() {
    for b in 0..9usize {
        let bx = SudokuBox::of_index(b);
        for idx in bx.inds() {
            assert_eq!(get_box_index(idx) as usize, b);
        }
    }
}
