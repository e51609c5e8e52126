use imesde::batch::longest_row;
use imesde::batch::pad_rows;

#[test]
fn the_longest_row_of_none_is_zero() {
    assert_eq!(longest_row(&vec![]), 0);
    assert_eq!(longest_row(&vec![vec![], vec![]]), 0);
}

#[test]
fn the_longest_row_is_found() {
    assert_eq!(longest_row(&vec![vec![1, 2], vec![3, 4, 5, 6], vec![7]]), 4);
    assert_eq!(longest_row(&vec![vec![9, 9, 9]]), 3);
}

#[test]
fn rows_are_filled_up_with_zeros() {
    let rows = vec![vec![101, 7, 102], vec![101, 102], vec![], vec![5, 6, 7, 8]];
    let width = longest_row(&rows);
    assert_eq!(width, 4);
    assert_eq!(
        pad_rows(&rows, width),
        Some(vec![101, 7, 102, 0, 101, 102, 0, 0, 0, 0, 0, 0, 5, 6, 7, 8])
    );
}

#[test]
fn a_wider_layout_pads_every_row() {
    let rows = vec![vec![1], vec![2, 3]];
    assert_eq!(pad_rows(&rows, 3), Some(vec![1, 0, 0, 2, 3, 0]));
}

#[test]
fn a_single_row_is_laid_out_unchanged() {
    let rows = vec![vec![u32::MAX, 0, 17]];
    assert_eq!(pad_rows(&rows, 3), Some(vec![i64::from(u32::MAX), 0, 17]));
}

#[test]
fn an_empty_batch_has_no_cells() {
    assert_eq!(pad_rows(&vec![], 5), Some(vec![]));
    assert_eq!(pad_rows(&vec![vec![], vec![]], 0), Some(vec![]));
}

#[test]
fn a_row_longer_than_the_width_has_no_layout() {
    let rows = vec![vec![1, 2, 3], vec![4]];
    assert_eq!(pad_rows(&rows, 2), None);
    assert_eq!(pad_rows(&rows, 0), None);
}

#[test]
fn a_batch_too_large_to_count_has_no_layout() {
    let rows = vec![vec![], vec![]];
    assert_eq!(pad_rows(&rows, usize::MAX), None);
}
