use parallel_labs::error::AlgError;
use parallel_labs::matrix::{augment, validate_dimensions, Matrix};
use parallel_labs::rows::{assemble_row_pieces, split_rows};

#[test]
fn zero_matrix_has_shape_and_fill() {
    let m = Matrix::zero(2, 3, 0i64);
    assert_eq!(m.rows(), 2);
    assert_eq!(m.cols(), 3);
    assert_eq!(m.as_slice(), &[0, 0, 0, 0, 0, 0]);
}

#[test]
fn get_and_set_use_row_major_positions() {
    let mut m = Matrix::new(vec![1, 2, 3, 4, 5, 6], 2, 3);
    assert_eq!(m.get(1, 0), 4);
    m.set(0, 2, 9);
    assert_eq!(m.as_slice(), &[1, 2, 9, 4, 5, 6]);
}

#[test]
fn augmented_matrix_appends_right_side() {
    let a = Matrix::new(vec![1, 2, 3, 4], 2, 2);
    let aug = augment(&a, &[5, 6]).unwrap();
    assert_eq!(aug.rows(), 2);
    assert_eq!(aug.cols(), 3);
    assert_eq!(aug.as_slice(), &[1, 2, 5, 3, 4, 6]);
}

#[test]
fn augment_refuses_mismatched_systems() {
    let a = Matrix::new(vec![1, 2, 3, 4, 5, 6], 2, 3);
    assert_eq!(augment(&a, &[1, 2]).err(), Some(AlgError::DimensionMismatch));
    let sq = Matrix::new(vec![1, 2, 3, 4], 2, 2);
    assert_eq!(augment(&sq, &[1, 2, 3]).err(), Some(AlgError::DimensionMismatch));
}

#[test]
fn dimensions_of_product() {
    let a = Matrix::zero(2, 3, 0u8);
    let b = Matrix::zero(3, 4, 0u8);
    assert_eq!(validate_dimensions(&a, &b), Ok(()));
    assert_eq!(validate_dimensions(&b, &a), Err(AlgError::DimensionMismatch));
}

#[test]
fn row_pieces_split_and_join() {
    let data: Vec<u32> = (0..15).collect();
    let pieces = split_rows(&data, 5, 3, 3);
    assert_eq!(pieces, vec![vec![0, 1, 2, 3, 4, 5], vec![6, 7, 8, 9, 10, 11], vec![12, 13, 14]]);
    assert_eq!(assemble_row_pieces(&pieces, 5, 3), Ok(data));
}

#[test]
fn more_ranks_than_rows_gives_empty_pieces() {
    let data: Vec<u32> = (0..4).collect();
    let pieces = split_rows(&data, 2, 2, 4);
    assert_eq!(pieces, vec![vec![0, 1], vec![2, 3], vec![], vec![]]);
    assert_eq!(assemble_row_pieces(&pieces, 2, 2), Ok(data));
}

#[test]
fn wrong_piece_length_is_reported() {
    let pieces = vec![vec![0u32, 1], vec![2], vec![4, 5, 6]];
    assert_eq!(
        assemble_row_pieces(&pieces, 3, 2),
        Err(AlgError::WrongPieceLength { rank: 1, got: 1, expected: 2 })
    );
}

#[test]
fn empty_expected_piece_is_not_read() {
    let pieces = vec![vec![7u32], vec![8], vec![99, 99]];
    assert_eq!(assemble_row_pieces(&pieces, 2, 1), Ok(vec![7, 8]));
}
