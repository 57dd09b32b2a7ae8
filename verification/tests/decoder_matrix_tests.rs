use rlnc::decoder_matrix::DecoderMatrix;
use rlnc::RLNCError;

#[test]
fn test_decoder_matrix_add_row_and_rank() {
    // Two coefficient columns, two payload columns.
    let mut matrix = DecoderMatrix::new(2, 2);
    assert_eq!(matrix.rank(), 0);

    // A row of the wrong width is rejected and nothing changes.
    assert_eq!(matrix.add_row(&[1, 2, 3]), Err(RLNCError::InvalidPieceLength));
    assert_eq!(matrix.rank(), 0);

    matrix.add_row(&[1, 0, 5, 6]).unwrap();
    matrix.rref();
    assert_eq!(matrix.rank(), 1);

    // Twice the first row is linearly dependent: elimination zeroes it out
    // and compaction removes it.
    matrix.add_row(&[2, 0, 10, 12]).unwrap();
    matrix.rref();
    assert_eq!(matrix.rank(), 1);

    matrix.add_row(&[0, 1, 7, 8]).unwrap();
    matrix.rref();
    assert_eq!(matrix.rank(), 2);
}

#[test]
fn test_decoder_matrix_swap_rows_and_extract() {
    let mut matrix = DecoderMatrix::new(2, 2);
    matrix.add_row(&[1, 0, 5, 6]).unwrap();
    matrix.add_row(&[0, 1, 7, 8]).unwrap();
    matrix.rref();
    assert_eq!(matrix.rank(), 2);

    matrix.swap_rows(0, 1);
    let flat = matrix.extract_data();
    assert_eq!(flat, vec![0, 1, 7, 8, 1, 0, 5, 6]);
}

#[test]
fn test_decoder_matrix_rref_normalizes_pivots() {
    // A single scaled row: rref must normalize its pivot to one.
    let mut matrix = DecoderMatrix::new(2, 2);
    matrix.add_row(&[2, 0, 10, 12]).unwrap();
    matrix.rref();
    assert_eq!(matrix.rank(), 1);
    let flat = matrix.extract_data();
    assert_eq!(flat, vec![1, 0, 5, 6]);
}

#[test]
fn test_decoder_matrix_compacts_zero_coefficient_rows() {
    // A row whose coefficient part is zero carries no equation, even with a
    // nonzero payload; rref compacts it away.
    let mut matrix = DecoderMatrix::new(2, 2);
    matrix.add_row(&[0, 0, 9, 9]).unwrap();
    matrix.rref();
    assert_eq!(matrix.rank(), 0);
    assert_eq!(matrix.extract_data(), Vec::<u8>::new());
}
