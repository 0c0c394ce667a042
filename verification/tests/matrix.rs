use four_russians::error::MatrixError;
use four_russians::matrix::Matrix;
use four_russians::row::Bit;

#[test]
fn new_keeps_the_rows() {
    let mat = Matrix::new(2, 3, vec![vec![1, 2, 3], vec![4, 5, 6]]).unwrap();
    assert_eq!(mat.rows(), &vec![vec![1, 2, 3], vec![4, 5, 6]]);
    assert_eq!(mat.row(1), &vec![4, 5, 6]);
    assert_eq!(3, mat.num_words());
}

#[test]
fn new_refuses_rows_of_another_length() {
    let short = Matrix::new(2, 2, vec![vec![1, 2], vec![3]]);
    assert_eq!(Some(MatrixError::Dimension), short.err());
    let long = Matrix::new(2, 1, vec![vec![1], vec![3, 4]]);
    assert_eq!(Some(MatrixError::Dimension), long.err());
    let first = Matrix::new(3, 2, vec![vec![], vec![1, 2], vec![3, 4]]);
    assert_eq!(Some(MatrixError::Dimension), first.err());
}

#[test]
fn new_refuses_another_number_of_rows() {
    let fewer = Matrix::new(3, 1, vec![vec![1], vec![2]]);
    assert_eq!(Some(MatrixError::Dimension), fewer.err());
    let more = Matrix::new(1, 1, vec![vec![1], vec![2]]);
    assert_eq!(Some(MatrixError::Dimension), more.err());
}

#[test]
fn new_refuses_more_words_than_fit() {
    // The bit columns of such rows could not be counted in an index.
    let widest = Matrix::new(0, usize::MAX, Vec::new());
    assert_eq!(Some(MatrixError::Dimension), widest.err());
    let wide = Matrix::new(0, usize::MAX / 64 + 1, Vec::new());
    assert_eq!(Some(MatrixError::Dimension), wide.err());
    // The words of such rows could not be counted in 32 bits.
    if let Some(too_many) = (u32::MAX as usize).checked_add(1) {
        let long = Matrix::new(0, too_many, Vec::new());
        assert_eq!(Some(MatrixError::Dimension), long.err());
    }
}

#[test]
fn new_takes_rows_of_many_words() {
    let many = (u32::MAX as usize).min(usize::MAX / 64);
    let mat = Matrix::new(0, many, Vec::new()).unwrap();
    assert_eq!(many as u32, mat.num_cols());
    assert_eq!(many * 64, mat.num_bit_cols());
    let mat = Matrix::new(0, 1 << 26, Vec::new()).unwrap();
    assert_eq!(1 << 26, mat.num_cols());
    assert_eq!((0, 1 << 26), mat.dimensions());
}

#[test]
fn new_takes_the_empty_matrix() {
    let none = Matrix::new(0, 0, Vec::new()).unwrap();
    assert_eq!((0, 0), none.dimensions());
    assert_eq!(0, none.num_bit_cols());
    let no_columns = Matrix::new(2, 0, vec![vec![], vec![]]).unwrap();
    assert_eq!((2, 0), no_columns.dimensions());
    let no_rows = Matrix::new(0, 2, Vec::new()).unwrap();
    assert_eq!((0, 2), no_rows.dimensions());
    assert_eq!(128, no_rows.num_bit_cols());
}

#[test]
fn dimensions_count_rows_and_words() {
    let mat = Matrix::new(3, 2, vec![vec![0, 0], vec![0, 0], vec![0, 0]]).unwrap();
    assert_eq!(3, mat.num_rows());
    assert_eq!(2, mat.num_cols());
    assert_eq!((3, 2), mat.dimensions());
    assert_eq!(2, mat.num_words());
    assert_eq!(128, mat.num_bit_cols());
}

#[test]
fn one_word_makes_one_column_of_words() {
    let mat = Matrix::new(1, 1, vec![vec![u64::MAX]]).unwrap();
    assert_eq!(1, mat.num_cols());
    assert_eq!((1, 1), mat.dimensions());
    assert_eq!(64, mat.num_bit_cols());
}

#[test]
fn bit_at_reads_one_entry() {
    let mat = Matrix::new(2, 2, vec![vec![0b10, 0], vec![0, 1 << 5]]).unwrap();
    assert!(!mat.bit_at(0, 0));
    assert!(mat.bit_at(0, 1));
    assert!(!mat.bit_at(1, 1));
    assert!(mat.bit_at(1, 69));
    assert_eq!(Ok(true), mat.row(1).bit(69));
    assert_eq!(Err(MatrixError::Index), mat.row(1).bit(128));
    assert_eq!(Ok(0b1000), mat.row(1).bits(66, 4));
}

#[test]
fn add_rows_adds_over_the_range_only() {
    let mut mat = Matrix::new(3, 3, vec![vec![1, 2, 4], vec![7, 7, 7], vec![8, 8, 8]]).unwrap();
    mat.add_rows(0, 1, 1, 3);
    assert_eq!(mat.rows(), &vec![vec![1, 5, 3], vec![7, 7, 7], vec![8, 8, 8]]);
    mat.add_rows(2, 0, 0, 1);
    assert_eq!(mat.rows(), &vec![vec![1, 5, 3], vec![7, 7, 7], vec![9, 8, 8]]);
    mat.add_rows(2, 0, 2, 2);
    mat.add_rows(2, 0, 3, 0);
    assert_eq!(mat.rows(), &vec![vec![1, 5, 3], vec![7, 7, 7], vec![9, 8, 8]]);
}

#[test]
fn add_rows_of_a_row_to_itself_clears_the_range() {
    let mut mat = Matrix::new(2, 3, vec![vec![1, 2, 4], vec![7, 7, 7]]).unwrap();
    mat.add_rows(1, 1, 0, 2);
    assert_eq!(mat.rows(), &vec![vec![1, 2, 4], vec![0, 0, 7]]);
}

#[test]
fn update_xor_row_adds_a_loose_row() {
    let mut mat = Matrix::new(2, 3, vec![vec![1, 2, 4], vec![7, 7, 7]]).unwrap();
    mat.update_xor_row(1, &vec![1, 2, 3], 1, 3);
    assert_eq!(mat.rows(), &vec![vec![1, 2, 4], vec![7, 5, 4]]);
    mat.update_xor_row(0, &vec![1, 2, 3, 99], 0, 3);
    assert_eq!(mat.rows(), &vec![vec![0, 0, 7], vec![7, 5, 4]]);
    mat.update_xor_row(0, &vec![], 1, 1);
    assert_eq!(mat.rows(), &vec![vec![0, 0, 7], vec![7, 5, 4]]);
}
