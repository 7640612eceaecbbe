use jabba::Matrix;

fn sample() -> Matrix {
    // 3 rows, 2 columns:
    //   1 4
    //   2 5
    //   3 6
    Matrix::from_column_slice(3, 2, &[1, 2, 3, 4, 5, 6]).unwrap()
}

#[test]
fn zeros_has_the_shape_and_only_zeros() {
    let m = Matrix::zeros(2, 3).unwrap();
    assert_eq!(m.shape(), (2, 3));
    assert_eq!(m.nrows(), 2);
    assert_eq!(m.ncols(), 3);
    assert_eq!(m.to_vec(), vec![0; 6]);
    assert_eq!(Matrix::zeros(0, 5).unwrap().shape(), (0, 5));
    assert!(Matrix::zeros(usize::MAX, 2).is_none());
}

#[test]
fn from_column_slice_fills_column_by_column() {
    let m = sample();
    assert_eq!(m.shape(), (3, 2));
    assert_eq!(m.get(0, 0), Some(1));
    assert_eq!(m.get(2, 0), Some(3));
    assert_eq!(m.get(0, 1), Some(4));
    assert_eq!(m.get(2, 1), Some(6));
    assert_eq!(m.at(1, 1), 5);
    assert_eq!(m.to_vec(), vec![1, 2, 3, 4, 5, 6]);
}

#[test]
fn from_column_slice_wants_one_item_per_cell() {
    assert!(Matrix::from_column_slice(3, 2, &[1, 2, 3, 4, 5]).is_none());
    assert!(Matrix::from_column_slice(3, 2, &[1, 2, 3, 4, 5, 6, 7]).is_none());
    assert!(Matrix::from_column_slice(usize::MAX, 2, &[1]).is_none());
    assert!(Matrix::from_column_slice(0, 0, &[]).is_some());
}

#[test]
fn get_is_none_outside_the_shape() {
    let m = sample();
    assert_eq!(m.get(3, 0), None);
    assert_eq!(m.get(0, 2), None);
}

#[test]
fn swap_rows_exchanges_two_rows() {
    let mut m = sample();
    assert!(m.swap_rows(0, 2));
    assert_eq!(m.to_vec(), vec![3, 2, 1, 6, 5, 4]);
    assert!(m.swap_rows(1, 1));
    assert_eq!(m.to_vec(), vec![3, 2, 1, 6, 5, 4]);
    assert!(!m.swap_rows(0, 3));
    assert!(!m.swap_rows(3, 0));
    assert_eq!(m.to_vec(), vec![3, 2, 1, 6, 5, 4]);
}

#[test]
fn columns_range_copies_whole_columns() {
    let m = Matrix::from_column_slice(2, 4, &[1, 2, 3, 4, 5, 6, 7, 8]).unwrap();
    let middle = m.columns_range(1, 3).unwrap();
    assert_eq!(middle.shape(), (2, 2));
    assert_eq!(middle.to_vec(), vec![3, 4, 5, 6]);
    let none = m.columns_range(2, 2).unwrap();
    assert_eq!(none.shape(), (2, 0));
    assert!(m.columns_range(3, 2).is_none());
    assert!(m.columns_range(0, 5).is_none());
    assert_eq!(m.columns_range(0, 4).unwrap().to_vec(), m.to_vec());
}
