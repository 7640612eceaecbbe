use jabba::nn::correct_predictions;
use jabba::utils::{arg_max_in, largest_in, one_hot, position_in, shuffle_rows};
use jabba::Matrix;

fn numbers(rows: usize, cols: usize, values: &[f32]) -> Matrix {
    let bits: Vec<u32> = values.iter().map(|v| v.to_bits()).collect();
    Matrix::from_column_slice(rows, cols, &bits).unwrap()
}

fn values(m: &Matrix) -> Vec<f32> {
    m.to_vec().iter().map(|&b| f32::from_bits(b)).collect()
}

fn bits(values: &[f32]) -> Vec<u32> {
    values.iter().map(|v| v.to_bits()).collect()
}

/// The largest of a run as folding with `>=` from the left finds it.
fn folded(values: &[f32]) -> f32 {
    let mut it = values.iter();
    let first = it.next().copied().unwrap_or(0.0);
    it.fold(first, |a, &b| if a >= b { a } else { b })
}

#[test]
fn one_hot_of_a_row_of_labels() {
    let labels = numbers(1, 4, &[2.0, 0.0, 1.0, 2.0]);
    let code = one_hot(&labels).unwrap();
    assert_eq!(code.shape(), (3, 4));
    assert_eq!(
        values(&code),
        vec![0.0, 0.0, 1.0, 1.0, 0.0, 0.0, 0.0, 1.0, 0.0, 0.0, 0.0, 1.0]
    );
}

#[test]
fn one_hot_of_a_column_of_labels() {
    let labels = numbers(4, 1, &[2.0, 0.0, 1.0, 2.0]);
    let code = one_hot(&labels).unwrap();
    assert_eq!(code.shape(), (3, 4));
    assert_eq!(
        values(&code),
        vec![0.0, 0.0, 1.0, 1.0, 0.0, 0.0, 0.0, 1.0, 0.0, 0.0, 0.0, 1.0]
    );
}

#[test]
fn one_hot_drops_the_fraction_of_a_label() {
    let code = one_hot(&numbers(1, 3, &[1.9, 0.2, 2.5])).unwrap();
    assert_eq!(code.shape(), (3, 3));
    assert_eq!(values(&code), vec![0.0, 1.0, 0.0, 1.0, 0.0, 0.0, 0.0, 0.0, 1.0]);
}

#[test]
fn one_hot_of_no_samples() {
    let code = one_hot(&numbers(1, 0, &[])).unwrap();
    assert_eq!(code.shape(), (1, 0));
    let code = one_hot(&numbers(0, 1, &[])).unwrap();
    assert_eq!(code.shape(), (1, 0));
}

#[test]
fn one_hot_reads_the_first_row_of_a_wider_matrix() {
    let m = numbers(2, 2, &[1.0, 3.0, 0.0, 2.0]);
    let code = one_hot(&m).unwrap();
    assert_eq!(code.shape(), (4, 2));
    assert_eq!(values(&code), vec![0.0, 1.0, 0.0, 0.0, 1.0, 0.0, 0.0, 0.0]);
}

#[test]
fn one_hot_refuses_what_cannot_be_encoded() {
    assert!(one_hot(&numbers(0, 3, &[])).is_none());
    assert!(one_hot(&numbers(1, 2, &[f32::INFINITY, 0.0])).is_none());
    assert!(one_hot(&numbers(1, 2, &[5.0, f32::NAN])).is_none());
    assert!(one_hot(&numbers(1, 2, &[1.0e19, 1.0])).is_none());
}

#[test]
fn one_hot_then_arg_max_gives_the_labels_back() {
    let labels = [3.0f32, 0.0, 9.0, 1.0, 1.0, 7.0, 2.0, 9.0, 0.0];
    for m in [numbers(1, 9, &labels), numbers(9, 1, &labels)] {
        let code = one_hot(&m).unwrap();
        let (rows, cols) = code.shape();
        assert_eq!((rows, cols), (10, 9));
        let data = code.to_vec();
        for j in 0..cols {
            let place = arg_max_in(&data, j * rows, (j + 1) * rows);
            assert_eq!(place, Some(labels[j] as usize));
        }
    }
}

#[test]
fn largest_is_the_fold_with_at_least() {
    let runs: Vec<Vec<f32>> = vec![
        vec![],
        vec![1.0],
        vec![-1.0],
        vec![f32::NAN],
        vec![1.0, 3.0, 2.0],
        vec![-1.0, -3.0, -2.0],
        vec![0.0, -0.0],
        vec![-0.0, 0.0],
        vec![f32::NAN, 1.0, 2.0],
        vec![1.0, f32::NAN, 0.5],
        vec![1.0, 2.0, f32::NAN],
        vec![f32::NEG_INFINITY, f32::INFINITY, 0.0],
        vec![5.0, 5.0, 5.0],
    ];
    for run in runs {
        let ours = largest_in(&bits(&run), 0, run.len());
        assert_eq!(ours, folded(&run).to_bits(), "{run:?}");
    }
}

#[test]
fn arg_max_is_the_first_place_of_the_largest() {
    let runs: Vec<Vec<f32>> = vec![
        vec![],
        vec![1.0],
        vec![f32::NAN],
        vec![1.0, 3.0, 2.0, 3.0],
        vec![-1.0, -3.0, -2.0],
        vec![0.0, -0.0],
        vec![-0.0, 0.0],
        vec![f32::NAN, 1.0, 2.0],
        vec![1.0, f32::NAN, 0.5],
        vec![1.0, 2.0, f32::NAN],
        vec![0.2, 0.7, 0.1],
    ];
    for run in runs {
        let top = folded(&run);
        let theirs = run.iter().position(|&x| x == top);
        assert_eq!(arg_max_in(&bits(&run), 0, run.len()), theirs, "{run:?}");
        assert_eq!(position_in(&bits(&run), 0, run.len(), top.to_bits()), theirs, "{run:?}");
    }
}

#[test]
fn arg_max_of_a_part() {
    let data = bits(&[9.0, 1.0, 5.0, 3.0, 9.5]);
    assert_eq!(arg_max_in(&data, 1, 4), Some(1));
    assert_eq!(largest_in(&data, 1, 4), 5.0f32.to_bits());
    assert_eq!(arg_max_in(&data, 2, 2), None);
}

#[test]
fn correct_predictions_counts_agreeing_columns() {
    let labels = one_hot(&numbers(1, 4, &[0.0, 1.0, 2.0, 1.0])).unwrap();
    let predicted = numbers(
        3,
        4,
        &[0.8, 0.1, 0.1, 0.2, 0.5, 0.3, 0.6, 0.3, 0.1, 0.1, 0.7, 0.2],
    );
    assert_eq!(correct_predictions(&predicted, &labels), Some(3));
    assert_eq!(correct_predictions(&labels, &labels), Some(4));
}

#[test]
fn correct_predictions_looks_at_shared_columns_only() {
    let labels = one_hot(&numbers(1, 2, &[0.0, 1.0])).unwrap();
    let predicted = numbers(2, 3, &[0.9, 0.1, 0.9, 0.1, 0.5, 0.5]);
    assert_eq!(correct_predictions(&predicted, &labels), Some(1));
    let none = numbers(2, 0, &[]);
    assert_eq!(correct_predictions(&none, &labels), Some(0));
}

#[test]
fn correct_predictions_needs_a_largest_entry_in_every_column() {
    let labels = one_hot(&numbers(1, 2, &[0.0, 1.0])).unwrap();
    let broken = numbers(2, 2, &[0.9, 0.1, 0.5, f32::NAN]);
    assert_eq!(correct_predictions(&broken, &labels), None);
    let empty = numbers(0, 2, &[]);
    assert_eq!(correct_predictions(&empty, &labels), None);
}

#[test]
fn shuffle_rows_keeps_every_row() {
    for _ in 0..50 {
        let mut m = Matrix::from_column_slice(5, 2, &[0, 1, 2, 3, 4, 10, 11, 12, 13, 14]).unwrap();
        shuffle_rows(&mut m);
        assert_eq!(m.shape(), (5, 2));
        let data = m.to_vec();
        let mut seen = Vec::new();
        for i in 0..5 {
            assert_eq!(data[5 + i], data[i] + 10);
            seen.push(data[i]);
        }
        seen.sort();
        assert_eq!(seen, vec![0, 1, 2, 3, 4]);
    }
}

#[test]
fn shuffle_rows_moves_rows() {
    let start: Vec<u32> = (0..64).collect();
    let mut moved = false;
    for _ in 0..8 {
        let mut m = Matrix::from_column_slice(64, 1, &start).unwrap();
        shuffle_rows(&mut m);
        moved = moved || m.to_vec() != start;
    }
    assert!(moved);
}

#[test]
fn shuffle_rows_of_small_matrices() {
    let mut none = Matrix::zeros(0, 3).unwrap();
    shuffle_rows(&mut none);
    assert_eq!(none.shape(), (0, 3));
    let mut one = Matrix::from_column_slice(1, 2, &[7, 8]).unwrap();
    shuffle_rows(&mut one);
    assert_eq!(one.to_vec(), vec![7, 8]);
}
