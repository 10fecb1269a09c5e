use neuro::matrix::{Matrix, MatrixError};

fn m(data: Vec<i64>, rows: usize, cols: usize) -> Matrix<i64> {
    Matrix::from_vec(&data, rows, cols).unwrap()
}

#[test]
fn add() {
    let matrix = Matrix::<i64>::zero(2, 2);
    let other = Matrix::<i64>::zero(2, 3);
    assert_eq!(matrix.add(&other).unwrap_err(), MatrixError::ShapeMismatch);
}

#[test]
fn subtract() {
    let matrix = Matrix::<i64>::zero(3, 2);
    let other = Matrix::<i64>::zero(2, 2);
    assert_eq!(matrix.subtract(&other).unwrap_err(), MatrixError::ShapeMismatch);
}

#[test]
fn dot_multiply() {
    let matrix = m(vec![1, 2, 3, 4, 5, 6], 2, 3);
    let other = m(vec![1, 2, 3, 4, 5, 6], 3, 2);
    let expected_result = vec![22, 28, 49, 64];
    let result = matrix.dot_multiply(&other).unwrap();
    assert_eq!(result.rows, matrix.rows);
    assert_eq!(result.cols, other.cols);
    assert_eq!(result.data, expected_result);
}

#[test]
fn feed_forward() {
    let input = m(vec![1, 3], 1, 2);
    let mut hidden_1 = m(vec![1, 1, 1, 1], 2, 2);
    let mut hidden_2 = m(vec![2, 2, 2, 2], 2, 2);
    let mut output = m(vec![3, 3], 2, 1);
    let bias: i64 = 1;

    hidden_1 = input.dot_multiply(&hidden_1).unwrap();
    assert_eq!(hidden_1.data, [4, 4]);
    hidden_1 = hidden_1.map(|x| x + bias);
    assert_eq!(hidden_1.data, [5, 5]);

    hidden_2 = hidden_1.dot_multiply(&hidden_2).unwrap();
    assert_eq!(hidden_2.data, [20, 20]);
    hidden_2 = hidden_2.map(|x| x + bias);
    assert_eq!(hidden_2.data, [21, 21]);

    output = hidden_2.dot_multiply(&output).unwrap();
    assert_eq!(output.data, [126]);
    output = output.map(|x| x + bias);
    assert_eq!(output.data, [127]);
}

#[test]
fn transpose() {
    let a = m(vec![1, 2], 1, 2);
    let transposed = a.transpose();
    assert_eq!(transposed.rows, 2);
    assert_eq!(transposed.cols, 1);
    assert_eq!(transposed.data, vec![1, 2]);
}

#[test]
fn test() {
    let x = 1.0;
    let a = Matrix::from_vec(&vec![x, 2.0], 1, 2).unwrap();
    assert_eq!(a.map(|v: f64| v * 2.0).data, vec![2.0, 4.0]);
}

#[test]
fn transpose_non_square_moves_elements() {
    let a = m(vec![1, 2, 3, 4, 5, 6], 2, 3);
    let t = a.transpose();
    assert_eq!((t.rows, t.cols), (3, 2));
    assert_eq!(t.data, vec![1, 4, 2, 5, 3, 6]);
    assert_eq!(t.transpose().data, a.data);
}

#[test]
fn from_vec_refuses_wrong_length() {
    assert_eq!(Matrix::from_vec(&vec![1i64, 2, 3], 2, 2).unwrap_err(), MatrixError::ShapeMismatch);
}

#[test]
fn from_vec_2d_reads_rows() {
    let a = Matrix::from_vec_2d(vec![vec![1i64, 2, 3], vec![4, 5, 6]]);
    assert_eq!((a.rows, a.cols), (2, 3));
    assert_eq!(a.data, vec![1, 2, 3, 4, 5, 6]);
}

#[test]
fn zero_is_all_zeros() {
    let z = Matrix::<i64>::zero(2, 3);
    assert_eq!((z.rows, z.cols), (2, 3));
    assert_eq!(z.data, vec![0; 6]);
}

#[test]
fn add_commutes_and_subtract_undoes_add() {
    let a = m(vec![1, -2, 3, i64::MAX], 2, 2);
    let b = m(vec![5, 7, -9, 1], 2, 2);
    let ab = a.add(&b).unwrap();
    let ba = b.add(&a).unwrap();
    assert_eq!(ab.data, ba.data);
    assert_eq!(ab.data, vec![6, 5, -6, i64::MIN]);
    let back = a.subtract(&b).unwrap().add(&b).unwrap();
    assert_eq!(back.data, a.data);
}

#[test]
fn multiply_is_elementwise() {
    let a = m(vec![1, 2, 3, 4], 2, 2);
    let b = m(vec![5, 6, 7, 8], 2, 2);
    assert_eq!(a.multiply(&b).unwrap().data, vec![5, 12, 21, 32]);
    let c = m(vec![1, 2], 1, 2);
    assert_eq!(a.multiply(&c).unwrap_err(), MatrixError::ShapeMismatch);
}

#[test]
fn dot_multiply_refuses_inner_mismatch() {
    let a = m(vec![1, 2, 3, 4, 5, 6], 2, 3);
    assert_eq!(a.dot_multiply(&a).unwrap_err(), MatrixError::ShapeMismatch);
}

#[test]
fn transpose_of_product_is_product_of_transposes() {
    let a = m(vec![1, 2, 3, 4, 5, 6], 2, 3);
    let b = m(vec![7, 8, 9, 10, 11, 12], 3, 2);
    let left = a.dot_multiply(&b).unwrap().transpose();
    let right = b.transpose().dot_multiply(&a.transpose()).unwrap();
    assert_eq!((left.rows, left.cols), (right.rows, right.cols));
    assert_eq!(left.data, right.data);
}

#[test]
fn generic_kernels_on_floats() {
    let a = Matrix::from_vec(&vec![1.0, 2.0, 3.0, 4.0, 5.0, 6.0], 2, 3).unwrap();
    let b = Matrix::from_vec(&vec![1.0, 2.0, 3.0, 4.0, 5.0, 6.0], 3, 2).unwrap();
    let p = a.dot_with(&b, 0.0, |x: f64, y: f64| x + y, |x: f64, y: f64| x * y).unwrap();
    assert_eq!(p.data, vec![22.0, 28.0, 49.0, 64.0]);
    let s = a.zip_with(&a, |x: f64, y: f64| x - y).unwrap();
    assert_eq!(s.data, vec![0.0; 6]);
    assert_eq!(a.zip_with(&b, |x: f64, y: f64| x + y).unwrap_err(), MatrixError::ShapeMismatch);
}
