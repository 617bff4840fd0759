use nn_rust::error::Error;
use nn_rust::fixed::Fixed;
use nn_rust::nn::matrix::{matrix_constructor, Matrix};
use nn_rust::scalar::Scalar;

#[derive(Clone, Copy, Debug, PartialEq)]
struct R(f64);

impl Scalar for R {
    fn spec_from_ratio(numerator: i64, denominator: i64) -> R {
        R::from_ratio(numerator, denominator)
    }
    fn spec_add(self, rhs: R) -> R {
        self.add(rhs)
    }
    fn spec_sub(self, rhs: R) -> R {
        self.sub(rhs)
    }
    fn spec_mul(self, rhs: R) -> R {
        self.mul(rhs)
    }
    fn spec_div(self, rhs: R) -> R {
        self.div(rhs)
    }
    fn spec_exp(self) -> R {
        self.exp()
    }
    fn spec_powf(self, exponent: R) -> R {
        self.powf(exponent)
    }
    fn spec_lt(self, rhs: R) -> bool {
        self.less_than(rhs)
    }
    fn spec_truncate(self) -> i32 {
        self.truncate()
    }
    fn from_ratio(numerator: i64, denominator: i64) -> R {
        R(numerator as f64 / denominator as f64)
    }
    fn add(self, rhs: R) -> R {
        R(self.0 + rhs.0)
    }
    fn sub(self, rhs: R) -> R {
        R(self.0 - rhs.0)
    }
    fn mul(self, rhs: R) -> R {
        R(self.0 * rhs.0)
    }
    fn div(self, rhs: R) -> R {
        R(self.0 / rhs.0)
    }
    fn exp(self) -> R {
        R(self.0.exp())
    }
    fn powf(self, exponent: R) -> R {
        R(self.0.powf(exponent.0))
    }
    fn less_than(self, rhs: R) -> bool {
        self.0 < rhs.0
    }
    fn truncate(self) -> i32 {
        self.0 as i32
    }
}

fn grid(rows: &[&[f64]]) -> Matrix<R> {
    Matrix::from_2d_array(rows.iter().map(|row| row.iter().map(|x| R(*x)).collect()).collect())
}

fn cells(m: &Matrix<R>) -> Vec<Vec<f64>> {
    m.data.iter().map(|row| row.iter().map(|x| x.0).collect()).collect()
}

fn identity(n: usize) -> Matrix<R> {
    let mut m: Matrix<R> = matrix_constructor(n, n);
    for i in 0..n {
        m.data[i][i] = R(1.0);
    }
    m
}

#[test]
fn constructor_gives_zeros_of_the_shape() {
    let m: Matrix<R> = matrix_constructor(2, 3);
    assert_eq!(m.rows, 2);
    assert_eq!(m.cols, 3);
    assert_eq!(cells(&m), vec![vec![0.0; 3]; 2]);
}

#[test]
fn constructor_with_no_rows_or_no_columns() {
    let a: Matrix<R> = matrix_constructor(0, 3);
    assert_eq!((a.rows, a.cols, a.data.len()), (0, 3, 0));
    let b: Matrix<R> = matrix_constructor(2, 0);
    assert_eq!((b.rows, b.cols), (2, 0));
    assert_eq!(cells(&b), vec![Vec::<f64>::new(), Vec::new()]);
}

#[test]
fn default_is_the_empty_matrix() {
    let m: Matrix<R> = Matrix::default();
    assert_eq!((m.rows, m.cols, m.data.len()), (0, 0, 0));
}

#[test]
fn seeded_matrix_is_reproducible() {
    let a: Matrix<R> = Matrix::new(4, 5, 12);
    let b: Matrix<R> = Matrix::new(4, 5, 12);
    assert_eq!(a, b);
    assert_eq!((a.rows, a.cols), (4, 5));
    assert_eq!(a.data.len(), 4);
    assert!(a.data.iter().all(|row| row.len() == 5));
}

#[test]
fn seeded_matrix_depends_on_the_seed() {
    let a: Matrix<R> = Matrix::new(4, 5, 12);
    let b: Matrix<R> = Matrix::new(4, 5, 13);
    assert_ne!(a, b);
}

#[test]
fn seeded_matrix_lies_in_the_unit_interval_and_varies() {
    let m: Matrix<R> = Matrix::new(20, 20, -7);
    let values: Vec<f64> = m.to_array().iter().map(|x| x.0).collect();
    assert_eq!(values.len(), 400);
    assert!(values.iter().all(|x| -1.0 <= *x && *x < 1.0));
    assert!(values.iter().any(|x| *x < -0.5));
    assert!(values.iter().any(|x| *x > 0.5));
    let mean: f64 = values.iter().sum::<f64>() / 400.0;
    assert!(mean.abs() < 0.2);
}

#[test]
fn seeded_matrices_of_one_seed_share_their_first_elements() {
    let weights: Matrix<R> = Matrix::new(3, 4, 5);
    let bias: Matrix<R> = Matrix::new(3, 1, 5);
    assert_eq!(bias.data[0][0], weights.data[0][0]);
    assert_eq!(bias.data[1][0], weights.data[0][1]);
    assert_eq!(bias.data[2][0], weights.data[0][2]);
}

#[test]
fn seeded_matrix_over_fixed_point() {
    let a: Matrix<Fixed> = Matrix::new(3, 3, 1);
    let b: Matrix<Fixed> = Matrix::new(3, 3, 1);
    assert_eq!(a, b);
    let one: i64 = 4294967296;
    assert!(a.to_array().iter().all(|x| -one <= x.bits && x.bits < one));
}

#[test]
fn multiply_gives_the_matrix_product() {
    let a = grid(&[&[1.0, 2.0], &[3.0, 4.0]]);
    let b = grid(&[&[5.0, 6.0], &[7.0, 8.0]]);
    let c = Matrix::multiply(&a, &b).unwrap();
    assert_eq!(cells(&c), vec![vec![19.0, 22.0], vec![43.0, 50.0]]);
}

#[test]
fn multiply_shape_is_rows_of_left_by_columns_of_right() {
    let a: Matrix<R> = Matrix::new(2, 3, 1);
    let b: Matrix<R> = Matrix::new(3, 5, 2);
    let c = Matrix::multiply(&a, &b).unwrap();
    assert_eq!((c.rows, c.cols), (2, 5));
    assert_eq!(c.data.len(), 2);
    assert!(c.data.iter().all(|row| row.len() == 5));
}

#[test]
fn multiply_rejects_shapes_that_do_not_fit() {
    let a: Matrix<R> = Matrix::new(2, 3, 1);
    let b: Matrix<R> = Matrix::new(2, 3, 2);
    assert_eq!(Matrix::multiply(&a, &b), Err(Error::DimensionMismatch));
}

#[test]
fn multiply_by_identity_returns_the_matrix() {
    let a: Matrix<R> = Matrix::new(3, 4, 9);
    let right = Matrix::multiply(&a, &identity(4)).unwrap();
    let left = Matrix::multiply(&identity(3), &a).unwrap();
    for i in 0..3 {
        for j in 0..4 {
            assert!((right.data[i][j].0 - a.data[i][j].0).abs() < 1e-12);
            assert!((left.data[i][j].0 - a.data[i][j].0).abs() < 1e-12);
        }
    }
}

#[test]
fn multiply_with_an_inner_size_of_zero_gives_zeros() {
    let a: Matrix<R> = matrix_constructor(2, 0);
    let b: Matrix<R> = matrix_constructor(0, 3);
    let c = Matrix::multiply(&a, &b).unwrap();
    assert_eq!(cells(&c), vec![vec![0.0; 3]; 2]);
}

#[test]
fn transpose_swaps_the_axes() {
    let a = grid(&[&[1.0, 2.0, 3.0], &[4.0, 5.0, 6.0]]);
    let t = Matrix::transpose(&a);
    assert_eq!((t.rows, t.cols), (3, 2));
    assert_eq!(cells(&t), vec![vec![1.0, 4.0], vec![2.0, 5.0], vec![3.0, 6.0]]);
}

#[test]
fn transpose_twice_is_the_matrix() {
    let a: Matrix<R> = Matrix::new(3, 5, 4);
    assert_eq!(Matrix::transpose(&Matrix::transpose(&a)), a);
    let empty: Matrix<R> = matrix_constructor(0, 0);
    assert_eq!(Matrix::transpose(&Matrix::transpose(&empty)), empty);
}

#[test]
fn add_matrix_adds_in_place() {
    let mut a = grid(&[&[1.0, 2.0], &[3.0, 4.0]]);
    let b = grid(&[&[10.0, 20.0], &[30.0, 40.0]]);
    assert_eq!(a.add_matrix(&b), Ok(()));
    assert_eq!(cells(&a), vec![vec![11.0, 22.0], vec![33.0, 44.0]]);
}

#[test]
fn add_matrix_rejects_another_shape_and_changes_nothing() {
    let mut a = grid(&[&[1.0, 2.0], &[3.0, 4.0]]);
    let b = grid(&[&[1.0, 2.0, 3.0], &[4.0, 5.0, 6.0]]);
    assert_eq!(a.add_matrix(&b), Err(Error::DimensionMismatch));
    assert_eq!(cells(&a), vec![vec![1.0, 2.0], vec![3.0, 4.0]]);
}

#[test]
fn subtract_gives_the_difference() {
    let a = grid(&[&[1.0, 2.0], &[3.0, 4.0]]);
    let b = grid(&[&[10.0, 20.0], &[30.0, 40.0]]);
    let c = Matrix::subtract(&a, &b).unwrap();
    assert_eq!(cells(&c), vec![vec![-9.0, -18.0], vec![-27.0, -36.0]]);
}

#[test]
fn subtract_rejects_another_shape() {
    let a = grid(&[&[1.0, 2.0]]);
    let b = grid(&[&[1.0], &[2.0]]);
    assert_eq!(Matrix::subtract(&a, &b), Err(Error::DimensionMismatch));
}

#[test]
fn elementwise_product_in_both_forms() {
    let a = grid(&[&[1.0, 2.0], &[3.0, 4.0]]);
    let b = grid(&[&[2.0, 0.5], &[-1.0, 0.0]]);
    let c = Matrix::multiply_1to1(&a, &b).unwrap();
    assert_eq!(cells(&c), vec![vec![2.0, 1.0], vec![-3.0, 0.0]]);
    let mut d = a.clone();
    assert_eq!(d.multiply_with_matrix(&b), Ok(()));
    assert_eq!(d, c);
}

#[test]
fn elementwise_product_rejects_another_shape() {
    let a = grid(&[&[1.0, 2.0], &[3.0, 4.0]]);
    let b = grid(&[&[1.0, 2.0]]);
    assert_eq!(Matrix::multiply_1to1(&a, &b), Err(Error::DimensionMismatch));
    let mut c = a.clone();
    assert_eq!(c.multiply_with_matrix(&b), Err(Error::DimensionMismatch));
    assert_eq!(c, a);
}

#[test]
fn scale_multiplies_every_element() {
    let mut a = grid(&[&[1.0, -2.0], &[0.0, 4.0]]);
    a.scale(R(2.5));
    assert_eq!(cells(&a), vec![vec![2.5, -5.0], vec![0.0, 10.0]]);
    a.multiply_with_double(R(2.0));
    assert_eq!(cells(&a), vec![vec![5.0, -10.0], vec![0.0, 20.0]]);
}

#[test]
fn sigmoid_applies_the_logistic_function() {
    let mut a = grid(&[&[0.0, 1.0], &[-1.0, 100.0]]);
    a.sigmoid();
    let got = cells(&a);
    assert_eq!(got[0][0], 0.5);
    assert!((got[0][1] - 0.7310585786300049).abs() < 1e-15);
    assert!((got[1][0] - 0.2689414213699951).abs() < 1e-15);
    assert_eq!(got[1][1], 1.0);
}

#[test]
fn sigmoid_derivative_is_value_times_one_minus_value() {
    let a = grid(&[&[0.5, 0.25], &[1.0, 0.0]]);
    let expected = vec![vec![0.25, 0.1875], vec![0.0, 0.0]];
    assert_eq!(cells(&a.sigmoid_derivative()), expected);
    assert_eq!(cells(&Matrix::dsigmoid(&a)), expected);
}

#[test]
fn from_array_gives_a_column() {
    let m = Matrix::from_array(vec![R(1.0), R(2.0), R(3.0)]);
    assert_eq!((m.rows, m.cols), (3, 1));
    assert_eq!(cells(&m), vec![vec![1.0], vec![2.0], vec![3.0]]);
    let empty: Matrix<R> = Matrix::from_array(vec![]);
    assert_eq!((empty.rows, empty.cols), (0, 1));
}

#[test]
fn from_2d_array_fills_short_rows_with_zeros() {
    let m = grid(&[&[1.0, 2.0, 3.0], &[4.0], &[]]);
    assert_eq!((m.rows, m.cols), (3, 3));
    assert_eq!(cells(&m), vec![vec![1.0, 2.0, 3.0], vec![4.0, 0.0, 0.0], vec![0.0, 0.0, 0.0]]);
}

#[test]
fn to_array_lists_the_elements_row_by_row() {
    let m = grid(&[&[1.0, 2.0, 3.0], &[4.0, 5.0, 6.0]]);
    let flat: Vec<f64> = m.to_array().iter().map(|x| x.0).collect();
    assert_eq!(flat, vec![1.0, 2.0, 3.0, 4.0, 5.0, 6.0]);
}

#[test]
fn to_array_of_a_column_gives_the_vector_back() {
    let v = vec![R(0.5), R(-1.5), R(2.0)];
    assert_eq!(Matrix::from_array(v.clone()).to_array(), v);
}

#[test]
fn get_reads_one_element() {
    let m = grid(&[&[1.0, 2.0], &[3.0, 4.0]]);
    assert_eq!(m.get(1, 0), R(3.0));
    assert_eq!(m.get(0, 1), R(2.0));
}

#[test]
fn product_over_fixed_point_is_exact_on_small_integers() {
    let a: Matrix<Fixed> = Matrix::from_2d_array(vec![
        vec![Fixed::from_ratio(1, 1), Fixed::from_ratio(2, 1)],
        vec![Fixed::from_ratio(3, 1), Fixed::from_ratio(4, 1)],
    ]);
    let b: Matrix<Fixed> = Matrix::from_2d_array(vec![
        vec![Fixed::from_ratio(1, 2)],
        vec![Fixed::from_ratio(-1, 4)],
    ]);
    let c = Matrix::multiply(&a, &b).unwrap();
    assert_eq!(c.to_array(), vec![Fixed::from_ratio(0, 1), Fixed::from_ratio(1, 2)]);
}

#[test]
fn product_with_identity_over_fixed_point_is_exact() {
    let a: Matrix<Fixed> = Matrix::new(3, 4, 21);
    let mut right: Matrix<Fixed> = matrix_constructor(4, 4);
    let mut left: Matrix<Fixed> = matrix_constructor(3, 3);
    for i in 0..4 {
        right.data[i][i] = Fixed::from_ratio(1, 1);
    }
    for i in 0..3 {
        left.data[i][i] = Fixed::from_ratio(1, 1);
    }
    assert_eq!(Matrix::multiply(&a, &right).unwrap(), a);
    assert_eq!(Matrix::multiply(&left, &a).unwrap(), a);
}
