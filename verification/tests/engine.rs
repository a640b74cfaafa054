use polyregres::rational::Rational;
use polyregres::regress::{DataPoint, PolynomialRegression};
use polyregres::solver::{combine_matrices, gaussian_jordan_elimination, FitError};

fn ri(n: i128) -> Rational {
    Rational::from_int(n)
}

fn point(x: i128, y: i128) -> DataPoint {
    DataPoint { x: ri(x), y: ri(y) }
}

fn assert_value(actual: &Rational, num: i128, den: i128) {
    assert_eq!(actual.eq_value(&Rational::new(num, den)), Some(true));
}

#[test]
fn degree_zero_fits_the_mean() {
    let mut poly = PolynomialRegression::new(vec![point(0, 1), point(1, 2), point(2, 6)], 0);
    let terms = poly.get_terms().unwrap();
    assert_eq!(terms.len(), 1);
    assert_value(&terms[0], 3, 1);
}

#[test]
fn degree_zero_mean_can_be_fractional() {
    let mut poly = PolynomialRegression::new(vec![point(0, 1), point(1, 2)], 0);
    let terms = poly.get_terms().unwrap();
    assert_value(&terms[0], 3, 2);
}

#[test]
fn known_closed_form_quadratic() {
    // y = x^2 + 1 through (0,1), (1,2), (2,5): coefficients [1, 0, 1].
    let mut poly = PolynomialRegression::new(vec![point(0, 1), point(1, 2), point(2, 5)], 2);
    let terms = poly.get_terms().unwrap();
    assert_eq!(terms.len(), 3);
    assert_value(&terms[0], 1, 1);
    assert_value(&terms[1], 0, 1);
    assert_value(&terms[2], 1, 1);
}

#[test]
fn linear_case() {
    // y = 2x through four points: coefficients [0, 2].
    let data = vec![point(0, 0), point(1, 2), point(2, 4), point(3, 6)];
    let mut poly = PolynomialRegression::new(data, 1);
    let terms = poly.get_terms().unwrap();
    assert_eq!(terms.len(), 2);
    assert_value(&terms[0], 0, 1);
    assert_value(&terms[1], 2, 1);
}

#[test]
fn least_squares_line_over_four_points() {
    // (0,0), (1,1), (2,1), (3,2) are not collinear; the least-squares line
    // is y = 1/10 + (3/5) x, the unique solution of the normal equations
    // [[4, 6], [6, 14]] c = [4, 9].
    let data = vec![point(0, 0), point(1, 1), point(2, 1), point(3, 2)];
    let mut poly = PolynomialRegression::new(data, 1);
    let terms = poly.get_terms().unwrap();
    assert_value(&terms[0], 1, 10);
    assert_value(&terms[1], 3, 5);
}

#[test]
fn exact_interpolation_quadratic() {
    // Degree n-1 through n samples with distinct x reproduces every sample.
    let data = vec![point(0, 3), point(1, -1), point(4, 5)];
    let mut poly = PolynomialRegression::new(data, 2);
    let terms = poly.get_terms().unwrap();
    let checks = [(0i128, 3i128), (1, -1), (4, 5)];
    let mut i = 0;
    while i < checks.len() {
        let (x, y) = checks[i];
        let yhat = PolynomialRegression::predict_y(&terms, ri(x)).unwrap();
        assert_value(&yhat, y, 1);
        i += 1;
    }
}

#[test]
fn singular_when_degree_exceeds_samples() {
    // Degree 3 with two samples: the moment matrix is rank-deficient.
    let mut poly = PolynomialRegression::new(vec![point(0, 1), point(1, 2)], 3);
    assert_eq!(poly.get_terms(), Err(FitError::SingularSystem));
}

#[test]
fn singular_on_duplicate_x() {
    let mut poly = PolynomialRegression::new(vec![point(1, 1), point(1, 2)], 1);
    assert_eq!(poly.get_terms(), Err(FitError::SingularSystem));
}

#[test]
fn empty_input_is_rejected() {
    let mut poly = PolynomialRegression::new(Vec::new(), 2);
    assert_eq!(poly.get_terms(), Err(FitError::EmptyInput));
}

#[test]
fn overflow_is_reported() {
    let big: i128 = 1 << 64;
    let data = vec![DataPoint { x: Rational::new(big, 1), y: ri(1) }, point(1, 2)];
    let mut poly = PolynomialRegression::new(data, 1);
    assert_eq!(poly.get_terms(), Err(FitError::Overflow));
}

#[test]
fn evaluator_round_trip_is_deterministic() {
    let data = vec![point(0, 0), point(1, 2), point(2, 4), point(3, 6)];
    let mut poly = PolynomialRegression::new(data, 1);
    let terms = poly.get_terms().unwrap();
    let xs = [0i128, 1, 2, 3];
    let mut i = 0;
    while i < xs.len() {
        let first = PolynomialRegression::predict_y(&terms, ri(xs[i])).unwrap();
        let second = PolynomialRegression::predict_y(&terms, ri(xs[i])).unwrap();
        assert_eq!(first.numerator(), second.numerator());
        assert_eq!(first.denominator(), second.denominator());
        assert_value(&first, 2 * xs[i], 1);
        i += 1;
    }
}

#[test]
fn fit_is_idempotent_bitwise() {
    let data = vec![point(0, 1), point(1, 2), point(2, 5)];
    let mut first = PolynomialRegression::new(data.clone(), 2);
    let mut second = PolynomialRegression::new(data, 2);
    let t1 = first.get_terms().unwrap();
    let t2 = second.get_terms().unwrap();
    assert_eq!(t1.len(), t2.len());
    let mut i = 0;
    while i < t1.len() {
        assert_eq!(t1[i].numerator(), t2[i].numerator());
        assert_eq!(t1[i].denominator(), t2[i].denominator());
        i += 1;
    }
}

#[test]
fn refitting_the_same_engine_is_idempotent() {
    let data = vec![point(0, 1), point(1, 2), point(2, 5)];
    let mut poly = PolynomialRegression::new(data, 2);
    let t1 = poly.get_terms().unwrap();
    let t2 = poly.get_terms().unwrap();
    let mut i = 0;
    while i < t1.len() {
        assert_eq!(t1[i].numerator(), t2[i].numerator());
        assert_eq!(t1[i].denominator(), t2[i].denominator());
        i += 1;
    }
}

#[test]
fn left_matrix_holds_the_moment_sums() {
    // For (0,0), (1,2), (2,4), (3,6) at degree 1: n = 4, sum x = 6,
    // sum x^2 = 14, b = [12, 28].
    let data = vec![point(0, 0), point(1, 2), point(2, 4), point(3, 6)];
    let mut poly = PolynomialRegression::new(data, 1);
    poly.get_terms().unwrap();
    assert_value(&poly.left_matrix[0][0], 4, 1);
    assert_value(&poly.left_matrix[0][1], 6, 1);
    assert_value(&poly.left_matrix[1][0], 6, 1);
    assert_value(&poly.left_matrix[1][1], 14, 1);
    assert_value(&poly.right_matrix[0], 12, 1);
    assert_value(&poly.right_matrix[1], 28, 1);
}

#[test]
fn sum_helpers_compute_the_sums() {
    let data = vec![point(1, 2), point(2, 3), point(3, 4)];
    let poly = PolynomialRegression::new(data, 1);
    assert_value(&poly.sum_x(2).unwrap(), 14, 1);
    assert_value(&poly.sum_x(0).unwrap(), 3, 1);
    assert_value(&poly.sum_x_times_y(1).unwrap(), 20, 1);
    assert_value(&poly.sum_x_times_y(0).unwrap(), 9, 1);
}

#[test]
fn solver_handles_a_diagonal_system() {
    let left = vec![vec![ri(2), ri(0)], vec![ri(0), ri(2)]];
    let right = vec![ri(2), ri(4)];
    let c = gaussian_jordan_elimination(&left, &right).unwrap();
    assert_value(&c[0], 1, 1);
    assert_value(&c[1], 2, 1);
}

#[test]
fn solver_reports_a_zero_pivot() {
    let left = vec![vec![ri(0), ri(1)], vec![ri(1), ri(0)]];
    let right = vec![ri(1), ri(1)];
    assert_eq!(
        gaussian_jordan_elimination(&left, &right),
        Err(FitError::SingularSystem)
    );
}

#[test]
fn combine_appends_the_right_column() {
    let left = vec![vec![ri(1), ri(2)], vec![ri(3), ri(4)]];
    let right = vec![ri(5), ri(6)];
    let aug = combine_matrices(&left, &right);
    assert_eq!(aug.len(), 2);
    assert_eq!(aug[0].len(), 3);
    assert_value(&aug[0][2], 5, 1);
    assert_value(&aug[1][2], 6, 1);
    assert_value(&aug[1][0], 3, 1);
}

#[test]
fn predict_on_no_terms_is_zero() {
    let terms: Vec<Rational> = Vec::new();
    let y = PolynomialRegression::predict_y(&terms, ri(5)).unwrap();
    assert_eq!(y.numerator(), 0);
}

#[test]
fn predict_reports_overflow() {
    let terms = vec![ri(1), ri(1), ri(1)];
    let big: i128 = 1 << 64;
    assert!(PolynomialRegression::predict_y(&terms, Rational::new(big, 1)).is_none());
}

#[test]
fn pow_rat_is_exact() {
    let v = polyregres::regress::pow_rat(Rational::new(2, 3), 3).unwrap();
    assert_value(&v, 8, 27);
}
