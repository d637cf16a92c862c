use whittaker::{
    difference_matrix, difference_stencil, penalty_matrix, validate_request, Matrix,
    SmootherError, MAX_ORDER,
};

fn matrix_rows(m: &Matrix) -> Vec<Vec<i128>> {
    let mut rows: Vec<Vec<i128>> = Vec::new();
    for r in 0..m.rows() {
        let mut row: Vec<i128> = Vec::new();
        for c in 0..m.cols() {
            row.push(m.entry(r, c));
        }
        rows.push(row);
    }
    rows
}

#[test]
fn test_sparse_difference_matrix() {
    let d = difference_matrix(4, 3).unwrap();
    assert_eq!(matrix_rows(&d), vec![vec![-1, 3, -3, 1]]);
    let d = difference_matrix(5, 3).unwrap();
    assert_eq!(
        matrix_rows(&d),
        vec![vec![-1, 3, -3, 1, 0], vec![0, -1, 3, -3, 1]]
    );
    let d = difference_matrix(6, 3).unwrap();
    assert_eq!(
        matrix_rows(&d),
        vec![
            vec![-1, 3, -3, 1, 0, 0],
            vec![0, -1, 3, -3, 1, 0],
            vec![0, 0, -1, 3, -3, 1]
        ]
    );
}

#[test]
fn stencil_golden_values() {
    assert_eq!(difference_stencil(0), vec![1]);
    assert_eq!(difference_stencil(1), vec![-1, 1]);
    assert_eq!(difference_stencil(2), vec![1, -2, 1]);
    assert_eq!(difference_stencil(3), vec![-1, 3, -3, 1]);
}

#[test]
fn stencil_length_is_order_plus_one() {
    for order in 0..8 {
        assert_eq!(difference_stencil(order).len(), order + 1);
    }
    assert_eq!(difference_stencil(MAX_ORDER).len(), MAX_ORDER + 1);
}

#[test]
fn validation_rejects_empty_input() {
    assert_eq!(
        validate_request(0, 0, true, true),
        Err(SmootherError::InvalidOrder)
    );
    assert_eq!(difference_matrix(0, 0).unwrap_err(), SmootherError::InvalidOrder);
    assert_eq!(penalty_matrix(0, 2).unwrap_err(), SmootherError::InvalidOrder);
}

#[test]
fn validation_rejects_order_at_least_length() {
    assert_eq!(
        validate_request(3, 3, true, true),
        Err(SmootherError::InvalidOrder)
    );
    assert_eq!(
        validate_request(3, 7, true, true),
        Err(SmootherError::InvalidOrder)
    );
    assert_eq!(difference_matrix(3, 3).unwrap_err(), SmootherError::InvalidOrder);
    assert_eq!(penalty_matrix(2, 5).unwrap_err(), SmootherError::InvalidOrder);
}

#[test]
fn validation_accepts_valid_dimensions() {
    assert_eq!(validate_request(1, 0, true, true), Ok(()));
    assert_eq!(validate_request(5, 2, true, true), Ok(()));
    assert!(difference_matrix(5, 2).is_ok());
    assert!(penalty_matrix(5, 2).is_ok());
}

#[test]
fn validation_rejects_non_finite_input() {
    assert_eq!(
        validate_request(5, 2, false, true),
        Err(SmootherError::InvalidInput)
    );
    assert_eq!(
        validate_request(5, 2, true, false),
        Err(SmootherError::InvalidInput)
    );
    // Bad dimensions take precedence: they are judged before the samples.
    assert_eq!(
        validate_request(0, 0, false, false),
        Err(SmootherError::InvalidOrder)
    );
}

#[test]
fn difference_matrix_order_zero_is_identity() {
    let d = difference_matrix(3, 0).unwrap();
    assert_eq!(
        matrix_rows(&d),
        vec![vec![1, 0, 0], vec![0, 1, 0], vec![0, 0, 1]]
    );
}

#[test]
fn difference_matrix_shape() {
    for n in 1..7usize {
        for order in 0..n {
            let d = difference_matrix(n, order).unwrap();
            assert_eq!(d.rows(), n - order);
            assert_eq!(d.cols(), n);
        }
    }
}

#[test]
fn difference_matrix_rows_have_order_plus_one_nonzeros() {
    let d = difference_matrix(9, 3).unwrap();
    for r in 0..d.rows() {
        let nonzeros = (0..d.cols()).filter(|&c| d.entry(r, c) != 0).count();
        assert_eq!(nonzeros, 4);
    }
}

#[test]
fn penalty_matrix_order_zero_is_identity() {
    let a = penalty_matrix(3, 0).unwrap();
    assert_eq!(
        matrix_rows(&a),
        vec![vec![1, 0, 0], vec![0, 1, 0], vec![0, 0, 1]]
    );
}

#[test]
fn penalty_matrix_golden_first_order() {
    let a = penalty_matrix(3, 1).unwrap();
    assert_eq!(
        matrix_rows(&a),
        vec![vec![1, -1, 0], vec![-1, 2, -1], vec![0, -1, 1]]
    );
}

#[test]
fn penalty_matrix_golden_second_order() {
    let a = penalty_matrix(4, 2).unwrap();
    assert_eq!(
        matrix_rows(&a),
        vec![
            vec![1, -2, 1, 0],
            vec![-2, 5, -4, 1],
            vec![1, -4, 5, -2],
            vec![0, 1, -2, 1]
        ]
    );
}

#[test]
fn penalty_matrix_is_square_and_symmetric() {
    let a = penalty_matrix(7, 3).unwrap();
    assert_eq!(a.rows(), 7);
    assert_eq!(a.cols(), 7);
    for i in 0..7 {
        for j in 0..7 {
            assert_eq!(a.entry(i, j), a.entry(j, i));
        }
    }
}
