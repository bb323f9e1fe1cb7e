use linsolve::matrix::Matrix;

#[test]
fn linear_equations_test_1() {
    let matrix: Matrix<i64> = Matrix::from_cells([[0, 1, 2], [1, 0, 0], [0, 0, 0]]);
    assert_eq!(matrix.is_in_zeilenstufenform(), false);
    assert_eq!(matrix.is_in_exact_solution_form(), false);
}

#[test]
fn linear_equations_test_2() {
    let matrix: Matrix<i64> = Matrix::from_cells([[0, 1, 2], [0, 1, 1], [0, 0, 0]]);
    assert_eq!(matrix.is_in_zeilenstufenform(), false);
    assert_eq!(matrix.is_in_exact_solution_form(), false);
}

#[test]
fn linear_equations_test_3() {
    let matrix: Matrix<i64> = Matrix::from_cells([[1, 2, -1], [0, 0, -1], [0, 0, 0]]);
    assert_eq!(matrix.is_in_zeilenstufenform(), true);
    assert_eq!(matrix.is_in_strict_zeilenstufenform(), false);
    assert_eq!(matrix.is_in_exact_solution_form(), false);
}

#[test]
fn test_4() {
    let matrix: Matrix<i64> = Matrix::from_cells([[1, 2, 0], [0, 0, -1], [0, 0, 0]]);
    assert_eq!(matrix.is_in_strict_zeilenstufenform(), true);
    assert_eq!(matrix.is_in_exact_solution_form(), false);
}

#[test]
fn test_5() {
    let matrix: Matrix<i64> = Matrix::from_cells([[1, 0, 3], [0, 1, -1], [0, 0, 0]]);
    assert_eq!(matrix.is_in_strict_zeilenstufenform(), true);
    assert_eq!(matrix.is_in_exact_solution_form(), true);
}

#[test]
fn empty_matrix_is_in_echelon_form() {
    let matrix: Matrix<i64> = Matrix::new(0, 0);
    assert_eq!(matrix.is_in_zeilenstufenform(), true);
    assert_eq!(matrix.is_in_strict_zeilenstufenform(), true);
    assert_eq!(matrix.is_in_exact_solution_form(), true);
}

#[test]
fn two_zero_rows_fail_the_echelon_check() {
    let matrix: Matrix<i64> = Matrix::from_cells([[1, 0], [0, 0], [0, 0]]);
    assert_eq!(matrix.is_in_zeilenstufenform(), false);
    assert_eq!(matrix.is_in_strict_zeilenstufenform(), false);
}

#[test]
fn single_zero_row_passes_the_echelon_check() {
    let matrix: Matrix<i64> = Matrix::from_cells([[0, 0, 0]]);
    assert_eq!(matrix.is_in_zeilenstufenform(), true);
}

#[test]
fn exact_solution_form_rejects_a_nonzero_final_row() {
    let matrix: Matrix<i64> = Matrix::from_cells([[1, 0, 2], [0, 1, 5], [0, 0, 7]]);
    assert_eq!(matrix.is_in_exact_solution_form(), false);
}

#[test]
fn exact_solution_form_rejects_any_nonzero_row_past_the_pivot_range() {
    let matrix: Matrix<i64> = Matrix::from_cells([[1, 0, 5], [0, 1, 7], [0, 0, 0], [0, 0, 9]]);
    assert_eq!(matrix.is_in_exact_solution_form(), false);
    let clean: Matrix<i64> = Matrix::from_cells([[1, 0, 5], [0, 1, 7], [0, 0, 0], [0, 0, 0]]);
    assert_eq!(clean.is_in_exact_solution_form(), true);
}

#[test]
fn structural_operations_keep_their_shapes() {
    let mut matrix: Matrix<i64> = Matrix::from_cells([[1, 2], [3, 4]]);
    matrix.add_rows(1);
    assert_eq!(matrix.rows, 3);
    assert_eq!(matrix, Matrix::from_cells([[1, 2], [3, 4], [0, 0]]));
    matrix.add_columns(1);
    assert_eq!(matrix, Matrix::from_cells([[1, 2, 0], [3, 4, 0], [0, 0, 0]]));
    matrix.swap_rows(0, 2);
    assert_eq!(matrix, Matrix::from_cells([[0, 0, 0], [3, 4, 0], [1, 2, 0]]));
    matrix.swap_columns(0, 1);
    assert_eq!(matrix, Matrix::from_cells([[0, 0, 0], [4, 3, 0], [2, 1, 0]]));
    matrix.transpose();
    assert_eq!(matrix, Matrix::from_cells([[0, 4, 2], [0, 3, 1], [0, 0, 0]]));
    assert_eq!(matrix.row(1), Matrix::from_cells([[0, 3, 1]]));
    assert_eq!(matrix.column(1), Matrix::from_cells([[4], [3], [0]]));
}

#[test]
fn attach_joins_matrices_edge_to_edge() {
    let mut left: Matrix<i64> = Matrix::from_cells([[1], [3]]);
    let right: Matrix<i64> = Matrix::from_cells([[2], [4]]);
    left.attach_to_the_right(right);
    assert_eq!(left, Matrix::from_cells([[1, 2], [3, 4]]));
    let below: Matrix<i64> = Matrix::from_cells([[5, 6]]);
    left.attach_below(below);
    assert_eq!(left, Matrix::from_cells([[1, 2], [3, 4], [5, 6]]));
}
