use linsolve::field::{Field, Gf2, Scalar};
use linsolve::linear_equations::LinearEquationSystemSolutions;
use linsolve::matrix::Matrix;

/// Exact integer scalars for tests whose eliminations and divisions stay
/// within the integers.
#[derive(Clone, Copy, PartialEq, Debug)]
struct Q(i64);

// The specification members of the traits never run; unverified test
// scalars stub them out.
impl Scalar for Q {
    fn zero_spec() -> Q {
        unreachable!()
    }

    fn one_spec() -> Q {
        unreachable!()
    }

    fn zero() -> Q {
        Q(0)
    }

    fn one() -> Q {
        Q(1)
    }

    fn is_zero(&self) -> bool {
        self.0 == 0
    }

    fn is_one(&self) -> bool {
        self.0 == 1
    }
}

impl Field for Q {
    fn add_spec(_: Q, _: Q) -> Q {
        unreachable!()
    }

    fn mul_spec(_: Q, _: Q) -> Q {
        unreachable!()
    }

    fn neg_spec(_: Q) -> Q {
        unreachable!()
    }

    fn div_spec(_: Q, _: Q) -> Q {
        unreachable!()
    }

    fn law_add_zero(_: Q) {
        unreachable!()
    }

    fn law_mul_zero_left(_: Q) {
        unreachable!()
    }

    fn law_mul_zero_right(_: Q) {
        unreachable!()
    }

    fn law_neg_zero() {
        unreachable!()
    }

    fn law_div_zero(_: Q) {
        unreachable!()
    }

    fn law_cancel(_: Q, _: Q) {
        unreachable!()
    }

    fn law_zero_add(_: Q) {
        unreachable!()
    }

    fn law_add_comm(_: Q, _: Q) {
        unreachable!()
    }

    fn law_add_assoc(_: Q, _: Q, _: Q) {
        unreachable!()
    }

    fn law_add_neg(_: Q) {
        unreachable!()
    }

    fn law_mul_one(_: Q) {
        unreachable!()
    }

    fn law_mul_div(_: Q, _: Q) {
        unreachable!()
    }

    fn law_mul_neg(_: Q, _: Q) {
        unreachable!()
    }

    fn law_distribute(_: Q, _: Q, _: Q) {
        unreachable!()
    }

    fn add(self, other: Q) -> Q {
        Q(self.0 + other.0)
    }

    fn mul(self, other: Q) -> Q {
        Q(self.0 * other.0)
    }

    fn neg(self) -> Q {
        Q(-self.0)
    }

    fn div(self, other: Q) -> Q {
        Q(self.0 / other.0)
    }
}

/// Floating-point scalars for the tests the original ran over floats.
#[derive(Clone, Copy, PartialEq, Debug)]
struct R(f64);

// The specification members of the traits never run; unverified test
// scalars stub them out.
impl Scalar for R {
    fn zero_spec() -> R {
        unreachable!()
    }

    fn one_spec() -> R {
        unreachable!()
    }

    fn zero() -> R {
        R(0.0)
    }

    fn one() -> R {
        R(1.0)
    }

    fn is_zero(&self) -> bool {
        self.0 == 0.0
    }

    fn is_one(&self) -> bool {
        self.0 == 1.0
    }
}

impl Field for R {
    fn add_spec(_: R, _: R) -> R {
        unreachable!()
    }

    fn mul_spec(_: R, _: R) -> R {
        unreachable!()
    }

    fn neg_spec(_: R) -> R {
        unreachable!()
    }

    fn div_spec(_: R, _: R) -> R {
        unreachable!()
    }

    fn law_add_zero(_: R) {
        unreachable!()
    }

    fn law_mul_zero_left(_: R) {
        unreachable!()
    }

    fn law_mul_zero_right(_: R) {
        unreachable!()
    }

    fn law_neg_zero() {
        unreachable!()
    }

    fn law_div_zero(_: R) {
        unreachable!()
    }

    fn law_cancel(_: R, _: R) {
        unreachable!()
    }

    fn law_zero_add(_: R) {
        unreachable!()
    }

    fn law_add_comm(_: R, _: R) {
        unreachable!()
    }

    fn law_add_assoc(_: R, _: R, _: R) {
        unreachable!()
    }

    fn law_add_neg(_: R) {
        unreachable!()
    }

    fn law_mul_one(_: R) {
        unreachable!()
    }

    fn law_mul_div(_: R, _: R) {
        unreachable!()
    }

    fn law_mul_neg(_: R, _: R) {
        unreachable!()
    }

    fn law_distribute(_: R, _: R, _: R) {
        unreachable!()
    }

    fn add(self, other: R) -> R {
        R(self.0 + other.0)
    }

    fn mul(self, other: R) -> R {
        R(self.0 * other.0)
    }

    fn neg(self) -> R {
        R(-self.0)
    }

    fn div(self, other: R) -> R {
        R(self.0 / other.0)
    }
}

#[test]
fn test_multiply() {
    let a = Matrix::from_cells([[Q(1), Q(2)], [Q(3), Q(4)]]);
    let b = Matrix::from_cells([[Q(5), Q(6)], [Q(7), Q(8)]]);
    let c = Matrix::from_cells([[Q(9), Q(10)], [Q(11), Q(12)]]);
    println!("{:?}", a.times(&b).times(&c));
    println!("{:?}", a.times(&b.times(&c)));
}

#[test]
fn test_6() {
    let matrix = Matrix::from_cells([
        [R(-3.0), R(2.0), R(0.0)],
        [R(3.0), R(-2.0), R(0.0)],
        [R(1.0), R(1.0), R(1.0)],
    ]);
    assert_eq!(matrix.is_in_strict_zeilenstufenform(), false);
    assert_eq!(matrix.is_in_exact_solution_form(), false);

    let mut matrix_clone = matrix.clone();
    matrix_clone.turn_into_zeilenstufenform();
    println!("{matrix_clone:#?}");
    matrix_clone.turn_into_strict_zeilenstufenform();
    println!("{matrix_clone:#?}");

    let solution = matrix_clone.solve_as_system_of_linear_equations();
    println!("{solution:#?}");
}

#[test]
fn test_7() {
    let matrix = Matrix::from_cells([[R(1.0), R(2.0), R(3.0), R(4.0)]]);

    let mut matrix_clone = matrix.clone();

    let solution = matrix_clone.solve_as_system_of_linear_equations();
    println!("{solution:#?}");
}

#[test]
fn test_8() {
    let matrix = Matrix::from_cells([[R(1.0), R(2.0), R(3.0)]]).times(
        &Matrix::from_cells([[R(4.0)], [R(0.0)], [R(0.0)]]).plus(
            Matrix::from_cells([
                [R(1.0), R(0.0)],
                [R(0.0), R(0.5)],
                [R(-0.3333333333333333), R(-0.3333333333333333)],
            ]).times(&Matrix::from_cells([[R(-123.0)], [R(423.0)]])),
        ),
    );

    println!("{matrix:?}");
}

#[test]
fn matrix_multiplication_test_1() {
    let a = Matrix::from_cells([[Q(1), Q(0), Q(1)], [Q(0), Q(1), Q(2)]]);
    let b = Matrix::from_cells([[Q(1), Q(1)], [Q(1), Q(2)], [Q(0), Q(1)]]);
    let c = a.times(&b);
    let expected_c = Matrix::from_cells([[Q(1), Q(2)], [Q(1), Q(4)]]);
    assert_eq!(c, expected_c);
}

#[test]
fn matrix_multiplication_test_2() {
    let a = Matrix::from_cells([[Q(1), Q(2)], [Q(4), Q(5)]]);
    let b = Matrix::from_cells([[Q(5), Q(6)], [Q(8), Q(9)]]);
    let c = a.times(&b);
    let expected_c = Matrix::from_cells([[Q(21), Q(24)], [Q(60), Q(69)]]);
    assert_eq!(c, expected_c);
}

#[test]
fn test_3() {
    let a = Matrix::from_cells([[R(0.9), R(0.1)], [R(0.2), R(0.8)]]);
    let mut b = a.clone();
    for _ in 0..1000 {
        b = b.times(&a);
    }
    println!("{b:?}");
}

#[test]
fn zero_coefficients_with_nonzero_rhs_have_no_solution() {
    let mut matrix = Matrix::from_cells([[Q(0), Q(0), Q(0)], [Q(0), Q(0), Q(5)]]);
    let solution = matrix.solve_as_system_of_linear_equations();
    assert!(matches!(solution, LinearEquationSystemSolutions::NoSolution));
}

#[test]
fn strict_echelon_system_solves_exactly() {
    let mut matrix = Matrix::from_cells([[Q(1), Q(0), Q(3)], [Q(0), Q(1), Q(-1)], [Q(0), Q(0), Q(0)]]);
    let solution = matrix.solve_as_system_of_linear_equations();
    match solution {
        LinearEquationSystemSolutions::ExactSolution(offset) => {
            assert_eq!(offset, Matrix::from_cells([[Q(3)], [Q(-1)]]));
        }
        _ => panic!("expected an exact solution"),
    }
}

#[test]
fn single_row_system_has_two_free_parameters() {
    let mut matrix = Matrix::from_cells([[Q(1), Q(2), Q(3), Q(4)]]);
    let solution = matrix.solve_as_system_of_linear_equations();
    match solution {
        LinearEquationSystemSolutions::ManySolutions { offset, parameter_matrix } => {
            assert_eq!(parameter_matrix.columns, 2);
            assert_eq!(offset, Matrix::from_cells([[Q(4)], [Q(0)], [Q(0)]]));
        }
        _ => panic!("expected a parametric family"),
    }
}

#[test]
fn unique_solution_reproduces_the_right_hand_side() {
    let mut matrix = Matrix::from_cells([[Q(2), Q(0), Q(4)], [Q(0), Q(3), Q(9)]]);
    let solution = matrix.solve_as_system_of_linear_equations();
    match solution {
        LinearEquationSystemSolutions::ExactSolution(offset) => {
            assert_eq!(offset, Matrix::from_cells([[Q(2)], [Q(3)]]));
            let coefficients = Matrix::from_cells([[Q(2), Q(0)], [Q(0), Q(3)]]);
            let reproduced = coefficients.times(&offset);
            assert_eq!(reproduced, Matrix::from_cells([[Q(4)], [Q(9)]]));
        }
        _ => panic!("expected an exact solution"),
    }
}

#[test]
fn parametric_solutions_satisfy_the_original_equation() {
    let mut matrix = Matrix::from_cells([[Q(1), Q(1), Q(-1), Q(4)]]);
    let solution = matrix.solve_as_system_of_linear_equations();
    match solution {
        LinearEquationSystemSolutions::ManySolutions { offset, parameter_matrix } => {
            assert_eq!(offset, Matrix::from_cells([[Q(4)], [Q(0)], [Q(0)]]));
            assert_eq!(
                parameter_matrix,
                Matrix::from_cells([[Q(-1), Q(1)], [Q(1), Q(0)], [Q(0), Q(1)]])
            );
            let coefficients = Matrix::from_cells([[Q(1), Q(1), Q(-1)]]);
            let rhs = Matrix::from_cells([[Q(4)]]);
            let zero_parameters = Matrix::from_cells([[Q(0)], [Q(0)]]);
            let with_zero = offset.clone().plus(parameter_matrix.times(&zero_parameters));
            assert_eq!(with_zero, offset);
            assert_eq!(coefficients.times(&with_zero), rhs);
            let e1 = Matrix::from_cells([[Q(1)], [Q(0)]]);
            let e2 = Matrix::from_cells([[Q(0)], [Q(1)]]);
            let with_e1 = offset.clone().plus(parameter_matrix.times(&e1));
            let with_e2 = offset.clone().plus(parameter_matrix.times(&e2));
            assert_eq!(coefficients.times(&with_e1), rhs);
            assert_eq!(coefficients.times(&with_e2), rhs);
        }
        _ => panic!("expected a parametric family"),
    }
}

#[test]
fn strict_reduction_is_idempotent() {
    let mut once = Matrix::from_cells([
        [R(-3.0), R(2.0), R(0.0)],
        [R(3.0), R(-2.0), R(0.0)],
        [R(1.0), R(1.0), R(1.0)],
    ]);
    once.turn_into_strict_zeilenstufenform();
    let mut twice = once.clone();
    twice.turn_into_strict_zeilenstufenform();
    assert_eq!(once, twice);
    assert!(once.is_in_strict_zeilenstufenform());
}

#[test]
fn reduction_establishes_the_echelon_forms() {
    let mut matrix = Matrix::from_cells([
        [R(0.0), R(2.0), R(4.0)],
        [R(3.0), R(3.0), R(3.0)],
        [R(3.0), R(5.0), R(7.0)],
    ]);
    matrix.turn_into_zeilenstufenform();
    assert!(matrix.is_in_zeilenstufenform());
    matrix.turn_into_strict_zeilenstufenform();
    assert!(matrix.is_in_strict_zeilenstufenform());
}

#[test]
fn solving_over_the_two_element_field() {
    let zero = Gf2 { bit: false };
    let one = Gf2 { bit: true };
    let mut matrix = Matrix::from_cells([[one, one, one], [zero, one, one]]);
    let solution = matrix.solve_as_system_of_linear_equations();
    match solution {
        LinearEquationSystemSolutions::ExactSolution(offset) => {
            assert_eq!(offset, Matrix::from_cells([[zero], [one]]));
        }
        _ => panic!("expected an exact solution"),
    }
}

#[test]
fn scalar_tests_recognise_zero_and_one() {
    assert!(Q(0).is_zero());
    assert!(!Q(2).is_zero());
    assert!(Q(1).is_one());
    assert!(Gf2 { bit: false }.is_zero());
    assert!(Gf2 { bit: true }.is_one());
    assert_eq!(Gf2::zero().add(Gf2::one()), Gf2::one());
    assert_eq!(Gf2::one().add(Gf2::one()), Gf2::zero());
    assert_eq!(Gf2::one().mul(Gf2::one()), Gf2::one());
    assert_eq!(Gf2::one().div(Gf2::one()), Gf2::one());
    assert_eq!(Gf2::one().neg(), Gf2::one());
}

#[test]
fn an_unconstrained_variable_becomes_a_free_parameter() {
    let mut matrix = Matrix::from_cells([[Q(1), Q(0), Q(3)]]);
    let solution = matrix.solve_as_system_of_linear_equations();
    match solution {
        LinearEquationSystemSolutions::ManySolutions { offset, parameter_matrix } => {
            assert_eq!(offset, Matrix::from_cells([[Q(3)], [Q(0)]]));
            assert_eq!(parameter_matrix, Matrix::from_cells([[Q(0)], [Q(1)]]));
        }
        _ => panic!("expected a parametric family"),
    }
}
