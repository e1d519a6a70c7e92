use equation_solver::equation_error::EquationError;
use equation_solver::equation_result::EquationResult;
use equation_solver::number::Real;
use equation_solver::solve_equation::solve_equation;
use equation_solver::token_stream::EquationInput;

fn whole(n: i64) -> Real {
    let magnitude = Real::from_integer(n.unsigned_abs());
    if n < 0 {
        magnitude.negated()
    } else {
        magnitude
    }
}

fn value(number: &Real) -> f64 {
    let magnitude = (number.mantissa as f64 / 2f64.powi(63)) * 2f64.powi(number.exponent + 63);
    if number.negative {
        -magnitude
    } else {
        magnitude
    }
}

fn solve(equation: &str, variable_name: &str) -> Result<EquationResult, EquationError> {
    solve_equation(&EquationInput::new(String::from(equation), String::from(variable_name)))
}

fn solutions(numbers: &[i64]) -> Result<EquationResult, EquationError> {
    Ok(EquationResult::Solutions(numbers.iter().map(|n| whole(*n)).collect()))
}

fn all_but(numbers: &[i64]) -> Result<EquationResult, EquationError> {
    Ok(EquationResult::InfiniteSolutions { exceptions: numbers.iter().map(|n| whole(*n)).collect() })
}

#[test]
fn empty_equation_is_refused() {
    assert_eq!(solve("", "x"), Err(EquationError::EmptyEquation));
}

#[test]
fn empty_variable_name_is_refused() {
    assert_eq!(solve("x + 1 = 2", ""), Err(EquationError::EmptyVariableName));
}

#[test]
fn equation_without_the_variable_is_refused() {
    assert_eq!(solve("1 + 2 = 3", "x"), Err(EquationError::NoOccurrencesOfVariable));
}

#[test]
fn linear_equation_has_one_solution() {
    assert_eq!(solve("2*x = 6", "x"), solutions(&[3]));
}

#[test]
fn quadratic_equation_has_two_solutions() {
    assert_eq!(solve("3*x*x + 6*x = 9", "x"), solutions(&[1, -3]));
}

#[test]
fn factor_of_the_variable_makes_zero_a_solution() {
    assert_eq!(solve("2*x*x = 6*x", "x"), solutions(&[3, 0]));
}

#[test]
fn identity_holds_everywhere() {
    assert_eq!(solve("x + 3 = x + 3", "x"), all_but(&[]));
}

#[test]
fn identity_with_a_division_holds_but_at_zero() {
    assert_eq!(solve("1/x = 1/x", "x"), all_but(&[0]));
}

#[test]
fn identity_with_a_divisor_holds_but_at_its_zeroes() {
    assert_eq!(solve("1/((x-1)*(x+1)) = 1/((x-1)*(x+1))", "x"), all_but(&[1, -1]));
}

#[test]
fn negative_square_has_no_real_solution() {
    assert_eq!(solve("x*x = -1", "x"), Err(EquationError::ComplexNumbers));
}

#[test]
fn cubic_equation_is_refused() {
    assert_eq!(
        solve("x*x*x + 4 = 0", "x"),
        Err(EquationError::TooHighDegree { degree: 3, max_degree: 2 })
    );
}

#[test]
fn division_by_zero_is_refused() {
    assert_eq!(solve("x = 1/0", "x"), Err(EquationError::DivisionByZero));
}

#[test]
fn roots_are_found_and_listed_in_descending_order() {
    let cases: [(&str, &[f64]); 8] = [
        ("x*x - 5x + 6 = 0", &[3.0, 2.0]),
        ("x*x = 2", &[1.4142135623730951, -1.4142135623730951]),
        ("0.5x + 0.25 = 1", &[1.5]),
        ("(x - 1)(x + 4) = 0", &[1.0, -4.0]),
        ("x(x - 7) = 0", &[7.0, 0.0]),
        ("x*x + x = 1", &[0.6180339887498949, -1.618033988749895]),
        ("(x + 2)/(x - 2) = 3", &[4.0]),
        ("10/x = x - 3", &[5.0, -2.0]),
    ];
    for (equation, expected) in cases {
        match solve(equation, "x") {
            Ok(EquationResult::Solutions(found)) => {
                assert_eq!(found.len(), expected.len(), "{equation}");
                for (root, target) in found.iter().zip(expected.iter()) {
                    assert!((value(root) - target).abs() < 1e-3, "{equation}: {}", value(root));
                }
                for pair in found.windows(2) {
                    assert!(!pair[0].lt(&pair[1]), "{equation}");
                }
            }
            other => panic!("{equation}: {other:?}"),
        }
    }
}

#[test]
fn order_of_two_terms_does_not_change_the_solutions() {
    let pairs = [
        ("x + 3 = 7", "3 + x = 7"),
        ("x*x - 4 = 0", "-4 + x*x = 0"),
        ("0.1x + 0.7 = 1/3", "0.7 + 0.1x = 1/3"),
        ("5 = 2x - 0.3", "5 = -0.3 + 2x"),
        ("1/x + x = 2.5", "x + 1/x = 2.5"),
        ("pi x - e = 1", "-e + pi x = 1"),
    ];
    for (first, second) in pairs {
        let result = solve(first, "x");
        assert!(result.is_ok(), "{first}");
        assert_eq!(result, solve(second, "x"), "{first}");
    }
}

#[test]
fn excluded_root_is_no_solution() {
    assert_eq!(solve("x*x/x = 0", "x"), Ok(EquationResult::Unsolvable));
    assert_eq!(solve("(x*x - 1)/(x - 1) = 0", "x"), solutions(&[-1]));
    assert_eq!(solve("x/x = 1", "x"), all_but(&[0]));
}

#[test]
fn unsolved_divisor_matters_only_where_exceptions_are_needed() {
    assert_eq!(solve("x/(x*x*x + 1) = x/(x*x*x + 1) + 1", "x"), Ok(EquationResult::Unsolvable));
    assert_eq!(
        solve("x/(x*x*x + 1) = x/(x*x*x + 1)", "x"),
        Err(EquationError::TooHighDegree { degree: 3, max_degree: 2 })
    );
    assert_eq!(
        solve("x/(x*x*x + 1) = 2/(x*x*x + 1)", "x"),
        Err(EquationError::TooHighDegree { degree: 3, max_degree: 2 })
    );
}

#[test]
fn order_of_three_terms_may_change_the_last_digit() {
    let small_last = solve("x = 1 + 0.00000000000000000006 + 0.00000000000000000006", "x");
    let small_first = solve("x = 0.00000000000000000006 + 0.00000000000000000006 + 1", "x");
    assert_eq!(small_last, solutions(&[1]));
    assert_eq!(
        small_first,
        Ok(EquationResult::Solutions(vec![Real {
            negative: false,
            mantissa: 0x8000_0000_0000_0001,
            exponent: -63,
        }]))
    );
}

#[test]
fn sign_before_a_term_is_an_operation_of_its_own() {
    assert_eq!(solve("-x = 2", "x"), solutions(&[-2]));
    assert_eq!(solve("x = -(2)", "x"), solutions(&[-2]));
    assert_eq!(solve("+x = +2", "x"), solutions(&[2]));
    assert_eq!(solve("x = (-3)(-2)", "x"), solutions(&[6]));
    assert_eq!(solve("x = 2 - -3", "x"), Err(EquationError::InvalidOperation));
    assert_eq!(solve("x = 2 * -3", "x"), Err(EquationError::InvalidOperation));
}

#[test]
fn factors_without_a_sign_between_them_are_multiplied() {
    assert_eq!(solve("2(3)x = 12", "x"), solutions(&[2]));
    assert_eq!(solve("(2)(3)(x) = 12", "x"), solutions(&[2]));
    assert_eq!(solve("(2)x = 12", "x"), solutions(&[6]));
    assert_eq!(solve("12/2x = 3", "x"), Ok(EquationResult::Solutions(vec![whole(1).over(whole(2))])));
    assert_eq!(solve("12/(2x) = 3", "x"), solutions(&[2]));
    assert_eq!(solve("(2)3 = x", "x"), Err(EquationError::MissingOperation));
    assert_eq!(solve("x x = 4", "x"), Err(EquationError::MissingOperation));
    assert_eq!(solve("pi pi = x", "x"), Err(EquationError::MissingOperation));
    assert!(solve("pi e = x", "x").is_ok());
}

#[test]
fn divisions_follow_one_another() {
    assert_eq!(solve("x/2/2 = 1", "x"), solutions(&[4]));
    assert_eq!(solve("8/x/2 = 1", "x"), solutions(&[4]));
    assert_eq!(solve("8/(x/2) = 1", "x"), solutions(&[16]));
    assert_eq!(solve("x = 8/2*3", "x"), solutions(&[12]));
    assert_eq!(solve("x = 8/(2*3)*3", "x"), solutions(&[4]));
}

#[test]
fn product_that_was_not_written_counts_as_one() {
    assert_eq!(solve("x = 1 +", "x"), solutions(&[2]));
    assert_eq!(solve("x = 3 -", "x"), solutions(&[2]));
    assert_eq!(solve("x =", "x"), solutions(&[1]));
    assert_eq!(solve("x = 2 *", "x"), solutions(&[2]));
}

#[test]
fn divisor_multiplies_the_sum_read_so_far_and_the_other_side() {
    assert_eq!(solve("x + 1/(x + 1) = 2", "x"), Ok(EquationResult::Solutions(vec![
        whole(1).plus(whole(5).sqrt()).over(whole(2)).over(whole(1)),
        whole(1).minus(whole(5).sqrt()).over(whole(2)).over(whole(1)),
    ])));
    assert_eq!(solve("1/(x + 1) + x = 2", "x"), solutions(&[]));
    assert_eq!(solve("2 = x + 1/(x + 1)", "x"), Ok(EquationResult::Solutions(vec![
        whole(-1).minus(whole(5).sqrt()).over(whole(2)).over(whole(-1)),
        whole(-1).plus(whole(5).sqrt()).over(whole(2)).over(whole(-1)),
    ])));
}
