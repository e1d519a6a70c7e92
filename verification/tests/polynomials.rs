use equation_solver::equation_element::{AdditiveOperationType, SymbolType, ValueType};
use equation_solver::equation_error::EquationError;
use equation_solver::equation_result::EquationResult;
use equation_solver::equation_side::{EquationSide, EquationSideType};
use equation_solver::exceptions_in_domain::ExceptionsInDomain;
use equation_solver::number::Real;
use equation_solver::polynomial::{Addend};
use equation_solver::term::{Term};

fn whole(n: i64) -> Real {
    let magnitude = Real::from_integer(n.unsigned_abs());
    if n < 0 {
        magnitude.negated()
    } else {
        magnitude
    }
}

fn polynomial(addends: &[(i32, i64)]) -> Term {
    Term {
        addends: addends
            .iter()
            .map(|(exponent, coefficient)| Addend { exponent: *exponent, coefficient: whole(*coefficient) })
            .collect(),
        exceptions_in_domain: ExceptionsInDomain::new(),
    }
}

fn addends(term: &Term) -> Vec<(i32, Real)> {
    term.addends.iter().map(|addend| (addend.exponent, addend.coefficient)).collect()
}

fn known(exceptions: &ExceptionsInDomain) -> Option<Vec<Real>> {
    match exceptions {
        ExceptionsInDomain::Known(numbers) => Some(numbers.clone()),
        ExceptionsInDomain::Unknown { .. } => None,
    }
}

fn unknown(exceptions: &ExceptionsInDomain) -> Option<(bool, i32)> {
    match exceptions {
        ExceptionsInDomain::Known(_) => None,
        ExceptionsInDomain::Unknown { zero_is_valid, degree } => Some((*zero_is_valid, *degree)),
    }
}

#[test]
fn new_terms_are_zero_and_one() {
    assert_eq!(addends(&Term::new()), vec![]);
    assert_eq!(addends(&Term::new_multiplier()), vec![(0, whole(1))]);
    assert_eq!(known(&Term::new().exceptions_in_domain), Some(vec![]));
    assert_eq!(known(&Term::new_multiplier().exceptions_in_domain), Some(vec![]));
}

#[test]
fn product_of_terms_is_the_convolution() {
    let mut term = polynomial(&[(0, 1), (1, 1)]);
    term.multiply_term(&polynomial(&[(0, -1), (1, 1)]));
    assert_eq!(addends(&term), vec![(0, whole(-1)), (2, whole(1))]);

    let mut term = polynomial(&[(-1, 2), (0, 3), (2, 1)]);
    term.multiply_term(&polynomial(&[(0, 5), (1, -4)]));
    assert_eq!(
        addends(&term),
        vec![(-1, whole(10)), (0, whole(7)), (1, whole(-12)), (2, whole(5)), (3, whole(-4))]
    );

    let mut term = polynomial(&[(1, 3)]);
    term.multiply_term(&Term::new());
    assert_eq!(addends(&term), vec![]);

    let mut term = polynomial(&[(1, 3), (4, -2)]);
    term.multiply_term(&Term::new_multiplier());
    assert_eq!(addends(&term), vec![(1, whole(3)), (4, whole(-2))]);
}

#[test]
fn product_keeps_the_exceptions_of_the_first_term() {
    let mut term = polynomial(&[(1, 1)]);
    term.exceptions_in_domain.insert_zero();
    let mut other = polynomial(&[(0, 2)]);
    other.exceptions_in_domain = ExceptionsInDomain::Known(vec![whole(5)]);
    term.multiply_term(&other);
    assert_eq!(known(&term.exceptions_in_domain), Some(vec![whole(0)]));
}

#[test]
fn product_is_refused_where_exponents_leave_the_range() {
    let high = polynomial(&[(600_000_000, 1)]);
    let low = polynomial(&[(-600_000_000, 1)]);
    assert!(!high.can_multiply_term(&high));
    assert!(!low.can_multiply_term(&low));
    assert!(high.can_multiply_term(&low));
    assert!(high.can_multiply_term(&Term::new()));
    assert!(high.can_increase_exponents(400_000_000));
    assert!(!high.can_increase_exponents(400_000_001));
    assert!(low.can_increase_exponents(-400_000_000));
    assert!(!low.can_increase_exponents(-400_000_001));
    assert!(Term::new().can_increase_exponents(i32::MAX));
}

#[test]
fn constants_scale_every_coefficient() {
    let mut term = polynomial(&[(0, 4), (2, -6)]);
    term.multiply_constant(&whole(3));
    assert_eq!(addends(&term), vec![(0, whole(12)), (2, whole(-18))]);
    assert_eq!(term.divide_constant(&whole(-2)), Ok(()));
    assert_eq!(addends(&term), vec![(0, whole(-6)), (2, whole(9))]);
    assert_eq!(term.divide_constant(&whole(0)), Err(EquationError::DivisionByZero));
    assert_eq!(addends(&term), vec![(0, whole(-6)), (2, whole(9))]);
    term.multiply_constant(&whole(0));
    assert_eq!(addends(&term), vec![]);
}

#[test]
fn exponents_are_shifted() {
    let mut term = polynomial(&[(0, 4), (2, -6)]);
    term.increase_exponents(3);
    assert_eq!(addends(&term), vec![(3, whole(4)), (5, whole(-6))]);
    term.increase_exponents(-4);
    assert_eq!(addends(&term), vec![(-1, whole(4)), (1, whole(-6))]);
}

#[test]
fn values_multiply_and_divide() {
    let mut term = polynomial(&[(0, 4), (2, -6)]);
    term.multiply_value(&ValueType::Number(whole(2)));
    term.multiply_value(&ValueType::Symbol(SymbolType::Variable));
    term.multiply_value(&ValueType::Symbol(SymbolType::Constant(whole(5))));
    assert_eq!(addends(&term), vec![(1, whole(40)), (3, whole(-60))]);
    assert_eq!(term.divide_value(&ValueType::Number(whole(4))), Ok(()));
    assert_eq!(term.divide_value(&ValueType::Symbol(SymbolType::Constant(whole(5)))), Ok(()));
    assert_eq!(known(&term.exceptions_in_domain), Some(vec![]));
    assert_eq!(term.divide_value(&ValueType::Symbol(SymbolType::Variable)), Ok(()));
    assert_eq!(addends(&term), vec![(0, whole(2)), (2, whole(-3))]);
    assert_eq!(known(&term.exceptions_in_domain), Some(vec![whole(0)]));
    assert_eq!(
        term.divide_value(&ValueType::Number(whole(0))),
        Err(EquationError::DivisionByZero)
    );
    assert_eq!(
        term.divide_value(&ValueType::Symbol(SymbolType::Constant(whole(0)))),
        Err(EquationError::DivisionByZero)
    );
    assert_eq!(addends(&term), vec![(0, whole(2)), (2, whole(-3))]);
}

#[test]
fn terms_are_added_and_subtracted() {
    let mut term = polynomial(&[(0, 4), (2, -6)]);
    term.add_term(&polynomial(&[(-1, 1), (0, -4), (2, 1)]), AdditiveOperationType::Addition);
    assert_eq!(addends(&term), vec![(-1, whole(1)), (2, whole(-5))]);
    term.add_term(&polynomial(&[(-1, 1), (1, 2)]), AdditiveOperationType::Subtraction);
    assert_eq!(addends(&term), vec![(1, whole(-2)), (2, whole(-5))]);
    let mut other = Term::new();
    other.exceptions_in_domain = ExceptionsInDomain::Known(vec![whole(3)]);
    term.add_term(&other, AdditiveOperationType::Subtraction);
    assert_eq!(known(&term.exceptions_in_domain), Some(vec![whole(3)]));
    assert!(term.same_addends(&polynomial(&[(1, -2), (2, -5)])));
    assert!(term == polynomial(&[(1, -2), (2, -5)]));
    assert!(term != polynomial(&[(1, -2), (2, 5)]));
    assert!(!term.same_addends(&polynomial(&[(1, -2), (2, 5)])));
    assert!(!term.same_addends(&polynomial(&[(1, -2)])));
}

#[test]
fn degree_and_lowest_exponent_skip_nothing() {
    let term = polynomial(&[(-2, 4), (0, 1), (3, -6)]);
    assert_eq!(term.degree(), Some(3));
    assert_eq!(term.lowest_exponent(), -2);
    assert!(!term.zero_is_a_solution());
    assert_eq!(term.coefficient(-2), whole(4));
    assert_eq!(term.coefficient(0), whole(1));
    assert_eq!(term.coefficient(1), whole(0));
    assert_eq!(term.coefficient(3), whole(-6));
    assert_eq!(term.coefficient(9), whole(0));
    assert_eq!(Term::new().degree(), None);
    assert_eq!(Term::new().lowest_exponent(), 0);
    assert!(!Term::new().zero_is_a_solution());
    assert!(polynomial(&[(1, 4), (2, 1)]).zero_is_a_solution());
}

#[test]
fn zeroes_of_a_linear_term() {
    assert_eq!(
        polynomial(&[(0, -6), (1, 2)]).zeroes(),
        Ok(EquationResult::Solutions(vec![whole(3)]))
    );
    assert_eq!(
        polynomial(&[(3, 10), (4, 4)]).zeroes(),
        Ok(EquationResult::Solutions(vec![whole(0), whole(-5).over(whole(2))]))
    );
}

#[test]
fn zeroes_of_a_quadratic_term() {
    assert_eq!(
        polynomial(&[(0, -9), (1, 6), (2, 3)]).zeroes(),
        Ok(EquationResult::Solutions(vec![whole(1), whole(-3)]))
    );
    assert_eq!(
        polynomial(&[(0, 1), (1, -2), (2, 1)]).zeroes(),
        Ok(EquationResult::Solutions(vec![whole(1), whole(1)]))
    );
    assert_eq!(
        polynomial(&[(1, -6), (2, 2)]).zeroes(),
        Ok(EquationResult::Solutions(vec![whole(3), whole(0)]))
    );
    assert_eq!(
        polynomial(&[(-1, -4), (1, 1)]).zeroes(),
        Ok(EquationResult::Solutions(vec![whole(2), whole(-2)]))
    );
    assert_eq!(polynomial(&[(0, 1), (2, 1)]).zeroes(), Err(EquationError::ComplexNumbers));
    assert_eq!(
        Term::roots(whole(1), whole(-5), whole(6)),
        Ok(vec![whole(3), whole(2)])
    );
    assert_eq!(Term::roots(whole(0), whole(4), whole(-2)), Ok(vec![whole(1).over(whole(2))]));
    assert_eq!(Term::roots(whole(1), whole(0), whole(1)), Err(EquationError::ComplexNumbers));
}

#[test]
fn zeroes_leave_out_the_exceptions() {
    let mut term = polynomial(&[(0, -9), (1, 6), (2, 3)]);
    term.exceptions_in_domain = ExceptionsInDomain::Known(vec![whole(-3), whole(8)]);
    assert_eq!(term.zeroes(), Ok(EquationResult::Solutions(vec![whole(1)])));
    let mut term = polynomial(&[(1, -6), (2, 2)]);
    term.exceptions_in_domain = ExceptionsInDomain::Known(vec![whole(0)]);
    assert_eq!(term.zeroes(), Ok(EquationResult::Solutions(vec![whole(3)])));
    let mut term = polynomial(&[(1, -6), (2, 2)]);
    term.exceptions_in_domain = ExceptionsInDomain::Unknown { zero_is_valid: true, degree: 5 };
    assert_eq!(
        term.zeroes(),
        Err(EquationError::TooHighDegree { degree: 5, max_degree: 2 })
    );
    let mut term = polynomial(&[(0, 1), (2, 1)]);
    term.exceptions_in_domain = ExceptionsInDomain::Unknown { zero_is_valid: true, degree: 5 };
    assert_eq!(term.zeroes(), Err(EquationError::ComplexNumbers));
}

#[test]
fn zeroes_of_a_term_of_one_power() {
    assert_eq!(polynomial(&[(0, 7)]).zeroes(), Ok(EquationResult::Unsolvable));
    assert_eq!(polynomial(&[(-2, 7)]).zeroes(), Ok(EquationResult::Unsolvable));
    assert_eq!(
        polynomial(&[(2, 7)]).zeroes(),
        Ok(EquationResult::Solutions(vec![whole(0)]))
    );
    let mut term = polynomial(&[(2, 7)]);
    term.exceptions_in_domain.insert_zero();
    assert_eq!(term.zeroes(), Ok(EquationResult::Unsolvable));
    let mut term = polynomial(&[(2, 7)]);
    term.exceptions_in_domain = ExceptionsInDomain::Unknown { zero_is_valid: true, degree: 3 };
    assert_eq!(term.zeroes(), Ok(EquationResult::Solutions(vec![whole(0)])));
    term.exceptions_in_domain = ExceptionsInDomain::Unknown { zero_is_valid: false, degree: 3 };
    assert_eq!(term.zeroes(), Ok(EquationResult::Unsolvable));
}

#[test]
fn zeroes_of_the_zero_term_are_all_numbers_but_the_exceptions() {
    assert_eq!(
        Term::new().zeroes(),
        Ok(EquationResult::InfiniteSolutions { exceptions: vec![] })
    );
    let mut term = Term::new();
    term.exceptions_in_domain = ExceptionsInDomain::Known(vec![whole(-1), whole(4), whole(0)]);
    assert_eq!(
        term.zeroes(),
        Ok(EquationResult::InfiniteSolutions { exceptions: vec![whole(4), whole(0), whole(-1)] })
    );
    term.exceptions_in_domain = ExceptionsInDomain::Unknown { zero_is_valid: true, degree: 4 };
    assert_eq!(
        term.zeroes(),
        Err(EquationError::TooHighDegree { degree: 4, max_degree: 2 })
    );
}

#[test]
fn zeroes_of_a_term_of_too_high_a_degree() {
    assert_eq!(
        polynomial(&[(0, 4), (3, 1)]).zeroes(),
        Err(EquationError::TooHighDegree { degree: 3, max_degree: 2 })
    );
    assert_eq!(
        polynomial(&[(-2, 4), (3, 1)]).zeroes(),
        Err(EquationError::TooHighDegree { degree: 5, max_degree: 2 })
    );
}

#[test]
fn exceptions_are_merged() {
    let mut exceptions = ExceptionsInDomain::Known(vec![whole(1), whole(2)]);
    exceptions.extend(&ExceptionsInDomain::Known(vec![whole(2), whole(3)]));
    assert_eq!(known(&exceptions), Some(vec![whole(1), whole(2), whole(3)]));
    assert!(exceptions.zero_is_valid());

    exceptions.extend(&ExceptionsInDomain::Unknown { zero_is_valid: true, degree: 3 });
    assert_eq!(unknown(&exceptions), Some((true, 3)));
    assert!(exceptions.zero_is_valid());

    let mut exceptions = ExceptionsInDomain::Known(vec![whole(0)]);
    exceptions.extend(&ExceptionsInDomain::Unknown { zero_is_valid: true, degree: 3 });
    assert_eq!(unknown(&exceptions), Some((false, 3)));

    let mut exceptions = ExceptionsInDomain::Known(vec![whole(1)]);
    exceptions.extend(&ExceptionsInDomain::Unknown { zero_is_valid: false, degree: 4 });
    assert_eq!(unknown(&exceptions), Some((false, 4)));

    let mut exceptions = ExceptionsInDomain::Unknown { zero_is_valid: true, degree: 4 };
    exceptions.extend(&ExceptionsInDomain::Known(vec![whole(1)]));
    assert_eq!(unknown(&exceptions), Some((true, 4)));
    exceptions.extend(&ExceptionsInDomain::Unknown { zero_is_valid: true, degree: 3 });
    assert_eq!(unknown(&exceptions), Some((true, 4)));
    exceptions.extend(&ExceptionsInDomain::Unknown { zero_is_valid: true, degree: 6 });
    assert_eq!(unknown(&exceptions), Some((true, 6)));
    exceptions.extend(&ExceptionsInDomain::Known(vec![whole(0)]));
    assert_eq!(unknown(&exceptions), Some((false, 6)));
    assert!(!exceptions.zero_is_valid());
}

#[test]
fn zero_is_inserted_once() {
    let mut exceptions = ExceptionsInDomain::new();
    assert!(exceptions.zero_is_valid());
    exceptions.insert_zero();
    exceptions.insert_zero();
    assert_eq!(known(&exceptions), Some(vec![whole(0)]));
    assert!(!exceptions.zero_is_valid());
    let mut exceptions = ExceptionsInDomain::Unknown { zero_is_valid: true, degree: 3 };
    exceptions.insert_zero();
    assert_eq!(unknown(&exceptions), Some((false, 3)));
}

#[test]
fn known_exceptions_are_handed_out() {
    let too_high = |degree: i32| EquationError::TooHighDegree { degree, max_degree: 2 };
    assert_eq!(
        ExceptionsInDomain::Known(vec![whole(1), whole(2)]).unwrap_or(too_high),
        Ok(vec![whole(1), whole(2)])
    );
    assert_eq!(
        ExceptionsInDomain::Unknown { zero_is_valid: true, degree: 7 }.unwrap_or(too_high),
        Err(EquationError::TooHighDegree { degree: 7, max_degree: 2 })
    );
    assert_eq!(
        ExceptionsInDomain::Unknown { zero_is_valid: true, degree: 7 }
            .unwrap_or(|_| EquationError::DivisionByZero),
        Err(EquationError::DivisionByZero)
    );
}

#[test]
fn zeroes_of_a_divisor_leave_the_domain() {
    let mut term = polynomial(&[(0, 1)]);
    assert_eq!(term.add_exceptions_in_domain_of_divisor(&polynomial(&[(0, -1), (2, 1)])), Ok(()));
    assert_eq!(known(&term.exceptions_in_domain), Some(vec![whole(1), whole(-1)]));
    assert_eq!(term.add_exceptions_in_domain_of_divisor(&polynomial(&[(0, -1), (1, 1)])), Ok(()));
    assert_eq!(known(&term.exceptions_in_domain), Some(vec![whole(1), whole(-1)]));
    assert_eq!(term.add_exceptions_in_domain_of_divisor(&polynomial(&[(0, 5)])), Ok(()));
    assert_eq!(known(&term.exceptions_in_domain), Some(vec![whole(1), whole(-1)]));
    assert_eq!(term.add_exceptions_in_domain_of_divisor(&polynomial(&[(3, 5)])), Ok(()));
    assert_eq!(known(&term.exceptions_in_domain), Some(vec![whole(1), whole(-1), whole(0)]));
    assert_eq!(
        term.add_exceptions_in_domain_of_divisor(&Term::new()),
        Err(EquationError::DivisionByZero)
    );
    assert_eq!(
        term.add_exceptions_in_domain_of_divisor(&polynomial(&[(0, 1), (2, 1)])),
        Err(EquationError::ComplexNumbers)
    );
    assert_eq!(known(&term.exceptions_in_domain), Some(vec![whole(1), whole(-1), whole(0)]));
    assert_eq!(addends(&term), vec![(0, whole(1))]);
}

#[test]
fn divisor_of_too_high_a_degree_leaves_the_exceptions_unknown() {
    let mut term = polynomial(&[(0, 1)]);
    assert_eq!(term.add_exceptions_in_domain_of_divisor(&polynomial(&[(0, 1), (3, 1)])), Ok(()));
    assert_eq!(unknown(&term.exceptions_in_domain), Some((true, 3)));
    assert_eq!(term.add_exceptions_in_domain_of_divisor(&polynomial(&[(0, -1), (1, 1)])), Ok(()));
    assert_eq!(unknown(&term.exceptions_in_domain), Some((true, 3)));
    assert_eq!(term.add_exceptions_in_domain_of_divisor(&polynomial(&[(0, 1), (5, 1)])), Ok(()));
    assert_eq!(unknown(&term.exceptions_in_domain), Some((true, 5)));
    assert_eq!(term.add_exceptions_in_domain_of_divisor(&polynomial(&[(1, 1), (5, 1)])), Ok(()));
    assert_eq!(unknown(&term.exceptions_in_domain), Some((false, 5)));
    assert_eq!(
        term.add_exceptions_in_domain_of_divisor(&Term::new()),
        Err(EquationError::DivisionByZero)
    );

    let mut term = polynomial(&[(0, 1)]);
    term.exceptions_in_domain.insert_zero();
    assert_eq!(term.add_exceptions_in_domain_of_divisor(&polynomial(&[(0, 1), (3, 1)])), Ok(()));
    assert_eq!(unknown(&term.exceptions_in_domain), Some((false, 3)));
}

#[test]
fn division_by_a_term_multiplies_the_sum_and_the_other_side() {
    let mut dividend = polynomial(&[(0, 3)]);
    let mut sum = polynomial(&[(1, 1)]);
    let mut other_side = EquationSide::new(EquationSideType::RightHandSide);
    let divisor = polynomial(&[(0, -2), (1, 1)]);
    assert_eq!(dividend.divide_term(&divisor, &mut sum, &mut other_side), Ok(()));
    assert_eq!(addends(&dividend), vec![(0, whole(3))]);
    assert_eq!(known(&dividend.exceptions_in_domain), Some(vec![whole(2)]));
    assert_eq!(addends(&sum), vec![(1, whole(-2)), (2, whole(1))]);
    assert_eq!(addends(&other_side.multiplier), vec![(0, whole(-2)), (1, whole(1))]);
    assert_eq!(addends(&other_side.term), vec![]);
    assert_eq!(
        dividend.divide_term(&Term::new(), &mut sum, &mut other_side),
        Err(EquationError::DivisionByZero)
    );
    let mut high = polynomial(&[(1_000_000_000, 1)]);
    assert_eq!(
        dividend.divide_term(&divisor, &mut high, &mut other_side),
        Err(EquationError::TooHighDegree { degree: 1_000_000_000, max_degree: 2 })
    );
}

#[test]
fn side_is_multiplied_by_its_multiplier() {
    let mut side = EquationSide::new(EquationSideType::LeftHandSide);
    side.term = polynomial(&[(0, 1), (1, 2)]);
    side.multiplier = polynomial(&[(1, 3)]);
    side.push_multiplier();
    assert_eq!(addends(&side.term), vec![(1, whole(3)), (2, whole(6))]);
    assert_eq!(addends(&side.multiplier), vec![(0, whole(1))]);
    assert_eq!(side.side, EquationSideType::LeftHandSide);
}

#[test]
fn copies_are_equal() {
    let mut term = polynomial(&[(0, 1), (1, 2)]);
    term.exceptions_in_domain = ExceptionsInDomain::Known(vec![whole(4)]);
    let copy = term.clone();
    assert_eq!(addends(&copy), addends(&term));
    assert_eq!(known(&copy.exceptions_in_domain), Some(vec![whole(4)]));
    let unknown_exceptions = ExceptionsInDomain::Unknown { zero_is_valid: false, degree: 9 };
    assert_eq!(unknown(&unknown_exceptions.clone()), Some((false, 9)));
}

#[test]
fn results_are_written_as_sets() {
    let texts = |numbers: &[&str]| numbers.iter().map(|text| String::from(*text)).collect::<Vec<String>>();
    let solutions = |numbers: &[i64]| EquationResult::Solutions(numbers.iter().map(|n| whole(*n)).collect());
    let all_but = |numbers: &[i64]| EquationResult::InfiniteSolutions {
        exceptions: numbers.iter().map(|n| whole(*n)).collect(),
    };
    assert_eq!(solutions(&[3]).to_text(&texts(&["3"])), "3");
    assert_eq!(solutions(&[1, -3]).to_text(&texts(&["1", "-3"])), "{1, -3}");
    assert_eq!(solutions(&[3, 2, 1]).to_text(&texts(&["3", "2.5", "1"])), "{3, 2.5, 1}");
    assert_eq!(solutions(&[]).to_text(&texts(&[])), "{}");
    assert_eq!(EquationResult::Unsolvable.to_text(&texts(&[])), "{}");
    assert_eq!(all_but(&[]).to_text(&texts(&[])), "R");
    assert_eq!(all_but(&[0]).to_text(&texts(&["0"])), "R\\{0}");
    assert_eq!(all_but(&[1, -1]).to_text(&texts(&["1", "-1"])), "R\\{1, -1}");
    assert_eq!(equation_solver::equation_result::join(&texts(&["a", "b", "c"])), "a, b, c");
    assert_eq!(equation_solver::equation_result::join(&texts(&[])), "");
}

fn stored(addends: &[(i32, i64)]) -> Term {
    Term {
        addends: addends
            .iter()
            .map(|(exponent, coefficient)| Addend {
                exponent: *exponent,
                coefficient: if *coefficient == 0 { Real::zero() } else { whole(*coefficient) },
            })
            .collect(),
        exceptions_in_domain: ExceptionsInDomain::new(),
    }
}

#[test]
fn stored_zero_coefficients_do_not_count() {
    let term = stored(&[(1, 2), (3, 0)]);
    assert_eq!(term.degree(), Some(1));
    assert_eq!(term.lowest_exponent(), 1);
    assert!(term.zero_is_a_solution());
    let term = stored(&[(-2, 0), (1, 2)]);
    assert_eq!(term.degree(), Some(1));
    assert_eq!(term.lowest_exponent(), 1);
    let term = stored(&[(-2, 0), (0, 0), (5, 0)]);
    assert_eq!(term.degree(), None);
    assert_eq!(term.lowest_exponent(), 0);
    assert!(!term.zero_is_a_solution());
    assert_eq!(term.coefficient(0), whole(0));
    assert_eq!(term.zeroes(), Ok(EquationResult::InfiniteSolutions { exceptions: vec![] }));
    assert!(term == Term::new());
    assert!(stored(&[(0, 0), (1, 2), (2, 0)]) == stored(&[(1, 2)]));
    assert!(stored(&[(0, 0), (1, 2), (2, 0)]).same_addends(&stored(&[(-1, 0), (1, 2)])));
    assert!(stored(&[(0, 0), (1, 2)]) != stored(&[(0, 2), (1, 0)]));
}

#[test]
fn zeroes_skip_stored_zero_coefficients() {
    assert_eq!(stored(&[(0, -1), (1, 0)]).zeroes(), Ok(EquationResult::Unsolvable));
    assert_eq!(
        stored(&[(0, -6), (1, 2), (2, 0), (7, 0)]).zeroes(),
        Ok(EquationResult::Solutions(vec![whole(3)]))
    );
    assert_eq!(
        stored(&[(0, 0), (1, -6), (2, 2)]).zeroes(),
        Ok(EquationResult::Solutions(vec![whole(3), whole(0)]))
    );
    assert_eq!(
        stored(&[(-1, 0), (0, -9), (1, 6), (2, 3), (3, 0)]).zeroes(),
        Ok(EquationResult::Solutions(vec![whole(1), whole(-3)]))
    );
}

#[test]
fn operations_leave_no_zero_coefficient_behind() {
    let mut term = stored(&[(0, 0), (1, 2), (2, 0)]);
    term.multiply_constant(&whole(3));
    assert_eq!(addends(&term), vec![(1, whole(6))]);
    let mut term = stored(&[(0, 0), (1, 2), (2, 0)]);
    assert_eq!(term.divide_constant(&whole(2)), Ok(()));
    assert_eq!(addends(&term), vec![(1, whole(1))]);
    let mut term = stored(&[(-1_000_000_000, 0), (1, 2), (1_000_000_000, 0)]);
    assert!(term.can_increase_exponents(5));
    assert!(term.can_increase_exponents(-5));
    term.increase_exponents(5);
    assert_eq!(addends(&term), vec![(6, whole(2))]);
    let mut term = stored(&[(0, 0), (1, 2), (2, 0)]);
    term.multiply_term(&stored(&[(0, 1), (1, 0), (2, 1)]));
    assert_eq!(addends(&term), vec![(1, whole(2)), (3, whole(2))]);
    let mut term = stored(&[(0, 0), (1, 2)]);
    term.add_term(&stored(&[(0, 0), (1, -2), (4, 0)]), AdditiveOperationType::Addition);
    assert_eq!(addends(&term), vec![]);
    let mut term = stored(&[(0, 0), (1, 2)]);
    term.prune();
    assert_eq!(addends(&term), vec![(1, whole(2))]);
}

#[test]
fn addends_in_any_order_make_a_term() {
    let list = vec![
        Addend { exponent: 3, coefficient: whole(1) },
        Addend { exponent: 0, coefficient: whole(-2) },
        Addend { exponent: 3, coefficient: whole(4) },
        Addend { exponent: 1, coefficient: Real::zero() },
        Addend { exponent: 0, coefficient: whole(2) },
    ];
    let term = Term::from_addends(&list);
    assert_eq!(addends(&term), vec![(3, whole(5))]);
    assert_eq!(known(&term.exceptions_in_domain), Some(vec![]));
    assert_eq!(addends(&Term::from_addends(&Vec::new())), vec![]);
}

#[test]
fn exception_that_is_listed_twice_counts_once() {
    let mut term = Term::new();
    term.exceptions_in_domain = ExceptionsInDomain::Known(vec![whole(1), whole(4), whole(1), whole(4)]);
    assert_eq!(
        term.zeroes(),
        Ok(EquationResult::InfiniteSolutions { exceptions: vec![whole(4), whole(1)] })
    );
    let mut exceptions = ExceptionsInDomain::Known(vec![whole(1), whole(1)]);
    exceptions.extend(&ExceptionsInDomain::Known(vec![whole(2), whole(2), whole(1)]));
    assert_eq!(known(&exceptions), Some(vec![whole(1), whole(2)]));
    let mut exceptions = ExceptionsInDomain::Known(vec![whole(0), whole(0)]);
    assert!(!exceptions.zero_is_valid());
    exceptions.insert_zero();
    assert!(!exceptions.zero_is_valid());
}

#[test]
fn refused_division_changes_nothing() {
    let mut dividend = polynomial(&[(0, 3)]);
    let mut sum = polynomial(&[(1, 1)]);
    let mut other_side = EquationSide::new(EquationSideType::RightHandSide);
    other_side.multiplier = polynomial(&[(1_000_000_000, 1)]);
    let divisor = polynomial(&[(0, -2), (1, 1)]);
    assert_eq!(
        dividend.divide_term(&divisor, &mut sum, &mut other_side),
        Err(EquationError::TooHighDegree { degree: 1_000_000_000, max_degree: 2 })
    );
    assert_eq!(addends(&dividend), vec![(0, whole(3))]);
    assert_eq!(known(&dividend.exceptions_in_domain), Some(vec![]));
    assert_eq!(addends(&sum), vec![(1, whole(1))]);
    assert_eq!(addends(&other_side.multiplier), vec![(1_000_000_000, whole(1))]);
    let mut other_side = EquationSide::new(EquationSideType::RightHandSide);
    assert_eq!(
        dividend.divide_term(&polynomial(&[(0, 1), (2, 1)]), &mut sum, &mut other_side),
        Err(EquationError::ComplexNumbers)
    );
    assert_eq!(
        dividend.divide_term(&Term::new(), &mut sum, &mut other_side),
        Err(EquationError::DivisionByZero)
    );
    assert_eq!(addends(&dividend), vec![(0, whole(3))]);
    assert_eq!(known(&dividend.exceptions_in_domain), Some(vec![]));
    assert_eq!(addends(&sum), vec![(1, whole(1))]);
    assert_eq!(addends(&other_side.multiplier), vec![(0, whole(1))]);
}
