//! Solving an equation given as text.

use vstd::prelude::*;
use crate::equation::{generated, Equation};
use crate::equation_element::{AdditiveOperationType, EquationElement};
use crate::equation_error::{EquationError, Problem};
use crate::equation_result::{EquationResult, Zeroes};
use crate::polynomial::zeroes_of;
use crate::token_stream::{tokens_of, EquationInput};

verus! {

/// The solutions of the equation that a text spells: the text is read into
/// elements, the elements are built into two sides, and the zeroes of the
/// left side minus the right side are found. The first step that fails
/// gives the error.
pub open spec fn solved(equation: Seq<char>, variable_name: Seq<char>) -> Result<Zeroes, Problem> {
    match tokens_of(equation, variable_name) {
        Err(problem) => Err(problem),
        Ok(elements) => solved_elements(elements),
    }
}

/// The solutions of the equation that the elements spell.
pub open spec fn solved_elements(elements: Seq<EquationElement>) -> Result<Zeroes, Problem> {
    match generated(elements) {
        Err(error) => Err(Problem::Other(error)),
        Ok(sides) => match zeroes_of(sides.0.plus(sides.1, AdditiveOperationType::Subtraction)) {
            Err(error) => Err(Problem::Other(error)),
            Ok(zeroes) => Ok(zeroes),
        },
    }
}

/// Solves the equation of the input for its variable.
pub fn solve_equation(input: &EquationInput) -> (r: Result<EquationResult, EquationError>)
    ensures
        match solved(input.text(), input.name()) {
            Ok(zeroes) => r is Ok && r->Ok_0.lists(zeroes) && r->Ok_0.wf(),
            Err(problem) => r is Err && r->Err_0.reports(problem),
        },
{
    let token_stream = match input.token_stream() {
        Ok(token_stream) => token_stream,
        Err(error) => {
            return Err(error);
        },
    };
    let equation = match Equation::generate(token_stream) {
        Ok(equation) => equation,
        Err(error) => {
            return Err(error);
        },
    };
    equation.set_zero().zeroes()
}

} // verus!
