//! The reasons for which an equation is not solved.

use vstd::prelude::*;
use vstd::string::StringExecFns;
use crate::text::{integer_digits, integer_to_chars, string_of};

verus! {

/// Why an equation is not solved.
#[derive(PartialEq, Debug)]
pub enum EquationError {
    /// The text of the equation is empty.
    EmptyEquation,
    /// The name of the variable is empty.
    EmptyVariableName,
    /// The variable does not occur in the equation.
    NoOccurrencesOfVariable,
    /// A run of characters is neither the variable nor a constant nor a
    /// number.
    InvalidElement(String),
    /// Two values follow one another that may not.
    MissingOperation,
    /// A parenthesis is not closed, not opened, or empty.
    ParenthesisError,
    /// The equals sign does not follow a value.
    InvalidSeparator,
    /// The equation has no equals sign, or more than one.
    InvalidSeparatorAmount,
    /// An operation stands where none may stand.
    InvalidOperation,
    /// A divisor is zero.
    DivisionByZero,
    /// A polynomial of the given degree would have to be solved, which is
    /// above the highest degree that is.
    TooHighDegree { degree: i32, max_degree: i32 },
    /// A solution is not a real number.
    ComplexNumbers,
}

/// What an error reports: an element that is no value, by its characters,
/// or what another error says.
pub enum Problem {
    InvalidElement(Seq<char>),
    Other(EquationError),
}

impl EquationError {
    /// Whether the error reports the problem.
    pub open spec fn reports(self, problem: Problem) -> bool {
        match problem {
            Problem::InvalidElement(text) => self matches EquationError::InvalidElement(element)
                && element@ == text,
            Problem::Other(error) => self == error,
        }
    }

    /// What the message says after its heading.
    pub open spec fn reason(self) -> Seq<char> {
        match self {
            EquationError::InvalidElement(element) => "Equation contains an invalid element: "@
                + element@,
            EquationError::TooHighDegree { degree, max_degree } =>
                "Polynomial equations with a degree greater than "@ + integer_digits(
                    max_degree as int,
                ) + " are not supported"@,
            EquationError::EmptyEquation => "Empty equation"@,
            EquationError::EmptyVariableName => "Variable name was not specified"@,
            EquationError::NoOccurrencesOfVariable => "Variable does not occur in the equation"@,
            EquationError::MissingOperation => "Equation is missing an operation"@,
            EquationError::ParenthesisError => "Equation contains invalid parenthesis"@,
            EquationError::InvalidSeparator => "Equation contains invalid equals sign"@,
            EquationError::InvalidSeparatorAmount =>
                "An equation must contain exactly one equals sign"@,
            EquationError::InvalidOperation => "Equation contains invalid operation"@,
            EquationError::DivisionByZero => "Division by zero is undefined"@,
            EquationError::ComplexNumbers => "Complex numbers are not supported"@,
        }
    }

    /// The message for a person: a heading, then the reason.
    pub fn log_message(&self) -> (message: String)
        ensures
            message@ == "ERROR: "@ + self.reason(),
    {
        let mut message: String = String::from_str("ERROR: ");
        match self {
            EquationError::InvalidElement(element) => {
                message.append("Equation contains an invalid element: ");
                message.append(element.as_str());
            },
            EquationError::TooHighDegree { degree: _, max_degree } => {
                message.append("Polynomial equations with a degree greater than ");
                let digits: Vec<char> = integer_to_chars(*max_degree);
                let number: String = string_of(&digits);
                message.append(number.as_str());
                message.append(" are not supported");
            },
            EquationError::EmptyEquation => message.append("Empty equation"),
            EquationError::EmptyVariableName => message.append("Variable name was not specified"),
            EquationError::NoOccurrencesOfVariable => message.append(
                "Variable does not occur in the equation",
            ),
            EquationError::MissingOperation => message.append("Equation is missing an operation"),
            EquationError::ParenthesisError => message.append(
                "Equation contains invalid parenthesis",
            ),
            EquationError::InvalidSeparator => message.append(
                "Equation contains invalid equals sign",
            ),
            EquationError::InvalidSeparatorAmount => message.append(
                "An equation must contain exactly one equals sign",
            ),
            EquationError::InvalidOperation => message.append(
                "Equation contains invalid operation",
            ),
            EquationError::DivisionByZero => message.append("Division by zero is undefined"),
            EquationError::ComplexNumbers => message.append("Complex numbers are not supported"),
        }
        assert(message@ =~= "ERROR: "@ + self.reason());
        message
    }
}

} // verus!
