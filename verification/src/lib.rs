//! Solving an equation in one variable that is given as text.
//!
//! The text is read into elements (`token_stream`), the elements are built
//! into the two sides of the equation as polynomials (`equation`,
//! `nested_term`, `equation_side`), and the zeroes of the left side minus
//! the right side are found in closed form up to the second degree (`term`).
//! Where an expression is divided by the variable or by a sum, the numbers
//! at which the divisor is zero leave the domain (`exceptions_in_domain`).
//!
//! The numbers are binary floating-point values made of integers
//! (`number`, `decimal`). `polynomial` says what the polynomials are and
//! what the operations on them give; `coefficients`, `exchange` and
//! `solutions` hold what is proved of them, `reordering` and `linear` what
//! is proved of equations from their elements on.

pub mod coefficients;
pub mod decimal;
pub mod equation;
pub mod equation_element;
pub mod equation_error;
pub mod equation_result;
pub mod equation_side;
pub mod exceptions_in_domain;
pub mod exchange;
pub mod linear;
pub mod nested_term;
pub mod number;
pub mod polynomial;
pub mod reordering;
pub mod solutions;
pub mod solve_equation;
pub mod term;
pub mod text;
pub mod token_stream;
