//! The elements that an equation is made of.

use vstd::prelude::*;
use crate::number::Real;

verus! {

/// An element of an equation.
#[derive(Clone, Copy, Debug, PartialEq, Eq, Structural)]
pub enum EquationElement {
    Value(ValueType),
    Operation(OperationType),
    Separator,
    OpeningParenthesis,
    ClosingParenthesis,
}

/// A value: a number that is written out, or a symbol.
#[derive(Clone, Copy, Debug, PartialEq, Eq, Structural)]
pub enum ValueType {
    Number(Real),
    Symbol(SymbolType),
}

/// A symbol: the variable, or a constant that has a name.
#[derive(Clone, Copy, Debug, PartialEq, Eq, Structural)]
pub enum SymbolType {
    Variable,
    Constant(Real),
}

/// An operation between two values.
#[derive(Clone, Copy, Debug, PartialEq, Eq, Structural)]
pub enum OperationType {
    AdditiveOperation(AdditiveOperationType),
    MultiplicativeOperation(MultiplicativeOperationType),
}

/// How a product joins a sum.
#[derive(Clone, Copy, Debug, PartialEq, Eq, Structural)]
pub enum AdditiveOperationType {
    Addition,
    Subtraction,
}

/// How a factor joins a product.
#[derive(Clone, Copy, Debug, PartialEq, Eq, Structural)]
pub enum MultiplicativeOperationType {
    Multiplication,
    Division,
}

impl ValueType {
    /// The number of a value that is not the variable.
    pub open spec fn constant(self) -> Option<Real> {
        match self {
            ValueType::Number(number) => Some(number),
            ValueType::Symbol(SymbolType::Constant(number)) => Some(number),
            ValueType::Symbol(SymbolType::Variable) => None,
        }
    }

    /// The numbers in the value are well formed.
    pub open spec fn wf(self) -> bool {
        match self.constant() {
            Some(number) => number.wf(),
            None => true,
        }
    }
}

impl EquationElement {
    /// The numbers in the element are well formed.
    pub open spec fn wf(self) -> bool {
        match self {
            EquationElement::Value(value) => value.wf(),
            _ => true,
        }
    }

    /// Whether the element is a value or a closing parenthesis: what a
    /// factor ends with.
    pub open spec fn ends_factor(self) -> bool {
        self is Value || self is ClosingParenthesis
    }
}

} // verus!
