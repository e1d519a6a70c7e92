//! The sum that is being read between two parentheses, or on one side of
//! the equation outside all parentheses.

use vstd::prelude::*;
use crate::equation_element::{
    AdditiveOperationType, EquationElement, MultiplicativeOperationType, OperationType,
    SymbolType, ValueType,
};
use crate::equation_error::EquationError;
use crate::equation_side::EquationSide;
use crate::polynomial::{
    can_be_multiplied, can_be_raised, divided_by, multiplied, out_of_range, over_value,
    times_value, Addend, Polynomial, MAX_DEGREE, MAX_EXPONENT,
};
use crate::term::Term;

verus! {

/// A sum while it is read: the addends read so far, the product that is
/// being read, how the product will be added, and how the next factor will
/// be applied to it.
pub struct NestedTerm {
    pub term: Term,
    pub multiplier: Term,
    pub additive_operation: AdditiveOperationType,
    pub multiplicative_operation: MultiplicativeOperationType,
}

/// What a `NestedTerm` stands for.
pub struct Nested {
    pub term: Polynomial,
    pub multiplier: Polynomial,
    pub additive_operation: AdditiveOperationType,
    pub multiplicative_operation: MultiplicativeOperationType,
}

/// What merging a sum in parentheses into the sum around it leaves: that
/// sum, and the multiplier of the other side of the equation.
pub struct Merge {
    pub nested: Nested,
    pub other_multiplier: Seq<Addend>,
}

impl Nested {
    /// An empty sum, with the product one to be added.
    pub open spec fn start() -> Nested {
        Nested {
            term: Polynomial::nothing(),
            multiplier: Polynomial::one(),
            additive_operation: AdditiveOperationType::Addition,
            multiplicative_operation: MultiplicativeOperationType::Multiplication,
        }
    }

    /// The sum with the product added to it, or subtracted from it. The next
    /// product starts as one.
    pub open spec fn pushed(self) -> Nested {
        Nested {
            term: self.term.plus(self.multiplier, self.additive_operation),
            multiplier: Polynomial::one(),
            additive_operation: self.additive_operation,
            multiplicative_operation: MultiplicativeOperationType::Multiplication,
        }
    }

    /// How a value is applied that follows `previous`: a symbol behind a
    /// number or a closing parenthesis is a factor; anything else is applied
    /// as the last operation said.
    pub open spec fn operation_for(
        self,
        value: ValueType,
        previous: EquationElement,
    ) -> MultiplicativeOperationType {
        if value is Symbol && (previous matches EquationElement::Value(ValueType::Number(_))
            || previous is ClosingParenthesis) {
            MultiplicativeOperationType::Multiplication
        } else {
            self.multiplicative_operation
        }
    }

    /// The sum after a value that follows `previous`. A number may not
    /// follow a value or a closing parenthesis, nor a symbol the same symbol.
    pub open spec fn with_value(self, value: ValueType, previous: EquationElement) -> Result<
        Nested,
        EquationError,
    > {
        if value is Number && previous.ends_factor() {
            Err(EquationError::MissingOperation)
        } else if value is Symbol && previous == EquationElement::Value(value) {
            Err(EquationError::MissingOperation)
        } else {
            let operation = self.operation_for(value, previous);
            match operation {
                MultiplicativeOperationType::Multiplication => if value.constant() is None
                    && !can_be_raised(self.multiplier.addends, 1) {
                    Err(out_of_range())
                } else {
                    Ok(
                        Nested {
                            term: self.term,
                            multiplier: Polynomial {
                                addends: times_value(self.multiplier.addends, value),
                                exclusions: self.multiplier.exclusions,
                            },
                            additive_operation: self.additive_operation,
                            multiplicative_operation: operation,
                        },
                    )
                },
                MultiplicativeOperationType::Division => if value.constant() is None
                    && !can_be_raised(self.multiplier.addends, -1) {
                    Err(out_of_range())
                } else {
                    match over_value(self.multiplier, value) {
                        Ok(quotient) => Ok(
                            Nested {
                                term: self.term,
                                multiplier: quotient,
                                additive_operation: self.additive_operation,
                                multiplicative_operation: operation,
                            },
                        ),
                        Err(error) => Err(error),
                    }
                },
            }
        }
    }

    /// The sum after a sum in parentheses, `term`, has been read as a factor
    /// or a divisor of its product.
    pub open spec fn merged(self, term: Polynomial, other_multiplier: Seq<Addend>) -> Result<
        Merge,
        EquationError,
    > {
        match self.multiplicative_operation {
            MultiplicativeOperationType::Multiplication => if can_be_multiplied(
                self.multiplier.addends,
                term.addends,
            ) {
                Ok(
                    Merge {
                        nested: Nested {
                            term: self.term,
                            multiplier: Polynomial {
                                addends: multiplied(self.multiplier.addends, term.addends),
                                exclusions: self.multiplier.exclusions.merged(term.exclusions),
                            },
                            additive_operation: self.additive_operation,
                            multiplicative_operation: self.multiplicative_operation,
                        },
                        other_multiplier,
                    },
                )
            } else {
                Err(out_of_range())
            },
            MultiplicativeOperationType::Division => match divided_by(
                self.multiplier,
                term,
                self.term.addends,
                other_multiplier,
            ) {
                Ok(division) => Ok(
                    Merge {
                        nested: Nested {
                            term: Polynomial {
                                addends: division.nested,
                                exclusions: self.term.exclusions,
                            },
                            multiplier: Polynomial {
                                addends: division.dividend.addends,
                                exclusions: division.dividend.exclusions.merged(term.exclusions),
                            },
                            additive_operation: self.additive_operation,
                            multiplicative_operation: self.multiplicative_operation,
                        },
                        other_multiplier: division.other_multiplier,
                    },
                ),
                Err(error) => Err(error),
            },
        }
    }

    /// The sum after an operation that follows `previous`. An operation
    /// that follows another one is an invalid operation, whichever the two
    /// are. An additive one ends the product, if one was read, and says how
    /// the next is added. A multiplicative one must follow a value or a
    /// closing parenthesis.
    pub open spec fn with_operation(
        self,
        operation: OperationType,
        previous: EquationElement,
    ) -> Result<Nested, EquationError> {
        match operation {
            OperationType::AdditiveOperation(additive) => if previous is Operation {
                Err(EquationError::InvalidOperation)
            } else {
                let base = if previous.ends_factor() {
                    self.pushed()
                } else {
                    self
                };
                Ok(
                    Nested {
                        term: base.term,
                        multiplier: base.multiplier,
                        additive_operation: additive,
                        multiplicative_operation: base.multiplicative_operation,
                    },
                )
            },
            OperationType::MultiplicativeOperation(multiplicative) => if previous.ends_factor() {
                Ok(
                    Nested {
                        term: self.term,
                        multiplier: self.multiplier,
                        additive_operation: self.additive_operation,
                        multiplicative_operation: multiplicative,
                    },
                )
            } else {
                Err(EquationError::InvalidOperation)
            },
        }
    }
}

impl View for NestedTerm {
    type V = Nested;

    open spec fn view(&self) -> Nested {
        Nested {
            term: self.term@,
            multiplier: self.multiplier@,
            additive_operation: self.additive_operation,
            multiplicative_operation: self.multiplicative_operation,
        }
    }
}

impl NestedTerm {
    /// Both polynomials are well formed.
    pub open spec fn wf(self) -> bool {
        self.term.wf() && self.multiplier.wf()
    }

    /// An empty sum.
    pub fn new() -> (r: NestedTerm)
        ensures
            r@ == Nested::start(),
            r.wf(),
    {
        Self {
            term: Term::new(),
            multiplier: Term::new_multiplier(),
            additive_operation: AdditiveOperationType::Addition,
            multiplicative_operation: MultiplicativeOperationType::Multiplication,
        }
    }

    /// Adds the product to the sum, or subtracts it, and starts the next
    /// product.
    pub fn push_multiplier(&mut self)
        requires
            old(self).wf(),
        ensures
            final(self)@ == old(self)@.pushed(),
            final(self).wf(),
    {
        self.term.add_term(&self.multiplier, self.additive_operation);
        self.multiplier = Term::new_multiplier();
        self.multiplicative_operation = MultiplicativeOperationType::Multiplication;
    }

    /// Applies a value to the product, as a factor or as a divisor. Where
    /// the value is refused, nothing is changed.
    pub fn multiply_value(&mut self, value: &ValueType, previous_element: &EquationElement) -> (r:
        Result<(), EquationError>)
        requires
            old(self).wf(),
            value.wf(),
        ensures
            match old(self)@.with_value(*value, *previous_element) {
                Ok(nested) => r is Ok && final(self)@ == nested,
                Err(error) => r is Err && r->Err_0 == error && final(self)@ == old(self)@,
            },
            final(self).wf(),
    {
        let mut operation: MultiplicativeOperationType = self.multiplicative_operation;
        match value {
            ValueType::Number(_) => {
                if let EquationElement::Value(_) | EquationElement::ClosingParenthesis =
                    previous_element {
                    return Err(EquationError::MissingOperation);
                }
            },
            ValueType::Symbol(symbol) => {
                if let EquationElement::Value(ValueType::Symbol(previous_symbol)) =
                    previous_element {
                    if *symbol == *previous_symbol {
                        return Err(EquationError::MissingOperation);
                    }
                }
                if let EquationElement::Value(ValueType::Number(_))
                | EquationElement::ClosingParenthesis = previous_element {
                    operation = MultiplicativeOperationType::Multiplication;
                }
            },
        }
        let variable: bool = match value {
            ValueType::Symbol(SymbolType::Variable) => true,
            _ => false,
        };
        match operation {
            MultiplicativeOperationType::Multiplication => {
                if variable && !self.multiplier.can_increase_exponents(1) {
                    return Err(
                        EquationError::TooHighDegree {
                            degree: MAX_EXPONENT,
                            max_degree: MAX_DEGREE,
                        },
                    );
                }
                self.multiplier.multiply_value(value);
            },
            MultiplicativeOperationType::Division => {
                if variable && !self.multiplier.can_increase_exponents(-1) {
                    return Err(
                        EquationError::TooHighDegree {
                            degree: MAX_EXPONENT,
                            max_degree: MAX_DEGREE,
                        },
                    );
                }
                match self.multiplier.divide_value(value) {
                    Ok(()) => {},
                    Err(error) => {
                        return Err(error);
                    },
                }
            },
        }
        self.multiplicative_operation = operation;
        Ok(())
    }

    /// Takes a sum in parentheses, `term`, into the product, as a factor or
    /// as a divisor. Where the sum is refused, nothing is changed.
    pub fn merge_term(&mut self, term: &Term, other_equation_side: &mut EquationSide) -> (r:
        Result<(), EquationError>)
        requires
            old(self).wf(),
            term.wf(),
            old(other_equation_side).wf(),
        ensures
            match old(self)@.merged(term@, old(other_equation_side)@.multiplier.addends) {
                Ok(merge) => {
                    &&& r is Ok
                    &&& final(self)@ == merge.nested
                    &&& final(other_equation_side)@.multiplier.addends == merge.other_multiplier
                },
                Err(error) => {
                    &&& r is Err
                    &&& r->Err_0 == error
                    &&& final(self)@ == old(self)@
                    &&& final(other_equation_side)@ == old(other_equation_side)@
                },
            },
            final(other_equation_side)@.multiplier.exclusions == old(
                other_equation_side,
            )@.multiplier.exclusions,
            final(other_equation_side)@.term == old(other_equation_side)@.term,
            final(other_equation_side).side == old(other_equation_side).side,
            final(self).wf(),
            final(other_equation_side).wf(),
    {
        match self.multiplicative_operation {
            MultiplicativeOperationType::Multiplication => {
                if !self.multiplier.can_multiply_term(term) {
                    return Err(
                        EquationError::TooHighDegree {
                            degree: MAX_EXPONENT,
                            max_degree: MAX_DEGREE,
                        },
                    );
                }
                self.multiplier.multiply_term(term);
            },
            MultiplicativeOperationType::Division => {
                match self.multiplier.divide_term(term, &mut self.term, other_equation_side) {
                    Ok(()) => {},
                    Err(error) => {
                        return Err(error);
                    },
                }
            },
        }
        self.multiplier.exceptions_in_domain.extend(&term.exceptions_in_domain);
        Ok(())
    }

    /// Takes an operation in.
    pub fn set_operation(&mut self, operation: OperationType, previous_element: &EquationElement) -> (r:
        Result<(), EquationError>)
        requires
            old(self).wf(),
        ensures
            match old(self)@.with_operation(operation, *previous_element) {
                Ok(nested) => r is Ok && final(self)@ == nested,
                Err(error) => r is Err && r->Err_0 == error && final(self)@ == old(self)@,
            },
            final(self).wf(),
    {
        match operation {
            OperationType::AdditiveOperation(additive_operation) => {
                if let EquationElement::Operation(_) = *previous_element {
                    return Err(EquationError::InvalidOperation);
                }
                if let EquationElement::Value(_) | EquationElement::ClosingParenthesis =
                    *previous_element {
                    self.push_multiplier();
                }
                self.additive_operation = additive_operation;
            },
            OperationType::MultiplicativeOperation(multiplicative_operation) => {
                if let EquationElement::Value(_) | EquationElement::ClosingParenthesis =
                    *previous_element {
                    self.multiplicative_operation = multiplicative_operation;
                } else {
                    return Err(EquationError::InvalidOperation);
                }
            },
        }
        Ok(())
    }

    /// Says how the next factor is applied.
    pub fn set_multiplicative_operation(&mut self, operation: MultiplicativeOperationType)
        ensures
            final(self).term == old(self).term,
            final(self).multiplier == old(self).multiplier,
            final(self).additive_operation == old(self).additive_operation,
            final(self).multiplicative_operation == operation,
    {
        self.multiplicative_operation = operation;
    }
}

impl Clone for NestedTerm {
    fn clone(&self) -> (r: Self)
        ensures
            r@ == self@,
            self.wf() ==> r.wf(),
    {
        NestedTerm {
            term: self.term.clone(),
            multiplier: self.multiplier.clone(),
            additive_operation: self.additive_operation,
            multiplicative_operation: self.multiplicative_operation,
        }
    }
}

} // verus!
