//! Building the two sides of an equation from its elements.

use std::collections::VecDeque;
use vstd::prelude::*;
use crate::equation_element::{
    AdditiveOperationType, EquationElement, MultiplicativeOperationType, SymbolType, ValueType,
};
use crate::equation_error::EquationError;
use crate::equation_side::{EquationSide, EquationSideType, Side};
use crate::nested_term::{Nested, NestedTerm};
use crate::polynomial::{can_be_multiplied, out_of_range, MAX_DEGREE, MAX_EXPONENT, Polynomial};
use crate::term::{Term};

verus! {

/// The two sides of an equation as polynomials, free of divisions by the
/// variable.
pub struct Equation {
    pub left_hand_side: Term,
    pub right_hand_side: Term,
}

/// What has been built of an equation: both sides; which of them is being
/// read; the sums around the one being read, the innermost last; the sum
/// being read; and the element read last.
pub struct Builder {
    pub left: Side,
    pub right: Side,
    pub current: EquationSideType,
    pub stack: Seq<Nested>,
    pub nested: Nested,
    pub previous: EquationElement,
}

/// The element that is the variable.
pub open spec fn variable() -> EquationElement {
    EquationElement::Value(ValueType::Symbol(SymbolType::Variable))
}

impl Builder {
    /// Before the first element: as if a separator had just been read.
    pub open spec fn start() -> Builder {
        Builder {
            left: Side {
                term: Polynomial::nothing(),
                multiplier: Polynomial::one(),
                side: EquationSideType::LeftHandSide,
            },
            right: Side {
                term: Polynomial::nothing(),
                multiplier: Polynomial::one(),
                side: EquationSideType::RightHandSide,
            },
            current: EquationSideType::LeftHandSide,
            stack: Seq::empty(),
            nested: Nested::start(),
            previous: EquationElement::Separator,
        }
    }

    /// The side that is not being read.
    pub open spec fn other(self) -> Side {
        match self.current {
            EquationSideType::LeftHandSide => self.right,
            EquationSideType::RightHandSide => self.left,
        }
    }

    /// The builder with another sum being read.
    pub open spec fn with_nested(self, nested: Nested) -> Builder {
        Builder {
            left: self.left,
            right: self.right,
            current: self.current,
            stack: self.stack,
            nested,
            previous: self.previous,
        }
    }

    /// The builder after the separator: the sum that was read is the left
    /// side, and the right side is being read.
    pub open spec fn separated(self) -> Result<Builder, EquationError> {
        if !self.previous.ends_factor() {
            Err(EquationError::InvalidSeparator)
        } else if self.current is RightHandSide {
            Err(EquationError::InvalidSeparatorAmount)
        } else if self.stack.len() > 0 {
            Err(EquationError::ParenthesisError)
        } else {
            Ok(
                Builder {
                    left: Side {
                        term: self.nested.pushed().term,
                        multiplier: self.left.multiplier,
                        side: self.left.side,
                    },
                    right: self.right,
                    current: EquationSideType::RightHandSide,
                    stack: self.stack,
                    nested: Nested::start(),
                    previous: self.previous,
                },
            )
        }
    }

    /// The builder after an opening parenthesis, which is a factor if it
    /// follows a value or a closing parenthesis.
    pub open spec fn opened(self) -> Builder {
        Builder {
            left: self.left,
            right: self.right,
            current: self.current,
            stack: self.stack.push(
                Nested {
                    term: self.nested.term,
                    multiplier: self.nested.multiplier,
                    additive_operation: self.nested.additive_operation,
                    multiplicative_operation: if self.previous.ends_factor() {
                        MultiplicativeOperationType::Multiplication
                    } else {
                        self.nested.multiplicative_operation
                    },
                },
            ),
            nested: Nested::start(),
            previous: self.previous,
        }
    }

    /// The builder after a closing parenthesis: the sum that was read is
    /// merged into the one around it.
    pub open spec fn closed(self) -> Result<Builder, EquationError> {
        if !self.previous.ends_factor() || self.stack.len() == 0 {
            Err(EquationError::ParenthesisError)
        } else {
            match self.stack.last().merged(
                self.nested.pushed().term,
                self.other().multiplier.addends,
            ) {
                Err(error) => Err(error),
                Ok(merge) => {
                    let other = Side {
                        term: self.other().term,
                        multiplier: Polynomial {
                            addends: merge.other_multiplier,
                            exclusions: self.other().multiplier.exclusions,
                        },
                        side: self.other().side,
                    };
                    Ok(
                        Builder {
                            left: if self.current is LeftHandSide {
                                self.left
                            } else {
                                other
                            },
                            right: if self.current is LeftHandSide {
                                other
                            } else {
                                self.right
                            },
                            current: self.current,
                            stack: self.stack.drop_last(),
                            nested: merge.nested,
                            previous: self.previous,
                        },
                    )
                },
            }
        }
    }

    /// The builder after the next element.
    pub open spec fn step(self, element: EquationElement) -> Result<Builder, EquationError> {
        let next = match element {
            EquationElement::Value(value) => match self.nested.with_value(value, self.previous) {
                Ok(nested) => Ok(self.with_nested(nested)),
                Err(error) => Err(error),
            },
            EquationElement::Operation(operation) => match self.nested.with_operation(
                operation,
                self.previous,
            ) {
                Ok(nested) => Ok(self.with_nested(nested)),
                Err(error) => Err(error),
            },
            EquationElement::Separator => self.separated(),
            EquationElement::OpeningParenthesis => Ok(self.opened()),
            EquationElement::ClosingParenthesis => self.closed(),
        };
        match next {
            Ok(builder) => Ok(
                Builder {
                    left: builder.left,
                    right: builder.right,
                    current: builder.current,
                    stack: builder.stack,
                    nested: builder.nested,
                    previous: element,
                },
            ),
            Err(error) => Err(error),
        }
    }

    /// The builder after the elements, unless one of them may not stand
    /// where it does.
    pub open spec fn run(self, elements: Seq<EquationElement>) -> Result<Builder, EquationError>
        decreases elements.len(),
    {
        if elements.len() == 0 {
            Ok(self)
        } else {
            match self.run(elements.drop_last()) {
                Ok(builder) => builder.step(elements.last()),
                Err(error) => Err(error),
            }
        }
    }

    /// The two sides after the last element. The equation must have had its
    /// separator and all its closing parentheses. Multipliers that are the
    /// same on both sides are dropped; else each side is multiplied by its
    /// own.
    pub open spec fn finish(self) -> Result<(Polynomial, Polynomial), EquationError> {
        if self.current is LeftHandSide {
            Err(EquationError::InvalidSeparatorAmount)
        } else if self.stack.len() > 0 {
            Err(EquationError::ParenthesisError)
        } else {
            let right_term = self.nested.pushed().term;
            let same = self.right.multiplier.addends == self.left.multiplier.addends;
            let left = Side {
                term: self.left.term,
                multiplier: if same {
                    Polynomial::one()
                } else {
                    self.left.multiplier
                },
                side: self.left.side,
            };
            let right = Side {
                term: right_term,
                multiplier: if same {
                    Polynomial::one()
                } else {
                    self.right.multiplier
                },
                side: self.right.side,
            };
            if can_be_multiplied(left.term.addends, left.multiplier.addends) && can_be_multiplied(
                right.term.addends,
                right.multiplier.addends,
            ) {
                Ok((left.pushed().term, right.pushed().term))
            } else {
                Err(out_of_range())
            }
        }
    }
}

/// The two sides of the equation that the elements spell. The variable must
/// occur among them.
pub open spec fn generated(elements: Seq<EquationElement>) -> Result<
    (Polynomial, Polynomial),
    EquationError,
> {
    if !elements.contains(variable()) {
        Err(EquationError::NoOccurrencesOfVariable)
    } else {
        match Builder::start().run(elements) {
            Ok(builder) => builder.finish(),
            Err(error) => Err(error),
        }
    }
}

/// The numbers of all the elements are well formed.
pub open spec fn elements_wf(elements: Seq<EquationElement>) -> bool {
    forall|i: int| 0 <= i < elements.len() ==> (#[trigger] elements[i]).wf()
}

/// What the sums stand for.
pub open spec fn stack_view(stack: Seq<NestedTerm>) -> Seq<Nested> {
    stack.map_values(|nested: NestedTerm| nested@)
}

/// All the sums are well formed.
pub open spec fn stack_wf(stack: Seq<NestedTerm>) -> bool {
    forall|i: int| 0 <= i < stack.len() ==> (#[trigger] stack[i]).wf()
}

/// Once an element may not stand where it does, the elements spell no
/// equation.
pub proof fn lemma_run_fails(elements: Seq<EquationElement>, n: int)
    requires
        0 <= n <= elements.len(),
        Builder::start().run(elements.take(n)) is Err,
    ensures
        Builder::start().run(elements) == Builder::start().run(elements.take(n)),
    decreases elements.len() - n,
{
    if n < elements.len() {
        assert(elements.take(n + 1).drop_last() == elements.take(n));
        lemma_run_fails(elements, n + 1);
    } else {
        assert(elements.take(n) == elements);
    }
}

/// An equation while it is built from its elements.
pub struct EquationBuilder {
    pub nested_terms: VecDeque<NestedTerm>,
    pub left_hand_side: EquationSide,
    pub right_hand_side: EquationSide,
    pub current: EquationSideType,
    pub current_nested_term: NestedTerm,
    pub previous_element: EquationElement,
}

impl View for EquationBuilder {
    type V = Builder;

    open spec fn view(&self) -> Builder {
        Builder {
            left: self.left_hand_side@,
            right: self.right_hand_side@,
            current: self.current,
            stack: stack_view(self.nested_terms@),
            nested: self.current_nested_term@,
            previous: self.previous_element,
        }
    }
}

impl EquationBuilder {
    /// All the polynomials are well formed.
    pub open spec fn wf(self) -> bool {
        &&& self.left_hand_side.wf()
        &&& self.right_hand_side.wf()
        &&& stack_wf(self.nested_terms@)
        &&& self.current_nested_term.wf()
    }

    /// The builder before the first element.
    pub fn new() -> (r: EquationBuilder)
        ensures
            r@ == Builder::start(),
            r.wf(),
    {
        let r = EquationBuilder {
            nested_terms: VecDeque::new(),
            left_hand_side: EquationSide::new(EquationSideType::LeftHandSide),
            right_hand_side: EquationSide::new(EquationSideType::RightHandSide),
            current: EquationSideType::LeftHandSide,
            current_nested_term: NestedTerm::new(),
            previous_element: EquationElement::Separator,
        };
        assert(stack_view(r.nested_terms@) =~= Seq::<Nested>::empty());
        r
    }

    /// Takes the separator in.
    pub fn separate(&mut self) -> (r: Result<(), EquationError>)
        requires
            old(self).wf(),
        ensures
            match old(self)@.separated() {
                Ok(builder) => r is Ok && final(self)@ == builder,
                Err(error) => r is Err && r->Err_0 == error && final(self)@ == old(self)@,
            },
            final(self).wf(),
    {
        if let EquationElement::Value(_) | EquationElement::ClosingParenthesis =
            self.previous_element {
            if let EquationSideType::RightHandSide = self.current {
                return Err(EquationError::InvalidSeparatorAmount);
            }
            if self.nested_terms.len() > 0 {
                return Err(EquationError::ParenthesisError);
            }
            self.current_nested_term.push_multiplier();
            let mut finished: NestedTerm = NestedTerm::new();
            core::mem::swap(&mut finished, &mut self.current_nested_term);
            self.left_hand_side.term = finished.term;
            self.current = EquationSideType::RightHandSide;
            Ok(())
        } else {
            Err(EquationError::InvalidSeparator)
        }
    }

    /// Takes an opening parenthesis in.
    pub fn open(&mut self)
        requires
            old(self).wf(),
        ensures
            final(self)@ == old(self)@.opened(),
            final(self).wf(),
    {
        if let EquationElement::Value(_) | EquationElement::ClosingParenthesis =
            self.previous_element {
            self.current_nested_term.set_multiplicative_operation(
                MultiplicativeOperationType::Multiplication,
            );
        }
        let mut outer: NestedTerm = NestedTerm::new();
        core::mem::swap(&mut outer, &mut self.current_nested_term);
        let ghost stack = self.nested_terms@;
        self.nested_terms.push_back(outer);
        assert(stack_view(self.nested_terms@) =~= stack_view(stack).push(outer@));
    }

    /// Takes a closing parenthesis in. Where it is refused, nothing is
    /// changed.
    pub fn close(&mut self) -> (r: Result<(), EquationError>)
        requires
            old(self).wf(),
        ensures
            match old(self)@.closed() {
                Ok(builder) => r is Ok && final(self)@ == builder,
                Err(error) => r is Err && r->Err_0 == error && final(self)@ == old(self)@,
            },
            final(self).wf(),
    {
        if let EquationElement::Value(_) | EquationElement::ClosingParenthesis =
            self.previous_element {
            let mut finished: NestedTerm = self.current_nested_term.clone();
            finished.push_multiplier();
            let ghost stack = self.nested_terms@;
            let mut nested_term: NestedTerm = match self.nested_terms.pop_back() {
                Some(nested_term) => nested_term,
                None => {
                    return Err(EquationError::ParenthesisError);
                },
            };
            proof {
                assert(stack_view(self.nested_terms@) =~= stack_view(stack).drop_last());
                assert(stack[stack.len() - 1].wf());
                assert(stack_view(stack).last() == nested_term@);
            }
            let merged: Result<(), EquationError> = match self.current {
                EquationSideType::LeftHandSide => nested_term.merge_term(
                    &finished.term,
                    &mut self.right_hand_side,
                ),
                EquationSideType::RightHandSide => nested_term.merge_term(
                    &finished.term,
                    &mut self.left_hand_side,
                ),
            };
            match merged {
                Ok(()) => {
                    self.current_nested_term = nested_term;
                    Ok(())
                },
                Err(error) => {
                    self.nested_terms.push_back(nested_term);
                    assert(stack_view(self.nested_terms@) =~= stack_view(stack));
                    Err(error)
                },
            }
        } else {
            Err(EquationError::ParenthesisError)
        }
    }

    /// Takes the next element in. Where it is refused, nothing is changed.
    pub fn step(&mut self, element: EquationElement) -> (r: Result<(), EquationError>)
        requires
            old(self).wf(),
            element.wf(),
        ensures
            match old(self)@.step(element) {
                Ok(builder) => r is Ok && final(self)@ == builder,
                Err(error) => r is Err && r->Err_0 == error && final(self)@ == old(self)@,
            },
            final(self).wf(),
    {
        let previous_element: EquationElement = self.previous_element;
        let outcome: Result<(), EquationError> = match element {
            EquationElement::Value(value) => self.current_nested_term.multiply_value(
                &value,
                &previous_element,
            ),
            EquationElement::Operation(operation) => self.current_nested_term.set_operation(
                operation,
                &previous_element,
            ),
            EquationElement::Separator => self.separate(),
            EquationElement::OpeningParenthesis => {
                self.open();
                Ok(())
            },
            EquationElement::ClosingParenthesis => self.close(),
        };
        if outcome.is_ok() {
            self.previous_element = element;
        }
        outcome
    }

    /// The equation after the last element.
    pub fn finish(self) -> (r: Result<Equation, EquationError>)
        requires
            self.wf(),
        ensures
            match self@.finish() {
                Ok(sides) => r is Ok && r->Ok_0.left_hand_side@ == sides.0
                    && r->Ok_0.right_hand_side@ == sides.1 && r->Ok_0.wf(),
                Err(error) => r is Err && r->Err_0 == error,
            },
    {
        let mut builder: EquationBuilder = self;
        if let EquationSideType::LeftHandSide = builder.current {
            return Err(EquationError::InvalidSeparatorAmount);
        }
        if builder.nested_terms.len() > 0 {
            return Err(EquationError::ParenthesisError);
        }
        builder.current_nested_term.push_multiplier();
        let mut left_hand_side: EquationSide = builder.left_hand_side;
        let mut right_hand_side: EquationSide = builder.right_hand_side;
        right_hand_side.term = builder.current_nested_term.term;
        if right_hand_side.multiplier == left_hand_side.multiplier {
            right_hand_side.multiplier = Term::new_multiplier();
            left_hand_side.multiplier = Term::new_multiplier();
        }
        if !(left_hand_side.term.can_multiply_term(&left_hand_side.multiplier)
            && right_hand_side.term.can_multiply_term(&right_hand_side.multiplier)) {
            return Err(
                EquationError::TooHighDegree { degree: MAX_EXPONENT, max_degree: MAX_DEGREE },
            );
        }
        right_hand_side.push_multiplier();
        left_hand_side.push_multiplier();
        Ok(
            Equation {
                left_hand_side: left_hand_side.term,
                right_hand_side: right_hand_side.term,
            },
        )
    }
}

impl Equation {
    /// Both sides are well formed.
    pub open spec fn wf(self) -> bool {
        self.left_hand_side.wf() && self.right_hand_side.wf()
    }

    /// Builds the equation that the elements spell.
    pub fn generate(tokens: Vec<EquationElement>) -> (r: Result<Equation, EquationError>)
        requires
            elements_wf(tokens@),
        ensures
            match generated(tokens@) {
                Ok(sides) => r is Ok && r->Ok_0.left_hand_side@ == sides.0
                    && r->Ok_0.right_hand_side@ == sides.1 && r->Ok_0.wf(),
                Err(error) => r is Err && r->Err_0 == error,
            },
    {
        let mut occurs: bool = false;
        let mut k: usize = 0;
        while k < tokens.len()
            invariant
                k <= tokens.len(),
                occurs == tokens@.take(k as int).contains(variable()),
            decreases tokens.len() - k,
        {
            proof {
                assert(tokens@.take(k + 1) == tokens@.take(k as int).push(tokens@[k as int]));
                vstd::seq_lib::lemma_seq_contains_after_push(
                    tokens@.take(k as int),
                    tokens@[k as int],
                    variable(),
                );
            }
            if tokens[k] == EquationElement::Value(ValueType::Symbol(SymbolType::Variable)) {
                occurs = true;
            }
            k = k + 1;
        }
        assert(tokens@.take(k as int) == tokens@);
        if !occurs {
            return Err(EquationError::NoOccurrencesOfVariable);
        }
        let mut builder: EquationBuilder = EquationBuilder::new();
        let mut i: usize = 0;
        while i < tokens.len()
            invariant
                i <= tokens.len(),
                elements_wf(tokens@),
                tokens@.contains(variable()),
                Builder::start().run(tokens@.take(i as int)) == Ok::<Builder, EquationError>(
                    builder@,
                ),
                builder.wf(),
            decreases tokens.len() - i,
        {
            proof {
                assert(tokens@.take(i + 1).drop_last() == tokens@.take(i as int));
                assert(tokens@[i as int].wf());
            }
            let ghost before = builder@;
            match builder.step(tokens[i]) {
                Ok(()) => {},
                Err(error) => {
                    proof {
                        assert(Builder::start().run(tokens@.take(i + 1)) == before.step(
                            tokens@[i as int],
                        ));
                        lemma_run_fails(tokens@, i + 1);
                    }
                    return Err(error);
                },
            }
            i = i + 1;
        }
        assert(tokens@.take(i as int) == tokens@);
        builder.finish()
    }

    /// The left side minus the right side: the polynomial whose zeroes solve
    /// the equation.
    pub fn set_zero(self) -> (r: Term)
        requires
            self.wf(),
        ensures
            r@ == self.left_hand_side@.plus(
                self.right_hand_side@,
                AdditiveOperationType::Subtraction,
            ),
            r.wf(),
    {
        let mut term: Term = self.left_hand_side;
        term.add_term(&self.right_hand_side, AdditiveOperationType::Subtraction);
        term
    }
}

} // verus!
