//! One side of an equation while it is built.

use vstd::prelude::*;
use crate::polynomial::{can_be_multiplied, multiplied, Polynomial};
use crate::term::{Term};

verus! {

/// The side of the equals sign.
#[derive(Clone, Copy, Debug, PartialEq, Eq, Structural)]
pub enum EquationSideType {
    LeftHandSide,
    RightHandSide,
}

/// A side of the equation: its polynomial, and the polynomial by which it
/// is still to be multiplied because the other side was divided by it.
pub struct EquationSide {
    pub term: Term,
    pub multiplier: Term,
    pub side: EquationSideType,
}

/// What an `EquationSide` stands for.
pub struct Side {
    pub term: Polynomial,
    pub multiplier: Polynomial,
    pub side: EquationSideType,
}

impl Side {
    /// The side with its polynomial multiplied by its multiplier, and the
    /// multiplier one again.
    pub open spec fn pushed(self) -> Side {
        Side {
            term: Polynomial {
                addends: multiplied(self.term.addends, self.multiplier.addends),
                exclusions: self.term.exclusions,
            },
            multiplier: Polynomial::one(),
            side: self.side,
        }
    }
}

impl View for EquationSide {
    type V = Side;

    open spec fn view(&self) -> Side {
        Side { term: self.term@, multiplier: self.multiplier@, side: self.side }
    }
}

impl EquationSide {
    /// Both polynomials are well formed.
    pub open spec fn wf(self) -> bool {
        self.term.wf() && self.multiplier.wf()
    }

    /// The side with the polynomial zero, to be multiplied by one.
    pub fn new(side: EquationSideType) -> (r: EquationSide)
        ensures
            r@ == (Side { term: Polynomial::nothing(), multiplier: Polynomial::one(), side }),
            r.wf(),
    {
        Self { term: Term::new(), multiplier: Term::new_multiplier(), side }
    }

    /// Multiplies the polynomial by the multiplier, which becomes one.
    pub fn push_multiplier(&mut self)
        requires
            old(self).wf(),
            can_be_multiplied(old(self)@.term.addends, old(self)@.multiplier.addends),
        ensures
            final(self)@ == old(self)@.pushed(),
            final(self).wf(),
    {
        self.term.multiply_term(&self.multiplier);
        self.multiplier = Term::new_multiplier();
    }
}

} // verus!
