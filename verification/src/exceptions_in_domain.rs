//! The numbers at which an expression is not defined, because a divisor is
//! zero there.

use vstd::prelude::*;
use crate::equation_error::EquationError;
use crate::number::{all_wf, zero, Real};

verus! {

/// The numbers left out of the domain: either all of them are known, or a
/// divisor of the given degree could not be solved, and then only whether
/// zero is in the domain is known.
#[derive(Debug)]
pub enum ExceptionsInDomain {
    Known(Vec<Real>),
    Unknown { zero_is_valid: bool, degree: i32 },
}

/// What an `ExceptionsInDomain` stands for.
pub enum Exclusions {
    Known(Set<Real>),
    Unknown { zero_is_valid: bool, degree: i32 },
}

impl Exclusions {
    /// Whether zero is in the domain.
    pub open spec fn zero_is_valid(self) -> bool {
        match self {
            Exclusions::Known(numbers) => !numbers.contains(zero()),
            Exclusions::Unknown { zero_is_valid, .. } => zero_is_valid,
        }
    }

    /// The exclusions of an expression made of two that have these.
    pub open spec fn merged(self, other: Exclusions) -> Exclusions {
        match self {
            Exclusions::Known(numbers) => match other {
                Exclusions::Known(others) => Exclusions::Known(numbers.union(others)),
                Exclusions::Unknown { zero_is_valid, degree } => Exclusions::Unknown {
                    zero_is_valid: !numbers.contains(zero()) && zero_is_valid,
                    degree,
                },
            },
            Exclusions::Unknown { zero_is_valid, degree } => Exclusions::Unknown {
                zero_is_valid: zero_is_valid && other.zero_is_valid(),
                degree: match other {
                    Exclusions::Unknown { degree: other_degree, .. } => if other_degree > degree {
                        other_degree
                    } else {
                        degree
                    },
                    Exclusions::Known(_) => degree,
                },
            },
        }
    }

    /// The exclusions with zero among them.
    pub open spec fn without_zero(self) -> Exclusions {
        match self {
            Exclusions::Known(numbers) => Exclusions::Known(numbers.insert(zero())),
            Exclusions::Unknown { degree, .. } => Exclusions::Unknown {
                zero_is_valid: false,
                degree,
            },
        }
    }
}

/// The exclusions of two expressions are merged in either order.
pub proof fn lemma_merged_commutative(a: Exclusions, b: Exclusions)
    ensures
        a.merged(b) == b.merged(a),
{
    match (a, b) {
        (Exclusions::Known(x), Exclusions::Known(y)) => {
            assert(x.union(y) =~= y.union(x));
        },
        _ => {},
    }
}

/// The exclusions of three expressions are merged in any grouping.
pub proof fn lemma_merged_associative(a: Exclusions, b: Exclusions, c: Exclusions)
    ensures
        a.merged(b).merged(c) == a.merged(b.merged(c)),
{
    match (a, b, c) {
        (Exclusions::Known(x), Exclusions::Known(y), Exclusions::Known(z)) => {
            assert(x.union(y).union(z) =~= x.union(y.union(z)));
        },
        _ => {},
    }
}

/// Whether the number is among those of the vector.
pub fn holds(numbers: &Vec<Real>, number: Real) -> (r: bool)
    ensures
        r == numbers@.contains(number),
{
    let mut i: usize = 0;
    while i < numbers.len()
        invariant
            i <= numbers.len(),
            forall|j: int| 0 <= j < i ==> numbers@[j] != number,
        decreases numbers.len() - i,
    {
        if numbers[i] == number {
            return true;
        }
        i = i + 1;
    }
    false
}

/// A vector with the same numbers.
pub fn copied(numbers: &Vec<Real>) -> (r: Vec<Real>)
    ensures
        r@ == numbers@,
{
    let mut r: Vec<Real> = Vec::new();
    let mut i: usize = 0;
    while i < numbers.len()
        invariant
            i <= numbers.len(),
            r@ == numbers@.take(i as int),
        decreases numbers.len() - i,
    {
        r.push(numbers[i]);
        assert(numbers@.take(i + 1) == numbers@.take(i as int).push(numbers@[i as int]));
        i = i + 1;
    }
    assert(numbers@.take(i as int) == numbers@);
    r
}

/// Puts among the distinct numbers those of the others that are not yet
/// among them.
pub fn add_distinct(all: &mut Vec<Real>, others: &Vec<Real>)
    requires
        distinct_numbers(old(all)@),
        all_wf(others@),
    ensures
        distinct_numbers(final(all)@),
        final(all)@.to_set() == old(all)@.to_set().union(others@.to_set()),
{
    let ghost before = all@;
    let mut i: usize = 0;
    assert(others@.take(0).to_set() =~= Set::<Real>::empty());
    assert(all@.to_set() =~= before.to_set().union(others@.take(0).to_set()));
    while i < others.len()
        invariant
            i <= others.len(),
            distinct_numbers(all@),
            all_wf(others@),
            all@.to_set() == before.to_set().union(others@.take(i as int).to_set()),
        decreases others.len() - i,
    {
        let number: Real = others[i];
        proof {
            assert(others@.take(i + 1) == others@.take(i as int).push(number));
            others@.take(i as int).lemma_push_to_set_commute(number);
            all@.lemma_push_to_set_commute(number);
        }
        if !holds(all, number) {
            all.push(number);
        }
        assert(all@.to_set() =~= before.to_set().union(others@.take(i + 1).to_set()));
        i = i + 1;
    }
    assert(others@.take(i as int) == others@);
}

/// The numbers of both vectors, each once.
pub fn united(numbers: &Vec<Real>, others: &Vec<Real>) -> (all: Vec<Real>)
    requires
        all_wf(numbers@),
        all_wf(others@),
    ensures
        distinct_numbers(all@),
        all@.to_set() == numbers@.to_set().union(others@.to_set()),
{
    let mut all: Vec<Real> = Vec::new();
    assert(all@.to_set() =~= Set::<Real>::empty());
    add_distinct(&mut all, numbers);
    assert(all@.to_set() =~= numbers@.to_set());
    add_distinct(&mut all, others);
    all
}

/// The numbers are well formed, and none occurs twice.
pub open spec fn distinct_numbers(numbers: Seq<Real>) -> bool {
    numbers.no_duplicates() && forall|i: int| 0 <= i < numbers.len() ==> (#[trigger] numbers[i]).wf()
}

impl View for ExceptionsInDomain {
    type V = Exclusions;

    open spec fn view(&self) -> Exclusions {
        match *self {
            ExceptionsInDomain::Known(numbers) => Exclusions::Known(numbers@.to_set()),
            ExceptionsInDomain::Unknown { zero_is_valid, degree } => Exclusions::Unknown {
                zero_is_valid,
                degree,
            },
        }
    }
}

impl Clone for ExceptionsInDomain {
    fn clone(&self) -> (r: Self)
        ensures
            r@ == self@,
            self.wf() ==> r.wf(),
    {
        match self {
            ExceptionsInDomain::Known(numbers) => ExceptionsInDomain::Known(copied(numbers)),
            ExceptionsInDomain::Unknown { zero_is_valid, degree } => ExceptionsInDomain::Unknown {
                zero_is_valid: *zero_is_valid,
                degree: *degree,
            },
        }
    }
}

impl ExceptionsInDomain {
    /// The known numbers are well formed. A number that is listed twice is
    /// left out once.
    pub open spec fn wf(self) -> bool {
        match self {
            ExceptionsInDomain::Known(numbers) => all_wf(numbers@),
            ExceptionsInDomain::Unknown { .. } => true,
        }
    }

    /// No number is known to be left out.
    pub fn new() -> (r: ExceptionsInDomain)
        ensures
            r@ == Exclusions::Known(Set::<Real>::empty()),
            r.wf(),
    {
        let numbers: Vec<Real> = Vec::new();
        assert(numbers@.to_set() =~= Set::<Real>::empty());
        ExceptionsInDomain::Known(numbers)
    }

    /// Takes in the exclusions of another expression.
    pub fn extend(&mut self, other: &ExceptionsInDomain)
        requires
            old(self).wf(),
            other.wf(),
        ensures
            final(self)@ == old(self)@.merged(other@),
            final(self).wf(),
    {
        let merged: ExceptionsInDomain = match &*self {
            ExceptionsInDomain::Known(numbers) => match other {
                ExceptionsInDomain::Known(others) => ExceptionsInDomain::Known(
                    united(numbers, others),
                ),
                ExceptionsInDomain::Unknown { zero_is_valid, degree } => {
                    ExceptionsInDomain::Unknown {
                        zero_is_valid: !holds(numbers, Real::zero()) && *zero_is_valid,
                        degree: *degree,
                    }
                },
            },
            ExceptionsInDomain::Unknown { zero_is_valid, degree } => {
                let other_degree: i32 = match other {
                    ExceptionsInDomain::Unknown { degree: other_degree, .. } => *other_degree,
                    ExceptionsInDomain::Known(_) => *degree,
                };
                ExceptionsInDomain::Unknown {
                    zero_is_valid: *zero_is_valid && other.zero_is_valid(),
                    degree: if other_degree > *degree { other_degree } else { *degree },
                }
            },
        };
        *self = merged;
    }

    /// Leaves zero out of the domain.
    pub fn insert_zero(&mut self)
        requires
            old(self).wf(),
        ensures
            final(self)@ == old(self)@.without_zero(),
            final(self).wf(),
    {
        let changed: ExceptionsInDomain = match &*self {
            ExceptionsInDomain::Known(numbers) => {
                let mut all: Vec<Real> = copied(numbers);
                proof {
                    all@.lemma_push_to_set_commute(zero());
                }
                if !holds(&all, Real::zero()) {
                    all.push(Real::zero());
                }
                assert(all@.to_set() =~= numbers@.to_set().insert(zero()));
                ExceptionsInDomain::Known(all)
            },
            ExceptionsInDomain::Unknown { degree, .. } => ExceptionsInDomain::Unknown {
                zero_is_valid: false,
                degree: *degree,
            },
        };
        *self = changed;
    }

    /// The known numbers, or else the error that `error` makes of the degree
    /// of the divisor that was not solved.
    pub fn unwrap_or<E: Fn(i32) -> EquationError>(&self, error: E) -> (r: Result<
        Vec<Real>,
        EquationError,
    >)
        requires
            self is Unknown ==> error.requires((self->degree,)),
        ensures
            match *self {
                ExceptionsInDomain::Known(numbers) => r is Ok && r->Ok_0@ == numbers@,
                ExceptionsInDomain::Unknown { degree, .. } => r is Err && error.ensures(
                    (degree,),
                    r->Err_0,
                ),
            },
    {
        match self {
            ExceptionsInDomain::Known(numbers) => Ok(copied(numbers)),
            ExceptionsInDomain::Unknown { degree, .. } => Err(error(*degree)),
        }
    }

    /// Whether zero is in the domain.
    pub fn zero_is_valid(&self) -> (r: bool)
        ensures
            r == self@.zero_is_valid(),
    {
        match self {
            ExceptionsInDomain::Known(numbers) => !holds(numbers, Real::zero()),
            ExceptionsInDomain::Unknown { zero_is_valid, .. } => *zero_is_valid,
        }
    }
}

} // verus!
