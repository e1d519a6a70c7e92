//! Polynomials in one variable as they are computed with.

use vstd::prelude::*;
use crate::equation_element::{AdditiveOperationType, SymbolType, ValueType};
use crate::equation_error::EquationError;
use crate::equation_result::EquationResult;
use crate::equation_side::EquationSide;
use crate::exceptions_in_domain::{holds, united, ExceptionsInDomain};
use crate::number::{
    all_wf, difference, lemma_distinct_descending, lemma_rounded_nonzero, negation, quotient,
    sorted_descending, sum, zero, Real,
};
use crate::coefficients::{lemma_degree, lemma_kept_coefficient, lemma_lowest};
use crate::polynomial::{
    accumulated, ascending, gathered, lemma_kept_canonical, lemma_kept_twice, valid, can_be_multiplied, can_be_raised, canonical, coefficient_of, combined, degree_of,
    divided, divided_by, divisor_exclusions, each_over, each_times, in_range, is_rank, kept,
    lemma_accumulated_canonical, lemma_last_coefficient, lemma_rank, lowest_of, multiplied,
    over_value, raised, roots_of, scaled, times_value, too_high, unit, with_divisor, with_row,
    with_rows, zeroes_of, allowed, Addend, Polynomial, MAX_DEGREE, MAX_EXPONENT,
};

verus! {

/// A polynomial: its addends by ascending exponent, and the numbers left out
/// of its domain. An addend with the coefficient zero is as good as absent:
/// no operation counts it, and none leaves one behind.
#[derive(Debug)]
pub struct Term {
    pub addends: Vec<Addend>,
    pub exceptions_in_domain: ExceptionsInDomain,
}


/// Adds `coefficient` times the power `exponent` of the variable.
pub fn accumulate(addends: &mut Vec<Addend>, exponent: i32, coefficient: Real)
    requires
        canonical(old(addends)@),
        in_range(exponent as int),
        coefficient.wf(),
    ensures
        final(addends)@ == accumulated(old(addends)@, exponent as int, coefficient),
        canonical(final(addends)@),
{
    let mut p: usize = 0;
    while p < addends.len() && addends[p].exponent < exponent
        invariant
            p <= addends.len(),
            forall|j: int| 0 <= j < p ==> (#[trigger] addends@[j]).exponent < exponent,
        decreases addends.len() - p,
    {
        p = p + 1;
    }
    proof {
        assert(is_rank(addends@, exponent as int, p as int));
        lemma_rank(addends@, exponent as int, p as int);
        lemma_accumulated_canonical(addends@, exponent as int, coefficient, p as int);
    }
    if coefficient.is_zero() {
    } else if p < addends.len() && addends[p].exponent == exponent {
        let total: Real = addends[p].coefficient.plus(coefficient);
        if total.is_zero() {
            addends.remove(p);
        } else {
            addends.set(p, Addend { exponent, coefficient: total });
        }
    } else {
        addends.insert(p, Addend { exponent, coefficient });
    }
}

/// The addends without those whose coefficient is zero.
pub fn kept_addends(addends: &Vec<Addend>) -> (r: Vec<Addend>)
    ensures
        r@ == kept(addends@),
        ascending(addends@) ==> canonical(r@),
{
    let mut r: Vec<Addend> = Vec::new();
    let mut i: usize = 0;
    assert(addends@.take(0) =~= Seq::<Addend>::empty());
    while i < addends.len()
        invariant
            i <= addends.len(),
            r@ == kept(addends@.take(i as int)),
            ascending(addends@) ==> canonical(r@) && forall|k: int, j: int|
                0 <= k < r@.len() && i <= j < addends@.len() ==> (#[trigger] r@[k]).exponent < (
                #[trigger] addends@[j]).exponent,
        decreases addends.len() - i,
    {
        let addend: Addend = addends[i];
        proof {
            assert(addends@.take(i + 1).drop_last() == addends@.take(i as int));
            assert(addends@.take(i + 1).last() == addend);
        }
        if !addend.coefficient.is_zero() {
            r.push(addend);
        }
        i = i + 1;
    }
    assert(addends@.take(i as int) == addends@);
    r
}

impl View for Term {
    type V = Polynomial;

    open spec fn view(&self) -> Polynomial {
        Polynomial { addends: kept(self.addends@), exclusions: self.exceptions_in_domain@ }
    }
}

impl Term {
    /// The exponents of the addends ascend and are in range, and all the
    /// numbers are well formed.
    pub open spec fn wf(self) -> bool {
        ascending(self.addends@) && self.exceptions_in_domain.wf()
    }

    /// Takes out the addends with the coefficient zero.
    pub fn prune(&mut self)
        ensures
            final(self).addends@ == kept(old(self).addends@),
            final(self)@ == old(self)@,
            final(self).exceptions_in_domain == old(self).exceptions_in_domain,
            old(self).wf() ==> canonical(final(self).addends@) && final(self).wf(),
    {
        proof {
            lemma_kept_twice(self.addends@);
        }
        self.addends = kept_addends(&self.addends);
    }

    /// The polynomial zero.
    pub fn new() -> (r: Term)
        ensures
            r@ == Polynomial::nothing(),
            r.wf(),
    {
        let addends: Vec<Addend> = Vec::new();
        assert(kept(addends@) == addends@);
        Term { addends, exceptions_in_domain: ExceptionsInDomain::new() }
    }

    /// The polynomial of the given addends, which may stand in any order;
    /// those with the same exponent add up.
    pub fn from_addends(addends: &Vec<Addend>) -> (r: Term)
        requires
            valid(addends@),
        ensures
            r@.addends == gathered(addends@),
            r@.exclusions == Polynomial::nothing().exclusions,
            canonical(r.addends@),
            r.wf(),
    {
        let mut gathered: Vec<Addend> = Vec::new();
        let mut i: usize = 0;
        while i < addends.len()
            invariant
                i <= addends.len(),
                valid(addends@),
                canonical(gathered@),
                gathered@ == combined(
                    Seq::empty(),
                    addends@,
                    AdditiveOperationType::Addition,
                    i as nat,
                ),
            decreases addends.len() - i,
        {
            let addend: Addend = addends[i];
            accumulate(&mut gathered, addend.exponent, addend.coefficient);
            i = i + 1;
        }
        proof {
            lemma_kept_canonical(gathered@);
        }
        Term { addends: gathered, exceptions_in_domain: ExceptionsInDomain::new() }
    }

    /// The polynomial one.
    pub fn new_multiplier() -> (r: Term)
        ensures
            r@ == Polynomial::one(),
            r.wf(),
    {
        let mut addends: Vec<Addend> = Vec::new();
        proof {
            lemma_rounded_nonzero(false, 1, 0);
        }
        addends.push(Addend { exponent: 0, coefficient: Real::from_integer(1) });
        assert(addends@ == unit());
        proof {
            lemma_kept_canonical(addends@);
        }
        Term { addends, exceptions_in_domain: ExceptionsInDomain::new() }
    }

    /// Multiplies the polynomial by a number.
    pub fn multiply_constant(&mut self, constant: &Real)
        requires
            old(self).wf(),
            constant.wf(),
        ensures
            final(self)@.addends == scaled(old(self)@.addends, *constant),
            final(self).exceptions_in_domain == old(self).exceptions_in_domain,
            final(self).wf(),
    {
        self.prune();
        let ghost mapped = each_times(self.addends@, *constant);
        let mut addends: Vec<Addend> = Vec::new();
        let mut i: usize = 0;
        while i < self.addends.len()
            invariant
                i <= self.addends.len(),
                constant.wf(),
                canonical(self.addends@),
                mapped == each_times(self.addends@, *constant),
                addends@ == kept(mapped.take(i as int)),
                canonical(addends@),
                forall|k: int, j: int|
                    0 <= k < addends@.len() && i <= j < self.addends@.len() ==> (
                    #[trigger] addends@[k]).exponent < (#[trigger] self.addends@[j]).exponent,
            decreases self.addends.len() - i,
        {
            let addend: Addend = self.addends[i];
            let coefficient: Real = addend.coefficient.times(*constant);
            proof {
                assert(mapped.take(i + 1).drop_last() == mapped.take(i as int));
                assert(mapped.take(i + 1).last() == mapped[i as int]);
            }
            if !coefficient.is_zero() {
                addends.push(Addend { exponent: addend.exponent, coefficient });
            }
            i = i + 1;
        }
        assert(mapped.take(i as int) == mapped);
        proof {
            lemma_kept_canonical(addends@);
        }
        self.addends = addends;
    }

    /// Divides the polynomial by a number, unless the number is zero.
    pub fn divide_constant(&mut self, constant: &Real) -> (r: Result<(), EquationError>)
        requires
            old(self).wf(),
            constant.wf(),
        ensures
            constant.mantissa == 0 ==> r == Err::<(), EquationError>(EquationError::DivisionByZero)
                && *final(self) == *old(self),
            constant.mantissa != 0 ==> r is Ok && final(self)@.addends == divided(
                old(self)@.addends,
                *constant,
            ) && final(self).exceptions_in_domain == old(self).exceptions_in_domain,
            final(self).wf(),
    {
        if constant.is_zero() {
            return Err(EquationError::DivisionByZero);
        }
        self.prune();
        let ghost mapped = each_over(self.addends@, *constant);
        let mut addends: Vec<Addend> = Vec::new();
        let mut i: usize = 0;
        while i < self.addends.len()
            invariant
                i <= self.addends.len(),
                constant.wf(),
                constant.mantissa != 0,
                canonical(self.addends@),
                mapped == each_over(self.addends@, *constant),
                addends@ == kept(mapped.take(i as int)),
                canonical(addends@),
                forall|k: int, j: int|
                    0 <= k < addends@.len() && i <= j < self.addends@.len() ==> (
                    #[trigger] addends@[k]).exponent < (#[trigger] self.addends@[j]).exponent,
            decreases self.addends.len() - i,
        {
            let addend: Addend = self.addends[i];
            let coefficient: Real = addend.coefficient.over(*constant);
            proof {
                assert(mapped.take(i + 1).drop_last() == mapped.take(i as int));
                assert(mapped.take(i + 1).last() == mapped[i as int]);
            }
            if !coefficient.is_zero() {
                addends.push(Addend { exponent: addend.exponent, coefficient });
            }
            i = i + 1;
        }
        assert(mapped.take(i as int) == mapped);
        proof {
            lemma_kept_canonical(addends@);
        }
        self.addends = addends;
        Ok(())
    }

    /// Whether the polynomial can be multiplied by the given power of the
    /// variable: whether its exponents stay in range.
    pub fn can_increase_exponents(&self, power: i32) -> (r: bool)
        requires
            self.wf(),
        ensures
            r == can_be_raised(self@.addends, power as int),
    {
        let own: Vec<Addend> = kept_addends(&self.addends);
        let n: usize = own.len();
        if n == 0 {
            return true;
        }
        let low: i64 = own[0].exponent as i64 + power as i64;
        let high: i64 = own[n - 1].exponent as i64 + power as i64;
        let fits: bool = -(MAX_EXPONENT as i64) <= low && high <= MAX_EXPONENT as i64;
        proof {
            let s = own@;
            if fits {
                assert forall|i: int| 0 <= i < s.len() implies in_range(
                    (#[trigger] s[i]).exponent + power,
                ) by {
                    assert(s[0].exponent <= s[i].exponent);
                    assert(s[i].exponent <= s[n - 1].exponent);
                }
            } else {
                assert(!in_range(s[0].exponent + power) || !in_range(s[n - 1].exponent + power));
            }
        }
        fits
    }

    /// Multiplies the polynomial by the given power of the variable.
    pub fn increase_exponents(&mut self, power: i32)
        requires
            old(self).wf(),
            can_be_raised(old(self)@.addends, power as int),
        ensures
            final(self)@.addends == raised(old(self)@.addends, power as int),
            final(self).exceptions_in_domain == old(self).exceptions_in_domain,
            final(self).wf(),
    {
        self.prune();
        let ghost before = self.addends@;
        let mut i: usize = 0;
        while i < self.addends.len()
            invariant
                i <= self.addends.len(),
                self.addends@.len() == before.len(),
                self.exceptions_in_domain == old(self).exceptions_in_domain,
                canonical(before),
                can_be_raised(before, power as int),
                forall|j: int|
                    0 <= j < i ==> #[trigger] self.addends@[j] == (Addend {
                        exponent: (before[j].exponent + power) as i32,
                        coefficient: before[j].coefficient,
                    }),
                forall|j: int| i <= j < before.len() ==> #[trigger] self.addends@[j] == before[j],
            decreases self.addends.len() - i,
        {
            let addend: Addend = self.addends[i];
            assert(in_range(before[i as int].exponent + power));
            self.addends.set(
                i,
                Addend { exponent: addend.exponent + power, coefficient: addend.coefficient },
            );
            i = i + 1;
        }
        assert(self.addends@ =~= raised(before, power as int));
        proof {
            let r = self.addends@;
            assert forall|i: int, j: int| 0 <= i < j < r.len() implies (#[trigger] r[i]).exponent < (
            #[trigger] r[j]).exponent by {
                assert(before[i].exponent < before[j].exponent);
            }
            assert forall|i: int| 0 <= i < r.len() implies {
                &&& in_range((#[trigger] r[i]).exponent as int)
                &&& r[i].coefficient.wf()
                &&& r[i].coefficient.mantissa != 0
            } by {
                assert(in_range(before[i].exponent + power));
            }
            lemma_kept_canonical(r);
        }
    }

    /// Whether the polynomial can be multiplied by the other: whether the
    /// exponents of the product are in range.
    pub fn can_multiply_term(&self, other: &Term) -> (r: bool)
        requires
            self.wf(),
            other.wf(),
        ensures
            r == can_be_multiplied(self@.addends, other@.addends),
    {
        let own: Vec<Addend> = kept_addends(&self.addends);
        let theirs: Vec<Addend> = kept_addends(&other.addends);
        let n: usize = own.len();
        let m: usize = theirs.len();
        if n == 0 || m == 0 {
            return true;
        }
        let low: i64 = own[0].exponent as i64 + theirs[0].exponent as i64;
        let high: i64 = own[n - 1].exponent as i64 + theirs[m - 1].exponent as i64;
        let fits: bool = -(MAX_EXPONENT as i64) <= low && high <= MAX_EXPONENT as i64;
        proof {
            let a = own@;
            let b = theirs@;
            if fits {
                assert forall|i: int, j: int| 0 <= i < a.len() && 0 <= j < b.len() implies in_range(
                    (#[trigger] a[i]).exponent + (#[trigger] b[j]).exponent,
                ) by {
                    assert(a[0].exponent <= a[i].exponent);
                    assert(a[i].exponent <= a[n - 1].exponent);
                    assert(b[0].exponent <= b[j].exponent);
                    assert(b[j].exponent <= b[m - 1].exponent);
                }
            } else {
                assert(!in_range(a[0].exponent + b[0].exponent) || !in_range(
                    a[n - 1].exponent + b[m - 1].exponent,
                ));
            }
        }
        fits
    }

    /// Multiplies the polynomial by the other. The exceptions of the other
    /// are not taken in.
    pub fn multiply_term(&mut self, other: &Term)
        requires
            old(self).wf(),
            other.wf(),
            can_be_multiplied(old(self)@.addends, other@.addends),
        ensures
            final(self)@.addends == multiplied(old(self)@.addends, other@.addends),
            final(self).exceptions_in_domain == old(self).exceptions_in_domain,
            final(self).wf(),
    {
        self.prune();
        let theirs: Vec<Addend> = kept_addends(&other.addends);
        let mut addends: Vec<Addend> = Vec::new();
        let mut i: usize = 0;
        while i < self.addends.len()
            invariant
                i <= self.addends.len(),
                canonical(self.addends@),
                canonical(theirs@),
                can_be_multiplied(self.addends@, theirs@),
                canonical(addends@),
                addends@ == with_rows(self.addends@, theirs@, i as nat),
            decreases self.addends.len() - i,
        {
            let x: Addend = self.addends[i];
            let mut j: usize = 0;
            while j < theirs.len()
                invariant
                    i < self.addends.len(),
                    j <= theirs.len(),
                    x == self.addends@[i as int],
                    canonical(self.addends@),
                    canonical(theirs@),
                    can_be_multiplied(self.addends@, theirs@),
                    canonical(addends@),
                    addends@ == with_row(
                        with_rows(self.addends@, theirs@, i as nat),
                        x,
                        theirs@,
                        j as nat,
                    ),
                decreases theirs.len() - j,
            {
                let y: Addend = theirs[j];
                assert(in_range(self.addends@[i as int].exponent + theirs@[j as int].exponent));
                accumulate(
                    &mut addends,
                    x.exponent + y.exponent,
                    x.coefficient.times(y.coefficient),
                );
                j = j + 1;
            }
            i = i + 1;
        }
        proof {
            lemma_kept_canonical(addends@);
        }
        self.addends = addends;
    }

    /// The highest exponent with a coefficient other than zero, if there is
    /// one.
    pub fn degree(&self) -> (r: Option<i32>)
        requires
            self.wf(),
        ensures
            r == degree_of(self@.addends),
            match r {
                Some(degree) => coefficient_of(self.addends@, degree as int).mantissa != 0
                    && forall|e: int|
                    e > degree ==> (#[trigger] coefficient_of(self.addends@, e)).mantissa == 0,
                None => forall|e: int| (#[trigger] coefficient_of(self.addends@, e)).mantissa == 0,
            },
    {
        proof {
            lemma_degree(self.addends@);
        }
        let mut i: usize = self.addends.len();
        assert(self.addends@.take(i as int) == self.addends@);
        while i > 0
            invariant
                i <= self.addends.len(),
                kept(self.addends@.take(i as int)) == kept(self.addends@),
                match degree_of(kept(self.addends@)) {
                    Some(degree) => coefficient_of(self.addends@, degree as int).mantissa != 0
                        && forall|e: int|
                        e > degree ==> (#[trigger] coefficient_of(self.addends@, e)).mantissa
                            == 0,
                    None => forall|e: int|
                        (#[trigger] coefficient_of(self.addends@, e)).mantissa == 0,
                },
            decreases i,
        {
            let addend: Addend = self.addends[i - 1];
            proof {
                assert(self.addends@.take(i as int).drop_last() == self.addends@.take(i - 1));
                assert(self.addends@.take(i as int).last() == addend);
            }
            if !addend.coefficient.is_zero() {
                return Some(addend.exponent);
            }
            i = i - 1;
        }
        None
    }

    /// The lowest exponent with a coefficient other than zero, or zero if
    /// there is none.
    pub fn lowest_exponent(&self) -> (r: i32)
        requires
            self.wf(),
        ensures
            r == lowest_of(self@.addends),
            forall|e: int| e < r ==> (#[trigger] coefficient_of(self.addends@, e)).mantissa == 0,
            degree_of(self@.addends) is Some ==> coefficient_of(self.addends@, r as int).mantissa
                != 0 && r <= degree_of(self@.addends)->0,
            degree_of(self@.addends) is None ==> r == 0,
    {
        proof {
            lemma_lowest(self.addends@);
        }
        let own: Vec<Addend> = kept_addends(&self.addends);
        if own.len() == 0 {
            0
        } else {
            own[0].exponent
        }
    }

    /// Whether the variable is a factor of the polynomial.
    pub fn zero_is_a_solution(&self) -> (r: bool)
        requires
            self.wf(),
        ensures
            r == (lowest_of(self@.addends) > 0),
    {
        self.lowest_exponent() > 0
    }

    /// The coefficient of the given power of the variable.
    pub fn coefficient(&self, exponent: i32) -> (r: Real)
        requires
            self.wf(),
        ensures
            r == coefficient_of(self@.addends, exponent as int),
            r == coefficient_of(self.addends@, exponent as int),
            r.wf(),
    {
        proof {
            lemma_kept_coefficient(self.addends@, exponent as int);
        }
        let mut p: usize = 0;
        while p < self.addends.len() && self.addends[p].exponent < exponent
            invariant
                p <= self.addends.len(),
                forall|j: int| 0 <= j < p ==> (#[trigger] self.addends@[j]).exponent < exponent,
            decreases self.addends.len() - p,
        {
            p = p + 1;
        }
        proof {
            assert(is_rank(self.addends@, exponent as int, p as int));
            lemma_rank(self.addends@, exponent as int, p as int);
        }
        if p < self.addends.len() && self.addends[p].exponent == exponent {
            self.addends[p].coefficient
        } else {
            Real::zero()
        }
    }

    /// Whether the two polynomials have the same addends, but for those with
    /// the coefficient zero.
    pub fn same_addends(&self, other: &Term) -> (r: bool)
        ensures
            r == (self@.addends == other@.addends),
    {
        let own: Vec<Addend> = kept_addends(&self.addends);
        let theirs: Vec<Addend> = kept_addends(&other.addends);
        if own.len() != theirs.len() {
            return false;
        }
        let mut i: usize = 0;
        while i < own.len()
            invariant
                i <= own.len(),
                own.len() == theirs.len(),
                own@ == kept(self.addends@),
                theirs@ == kept(other.addends@),
                forall|j: int| 0 <= j < i ==> own@[j] == theirs@[j],
            decreases own.len() - i,
        {
            if own[i] != theirs[i] {
                return false;
            }
            i = i + 1;
        }
        assert(own@ =~= theirs@);
        true
    }

    /// The zeroes of a polynomial of the second degree at most, once the
    /// variable is taken out of it as often as it is a factor.
    pub fn zeroes(&self) -> (r: Result<EquationResult, EquationError>)
        requires
            self.wf(),
        ensures
            match zeroes_of(self@) {
                Ok(zeroes) => r is Ok && r->Ok_0.lists(zeroes) && r->Ok_0.wf(),
                Err(error) => r is Err && r->Err_0 == error,
            },
    {
        let lowest: i32 = self.lowest_exponent();
        let factorized_variable: bool = lowest > 0;
        let too_high_degree = |degree: i32| -> (e: EquationError)
            ensures
                e == too_high(degree),
            { EquationError::TooHighDegree { degree, max_degree: MAX_DEGREE } };
        let highest: i32 = match self.degree() {
            None => {
                let exceptions: Vec<Real> = match self.exceptions_in_domain.unwrap_or(
                    too_high_degree,
                ) {
                    Ok(exceptions) => exceptions,
                    Err(error) => {
                        return Err(error);
                    },
                };
                let ghost known = exceptions@;
                let none: Vec<Real> = Vec::new();
                assert(none@.to_set() =~= Set::<Real>::empty());
                let exceptions: Vec<Real> = united(&exceptions, &none);
                assert(exceptions@.to_set() =~= known.to_set());
                let sorted: Vec<Real> = sorted_descending(&exceptions);
                proof {
                    broadcast use vstd::seq_lib::group_to_multiset_ensures;

                    exceptions@.lemma_multiset_has_no_duplicates();
                    sorted@.lemma_multiset_has_no_duplicates_conv();
                    lemma_distinct_descending(sorted@);
                    assert forall|x: Real| sorted@.to_set().contains(x) == exceptions@.to_set().contains(
                        x,
                    ) by {
                        vstd::seq_lib::to_multiset_contains(sorted@, x);
                        vstd::seq_lib::to_multiset_contains(exceptions@, x);
                    }
                    assert(sorted@.to_set() =~= exceptions@.to_set());
                }
                return Ok(EquationResult::InfiniteSolutions { exceptions: sorted });
            },
            Some(highest) => highest,
        };
        proof {
            let own = kept(self.addends@);
            lemma_kept_coefficient(self.addends@, 0);
            lemma_last_coefficient(own);
            assert(own.first().exponent <= own.last().exponent);
        }
        if highest == lowest {
            if factorized_variable && self.exceptions_in_domain.zero_is_valid() {
                let mut solutions: Vec<Real> = Vec::new();
                solutions.push(Real::zero());
                assert(solutions@ == seq![zero()]);
                return Ok(EquationResult::Solutions(solutions));
            } else {
                return Ok(EquationResult::Unsolvable);
            }
        }
        let degree: i32 = highest - lowest;
        if degree > MAX_DEGREE {
            return Err(EquationError::TooHighDegree { degree, max_degree: MAX_DEGREE });
        }
        let roots: Vec<Real> = match Term::roots(
            self.coefficient(lowest + 2),
            self.coefficient(lowest + 1),
            self.coefficient(lowest),
        ) {
            Ok(roots) => roots,
            Err(error) => {
                return Err(error);
            },
        };
        let exceptions: Vec<Real> = match self.exceptions_in_domain.unwrap_or(too_high_degree) {
            Ok(exceptions) => exceptions,
            Err(error) => {
                return Err(error);
            },
        };
        let mut solutions: Vec<Real> = Vec::new();
        if factorized_variable && !holds(&exceptions, Real::zero()) {
            solutions.push(Real::zero());
        }
        let ghost first = solutions@;
        let mut i: usize = 0;
        while i < roots.len()
            invariant
                i <= roots.len(),
                all_wf(roots@),
                all_wf(solutions@),
                solutions@ == first + allowed(roots@.take(i as int), exceptions@.to_set()),
            decreases roots.len() - i,
        {
            let root: Real = roots[i];
            proof {
                assert(roots@.take(i + 1).drop_last() == roots@.take(i as int));
            }
            if !holds(&exceptions, root) {
                solutions.push(root);
            }
            i = i + 1;
        }
        assert(roots@.take(i as int) == roots@);
        Ok(EquationResult::Solutions(sorted_descending(&solutions)))
    }

    /// The zeroes of the polynomial with the coefficients `a`, `b` and `c`,
    /// from the second power down, where `b` is not zero if `a` is.
    pub fn roots(a: Real, b: Real, c: Real) -> (r: Result<Vec<Real>, EquationError>)
        requires
            a.wf(),
            b.wf(),
            c.wf(),
            a.mantissa == 0 ==> b.mantissa != 0,
        ensures
            match roots_of(a, b, c) {
                Ok(roots) => r is Ok && r->Ok_0@ == roots && all_wf(roots),
                Err(error) => r is Err && r->Err_0 == error,
            },
    {
        let mut roots: Vec<Real> = Vec::new();
        if a.is_zero() {
            roots.push(c.negated().over(b));
            assert(roots@ == seq![quotient(negation(c), b)]);
            return Ok(roots);
        }
        let discriminant: Real = b.times(b).minus(Real::from_integer(4).times(a).times(c));
        if discriminant.is_negative() {
            return Err(EquationError::ComplexNumbers);
        }
        let root: Real = discriminant.sqrt();
        let two: Real = Real::from_integer(2);
        proof {
            lemma_rounded_nonzero(false, 2, 0);
        }
        roots.push(b.negated().plus(root).over(two).over(a));
        roots.push(b.negated().minus(root).over(two).over(a));
        assert(roots@ == seq![
            quotient(quotient(sum(negation(b), root), two), a),
            quotient(quotient(difference(negation(b), root), two), a),
        ]);
        Ok(roots)
    }

    /// Adds the other polynomial to this one, or subtracts it.
    pub fn add_term(&mut self, other: &Term, operation: AdditiveOperationType)
        requires
            old(self).wf(),
            other.wf(),
        ensures
            final(self)@ == old(self)@.plus(other@, operation),
            final(self).wf(),
    {
        self.prune();
        let theirs: Vec<Addend> = kept_addends(&other.addends);
        let ghost before = self.addends@;
        let mut i: usize = 0;
        while i < theirs.len()
            invariant
                i <= theirs.len(),
                canonical(theirs@),
                canonical(self.addends@),
                self.exceptions_in_domain == old(self).exceptions_in_domain,
                self.addends@ == combined(before, theirs@, operation, i as nat),
            decreases theirs.len() - i,
        {
            let addend: Addend = theirs[i];
            let coefficient: Real = match operation {
                AdditiveOperationType::Addition => addend.coefficient,
                AdditiveOperationType::Subtraction => addend.coefficient.negated(),
            };
            accumulate(&mut self.addends, addend.exponent, coefficient);
            i = i + 1;
        }
        proof {
            lemma_kept_canonical(self.addends@);
        }
        self.exceptions_in_domain.extend(&other.exceptions_in_domain);
    }

    /// Multiplies the polynomial by a value.
    pub fn multiply_value(&mut self, value: &ValueType)
        requires
            old(self).wf(),
            value.wf(),
            value.constant() is None ==> can_be_raised(old(self)@.addends, 1),
        ensures
            final(self)@.addends == times_value(old(self)@.addends, *value),
            final(self)@.exclusions == old(self)@.exclusions,
            final(self).wf(),
    {
        match value {
            ValueType::Number(constant) => self.multiply_constant(constant),
            ValueType::Symbol(symbol) => match symbol {
                SymbolType::Variable => self.increase_exponents(1),
                SymbolType::Constant(constant) => self.multiply_constant(constant),
            },
        }
    }

    /// Divides the polynomial by a value, unless the value is the number
    /// zero.
    pub fn divide_value(&mut self, value: &ValueType) -> (r: Result<(), EquationError>)
        requires
            old(self).wf(),
            value.wf(),
            value.constant() is None ==> can_be_raised(old(self)@.addends, -1),
        ensures
            match over_value(old(self)@, *value) {
                Ok(quotient) => r is Ok && final(self)@ == quotient,
                Err(error) => r is Err && r->Err_0 == error && final(self)@ == old(self)@,
            },
            final(self).wf(),
    {
        match value {
            ValueType::Number(constant) => self.divide_constant(constant),
            ValueType::Symbol(symbol) => match symbol {
                SymbolType::Variable => {
                    self.increase_exponents(-1);
                    self.exceptions_in_domain.insert_zero();
                    Ok(())
                },
                SymbolType::Constant(constant) => self.divide_constant(constant),
            },
        }
    }

    /// The zeroes of the polynomial, as the exclusions of what is divided by
    /// it.
    pub fn exceptions_as_divisor(&self) -> (r: Result<ExceptionsInDomain, EquationError>)
        requires
            self.wf(),
        ensures
            match divisor_exclusions(self@) {
                Ok(exclusions) => r is Ok && r->Ok_0@ == exclusions && r->Ok_0.wf(),
                Err(error) => r is Err && r->Err_0 == error,
            },
    {
        match self.zeroes() {
            Ok(EquationResult::Solutions(values)) => {
                proof {
                    let ghost found = zeroes_of(self@)->Ok_0->Solutions_0;
                    assert forall|x: Real| values@.to_set().contains(x) == found.to_set().contains(
                        x,
                    ) by {
                        vstd::seq_lib::to_multiset_contains(values@, x);
                        vstd::seq_lib::to_multiset_contains(found, x);
                    }
                    assert(values@.to_set() =~= found.to_set());
                }
                let none: Vec<Real> = Vec::new();
                assert(none@.to_set() =~= Set::<Real>::empty());
                let all: Vec<Real> = united(&none, &values);
                assert(all@.to_set() =~= values@.to_set());
                Ok(ExceptionsInDomain::Known(all))
            },
            Ok(EquationResult::Unsolvable) => Ok(ExceptionsInDomain::new()),
            Ok(EquationResult::InfiniteSolutions { .. }) => Err(EquationError::DivisionByZero),
            Err(EquationError::TooHighDegree { degree, .. }) => Ok(
                ExceptionsInDomain::Unknown {
                    zero_is_valid: !self.zero_is_a_solution(),
                    degree,
                },
            ),
            Err(error) => Err(error),
        }
    }

    /// Leaves the zeroes of a divisor out of the domain.
    pub fn add_exceptions_in_domain_of_divisor(&mut self, divisor: &Term) -> (r: Result<
        (),
        EquationError,
    >)
        requires
            old(self).wf(),
            divisor.wf(),
        ensures
            final(self)@.addends == old(self)@.addends,
            match with_divisor(old(self)@.exclusions, divisor@) {
                Ok(exclusions) => r is Ok && final(self)@.exclusions == exclusions,
                Err(error) => r is Err && r->Err_0 == error && final(self)@ == old(self)@,
            },
            final(self).wf(),
    {
        match divisor.exceptions_as_divisor() {
            Ok(exceptions) => {
                self.exceptions_in_domain.extend(&exceptions);
                Ok(())
            },
            Err(error) => Err(error),
        }
    }

    /// Divides by the other polynomial: its zeroes leave the domain of this
    /// one, and what this polynomial will be added to and the multiplier of
    /// the other side of the equation are multiplied by it. Where the
    /// division is refused, nothing is changed.
    pub fn divide_term(
        &mut self,
        other: &Term,
        nested_term: &mut Term,
        other_equation_side: &mut EquationSide,
    ) -> (r: Result<(), EquationError>)
        requires
            old(self).wf(),
            other.wf(),
            old(nested_term).wf(),
            old(other_equation_side).wf(),
        ensures
            match divided_by(
                old(self)@,
                other@,
                old(nested_term)@.addends,
                old(other_equation_side)@.multiplier.addends,
            ) {
                Ok(division) => {
                    &&& r is Ok
                    &&& final(self)@ == division.dividend
                    &&& final(nested_term)@.addends == division.nested
                    &&& final(other_equation_side)@.multiplier.addends == division.other_multiplier
                },
                Err(error) => {
                    &&& r is Err
                    &&& r->Err_0 == error
                    &&& final(self)@ == old(self)@
                    &&& final(nested_term)@ == old(nested_term)@
                    &&& final(other_equation_side)@ == old(other_equation_side)@
                },
            },
            final(nested_term)@.exclusions == old(nested_term)@.exclusions,
            final(other_equation_side)@.multiplier.exclusions == old(
                other_equation_side,
            )@.multiplier.exclusions,
            final(other_equation_side)@.term == old(other_equation_side)@.term,
            final(other_equation_side).side == old(other_equation_side).side,
            final(self).wf(),
            final(nested_term).wf(),
            final(other_equation_side).wf(),
    {
        if !(nested_term.can_multiply_term(other) && other_equation_side.multiplier.can_multiply_term(
            other,
        )) {
            return Err(EquationError::TooHighDegree {
                degree: MAX_EXPONENT,
                max_degree: MAX_DEGREE,
            });
        }
        match self.add_exceptions_in_domain_of_divisor(other) {
            Ok(()) => {},
            Err(error) => {
                return Err(error);
            },
        }
        nested_term.multiply_term(other);
        other_equation_side.multiplier.multiply_term(other);
        Ok(())
    }
}

impl PartialEq for Term {
    /// Two polynomials are equal if they have the same addends. Their
    /// exceptions do not count.
    fn eq(&self, other: &Self) -> (r: bool) {
        self.same_addends(other)
    }
}

impl vstd::std_specs::cmp::PartialEqSpecImpl for Term {
    open spec fn obeys_eq_spec() -> bool {
        true
    }

    open spec fn eq_spec(&self, other: &Self) -> bool {
        self@.addends == other@.addends
    }
}

impl Clone for Term {
    fn clone(&self) -> (r: Self)
        ensures
            r@ == self@,
            self.wf() ==> r.wf(),
    {
        let mut addends: Vec<Addend> = Vec::new();
        let mut i: usize = 0;
        while i < self.addends.len()
            invariant
                i <= self.addends.len(),
                addends@ == self.addends@.take(i as int),
            decreases self.addends.len() - i,
        {
            addends.push(self.addends[i]);
            assert(self.addends@.take(i + 1) == self.addends@.take(i as int).push(
                self.addends@[i as int],
            ));
            i = i + 1;
        }
        assert(self.addends@.take(i as int) == self.addends@);
        Term { addends, exceptions_in_domain: self.exceptions_in_domain.clone() }
    }
}

} // verus!
