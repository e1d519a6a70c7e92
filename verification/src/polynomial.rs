//! Polynomials in one variable, with the numbers at which they are not
//! defined: what they are, and what the operations on them give.

use vstd::prelude::*;
use crate::equation_element::{AdditiveOperationType, ValueType};
use crate::equation_error::EquationError;
use crate::equation_result::Zeroes;
use crate::exceptions_in_domain::Exclusions;
use crate::number::{
    difference, lemma_rounded_wf, lemma_sum_wf, negation, one, product, quotient, rounded,
    square_root, sum, zero, Real,
};

verus! {

/// The highest degree of a polynomial whose zeroes are computed.
pub const MAX_DEGREE: i32 = 2;

/// The highest exponent that a polynomial holds, and the negation of the
/// lowest.
pub const MAX_EXPONENT: i32 = 1_000_000_000;

/// A power of the variable with its coefficient.
#[derive(Clone, Copy, Debug, PartialEq, Eq, Structural)]
pub struct Addend {
    pub exponent: i32,
    pub coefficient: Real,
}

/// What a `Term` stands for.
pub struct Polynomial {
    pub addends: Seq<Addend>,
    pub exclusions: Exclusions,
}

/// Whether the exponent is one that a polynomial holds.
pub open spec fn in_range(exponent: int) -> bool {
    -MAX_EXPONENT <= exponent <= MAX_EXPONENT
}

/// The addends are in ascending order of their exponents, which are in
/// range, and their coefficients are well formed and not zero.
pub open spec fn canonical(s: Seq<Addend>) -> bool {
    &&& forall|i: int, j: int|
        0 <= i < j < s.len() ==> (#[trigger] s[i]).exponent < (#[trigger] s[j]).exponent
    &&& forall|i: int|
        0 <= i < s.len() ==> {
            &&& in_range((#[trigger] s[i]).exponent as int)
            &&& s[i].coefficient.wf()
            &&& s[i].coefficient.mantissa != 0
        }
}

/// The exponents of the addends ascend and are in range, and their
/// coefficients are well formed: a canonical polynomial but for addends
/// with the coefficient zero, which are as good as absent.
pub open spec fn ascending(s: Seq<Addend>) -> bool {
    &&& forall|i: int, j: int|
        0 <= i < j < s.len() ==> (#[trigger] s[i]).exponent < (#[trigger] s[j]).exponent
    &&& forall|i: int|
        0 <= i < s.len() ==> in_range((#[trigger] s[i]).exponent as int) && s[i].coefficient.wf()
}

/// The addends without those whose coefficient is zero.
pub open spec fn kept(s: Seq<Addend>) -> Seq<Addend>
    decreases s.len(),
{
    if s.len() == 0 {
        s
    } else if s.last().coefficient.mantissa == 0 {
        kept(s.drop_last())
    } else {
        kept(s.drop_last()).push(s.last())
    }
}

/// The addends with each coefficient multiplied by a number.
pub open spec fn each_times(s: Seq<Addend>, c: Real) -> Seq<Addend> {
    s.map_values(
        |a: Addend| Addend { exponent: a.exponent, coefficient: product(a.coefficient, c) },
    )
}

/// The addends with each coefficient divided by a number.
pub open spec fn each_over(s: Seq<Addend>, c: Real) -> Seq<Addend> {
    s.map_values(
        |a: Addend| Addend { exponent: a.exponent, coefficient: quotient(a.coefficient, c) },
    )
}

/// The polynomial times a number.
pub open spec fn scaled(s: Seq<Addend>, c: Real) -> Seq<Addend> {
    kept(each_times(s, c))
}

/// The polynomial divided by a number that is not zero.
pub open spec fn divided(s: Seq<Addend>, c: Real) -> Seq<Addend> {
    kept(each_over(s, c))
}

/// The polynomial times the given power of the variable.
pub open spec fn raised(s: Seq<Addend>, power: int) -> Seq<Addend> {
    s.map_values(
        |a: Addend| Addend { exponent: (a.exponent + power) as i32, coefficient: a.coefficient },
    )
}

/// Whether every exponent of the polynomial, raised by `power`, is in range.
pub open spec fn can_be_raised(s: Seq<Addend>, power: int) -> bool {
    forall|i: int| 0 <= i < s.len() ==> in_range((#[trigger] s[i]).exponent + power)
}

/// Whether `p` is where an addend with exponent `e` stands among ascending
/// addends: behind all those with a lower exponent.
pub open spec fn is_rank(s: Seq<Addend>, e: int, p: int) -> bool {
    &&& 0 <= p <= s.len()
    &&& forall|j: int| 0 <= j < p ==> (#[trigger] s[j]).exponent < e
    &&& p < s.len() ==> s[p].exponent >= e
}

/// Where an addend with exponent `e` stands among ascending addends.
pub open spec fn rank(s: Seq<Addend>, e: int) -> int {
    choose|p: int| is_rank(s, e, p)
}

/// The polynomial plus `c` times the power `e` of the variable.
pub open spec fn accumulated(s: Seq<Addend>, e: int, c: Real) -> Seq<Addend> {
    let p = rank(s, e);
    if c.mantissa == 0 {
        s
    } else if p < s.len() && s[p].exponent == e {
        let total = sum(s[p].coefficient, c);
        if total.mantissa == 0 {
            s.remove(p)
        } else {
            s.update(p, Addend { exponent: e as i32, coefficient: total })
        }
    } else {
        s.insert(p, Addend { exponent: e as i32, coefficient: c })
    }
}

/// `acc` plus the products of `x` with the first `j` addends of `b`, added
/// one after the other.
pub open spec fn with_row(acc: Seq<Addend>, x: Addend, b: Seq<Addend>, j: nat) -> Seq<Addend>
    decreases j,
{
    if j == 0 {
        acc
    } else {
        accumulated(
            with_row(acc, x, b, (j - 1) as nat),
            x.exponent + b[j - 1].exponent,
            product(x.coefficient, b[j - 1].coefficient),
        )
    }
}

/// The products of the first `i` addends of `a` with all those of `b`, added
/// one after the other.
pub open spec fn with_rows(a: Seq<Addend>, b: Seq<Addend>, i: nat) -> Seq<Addend>
    decreases i,
{
    if i == 0 {
        Seq::empty()
    } else {
        with_row(with_rows(a, b, (i - 1) as nat), a[i - 1], b, b.len())
    }
}

/// The product of two polynomials: the products of each addend of `a` with
/// each of `b`, both by ascending exponent, added one after the other.
pub open spec fn multiplied(a: Seq<Addend>, b: Seq<Addend>) -> Seq<Addend> {
    with_rows(a, b, a.len())
}

/// Whether every sum of an exponent of `a` and one of `b` is in range.
pub open spec fn can_be_multiplied(a: Seq<Addend>, b: Seq<Addend>) -> bool {
    forall|i: int, j: int|
        0 <= i < a.len() && 0 <= j < b.len() ==> in_range(
            (#[trigger] a[i]).exponent + (#[trigger] b[j]).exponent,
        )
}

/// The highest exponent of the polynomial, if it is not zero.
pub open spec fn degree_of(s: Seq<Addend>) -> Option<i32> {
    if s.len() == 0 {
        None
    } else {
        Some(s.last().exponent)
    }
}

/// The lowest exponent of the polynomial, or zero if the polynomial is.
pub open spec fn lowest_of(s: Seq<Addend>) -> i32 {
    if s.len() == 0 {
        0
    } else {
        s.first().exponent
    }
}

/// The coefficient of the power `e` of the variable.
pub open spec fn coefficient_of(s: Seq<Addend>, e: int) -> Real {
    let p = rank(s, e);
    if p < s.len() && s[p].exponent == e {
        s[p].coefficient
    } else {
        zero()
    }
}

/// The polynomial that is the number one.
pub open spec fn unit() -> Seq<Addend> {
    seq![Addend { exponent: 0, coefficient: one() }]
}

/// The number two.
pub open spec fn two() -> Real {
    rounded(false, 2, 0)
}

/// The number four.
pub open spec fn four() -> Real {
    rounded(false, 4, 0)
}

/// The discriminant of the quadratic polynomial with the coefficients `a`,
/// `b` and `c`, from the highest power down.
pub open spec fn discriminant(a: Real, b: Real, c: Real) -> Real {
    difference(product(b, b), product(product(four(), a), c))
}

/// The zeroes of the polynomial with the coefficients `a`, `b` and `c`, from
/// the second power down, which is linear if `a` is zero: the greater zero
/// first, and a zero that counts twice given twice.
pub open spec fn roots_of(a: Real, b: Real, c: Real) -> Result<Seq<Real>, EquationError> {
    if a.mantissa == 0 {
        Ok(seq![quotient(negation(c), b)])
    } else if discriminant(a, b, c).negative {
        Err(EquationError::ComplexNumbers)
    } else {
        let root = square_root(discriminant(a, b, c));
        Ok(
            seq![
                quotient(quotient(sum(negation(b), root), two()), a),
                quotient(quotient(difference(negation(b), root), two()), a),
            ],
        )
    }
}

/// The numbers that are not among the excluded ones.
pub open spec fn allowed(numbers: Seq<Real>, excluded: Set<Real>) -> Seq<Real>
    decreases numbers.len(),
{
    if numbers.len() == 0 {
        numbers
    } else if excluded.contains(numbers.last()) {
        allowed(numbers.drop_last(), excluded)
    } else {
        allowed(numbers.drop_last(), excluded).push(numbers.last())
    }
}

/// The error for a polynomial of a degree above the highest one solved.
pub open spec fn too_high(degree: i32) -> EquationError {
    EquationError::TooHighDegree { degree, max_degree: MAX_DEGREE }
}

/// The zeroes of a polynomial. The variable is taken out of it as often as
/// it is a factor, which makes zero a zero; what is left is solved by its
/// degree. The numbers left out of the domain are no zeroes.
pub open spec fn zeroes_of(p: Polynomial) -> Result<Zeroes, EquationError> {
    let lowest = lowest_of(p.addends);
    match degree_of(p.addends) {
        None => match p.exclusions {
            Exclusions::Known(numbers) => Ok(Zeroes::InfiniteSolutions(numbers)),
            Exclusions::Unknown { degree, .. } => Err(too_high(degree)),
        },
        Some(highest) => if highest == lowest {
            if lowest > 0 && p.exclusions.zero_is_valid() {
                Ok(Zeroes::Solutions(seq![zero()]))
            } else {
                Ok(Zeroes::Unsolvable)
            }
        } else if highest - lowest > MAX_DEGREE {
            Err(too_high((highest - lowest) as i32))
        } else {
            match roots_of(
                coefficient_of(p.addends, lowest + 2),
                coefficient_of(p.addends, lowest + 1),
                coefficient_of(p.addends, lowest as int),
            ) {
                Err(error) => Err(error),
                Ok(roots) => match p.exclusions {
                    Exclusions::Unknown { degree, .. } => Err(too_high(degree)),
                    Exclusions::Known(numbers) => Ok(
                        Zeroes::Solutions(
                            (if lowest > 0 && !numbers.contains(zero()) {
                                seq![zero()]
                            } else {
                                Seq::<Real>::empty()
                            }) + allowed(roots, numbers),
                        ),
                    ),
                },
            }
        },
    }
}

/// The number as it is added: itself, or negated where it is subtracted.
pub open spec fn signed(c: Real, operation: AdditiveOperationType) -> Real {
    match operation {
        AdditiveOperationType::Addition => c,
        AdditiveOperationType::Subtraction => negation(c),
    }
}

/// The polynomial with the first `n` addends of the other one added to it,
/// or subtracted from it, one after the other.
pub open spec fn combined(
    s: Seq<Addend>,
    other: Seq<Addend>,
    operation: AdditiveOperationType,
    n: nat,
) -> Seq<Addend>
    decreases n,
{
    if n == 0 {
        s
    } else {
        accumulated(
            combined(s, other, operation, (n - 1) as nat),
            other[n - 1].exponent as int,
            signed(other[n - 1].coefficient, operation),
        )
    }
}

/// Every exponent is in range and every coefficient well formed.
pub open spec fn valid(s: Seq<Addend>) -> bool {
    forall|i: int|
        0 <= i < s.len() ==> in_range((#[trigger] s[i]).exponent as int) && s[i].coefficient.wf()
}

/// The polynomial of addends in any order: each is added to those before
/// it, so that addends with the same exponent add up.
pub open spec fn gathered(s: Seq<Addend>) -> Seq<Addend> {
    combined(Seq::empty(), s, AdditiveOperationType::Addition, s.len())
}

impl Polynomial {
    /// The polynomial zero, defined everywhere.
    pub open spec fn nothing() -> Polynomial {
        Polynomial { addends: Seq::empty(), exclusions: Exclusions::Known(Set::empty()) }
    }

    /// The polynomial one, defined everywhere.
    pub open spec fn one() -> Polynomial {
        Polynomial { addends: unit(), exclusions: Exclusions::Known(Set::empty()) }
    }

    /// The sum of two polynomials, or their difference. What is left out of
    /// the domain of either is left out of the domain of the result.
    pub open spec fn plus(self, other: Polynomial, operation: AdditiveOperationType) -> Polynomial {
        Polynomial {
            addends: combined(self.addends, other.addends, operation, other.addends.len()),
            exclusions: self.exclusions.merged(other.exclusions),
        }
    }
}

/// The error for a polynomial with an exponent out of range.
pub open spec fn out_of_range() -> EquationError {
    too_high(MAX_EXPONENT)
}

/// The numbers at which a polynomial is zero, as the exclusions of what is
/// divided by it. A polynomial that is zero everywhere divides nothing. Of
/// one whose degree is too high no more is known than that degree and
/// whether zero is among its zeroes.
pub open spec fn divisor_exclusions(divisor: Polynomial) -> Result<Exclusions, EquationError> {
    match zeroes_of(divisor) {
        Ok(Zeroes::Solutions(values)) => Ok(Exclusions::Known(values.to_set())),
        Ok(Zeroes::Unsolvable) => Ok(Exclusions::Known(Set::empty())),
        Ok(Zeroes::InfiniteSolutions(_)) => Err(EquationError::DivisionByZero),
        Err(EquationError::TooHighDegree { degree, .. }) => Ok(
            Exclusions::Unknown { zero_is_valid: !(lowest_of(divisor.addends) > 0), degree },
        ),
        Err(error) => Err(error),
    }
}

/// The exclusions of an expression that is divided by a polynomial: those
/// that it had and the zeroes of the divisor.
pub open spec fn with_divisor(own: Exclusions, divisor: Polynomial) -> Result<
    Exclusions,
    EquationError,
> {
    match divisor_exclusions(divisor) {
        Ok(exclusions) => Ok(own.merged(exclusions)),
        Err(error) => Err(error),
    }
}

/// The polynomial times a value: a number, or the variable.
pub open spec fn times_value(s: Seq<Addend>, value: ValueType) -> Seq<Addend> {
    match value.constant() {
        Some(number) => scaled(s, number),
        None => raised(s, 1),
    }
}

/// The polynomial over a value: a number, which may not be zero, or the
/// variable, which leaves zero out of the domain.
pub open spec fn over_value(p: Polynomial, value: ValueType) -> Result<Polynomial, EquationError> {
    match value.constant() {
        Some(number) => if number.mantissa == 0 {
            Err(EquationError::DivisionByZero)
        } else {
            Ok(Polynomial { addends: divided(p.addends, number), exclusions: p.exclusions })
        },
        None => Ok(
            Polynomial { addends: raised(p.addends, -1), exclusions: p.exclusions.without_zero() },
        ),
    }
}

/// What a division by a polynomial leaves: the dividend, and the two
/// polynomials that are multiplied by the divisor in its place.
pub struct Division {
    pub dividend: Polynomial,
    pub nested: Seq<Addend>,
    pub other_multiplier: Seq<Addend>,
}

/// The division of `dividend` by `divisor`. The dividend is not divided:
/// the sum that it will be added to and the multiplier of the other side of
/// the equation are multiplied by the divisor instead, for which the
/// exponents of both products must be in range. The zeroes of the divisor
/// leave the domain of the dividend.
pub open spec fn divided_by(
    dividend: Polynomial,
    divisor: Polynomial,
    nested: Seq<Addend>,
    other_multiplier: Seq<Addend>,
) -> Result<Division, EquationError> {
    if can_be_multiplied(nested, divisor.addends) && can_be_multiplied(
        other_multiplier,
        divisor.addends,
    ) {
        match with_divisor(dividend.exclusions, divisor) {
            Err(error) => Err(error),
            Ok(exclusions) => Ok(
                Division {
                    dividend: Polynomial { addends: dividend.addends, exclusions },
                    nested: multiplied(nested, divisor.addends),
                    other_multiplier: multiplied(other_multiplier, divisor.addends),
                },
            ),
        }
    } else {
        Err(out_of_range())
    }
}

/// A canonical polynomial has no addend to leave out.
pub proof fn lemma_kept_canonical(s: Seq<Addend>)
    requires
        canonical(s),
    ensures
        kept(s) == s,
    decreases s.len(),
{
    if s.len() > 0 {
        lemma_kept_canonical(s.drop_last());
        assert(s.drop_last().push(s.last()) =~= s);
    }
}

/// Leaving out the addends with the coefficient zero a second time leaves
/// out nothing.
pub proof fn lemma_kept_twice(s: Seq<Addend>)
    ensures
        kept(kept(s)) == kept(s),
    decreases s.len(),
{
    if s.len() > 0 {
        lemma_kept_twice(s.drop_last());
        if s.last().coefficient.mantissa != 0 {
            let k = kept(s.drop_last());
            assert(k.push(s.last()).drop_last() =~= k);
        }
    }
}

/// The coefficient of the highest power is the last one.
pub proof fn lemma_last_coefficient(s: Seq<Addend>)
    requires
        canonical(s),
        s.len() > 0,
    ensures
        coefficient_of(s, s.last().exponent as int) == s.last().coefficient,
        coefficient_of(s, s.first().exponent as int) == s.first().coefficient,
{
    assert(is_rank(s, s.last().exponent as int, s.len() - 1));
    lemma_rank(s, s.last().exponent as int, s.len() - 1);
    assert(is_rank(s, s.first().exponent as int, 0));
    lemma_rank(s, s.first().exponent as int, 0);
}

/// Only one place is the rank of an exponent.
pub proof fn lemma_rank(s: Seq<Addend>, e: int, p: int)
    requires
        is_rank(s, e, p),
    ensures
        rank(s, e) == p,
{
    let q = rank(s, e);
    assert(is_rank(s, e, q));
    if p < q {
        assert(s[p].exponent < e);
    } else if q < p {
        assert(s[q].exponent < e);
    }
}

/// Adding to a canonical polynomial gives a canonical one.
pub proof fn lemma_accumulated_canonical(s: Seq<Addend>, e: int, c: Real, p: int)
    requires
        canonical(s),
        in_range(e),
        c.wf(),
        is_rank(s, e, p),
    ensures
        canonical(accumulated(s, e, c)),
{
    lemma_rank(s, e, p);
    lemma_rounded_wf(false, 0, 0);
    let r = accumulated(s, e, c);
    if c.mantissa == 0 {
    } else if p < s.len() && s[p].exponent == e {
        let total = sum(s[p].coefficient, c);
        lemma_sum_wf(s[p].coefficient, c);
        if total.mantissa == 0 {
            assert forall|i: int, j: int| 0 <= i < j < r.len() implies (#[trigger] r[i]).exponent < (
            #[trigger] r[j]).exponent by {
                let i0 = if i < p { i } else { i + 1 };
                let j0 = if j < p { j } else { j + 1 };
                assert(r[i] == s[i0]);
                assert(r[j] == s[j0]);
            }
            assert forall|i: int| 0 <= i < r.len() implies {
                &&& in_range((#[trigger] r[i]).exponent as int)
                &&& r[i].coefficient.wf()
                &&& r[i].coefficient.mantissa != 0
            } by {
                let i0 = if i < p { i } else { i + 1 };
                assert(r[i] == s[i0]);
            }
        } else {
            assert forall|i: int, j: int| 0 <= i < j < r.len() implies (#[trigger] r[i]).exponent < (
            #[trigger] r[j]).exponent by {
                assert(r[i].exponent == s[i].exponent);
                assert(r[j].exponent == s[j].exponent);
            }
            assert forall|i: int| 0 <= i < r.len() implies {
                &&& in_range((#[trigger] r[i]).exponent as int)
                &&& r[i].coefficient.wf()
                &&& r[i].coefficient.mantissa != 0
            } by {
                if i != p {
                    assert(r[i] == s[i]);
                }
            }
        }
    } else {
        assert forall|i: int, j: int| 0 <= i < j < r.len() implies (#[trigger] r[i]).exponent < (
        #[trigger] r[j]).exponent by {
            if i < p {
                assert(r[i] == s[i]);
            } else if i > p {
                assert(r[i] == s[i - 1]);
            }
            if j < p {
                assert(r[j] == s[j]);
            } else if j > p {
                assert(r[j] == s[j - 1]);
            }
        }
        assert forall|i: int| 0 <= i < r.len() implies {
            &&& in_range((#[trigger] r[i]).exponent as int)
            &&& r[i].coefficient.wf()
            &&& r[i].coefficient.mantissa != 0
        } by {
            if i < p {
                assert(r[i] == s[i]);
            } else if i > p {
                assert(r[i] == s[i - 1]);
            }
        }
    }
}

} // verus!
