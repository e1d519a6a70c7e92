//! What holds of the zeroes of every polynomial.

use vstd::prelude::*;
use crate::equation_result::Zeroes;
use crate::exceptions_in_domain::Exclusions;
use vstd::arithmetic::power2::pow2;
use crate::number::{lemma_quotient_truncates, limit, negation, quotient, zero, Real};
use crate::coefficients::{lemma_coefficient_absent, lemma_coefficient_present};
use crate::polynomial::{allowed, canonical, roots_of, zeroes_of, Polynomial};

verus! {

/// The allowed numbers are those of the given ones that are not excluded.
pub proof fn lemma_allowed(numbers: Seq<Real>, excluded: Set<Real>)
    ensures
        allowed(numbers, excluded).len() <= numbers.len(),
        forall|x: Real|
            #![trigger allowed(numbers, excluded).contains(x)]
            allowed(numbers, excluded).contains(x) <==> numbers.contains(x) && !excluded.contains(
                x,
            ),
    decreases numbers.len(),
{
    let found = allowed(numbers, excluded);
    if numbers.len() > 0 {
        let before = numbers.drop_last();
        let last = numbers.last();
        lemma_allowed(before, excluded);
        let rest = allowed(before, excluded);
        assert forall|x: Real|
            #![trigger found.contains(x)]
            found.contains(x) <==> numbers.contains(x) && !excluded.contains(x) by {
            if found.contains(x) {
                let i = choose|i: int| 0 <= i < found.len() && found[i] == x;
                if i < rest.len() {
                    assert(rest[i] == x);
                    assert(rest.contains(x));
                    let j = choose|j: int| 0 <= j < before.len() && before[j] == x;
                    assert(numbers[j] == x);
                } else {
                    assert(x == last);
                    assert(numbers[numbers.len() - 1] == x);
                }
            }
            if numbers.contains(x) && !excluded.contains(x) {
                let j = choose|j: int| 0 <= j < numbers.len() && numbers[j] == x;
                if j < before.len() {
                    assert(before[j] == x);
                    assert(before.contains(x));
                    assert(rest.contains(x));
                    let i = choose|i: int| 0 <= i < rest.len() && rest[i] == x;
                    assert(found[i] == x);
                } else {
                    assert(found[found.len() - 1] == x);
                }
            }
        }
    }
}

/// No zero of a polynomial is among the numbers left out of its domain.
pub proof fn lemma_zeroes_in_domain(p: Polynomial)
    requires
        zeroes_of(p) matches Ok(Zeroes::Solutions(_)),
        p.exclusions is Known,
    ensures
        forall|i: int|
            0 <= i < zeroes_of(p)->Ok_0->Solutions_0.len() ==> !p.exclusions->Known_0.contains(
                #[trigger] zeroes_of(p)->Ok_0->Solutions_0[i],
            ),
{
    let found = zeroes_of(p)->Ok_0->Solutions_0;
    let excluded = p.exclusions->Known_0;
    assert forall|i: int| 0 <= i < found.len() implies !excluded.contains(#[trigger] found[i]) by {
        let x = found[i];
        if excluded.contains(x) {
            lemma_excluded_is_no_zero(p, x);
            assert(found.contains(x));
        }
    }
}

/// A number left out of the domain of a polynomial is not among its zeroes.
proof fn lemma_excluded_is_no_zero(p: Polynomial, x: Real)
    requires
        zeroes_of(p) matches Ok(Zeroes::Solutions(_)),
        p.exclusions matches Exclusions::Known(excluded) && excluded.contains(x),
    ensures
        !zeroes_of(p)->Ok_0->Solutions_0.contains(x),
{
    let found = zeroes_of(p)->Ok_0->Solutions_0;
    let excluded = p.exclusions->Known_0;
    if found.contains(x) {
        let i = choose|i: int| 0 <= i < found.len() && found[i] == x;
        let lowest = crate::polynomial::lowest_of(p.addends);
        let highest = crate::polynomial::degree_of(p.addends)->0;
        if highest != lowest {
            let roots = roots_of(
                crate::polynomial::coefficient_of(p.addends, lowest + 2),
                crate::polynomial::coefficient_of(p.addends, lowest + 1),
                crate::polynomial::coefficient_of(p.addends, lowest as int),
            )->Ok_0;
            lemma_allowed(roots, excluded);
            let kept = allowed(roots, excluded);
            if lowest > 0 && !excluded.contains(crate::number::zero()) {
                if i > 0 {
                    assert(kept[i - 1] == x);
                    assert(kept.contains(x));
                }
            } else {
                assert(kept[i] == x);
                assert(kept.contains(x));
            }
        }
    }
}

/// A polynomial has three zeroes at most: zero, and the two of a quadratic
/// polynomial.
pub proof fn lemma_three_zeroes_at_most(p: Polynomial)
    requires
        zeroes_of(p) matches Ok(Zeroes::Solutions(_)),
    ensures
        zeroes_of(p)->Ok_0->Solutions_0.len() <= 3,
{
    let lowest = crate::polynomial::lowest_of(p.addends);
    let highest = crate::polynomial::degree_of(p.addends)->0;
    if highest != lowest {
        let roots = roots_of(
            crate::polynomial::coefficient_of(p.addends, lowest + 2),
            crate::polynomial::coefficient_of(p.addends, lowest + 1),
            crate::polynomial::coefficient_of(p.addends, lowest as int),
        )->Ok_0;
        lemma_allowed(roots, p.exclusions->Known_0);
    }
}

/// The zero of a linear polynomial `b x + c` is the exact one, `-c / b`,
/// truncated: times `b` it is at most `c` in magnitude, the next greater
/// mantissa times `b` is more, and its sign is that of `-c / b`.
pub proof fn lemma_linear_zero(b: Real, c: Real)
    requires
        b.wf(),
        c.wf(),
        b.mantissa != 0,
        c.mantissa != 0,
        i32::MIN <= c.exponent - b.exponent - 64,
        c.exponent - b.exponent - 63 <= i32::MAX,
    ensures
        roots_of(zero(), b, c) == Ok::<Seq<Real>, crate::equation_error::EquationError>(
            seq![quotient(negation(c), b)],
        ),
        ({
            let x = quotient(negation(c), b);
            let k = x.exponent - (c.exponent - b.exponent - 64);
            &&& x.negative == (c.negative == b.negative)
            &&& 0 <= k <= 1
            &&& x.mantissa * b.mantissa * pow2(k as nat) <= c.mantissa * limit()
            &&& c.mantissa * limit() < (x.mantissa + 1) * b.mantissa * pow2(k as nat)
        }),
{
    lemma_quotient_truncates(negation(c), b);
}

/// A polynomial `b x + c` that is defined everywhere has one zero, the
/// exact one truncated.
pub proof fn lemma_linear_polynomial(p: Polynomial)
    requires
        canonical(p.addends),
        p.addends.len() == 2,
        p.addends[0].exponent == 0,
        p.addends[1].exponent == 1,
        p.exclusions == Exclusions::Known(Set::<Real>::empty()),
    ensures
        zeroes_of(p) == Ok::<Zeroes, crate::equation_error::EquationError>(
            Zeroes::Solutions(
                seq![quotient(negation(p.addends[0].coefficient), p.addends[1].coefficient)],
            ),
        ),
{
    let s = p.addends;
    let b = s[1].coefficient;
    let c = s[0].coefficient;
    lemma_coefficient_present(s, 0);
    lemma_coefficient_present(s, 1);
    assert forall|i: int| 0 <= i < s.len() implies (#[trigger] s[i]).exponent != 2 by {}
    lemma_coefficient_absent(s, 2);
    let roots = seq![quotient(negation(c), b)];
    let none = Set::<Real>::empty();
    reveal_with_fuel(allowed, 2);
    assert(roots.drop_last() =~= Seq::<Real>::empty());
    assert(allowed(roots, none) =~= roots);
    assert(Seq::<Real>::empty() + roots =~= roots);
}

} // verus!
