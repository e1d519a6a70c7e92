//! The order in which polynomials are added.
//!
//! A sum of polynomials is gathered addend by addend, and every addition of
//! two coefficients is truncated. Two polynomials that are added one after
//! the other may change places where that does not change the truncated
//! coefficients, which is so for the first two polynomials of every sum.

use vstd::prelude::*;
use crate::coefficients::{
    lemma_coefficient_absent, lemma_coefficient_wf, lemma_combined_coefficient,
    lemma_same_coefficients, lemma_signed_wf,
};
use crate::equation_element::{AdditiveOperationType, MultiplicativeOperationType};
use crate::exceptions_in_domain::{lemma_merged_associative, lemma_merged_commutative};
use crate::nested_term::Nested;
use crate::number::{lemma_sum_commutative, sum, zero, Real};
use crate::polynomial::{canonical, coefficient_of, combined, signed, Addend, Polynomial};

verus! {

/// Whether two numbers may be added to a third in either order.
pub open spec fn exchangeable(x: Real, y: Real, z: Real) -> bool {
    sum(sum(x, y), z) == sum(sum(x, z), y)
}

/// Two numbers may be added to zero in either order.
pub proof fn lemma_exchangeable_from_zero(y: Real, z: Real)
    requires
        y.wf(),
        z.wf(),
    ensures
        exchangeable(zero(), y, z),
{
    lemma_sum_commutative(y, z);
}

/// Two polynomials that are added to a third, or subtracted from it, one
/// after the other, may change places if their coefficients may.
pub proof fn lemma_terms_exchange(
    p: Seq<Addend>,
    a: Seq<Addend>,
    b: Seq<Addend>,
    how_a: AdditiveOperationType,
    how_b: AdditiveOperationType,
)
    requires
        canonical(p),
        canonical(a),
        canonical(b),
        forall|e: int|
            exchangeable(
                coefficient_of(p, e),
                signed(#[trigger] coefficient_of(a, e), how_a),
                signed(coefficient_of(b, e), how_b),
            ),
    ensures
        combined(combined(p, a, how_a, a.len()), b, how_b, b.len()) == combined(
            combined(p, b, how_b, b.len()),
            a,
            how_a,
            a.len(),
        ),
{
    let with_a = combined(p, a, how_a, a.len());
    let with_b = combined(p, b, how_b, b.len());
    let first = combined(with_a, b, how_b, b.len());
    let second = combined(with_b, a, how_a, a.len());
    assert(a.take(a.len() as int) == a);
    assert(b.take(b.len() as int) == b);
    lemma_combined_coefficient(p, a, how_a, a.len(), 0);
    lemma_combined_coefficient(p, b, how_b, b.len(), 0);
    lemma_combined_coefficient(with_a, b, how_b, b.len(), 0);
    lemma_combined_coefficient(with_b, a, how_a, a.len(), 0);
    assert forall|e: int| coefficient_of(first, e) == coefficient_of(second, e) by {
        lemma_combined_coefficient(p, a, how_a, a.len(), e);
        lemma_combined_coefficient(p, b, how_b, b.len(), e);
        lemma_combined_coefficient(with_a, b, how_b, b.len(), e);
        lemma_combined_coefficient(with_b, a, how_a, a.len(), e);
        assert(exchangeable(
            coefficient_of(p, e),
            signed(coefficient_of(a, e), how_a),
            signed(coefficient_of(b, e), how_b),
        ));
    }
    lemma_same_coefficients(first, second);
}

/// The first two polynomials of a sum may change places: the sum has the
/// same addends and the same exclusions.
pub proof fn lemma_first_terms_exchange(
    a: Polynomial,
    b: Polynomial,
    how_a: AdditiveOperationType,
    how_b: AdditiveOperationType,
)
    requires
        canonical(a.addends),
        canonical(b.addends),
    ensures
        Polynomial::nothing().plus(a, how_a).plus(b, how_b) == Polynomial::nothing().plus(b, how_b).plus(
            a,
            how_a,
        ),
{
    let none = Seq::<Addend>::empty();
    assert forall|e: int|
        exchangeable(
            coefficient_of(none, e),
            signed(#[trigger] coefficient_of(a.addends, e), how_a),
            signed(coefficient_of(b.addends, e), how_b),
        ) by {
        lemma_coefficient_absent(none, e);
        lemma_coefficient_wf(a.addends, e);
        lemma_coefficient_wf(b.addends, e);
        lemma_signed_wf(coefficient_of(a.addends, e), how_a);
        lemma_signed_wf(coefficient_of(b.addends, e), how_b);
        lemma_exchangeable_from_zero(
            signed(coefficient_of(a.addends, e), how_a),
            signed(coefficient_of(b.addends, e), how_b),
        );
    }
    lemma_terms_exchange(none, a.addends, b.addends, how_a, how_b);
    let start = Polynomial::nothing().exclusions;
    lemma_merged_associative(start, a.exclusions, b.exclusions);
    lemma_merged_associative(start, b.exclusions, a.exclusions);
    lemma_merged_commutative(a.exclusions, b.exclusions);
}

/// Two polynomials that may change places have coefficients that may: the
/// condition of `lemma_terms_exchange` leaves out no polynomials but those
/// for which the order counts.
pub proof fn lemma_terms_exchange_only_so(
    p: Seq<Addend>,
    a: Seq<Addend>,
    b: Seq<Addend>,
    how_a: AdditiveOperationType,
    how_b: AdditiveOperationType,
    e: int,
)
    requires
        canonical(p),
        canonical(a),
        canonical(b),
        combined(combined(p, a, how_a, a.len()), b, how_b, b.len()) == combined(
            combined(p, b, how_b, b.len()),
            a,
            how_a,
            a.len(),
        ),
    ensures
        exchangeable(
            coefficient_of(p, e),
            signed(coefficient_of(a, e), how_a),
            signed(coefficient_of(b, e), how_b),
        ),
{
    let with_a = combined(p, a, how_a, a.len());
    let with_b = combined(p, b, how_b, b.len());
    assert(a.take(a.len() as int) == a);
    assert(b.take(b.len() as int) == b);
    lemma_combined_coefficient(p, a, how_a, a.len(), e);
    lemma_combined_coefficient(p, b, how_b, b.len(), e);
    lemma_combined_coefficient(with_a, b, how_b, b.len(), e);
    lemma_combined_coefficient(with_b, a, how_a, a.len(), e);
}

/// A sum that is being read, with the given sum so far and the given
/// product to add.
pub open spec fn reading(
    term: Polynomial,
    product: Polynomial,
    how: AdditiveOperationType,
) -> Nested {
    Nested {
        term,
        multiplier: product,
        additive_operation: how,
        multiplicative_operation: MultiplicativeOperationType::Multiplication,
    }
}

/// The first two products of a sum may be read in either order: the sum is
/// the same.
pub proof fn lemma_first_products_exchange(
    a: Polynomial,
    b: Polynomial,
    how_a: AdditiveOperationType,
    how_b: AdditiveOperationType,
)
    requires
        canonical(a.addends),
        canonical(b.addends),
    ensures
        reading(reading(Polynomial::nothing(), a, how_a).pushed().term, b, how_b).pushed().term
            == reading(reading(Polynomial::nothing(), b, how_b).pushed().term, a, how_a).pushed().term,
{
    lemma_first_terms_exchange(a, b, how_a, how_b);
}

} // verus!
