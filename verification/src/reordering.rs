//! The order of the first two products of a side of the equation.
//!
//! A run of elements reads a product if, wherever a product may begin, it
//! changes nothing but the product. A value by itself is such a run, and so
//! is such a run with a multiplication or a division by a value behind it; a
//! division by a sum is none, because it multiplies what was read before it.
//! Two such runs that are joined by a plus sign at the beginning of a side
//! may change places: the equation that is built is the same, and so are
//! its solutions.

use vstd::prelude::*;
use crate::equation::{generated, variable, Builder};
use crate::equation_element::{
    AdditiveOperationType, EquationElement, MultiplicativeOperationType, OperationType, ValueType,
};
use crate::equation_error::EquationError;
use crate::exchange::lemma_first_terms_exchange;
use crate::nested_term::Nested;
use crate::solve_equation::solved_elements;
use crate::polynomial::{
    can_be_raised, canonical, over_value, times_value, unit, Polynomial,
};

verus! {

/// The plus sign.
pub open spec fn plus_sign() -> EquationElement {
    EquationElement::Operation(OperationType::AdditiveOperation(AdditiveOperationType::Addition))
}

/// Whether a product may begin: none is being read, and the element read
/// last does not end a factor.
pub open spec fn product_begins(b: Builder) -> bool {
    &&& b.nested.multiplier == Polynomial::one()
    &&& b.nested.multiplicative_operation == MultiplicativeOperationType::Multiplication
    &&& !b.previous.ends_factor()
}

/// The builder after a product was read: nothing is changed but the
/// product, how the next factor joins it, and the element read last.
pub open spec fn with_product(
    b: Builder,
    product: Polynomial,
    operation: MultiplicativeOperationType,
    last: EquationElement,
) -> Builder {
    Builder {
        left: b.left,
        right: b.right,
        current: b.current,
        stack: b.stack,
        nested: Nested {
            term: b.nested.term,
            multiplier: product,
            additive_operation: b.nested.additive_operation,
            multiplicative_operation: operation,
        },
        previous: last,
    }
}

/// The builder after two products that are joined by a plus sign were read:
/// the first has joined the sum, and the second is the product.
pub open spec fn with_sum(
    b: Builder,
    product: Polynomial,
    other: Polynomial,
    other_operation: MultiplicativeOperationType,
    last: EquationElement,
) -> Builder {
    Builder {
        left: b.left,
        right: b.right,
        current: b.current,
        stack: b.stack,
        nested: Nested {
            term: b.nested.term.plus(product, AdditiveOperationType::Addition),
            multiplier: other,
            additive_operation: AdditiveOperationType::Addition,
            multiplicative_operation: other_operation,
        },
        previous: last,
    }
}

/// Whether the elements read the product wherever a product may begin.
#[verifier::opaque]
pub open spec fn reads_product(
    elements: Seq<EquationElement>,
    product: Polynomial,
    operation: MultiplicativeOperationType,
) -> bool {
    &&& elements.len() > 0
    &&& elements.last().ends_factor()
    &&& forall|b: Builder|
        product_begins(b) ==> #[trigger] b.run(elements) == Ok::<Builder, EquationError>(
            with_product(b, product, operation, elements.last()),
        )
}

/// Reading elements one run after the other is reading them all.
pub proof fn lemma_run_in_parts(b: Builder, first: Seq<EquationElement>, second: Seq<EquationElement>)
    ensures
        b.run(first + second) == match b.run(first) {
            Ok(between) => between.run(second),
            Err(error) => Err(error),
        },
    decreases second.len(),
{
    if second.len() == 0 {
        assert(first + second =~= first);
    } else {
        assert((first + second).drop_last() =~= first + second.drop_last());
        assert((first + second).last() == second.last());
        lemma_run_in_parts(b, first, second.drop_last());
    }
}

/// Reading one element is taking one step.
pub proof fn lemma_run_one(b: Builder, element: EquationElement)
    ensures
        b.run(seq![element]) == b.step(element),
{
    reveal_with_fuel(Builder::run, 2);
    assert(seq![element].drop_last() =~= Seq::<EquationElement>::empty());
}

/// A value by itself reads the product of one and the value.
pub proof fn lemma_value_reads_product(value: ValueType)
    ensures
        reads_product(
            seq![EquationElement::Value(value)],
            Polynomial {
                addends: times_value(unit(), value),
                exclusions: Polynomial::one().exclusions,
            },
            MultiplicativeOperationType::Multiplication,
        ),
{
    reveal(reads_product);
    let element = EquationElement::Value(value);
    let elements = seq![element];
    let product = Polynomial {
        addends: times_value(unit(), value),
        exclusions: Polynomial::one().exclusions,
    };
    assert forall|b: Builder| product_begins(b) implies #[trigger] b.run(elements) == Ok::<
        Builder,
        EquationError,
    >(with_product(b, product, MultiplicativeOperationType::Multiplication, elements.last())) by {
        lemma_run_one(b, element);
        assert(unit()[0].exponent + 1 == 1);
    }
}

/// The sign of a multiplication or of a division.
pub open spec fn sign(operation: MultiplicativeOperationType) -> EquationElement {
    EquationElement::Operation(OperationType::MultiplicativeOperation(operation))
}

/// A run that reads a product, then a multiplication sign and a value, reads
/// the product times the value.
pub proof fn lemma_product_times_value(
    elements: Seq<EquationElement>,
    product: Polynomial,
    operation: MultiplicativeOperationType,
    value: ValueType,
)
    requires
        reads_product(elements, product, operation),
        value.constant() is None ==> can_be_raised(product.addends, 1),
    ensures
        reads_product(
            elements + seq![
                sign(MultiplicativeOperationType::Multiplication),
                EquationElement::Value(value),
            ],
            Polynomial {
                addends: times_value(product.addends, value),
                exclusions: product.exclusions,
            },
            MultiplicativeOperationType::Multiplication,
        ),
{
    reveal(reads_product);
    let times = sign(MultiplicativeOperationType::Multiplication);
    let more = seq![times, EquationElement::Value(value)];
    let all = elements + more;
    let result = Polynomial {
        addends: times_value(product.addends, value),
        exclusions: product.exclusions,
    };
    assert(all.last() == EquationElement::Value(value));
    assert forall|b: Builder| product_begins(b) implies #[trigger] b.run(all) == Ok::<
        Builder,
        EquationError,
    >(with_product(b, result, MultiplicativeOperationType::Multiplication, all.last())) by {
        let read = with_product(b, product, operation, elements.last());
        assert(b.run(elements) == Ok::<Builder, EquationError>(read));
        lemma_run_in_parts(b, elements, more);
        assert(more =~= seq![times] + seq![EquationElement::Value(value)]);
        lemma_run_in_parts(read, seq![times], seq![EquationElement::Value(value)]);
        lemma_run_one(read, times);
        let signed = read.step(times)->Ok_0;
        lemma_run_one(signed, EquationElement::Value(value));
    }
}

/// A run that reads a product, then a division sign and a value other than
/// the number zero, reads the product over the value.
pub proof fn lemma_product_over_value(
    elements: Seq<EquationElement>,
    product: Polynomial,
    operation: MultiplicativeOperationType,
    value: ValueType,
)
    requires
        reads_product(elements, product, operation),
        value.constant() is None ==> can_be_raised(product.addends, -1),
        over_value(product, value) is Ok,
    ensures
        reads_product(
            elements + seq![
                sign(MultiplicativeOperationType::Division),
                EquationElement::Value(value),
            ],
            over_value(product, value)->Ok_0,
            MultiplicativeOperationType::Division,
        ),
{
    reveal(reads_product);
    let over = sign(MultiplicativeOperationType::Division);
    let more = seq![over, EquationElement::Value(value)];
    let all = elements + more;
    let result = over_value(product, value)->Ok_0;
    assert(all.last() == EquationElement::Value(value));
    assert forall|b: Builder| product_begins(b) implies #[trigger] b.run(all) == Ok::<
        Builder,
        EquationError,
    >(with_product(b, result, MultiplicativeOperationType::Division, all.last())) by {
        let read = with_product(b, product, operation, elements.last());
        assert(b.run(elements) == Ok::<Builder, EquationError>(read));
        lemma_run_in_parts(b, elements, more);
        assert(more =~= seq![over] + seq![EquationElement::Value(value)]);
        lemma_run_in_parts(read, seq![over], seq![EquationElement::Value(value)]);
        lemma_run_one(read, over);
        let signed = read.step(over)->Ok_0;
        lemma_run_one(signed, EquationElement::Value(value));
    }
}

/// Two products that are joined by a plus sign where a sum begins are read
/// into the sum of the first and the product of the second.
pub proof fn lemma_two_products(
    b: Builder,
    first: Seq<EquationElement>,
    second: Seq<EquationElement>,
    product: Polynomial,
    other: Polynomial,
    operation: MultiplicativeOperationType,
    other_operation: MultiplicativeOperationType,
)
    requires
        product_begins(b),
        b.nested.additive_operation == AdditiveOperationType::Addition,
        reads_product(first, product, operation),
        reads_product(second, other, other_operation),
    ensures
        b.run(first + seq![plus_sign()] + second) == Ok::<Builder, EquationError>(
            with_sum(b, product, other, other_operation, second.last()),
        ),
        first.last().ends_factor(),
        second.last().ends_factor(),
{
    reveal(reads_product);
    let after_first = with_product(b, product, operation, first.last());
    assert(b.run(first) == Ok::<Builder, EquationError>(after_first));
    let after_plus = after_first.step(plus_sign())->Ok_0;
    assert(after_first.step(plus_sign()) is Ok);
    lemma_run_one(after_first, plus_sign());
    lemma_run_in_parts(b, first, seq![plus_sign()]);
    assert(product_begins(after_plus));
    assert(after_plus.run(second) == Ok::<Builder, EquationError>(
        with_product(after_plus, other, other_operation, second.last()),
    ));
    lemma_run_in_parts(b, first + seq![plus_sign()], second);
}

/// Whether one of the elements of either run is the variable does not
/// depend on the order of the runs.
proof fn lemma_variable_in_either_order(
    first: Seq<EquationElement>,
    second: Seq<EquationElement>,
    before: Seq<EquationElement>,
    after: Seq<EquationElement>,
)
    ensures
        (before + first + seq![plus_sign()] + second + after).contains(variable()) == (before
            + second + seq![plus_sign()] + first + after).contains(variable()),
{
    let one = before + first + seq![plus_sign()] + second + after;
    let two = before + second + seq![plus_sign()] + first + after;
    let middle = seq![plus_sign()];
    assert forall|s: Seq<EquationElement>, t: Seq<EquationElement>|
        (#[trigger] (s + t)).contains(variable()) == (s.contains(variable()) || t.contains(
            variable(),
        )) by {
        if (s + t).contains(variable()) {
            let i = choose|i: int| 0 <= i < (s + t).len() && (s + t)[i] == variable();
            if i < s.len() {
                assert(s[i] == variable());
            } else {
                assert(t[i - s.len()] == variable());
            }
        }
        if s.contains(variable()) {
            let i = choose|i: int| 0 <= i < s.len() && s[i] == variable();
            assert((s + t)[i] == variable());
        }
        if t.contains(variable()) {
            let i = choose|i: int| 0 <= i < t.len() && t[i] == variable();
            assert((s + t)[i + s.len()] == variable());
        }
    }
    assert(one.contains(variable()) == (before.contains(variable()) || first.contains(variable())
        || middle.contains(variable()) || second.contains(variable()) || after.contains(
        variable(),
    )));
    assert(two.contains(variable()) == (before.contains(variable()) || second.contains(
        variable(),
    ) || middle.contains(variable()) || first.contains(variable()) || after.contains(
        variable(),
    )));
}

/// The separator after two products that began a side leaves the same
/// behind in whichever order they were read.
proof fn lemma_separator_after_sum(
    b: Builder,
    product: Polynomial,
    other: Polynomial,
    operation: MultiplicativeOperationType,
    other_operation: MultiplicativeOperationType,
    last: EquationElement,
    other_last: EquationElement,
)
    requires
        b.nested.term == Polynomial::nothing(),
        canonical(product.addends),
        canonical(other.addends),
        last.ends_factor(),
        other_last.ends_factor(),
    ensures
        with_sum(b, product, other, other_operation, other_last).step(
            EquationElement::Separator,
        ) == with_sum(b, other, product, operation, last).step(EquationElement::Separator),
{
    lemma_first_terms_exchange(
        product,
        other,
        AdditiveOperationType::Addition,
        AdditiveOperationType::Addition,
    );
}

/// Two products at the beginning of the left side and the separator are
/// read the same in either order.
proof fn lemma_left_side_read(
    first: Seq<EquationElement>,
    second: Seq<EquationElement>,
    product: Polynomial,
    other: Polynomial,
    operation: MultiplicativeOperationType,
    other_operation: MultiplicativeOperationType,
)
    requires
        reads_product(first, product, operation),
        reads_product(second, other, other_operation),
        canonical(product.addends),
        canonical(other.addends),
    ensures
        Builder::start().run(
            first + seq![plus_sign()] + second + seq![EquationElement::Separator],
        ) == Builder::start().run(
            second + seq![plus_sign()] + first + seq![EquationElement::Separator],
        ),
{
    let start = Builder::start();
    let separator = seq![EquationElement::Separator];
    let one = first + seq![plus_sign()] + second;
    let two = second + seq![plus_sign()] + first;
    lemma_two_products(start, first, second, product, other, operation, other_operation);
    lemma_two_products(start, second, first, other, product, other_operation, operation);
    let read_one = with_sum(start, product, other, other_operation, second.last());
    let read_two = with_sum(start, other, product, operation, first.last());
    lemma_separator_after_sum(
        start,
        product,
        other,
        operation,
        other_operation,
        first.last(),
        second.last(),
    );
    lemma_run_one(read_one, EquationElement::Separator);
    lemma_run_one(read_two, EquationElement::Separator);
    lemma_run_in_parts(start, one, separator);
    lemma_run_in_parts(start, two, separator);
}

/// Two products at the beginning of the left side and what follows the
/// separator are built into the same in either order.
proof fn lemma_left_side_built(
    first: Seq<EquationElement>,
    second: Seq<EquationElement>,
    product: Polynomial,
    other: Polynomial,
    operation: MultiplicativeOperationType,
    other_operation: MultiplicativeOperationType,
    rest: Seq<EquationElement>,
)
    requires
        reads_product(first, product, operation),
        reads_product(second, other, other_operation),
        canonical(product.addends),
        canonical(other.addends),
    ensures
        built(first + seq![plus_sign()] + second + seq![EquationElement::Separator] + rest)
            == built(second + seq![plus_sign()] + first + seq![EquationElement::Separator] + rest),
{
    let start = Builder::start();
    let separator = seq![EquationElement::Separator];
    let one = first + seq![plus_sign()] + second;
    let two = second + seq![plus_sign()] + first;
    lemma_left_side_read(first, second, product, other, operation, other_operation);
    lemma_run_in_parts(start, one + separator, rest);
    lemma_run_in_parts(start, two + separator, rest);
}

/// The first two products of the left side may change places: the equation
/// that is built is the same.
pub proof fn lemma_left_side_in_either_order(
    first: Seq<EquationElement>,
    second: Seq<EquationElement>,
    product: Polynomial,
    other: Polynomial,
    operation: MultiplicativeOperationType,
    other_operation: MultiplicativeOperationType,
    rest: Seq<EquationElement>,
)
    requires
        reads_product(first, product, operation),
        reads_product(second, other, other_operation),
        canonical(product.addends),
        canonical(other.addends),
    ensures
        generated(first + seq![plus_sign()] + second + seq![EquationElement::Separator] + rest)
            == generated(
            second + seq![plus_sign()] + first + seq![EquationElement::Separator] + rest,
        ),
        solved_elements(
            first + seq![plus_sign()] + second + seq![EquationElement::Separator] + rest,
        ) == solved_elements(
            second + seq![plus_sign()] + first + seq![EquationElement::Separator] + rest,
        ),
{
    let separator = seq![EquationElement::Separator];
    let all_one = first + seq![plus_sign()] + second + separator + rest;
    let all_two = second + seq![plus_sign()] + first + separator + rest;
    let none = Seq::<EquationElement>::empty();
    lemma_variable_in_either_order(first, second, none, separator + rest);
    assert(none + first + seq![plus_sign()] + second + (separator + rest) =~= all_one);
    assert(none + second + seq![plus_sign()] + first + (separator + rest) =~= all_two);
    lemma_left_side_built(first, second, product, other, operation, other_operation, rest);
    assert(generated(all_one) == if all_one.contains(variable()) {
        built(all_one)
    } else {
        Err(EquationError::NoOccurrencesOfVariable)
    });
    assert(generated(all_two) == if all_two.contains(variable()) {
        built(all_two)
    } else {
        Err(EquationError::NoOccurrencesOfVariable)
    });
}

/// The end of the equation after two products that began a side leaves the
/// same behind in whichever order they were read.
proof fn lemma_finish_after_sum(
    b: Builder,
    product: Polynomial,
    other: Polynomial,
    operation: MultiplicativeOperationType,
    other_operation: MultiplicativeOperationType,
    last: EquationElement,
    other_last: EquationElement,
)
    requires
        b.nested.term == Polynomial::nothing(),
        canonical(product.addends),
        canonical(other.addends),
    ensures
        with_sum(b, product, other, other_operation, other_last).finish() == with_sum(
            b,
            other,
            product,
            operation,
            last,
        ).finish(),
{
    lemma_first_terms_exchange(
        product,
        other,
        AdditiveOperationType::Addition,
        AdditiveOperationType::Addition,
    );
}

/// Two products at the beginning of a sum that is the end of the equation
/// are built into the same in either order.
proof fn lemma_end_built(
    b: Builder,
    first: Seq<EquationElement>,
    second: Seq<EquationElement>,
    product: Polynomial,
    other: Polynomial,
    operation: MultiplicativeOperationType,
    other_operation: MultiplicativeOperationType,
)
    requires
        product_begins(b),
        b.nested.term == Polynomial::nothing(),
        b.nested.additive_operation == AdditiveOperationType::Addition,
        reads_product(first, product, operation),
        reads_product(second, other, other_operation),
        canonical(product.addends),
        canonical(other.addends),
    ensures
        b.run(first + seq![plus_sign()] + second) is Ok,
        b.run(second + seq![plus_sign()] + first) is Ok,
        b.run(first + seq![plus_sign()] + second)->Ok_0.finish() == b.run(
            second + seq![plus_sign()] + first,
        )->Ok_0.finish(),
{
    lemma_two_products(b, first, second, product, other, operation, other_operation);
    lemma_two_products(b, second, first, other, product, other_operation, operation);
    lemma_finish_after_sum(
        b,
        product,
        other,
        operation,
        other_operation,
        first.last(),
        second.last(),
    );
}

/// After the separator a product may begin, and the sum is empty.
proof fn lemma_after_separator(b: Builder)
    requires
        b.step(EquationElement::Separator) is Ok,
    ensures
        product_begins(b.step(EquationElement::Separator)->Ok_0),
        b.step(EquationElement::Separator)->Ok_0.nested == Nested::start(),
{
}

/// The two sides that the elements are built into, whether or not the
/// variable is among them.
pub open spec fn built(elements: Seq<EquationElement>) -> Result<
    (Polynomial, Polynomial),
    EquationError,
> {
    match Builder::start().run(elements) {
        Ok(builder) => builder.finish(),
        Err(error) => Err(error),
    }
}

/// Two products at the beginning of the right side are built into the same
/// in either order.
proof fn lemma_right_side_built(
    before: Seq<EquationElement>,
    first: Seq<EquationElement>,
    second: Seq<EquationElement>,
    product: Polynomial,
    other: Polynomial,
    operation: MultiplicativeOperationType,
    other_operation: MultiplicativeOperationType,
)
    requires
        reads_product(first, product, operation),
        reads_product(second, other, other_operation),
        canonical(product.addends),
        canonical(other.addends),
        before.len() > 0,
        before.last() == EquationElement::Separator,
    ensures
        built(before + (first + seq![plus_sign()] + second)) == built(
            before + (second + seq![plus_sign()] + first),
        ),
{
    let start = Builder::start();
    let one = first + seq![plus_sign()] + second;
    let two = second + seq![plus_sign()] + first;
    lemma_run_in_parts(start, before, one);
    lemma_run_in_parts(start, before, two);
    if start.run(before) is Ok {
        let read_left = start.run(before.drop_last())->Ok_0;
        lemma_after_separator(read_left);
        let b = start.run(before)->Ok_0;
        lemma_end_built(b, first, second, product, other, operation, other_operation);
    }
}

/// The first two products of the right side may change places: the
/// equation that is built is the same.
pub proof fn lemma_right_side_in_either_order(
    left: Seq<EquationElement>,
    first: Seq<EquationElement>,
    second: Seq<EquationElement>,
    product: Polynomial,
    other: Polynomial,
    operation: MultiplicativeOperationType,
    other_operation: MultiplicativeOperationType,
)
    requires
        reads_product(first, product, operation),
        reads_product(second, other, other_operation),
        canonical(product.addends),
        canonical(other.addends),
    ensures
        generated(left + seq![EquationElement::Separator] + first + seq![plus_sign()] + second)
            == generated(
            left + seq![EquationElement::Separator] + second + seq![plus_sign()] + first,
        ),
        solved_elements(
            left + seq![EquationElement::Separator] + first + seq![plus_sign()] + second,
        ) == solved_elements(
            left + seq![EquationElement::Separator] + second + seq![plus_sign()] + first,
        ),
{
    let before = left + seq![EquationElement::Separator];
    let one = first + seq![plus_sign()] + second;
    let two = second + seq![plus_sign()] + first;
    let none = Seq::<EquationElement>::empty();
    let all_one = left + seq![EquationElement::Separator] + first + seq![plus_sign()] + second;
    let all_two = left + seq![EquationElement::Separator] + second + seq![plus_sign()] + first;
    lemma_variable_in_either_order(first, second, before, none);
    assert(before + first + seq![plus_sign()] + second + none =~= all_one);
    assert(before + second + seq![plus_sign()] + first + none =~= all_two);
    assert(all_one =~= before + one);
    assert(all_two =~= before + two);
    lemma_right_side_built(before, first, second, product, other, operation, other_operation);
    assert(generated(all_one) == if all_one.contains(variable()) {
        built(all_one)
    } else {
        Err(EquationError::NoOccurrencesOfVariable)
    });
    assert(generated(all_two) == if all_two.contains(variable()) {
        built(all_two)
    } else {
        Err(EquationError::NoOccurrencesOfVariable)
    });
}

} // verus!
