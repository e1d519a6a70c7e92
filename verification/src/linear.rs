//! The equation `a * x = b`, from its elements to its solution.
//!
//! An equation with one product on each side is built into the two
//! products. For `a * x = b` the solution is the exact one, `b / a`,
//! truncated.

use vstd::prelude::*;
use vstd::arithmetic::power2::pow2;
use crate::coefficients::lemma_multiplied_by_unit;
use crate::equation::{generated, variable, Builder};
use crate::equation_element::{
    AdditiveOperationType, EquationElement, MultiplicativeOperationType, SymbolType, ValueType,
};
use crate::equation_error::{EquationError, Problem};
use crate::equation_result::Zeroes;
use crate::exceptions_in_domain::Exclusions;
use crate::nested_term::Nested;
use crate::number::{
    lemma_negation_twice, lemma_product_one, lemma_quotient_truncates, limit, negation, quotient,
    Real,
};
use crate::polynomial::{
    accumulated, canonical, combined, each_times, in_range, is_rank, kept, lemma_rank, raised,
    times_value, unit, Addend, Polynomial,
};
use crate::reordering::{
    lemma_product_times_value, lemma_run_in_parts, lemma_run_one, lemma_value_reads_product,
    product_begins, reads_product, sign, with_product,
};
use crate::solutions::lemma_linear_polynomial;
use crate::solve_equation::solved_elements;

verus! {

/// A canonical polynomial that is added to nothing is the polynomial.
pub proof fn lemma_added_to_nothing(s: Seq<Addend>, n: nat)
    requires
        canonical(s),
        n <= s.len(),
    ensures
        combined(Seq::empty(), s, AdditiveOperationType::Addition, n) == s.take(n as int),
    decreases n,
{
    if n == 0 {
        assert(s.take(0) =~= Seq::<Addend>::empty());
    } else {
        lemma_added_to_nothing(s, (n - 1) as nat);
        let before = s.take(n - 1);
        let x = s[n - 1];
        assert(is_rank(before, x.exponent as int, n - 1)) by {
            assert forall|j: int| 0 <= j < n - 1 implies (#[trigger] before[j]).exponent
                < x.exponent by {
                assert(before[j] == s[j]);
            }
        }
        lemma_rank(before, x.exponent as int, n - 1);
        assert(before.insert(n - 1, x) =~= s.take(n as int));
    }
}

/// The sum of nothing and a polynomial is the polynomial.
pub proof fn lemma_nothing_plus(p: Polynomial)
    requires
        canonical(p.addends),
    ensures
        Polynomial::nothing().plus(p, AdditiveOperationType::Addition) == p,
{
    lemma_added_to_nothing(p.addends, p.addends.len());
    assert(p.addends.take(p.addends.len() as int) == p.addends);
    match p.exclusions {
        Exclusions::Known(numbers) => {
            assert(Set::<Real>::empty().union(numbers) =~= numbers);
        },
        Exclusions::Unknown { .. } => {},
    }
}

/// The separator behind a product that began the left side makes the
/// product the left side.
proof fn lemma_separator_after_product(
    product: Polynomial,
    operation: MultiplicativeOperationType,
    last: EquationElement,
)
    requires
        canonical(product.addends),
        last.ends_factor(),
    ensures
        with_product(Builder::start(), product, operation, last).step(
            EquationElement::Separator,
        ) == Ok::<Builder, EquationError>(
            Builder {
                left: crate::equation_side::Side {
                    term: product,
                    multiplier: Polynomial::one(),
                    side: crate::equation_side::EquationSideType::LeftHandSide,
                },
                right: Builder::start().right,
                current: crate::equation_side::EquationSideType::RightHandSide,
                stack: Seq::empty(),
                nested: Nested::start(),
                previous: EquationElement::Separator,
            },
        ),
{
    lemma_nothing_plus(product);
}

/// The end of the equation behind a product that began the right side
/// makes the product the right side.
proof fn lemma_finish_after_product(
    left: Polynomial,
    product: Polynomial,
    operation: MultiplicativeOperationType,
    last: EquationElement,
)
    requires
        canonical(left.addends),
        canonical(product.addends),
    ensures
        with_product(
            Builder {
                left: crate::equation_side::Side {
                    term: left,
                    multiplier: Polynomial::one(),
                    side: crate::equation_side::EquationSideType::LeftHandSide,
                },
                right: Builder::start().right,
                current: crate::equation_side::EquationSideType::RightHandSide,
                stack: Seq::empty(),
                nested: Nested::start(),
                previous: EquationElement::Separator,
            },
            product,
            operation,
            last,
        ).finish() == Ok::<(Polynomial, Polynomial), EquationError>((left, product)),
{
    lemma_nothing_plus(product);
    lemma_multiplied_by_unit(left.addends);
    lemma_multiplied_by_unit(product.addends);
    assert forall|i: int, j: int|
        0 <= i < left.addends.len() && 0 <= j < unit().len() implies in_range(
        (#[trigger] left.addends[i]).exponent + (#[trigger] unit()[j]).exponent,
    ) by {}
    assert forall|i: int, j: int|
        0 <= i < product.addends.len() && 0 <= j < unit().len() implies in_range(
        (#[trigger] product.addends[i]).exponent + (#[trigger] unit()[j]).exponent,
    ) by {}
}

/// An equation with one product on each side is built into the two
/// products.
pub proof fn lemma_one_product_each_side(
    first: Seq<EquationElement>,
    second: Seq<EquationElement>,
    product: Polynomial,
    other: Polynomial,
    operation: MultiplicativeOperationType,
    other_operation: MultiplicativeOperationType,
)
    requires
        reads_product(first, product, operation),
        reads_product(second, other, other_operation),
        canonical(product.addends),
        canonical(other.addends),
        (first + seq![EquationElement::Separator] + second).contains(variable()),
    ensures
        generated(first + seq![EquationElement::Separator] + second) == Ok::<
            (Polynomial, Polynomial),
            EquationError,
        >((product, other)),
{
    reveal(reads_product);
    let start = Builder::start();
    let separator = seq![EquationElement::Separator];
    let read = with_product(start, product, operation, first.last());
    assert(start.run(first) == Ok::<Builder, EquationError>(read));
    lemma_separator_after_product(product, operation, first.last());
    lemma_run_one(read, EquationElement::Separator);
    lemma_run_in_parts(start, first, separator);
    let between = read.step(EquationElement::Separator)->Ok_0;
    assert(product_begins(between));
    assert(between.run(second) == Ok::<Builder, EquationError>(
        with_product(between, other, other_operation, second.last()),
    ));
    lemma_run_in_parts(start, first + separator, second);
    lemma_finish_after_product(product, other, other_operation, second.last());
}

/// The product of a number other than zero and the variable.
pub open spec fn monomial(a: Real) -> Polynomial {
    Polynomial {
        addends: seq![Addend { exponent: 1, coefficient: a }],
        exclusions: Polynomial::one().exclusions,
    }
}

/// A number other than zero by itself.
pub open spec fn constant(b: Real) -> Polynomial {
    Polynomial {
        addends: seq![Addend { exponent: 0, coefficient: b }],
        exclusions: Polynomial::one().exclusions,
    }
}

/// One times a number other than zero is the number by itself.
proof fn lemma_constant(b: Real)
    requires
        b.wf(),
        b.mantissa != 0,
    ensures
        times_value(unit(), ValueType::Number(b)) == constant(b).addends,
        canonical(constant(b).addends),
        raised(constant(b).addends, 1) == monomial(b).addends,
        canonical(monomial(b).addends),
{
    lemma_product_one(b);
    let mapped = each_times(unit(), b);
    assert(mapped =~= constant(b).addends);
    reveal_with_fuel(kept, 2);
    assert(mapped.drop_last() =~= Seq::<Addend>::empty());
    assert(kept(mapped) =~= mapped);
    assert(raised(constant(b).addends, 1) =~= monomial(b).addends);
}

/// The elements of `a * x = b`.
pub open spec fn linear_equation(a: Real, b: Real) -> Seq<EquationElement> {
    seq![
        EquationElement::Value(ValueType::Number(a)),
        sign(MultiplicativeOperationType::Multiplication),
        variable(),
        EquationElement::Separator,
        EquationElement::Value(ValueType::Number(b)),
    ]
}

/// The equation `a * x = b`, with `a` and `b` other than zero, has one
/// solution, `b / a` truncated: times `a` it is at most `b` in magnitude,
/// the next greater mantissa times `a` is more, and its sign is that of
/// `b / a`.
pub proof fn lemma_linear_equation(a: Real, b: Real)
    requires
        a.wf(),
        b.wf(),
        a.mantissa != 0,
        b.mantissa != 0,
        i32::MIN <= b.exponent - a.exponent - 64,
        b.exponent - a.exponent - 63 <= i32::MAX,
    ensures
        solved_elements(linear_equation(a, b)) == Ok::<Zeroes, Problem>(
            Zeroes::Solutions(seq![quotient(b, a)]),
        ),
        ({
            let x = quotient(b, a);
            let k = x.exponent - (b.exponent - a.exponent - 64);
            &&& x.negative == (b.negative != a.negative)
            &&& 0 <= k <= 1
            &&& x.mantissa * a.mantissa * pow2(k as nat) <= b.mantissa * limit()
            &&& b.mantissa * limit() < (x.mantissa + 1) * a.mantissa * pow2(k as nat)
        }),
{
    lemma_quotient_truncates(b, a);
    let number = seq![EquationElement::Value(ValueType::Number(a))];
    let left = number + seq![sign(MultiplicativeOperationType::Multiplication), variable()];
    let right = seq![EquationElement::Value(ValueType::Number(b))];
    lemma_constant(a);
    lemma_constant(b);
    lemma_value_reads_product(ValueType::Number(a));
    lemma_value_reads_product(ValueType::Number(b));
    assert(in_range(constant(a).addends[0].exponent + 1));
    lemma_product_times_value(
        number,
        constant(a),
        MultiplicativeOperationType::Multiplication,
        ValueType::Symbol(SymbolType::Variable),
    );
    let all = left + seq![EquationElement::Separator] + right;
    assert(all =~= linear_equation(a, b));
    assert(all[2] == variable());
    lemma_one_product_each_side(
        left,
        right,
        monomial(a),
        constant(b),
        MultiplicativeOperationType::Multiplication,
        MultiplicativeOperationType::Multiplication,
    );
    lemma_difference(a, b);
}

/// The monomial `a x` less the constant `b` is the polynomial `a x - b`,
/// whose zero is `b / a`.
proof fn lemma_difference(a: Real, b: Real)
    requires
        a.wf(),
        b.wf(),
        a.mantissa != 0,
        b.mantissa != 0,
    ensures
        crate::polynomial::zeroes_of(
            monomial(a).plus(constant(b), AdditiveOperationType::Subtraction),
        ) == Ok::<Zeroes, EquationError>(Zeroes::Solutions(seq![quotient(b, a)])),
{
    let s = monomial(a).addends;
    let difference = monomial(a).plus(constant(b), AdditiveOperationType::Subtraction);
    reveal_with_fuel(combined, 2);
    assert(is_rank(s, 0, 0));
    lemma_rank(s, 0, 0);
    let expected = seq![
        Addend { exponent: 0, coefficient: negation(b) },
        Addend { exponent: 1, coefficient: a },
    ];
    assert(accumulated(s, 0, negation(b)) =~= expected);
    assert(difference.addends == expected);
    assert(Set::<Real>::empty().union(Set::<Real>::empty()) =~= Set::<Real>::empty());
    lemma_linear_polynomial(difference);
    lemma_negation_twice(b);
}

} // verus!
