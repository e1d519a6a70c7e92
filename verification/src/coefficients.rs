//! What the operations on polynomials do to each coefficient.
//!
//! A polynomial is held as its addends in ascending order. Read as a map
//! from exponents to coefficients, with zero for the exponents that no
//! addend has, each operation changes the coefficients one by one.

use vstd::prelude::*;
use crate::equation_element::AdditiveOperationType;
use crate::number::{
    lemma_product_one, lemma_rounded_wf, lemma_sum_wf, product, quotient, sum, zero, Real,
};
use crate::polynomial::{
    accumulated, ascending, can_be_raised, canonical, coefficient_of, combined, degree_of,
    divided, each_over, each_times, in_range, is_rank, kept, lemma_accumulated_canonical,
    lemma_rank, lowest_of, multiplied, raised, rank, scaled, signed, unit, with_row, with_rows,
    Addend,
};

verus! {

/// Every exponent has a rank among the addends.
pub proof fn lemma_rank_exists(s: Seq<Addend>, e: int)
    ensures
        is_rank(s, e, rank(s, e)),
    decreases s.len(),
{
    if s.len() == 0 || s[0].exponent >= e {
        assert(is_rank(s, e, 0));
    } else {
        let rest = s.drop_first();
        lemma_rank_exists(rest, e);
        let p = rank(rest, e);
        assert forall|j: int| 0 <= j < p + 1 implies (#[trigger] s[j]).exponent < e by {
            if j > 0 {
                assert(s[j] == rest[j - 1]);
            }
        }
        if p + 1 < s.len() {
            assert(s[p + 1] == rest[p]);
        }
        assert(is_rank(s, e, p + 1));
    }
}

/// The coefficient of the exponent of an addend is that of the addend.
pub proof fn lemma_coefficient_present(s: Seq<Addend>, i: int)
    requires
        canonical(s),
        0 <= i < s.len(),
    ensures
        coefficient_of(s, s[i].exponent as int) == s[i].coefficient,
{
    assert(is_rank(s, s[i].exponent as int, i));
    lemma_rank(s, s[i].exponent as int, i);
}

/// The coefficient of an exponent that no addend has is zero.
pub proof fn lemma_coefficient_absent(s: Seq<Addend>, e: int)
    requires
        forall|i: int| 0 <= i < s.len() ==> (#[trigger] s[i]).exponent != e,
    ensures
        coefficient_of(s, e) == zero(),
{
    lemma_rank_exists(s, e);
}

/// A coefficient of a canonical polynomial is well formed, and it is zero
/// only if no addend has its exponent.
pub proof fn lemma_coefficient_wf(s: Seq<Addend>, e: int)
    requires
        canonical(s),
    ensures
        coefficient_of(s, e).wf(),
        coefficient_of(s, e).mantissa == 0 ==> forall|i: int|
            0 <= i < s.len() ==> (#[trigger] s[i]).exponent != e,
{
    lemma_rank_exists(s, e);
    let p = rank(s, e);
    if coefficient_of(s, e).mantissa == 0 {
        assert forall|i: int| 0 <= i < s.len() implies (#[trigger] s[i]).exponent != e by {
            if s[i].exponent == e {
                lemma_coefficient_present(s, i);
            }
        }
    }
}

/// Adding to one coefficient of a polynomial changes that coefficient by
/// the truncated sum, and no other.
pub proof fn lemma_accumulated_coefficient(s: Seq<Addend>, e: int, c: Real, at: int)
    requires
        canonical(s),
        in_range(e),
        c.wf(),
    ensures
        canonical(accumulated(s, e, c)),
        coefficient_of(accumulated(s, e, c), at) == if at == e {
            sum(coefficient_of(s, e), c)
        } else {
            coefficient_of(s, at)
        },
{
    lemma_rank_exists(s, e);
    let p = rank(s, e);
    lemma_accumulated_canonical(s, e, c, p);
    lemma_coefficient_wf(s, e);
    lemma_coefficient_wf(s, at);
    let r = accumulated(s, e, c);
    if c.mantissa == 0 {
    } else if p < s.len() && s[p].exponent == e {
        let total = sum(s[p].coefficient, c);
        lemma_sum_wf(s[p].coefficient, c);
        if total.mantissa == 0 {
            if at == e {
                assert forall|i: int| 0 <= i < r.len() implies (#[trigger] r[i]).exponent != e by {
                    if i < p {
                        assert(r[i] == s[i]);
                    } else {
                        assert(r[i] == s[i + 1]);
                    }
                }
                lemma_coefficient_absent(r, e);
            } else {
                lemma_unchanged_coefficient(s, r, p, at);
            }
        } else {
            if at == e {
                lemma_coefficient_present(r, p);
            } else {
                lemma_unchanged_coefficient(s, r, p, at);
            }
        }
    } else {
        if at == e {
            lemma_coefficient_present(r, p);
            assert forall|i: int| 0 <= i < s.len() implies (#[trigger] s[i]).exponent != e by {
                if i < p {
                } else {
                    assert(s[p].exponent >= e);
                }
            }
            lemma_coefficient_absent(s, e);
        } else {
            lemma_unchanged_coefficient(s, r, p, at);
        }
    }
}

/// Two canonical polynomials that differ only in the addend of one exponent,
/// which either of them may lack, have the same coefficients elsewhere.
proof fn lemma_unchanged_coefficient(s: Seq<Addend>, r: Seq<Addend>, p: int, at: int)
    requires
        canonical(s),
        canonical(r),
        0 <= p <= s.len(),
        r == s.remove(p) && p < s.len() && s[p].exponent != at || r.len() == s.len() && p < s.len()
            && s[p].exponent != at && r[p].exponent == s[p].exponent && r == s.update(p, r[p])
            || r.len() == s.len() + 1 && r[p].exponent != at && r == s.insert(p, r[p]),
    ensures
        coefficient_of(r, at) == coefficient_of(s, at),
{
    lemma_coefficient_wf(s, at);
    if coefficient_of(s, at).mantissa == 0 {
        assert forall|i: int| 0 <= i < r.len() implies (#[trigger] r[i]).exponent != at by {
            if r.len() == s.len() + 1 {
                if i < p {
                    assert(r[i] == s[i]);
                } else if i > p {
                    assert(r[i] == s[i - 1]);
                }
            } else if r.len() == s.len() {
                if i != p {
                    assert(r[i] == s[i]);
                }
            } else {
                if i < p {
                    assert(r[i] == s[i]);
                } else {
                    assert(r[i] == s[i + 1]);
                }
            }
        }
        lemma_coefficient_absent(r, at);
    } else {
        lemma_rank_exists(s, at);
        let i = rank(s, at);
        assert(i < s.len() && s[i].exponent == at);
        lemma_coefficient_present(s, i);
        if r.len() == s.len() + 1 {
            let j = if i < p { i } else { i + 1 };
            assert(r[j] == s[i]);
            lemma_coefficient_present(r, j);
        } else if r.len() == s.len() {
            assert(r[i] == s[i]);
            lemma_coefficient_present(r, i);
        } else {
            let j = if i < p { i } else { i - 1 };
            assert(r[j] == s[i]);
            lemma_coefficient_present(r, j);
        }
    }
}

/// Canonical polynomials with the same coefficients are the same.
pub proof fn lemma_same_coefficients(s: Seq<Addend>, t: Seq<Addend>)
    requires
        canonical(s),
        canonical(t),
        forall|e: int| coefficient_of(s, e) == coefficient_of(t, e),
    ensures
        s == t,
    decreases s.len() + t.len(),
{
    if s.len() == 0 && t.len() == 0 {
        assert(s =~= t);
    } else if s.len() == 0 {
        lemma_coefficient_present(t, 0);
        lemma_coefficient_absent(s, t[0].exponent as int);
    } else if t.len() == 0 {
        lemma_coefficient_present(s, 0);
        lemma_coefficient_absent(t, s[0].exponent as int);
    } else {
        lemma_coefficient_present(s, 0);
        lemma_coefficient_present(t, 0);
        if s[0].exponent < t[0].exponent {
            assert forall|i: int| 0 <= i < t.len() implies (#[trigger] t[i]).exponent
                != s[0].exponent by {
                assert(t[0].exponent <= t[i].exponent);
            }
            lemma_coefficient_absent(t, s[0].exponent as int);
        } else if t[0].exponent < s[0].exponent {
            assert forall|i: int| 0 <= i < s.len() implies (#[trigger] s[i]).exponent
                != t[0].exponent by {
                assert(s[0].exponent <= s[i].exponent);
            }
            lemma_coefficient_absent(s, t[0].exponent as int);
        } else {
            let s1 = s.remove(0);
            let t1 = t.remove(0);
            lemma_removed_canonical(s, 0);
            lemma_removed_canonical(t, 0);
            assert forall|e: int| coefficient_of(s1, e) == coefficient_of(t1, e) by {
                if e == s[0].exponent {
                    assert forall|i: int| 0 <= i < s1.len() implies (#[trigger] s1[i]).exponent
                        != e by {
                        assert(s1[i] == s[i + 1]);
                    }
                    assert forall|i: int| 0 <= i < t1.len() implies (#[trigger] t1[i]).exponent
                        != e by {
                        assert(t1[i] == t[i + 1]);
                    }
                    lemma_coefficient_absent(s1, e);
                    lemma_coefficient_absent(t1, e);
                } else {
                    lemma_unchanged_coefficient(s, s1, 0, e);
                    lemma_unchanged_coefficient(t, t1, 0, e);
                }
            }
            lemma_same_coefficients(s1, t1);
            assert(s =~= seq![s[0]] + s1);
            assert(t =~= seq![t[0]] + t1);
        }
    }
}

/// A canonical polynomial without one of its addends is canonical.
proof fn lemma_removed_canonical(s: Seq<Addend>, p: int)
    requires
        canonical(s),
        0 <= p < s.len(),
    ensures
        canonical(s.remove(p)),
{
    let r = s.remove(p);
    assert forall|i: int, j: int| 0 <= i < j < r.len() implies (#[trigger] r[i]).exponent < (
    #[trigger] r[j]).exponent by {
        let i0 = if i < p { i } else { i + 1 };
        let j0 = if j < p { j } else { j + 1 };
        assert(r[i] == s[i0]);
        assert(r[j] == s[j0]);
    }
    assert forall|i: int| 0 <= i < r.len() implies {
        &&& in_range((#[trigger] r[i]).exponent as int)
        &&& r[i].coefficient.wf()
        &&& r[i].coefficient.mantissa != 0
    } by {
        let i0 = if i < p { i } else { i + 1 };
        assert(r[i] == s[i0]);
    }
}

/// The first addends of a canonical polynomial are a canonical polynomial.
proof fn lemma_taken_canonical(s: Seq<Addend>, n: int)
    requires
        canonical(s),
        0 <= n <= s.len(),
    ensures
        canonical(s.take(n)),
{
}

/// The number as it is added is well formed.
pub proof fn lemma_signed_wf(c: Real, operation: AdditiveOperationType)
    requires
        c.wf(),
    ensures
        signed(c, operation).wf(),
        c.mantissa == 0 ==> signed(c, operation) == zero(),
{
}

/// A sum of two polynomials has the truncated sums of their coefficients.
pub proof fn lemma_combined_coefficient(
    s: Seq<Addend>,
    other: Seq<Addend>,
    operation: AdditiveOperationType,
    n: nat,
    e: int,
)
    requires
        canonical(s),
        canonical(other),
        n <= other.len(),
    ensures
        canonical(combined(s, other, operation, n)),
        coefficient_of(combined(s, other, operation, n), e) == sum(
            coefficient_of(s, e),
            signed(coefficient_of(other.take(n as int), e), operation),
        ),
    decreases n,
{
    lemma_coefficient_wf(s, e);
    lemma_taken_canonical(other, n as int);
    lemma_coefficient_wf(other.take(n as int), e);
    if n == 0 {
        lemma_coefficient_absent(other.take(0), e);
    } else {
        let last = other[n - 1];
        let before = combined(s, other, operation, (n - 1) as nat);
        lemma_combined_coefficient(s, other, operation, (n - 1) as nat, e);
        lemma_signed_wf(last.coefficient, operation);
        lemma_accumulated_coefficient(
            before,
            last.exponent as int,
            signed(last.coefficient, operation),
            e,
        );
        let shorter = other.take(n - 1);
        let longer = other.take(n as int);
        lemma_taken_canonical(other, n - 1);
        assert(longer[n - 1] == last);
        if e == last.exponent {
            assert forall|i: int| 0 <= i < shorter.len() implies (#[trigger] shorter[i]).exponent
                != e by {
                assert(shorter[i] == other[i]);
                assert(other[i].exponent < other[n - 1].exponent);
            }
            lemma_coefficient_absent(shorter, e);
            lemma_coefficient_present(longer, n - 1);
        } else {
            assert(shorter =~= longer.remove(n - 1));
            lemma_unchanged_coefficient(longer, shorter, n - 1, e);
        }
    }
}

/// The coefficient of the exponent of an addend is that of the addend, also
/// where coefficients may be zero.
pub proof fn lemma_ascending_present(s: Seq<Addend>, i: int)
    requires
        ascending(s),
        0 <= i < s.len(),
    ensures
        coefficient_of(s, s[i].exponent as int) == s[i].coefficient,
{
    assert(is_rank(s, s[i].exponent as int, i));
    lemma_rank(s, s[i].exponent as int, i);
}

/// Leaving out the addends with the coefficient zero gives a canonical
/// polynomial with the same coefficients.
pub proof fn lemma_kept_coefficient(s: Seq<Addend>, e: int)
    requires
        ascending(s),
    ensures
        canonical(kept(s)),
        kept(s).len() <= s.len(),
        forall|i: int|
            0 <= i < kept(s).len() ==> exists|j: int|
                0 <= j < s.len() && s[j] == #[trigger] kept(s)[i],
        coefficient_of(kept(s), e) == coefficient_of(s, e),
    decreases s.len(),
{
    if s.len() == 0 {
    } else {
        let before = s.drop_last();
        let last = s.last();
        lemma_kept_coefficient(before, e);
        let k = kept(before);
        assert forall|i: int| 0 <= i < k.len() implies (#[trigger] k[i]).exponent
            < last.exponent by {
            let j = choose|j: int| 0 <= j < before.len() && before[j] == k[i];
            assert(before[j] == s[j]);
        }
        let r = kept(s);
        assert forall|i: int| 0 <= i < r.len() implies exists|j: int|
            0 <= j < s.len() && s[j] == #[trigger] r[i] by {
            if i < k.len() {
                let j = choose|j: int| 0 <= j < before.len() && before[j] == k[i];
                assert(s[j] == r[i]);
            } else {
                assert(s[s.len() - 1] == r[i]);
            }
        }
        if e == last.exponent {
            lemma_ascending_present(s, s.len() - 1);
            assert forall|i: int| 0 <= i < k.len() implies (#[trigger] k[i]).exponent != e by {}
            lemma_coefficient_absent(k, e);
            if last.coefficient.mantissa != 0 {
                lemma_coefficient_present(r, r.len() - 1);
            }
        } else {
            lemma_without_last(s, e);
            if last.coefficient.mantissa != 0 {
                assert(k =~= r.remove(r.len() - 1));
                lemma_unchanged_coefficient(r, k, r.len() - 1, e);
            }
        }
    }
}

/// The last addend does not count for the coefficients of other exponents.
proof fn lemma_without_last(s: Seq<Addend>, e: int)
    requires
        ascending(s),
        s.len() > 0,
        s.last().exponent != e,
    ensures
        coefficient_of(s.drop_last(), e) == coefficient_of(s, e),
{
    let before = s.drop_last();
    lemma_rank_exists(before, e);
    let p = rank(before, e);
    if p < before.len() {
        assert(before[p] == s[p]);
        assert(is_rank(s, e, p)) by {
            assert forall|j: int| 0 <= j < p implies (#[trigger] s[j]).exponent < e by {
                assert(s[j] == before[j]);
            }
        }
        lemma_rank(s, e, p);
    } else {
        assert forall|j: int| 0 <= j < before.len() implies (#[trigger] s[j]).exponent < e by {
            assert(s[j] == before[j]);
        }
        if s.last().exponent < e {
            assert(is_rank(s, e, s.len() as int));
            lemma_rank(s, e, s.len() as int);
        } else {
            assert(is_rank(s, e, s.len() - 1));
            lemma_rank(s, e, s.len() - 1);
        }
    }
}

/// The degree of a polynomial is the highest exponent whose coefficient is
/// not zero, whether or not addends with the coefficient zero are stored.
pub proof fn lemma_degree(s: Seq<Addend>)
    requires
        ascending(s),
    ensures
        match degree_of(kept(s)) {
            Some(degree) => coefficient_of(s, degree as int).mantissa != 0 && forall|e: int|
                e > degree ==> (#[trigger] coefficient_of(s, e)).mantissa == 0,
            None => forall|e: int| (#[trigger] coefficient_of(s, e)).mantissa == 0,
        },
{
    let k = kept(s);
    lemma_kept_coefficient(s, 0);
    if k.len() > 0 {
        let degree = k.last().exponent;
        lemma_kept_coefficient(s, degree as int);
        lemma_coefficient_present(k, k.len() - 1);
        assert forall|e: int| e > degree implies (#[trigger] coefficient_of(s, e)).mantissa
            == 0 by {
            lemma_kept_coefficient(s, e);
            assert forall|i: int| 0 <= i < k.len() implies (#[trigger] k[i]).exponent != e by {
                assert(k[i].exponent <= k[k.len() - 1].exponent);
            }
            lemma_coefficient_absent(k, e);
        }
    } else {
        assert forall|e: int| (#[trigger] coefficient_of(s, e)).mantissa == 0 by {
            lemma_kept_coefficient(s, e);
            lemma_coefficient_absent(k, e);
        }
    }
}

/// The lowest exponent of a polynomial is the lowest one whose coefficient
/// is not zero, whether or not addends with the coefficient zero are
/// stored, and it is not above the degree.
pub proof fn lemma_lowest(s: Seq<Addend>)
    requires
        ascending(s),
    ensures
        forall|e: int| e < lowest_of(kept(s)) ==> (#[trigger] coefficient_of(s, e)).mantissa == 0,
        degree_of(kept(s)) is Some ==> coefficient_of(s, lowest_of(kept(s)) as int).mantissa != 0
            && lowest_of(kept(s)) <= degree_of(kept(s))->0,
        degree_of(kept(s)) is None ==> lowest_of(kept(s)) == 0,
{
    let k = kept(s);
    lemma_kept_coefficient(s, 0);
    lemma_degree(s);
    if k.len() > 0 {
        let lowest = k.first().exponent;
        lemma_kept_coefficient(s, lowest as int);
        lemma_coefficient_present(k, 0);
        assert(k[0].exponent <= k[k.len() - 1].exponent);
        assert forall|e: int| e < lowest implies (#[trigger] coefficient_of(s, e)).mantissa
            == 0 by {
            lemma_kept_coefficient(s, e);
            assert forall|i: int| 0 <= i < k.len() implies (#[trigger] k[i]).exponent != e by {
                assert(k[0].exponent <= k[i].exponent);
            }
            lemma_coefficient_absent(k, e);
        }
    }
}

/// Multiplying a polynomial by a number multiplies each coefficient.
pub proof fn lemma_scaled_coefficient(s: Seq<Addend>, c: Real, e: int)
    requires
        canonical(s),
        c.wf(),
    ensures
        canonical(scaled(s, c)),
        coefficient_of(scaled(s, c), e) == product(coefficient_of(s, e), c),
{
    let mapped = each_times(s, c);
    assert forall|i: int| 0 <= i < mapped.len() implies in_range(
        (#[trigger] mapped[i]).exponent as int,
    ) && mapped[i].coefficient.wf() by {
        lemma_rounded_wf(
            s[i].coefficient.negative != c.negative,
            (s[i].coefficient.mantissa * c.mantissa) as nat,
            s[i].coefficient.exponent + c.exponent,
        );
    }
    assert forall|i: int, j: int| 0 <= i < j < mapped.len() implies (#[trigger] mapped[i]).exponent
        < (#[trigger] mapped[j]).exponent by {
        assert(s[i].exponent < s[j].exponent);
    }
    lemma_kept_coefficient(mapped, e);
    lemma_coefficient_wf(s, e);
    if coefficient_of(s, e).mantissa == 0 {
        assert forall|i: int| 0 <= i < mapped.len() implies (#[trigger] mapped[i]).exponent
            != e by {
            assert(s[i].exponent != e);
        }
        lemma_coefficient_absent(mapped, e);
        assert(zero().mantissa * c.mantissa == 0) by (nonlinear_arith)
            requires
                zero().mantissa == 0,
        ;
    } else {
        lemma_rank_exists(s, e);
        let i = rank(s, e);
        lemma_coefficient_present(s, i);
        lemma_ascending_present(mapped, i);
    }
}

/// Dividing a polynomial by a number divides each coefficient.
pub proof fn lemma_divided_coefficient(s: Seq<Addend>, c: Real, e: int)
    requires
        canonical(s),
        c.wf(),
        c.mantissa != 0,
    ensures
        canonical(divided(s, c)),
        coefficient_of(divided(s, c), e) == quotient(coefficient_of(s, e), c),
{
    let mapped = each_over(s, c);
    assert forall|i: int| 0 <= i < mapped.len() implies in_range(
        (#[trigger] mapped[i]).exponent as int,
    ) && mapped[i].coefficient.wf() by {
        lemma_rounded_wf(
            s[i].coefficient.negative != c.negative,
            ((s[i].coefficient.mantissa * crate::number::limit()) / (c.mantissa as int)) as nat,
            s[i].coefficient.exponent - c.exponent - 64,
        );
    }
    assert forall|i: int, j: int| 0 <= i < j < mapped.len() implies (#[trigger] mapped[i]).exponent
        < (#[trigger] mapped[j]).exponent by {
        assert(s[i].exponent < s[j].exponent);
    }
    lemma_kept_coefficient(mapped, e);
    lemma_coefficient_wf(s, e);
    if coefficient_of(s, e).mantissa == 0 {
        assert forall|i: int| 0 <= i < mapped.len() implies (#[trigger] mapped[i]).exponent
            != e by {
            assert(s[i].exponent != e);
        }
        lemma_coefficient_absent(mapped, e);
        assert((zero().mantissa * crate::number::limit()) / (c.mantissa as int) == 0) by {
            assert(zero().mantissa * crate::number::limit() == 0);
        }
    } else {
        lemma_rank_exists(s, e);
        let i = rank(s, e);
        lemma_coefficient_present(s, i);
        lemma_ascending_present(mapped, i);
    }
}

/// Multiplying a polynomial by a power of the variable moves each
/// coefficient to the exponent that much higher.
pub proof fn lemma_raised_coefficient(s: Seq<Addend>, power: int, e: int)
    requires
        canonical(s),
        can_be_raised(s, power),
    ensures
        canonical(raised(s, power)),
        coefficient_of(raised(s, power), e) == coefficient_of(s, e - power),
{
    let r = raised(s, power);
    assert forall|i: int, j: int| 0 <= i < j < r.len() implies (#[trigger] r[i]).exponent < (
    #[trigger] r[j]).exponent by {
        assert(s[i].exponent < s[j].exponent);
        assert(in_range(s[i].exponent + power) && in_range(s[j].exponent + power));
    }
    assert forall|i: int| 0 <= i < r.len() implies {
        &&& in_range((#[trigger] r[i]).exponent as int)
        &&& r[i].coefficient.wf()
        &&& r[i].coefficient.mantissa != 0
    } by {
        assert(in_range(s[i].exponent + power));
    }
    lemma_coefficient_wf(s, e - power);
    if coefficient_of(s, e - power).mantissa == 0 {
        assert forall|i: int| 0 <= i < r.len() implies (#[trigger] r[i]).exponent != e by {
            assert(s[i].exponent != e - power);
            assert(in_range(s[i].exponent + power));
        }
        lemma_coefficient_absent(r, e);
    } else {
        lemma_rank_exists(s, e - power);
        let i = rank(s, e - power);
        lemma_coefficient_present(s, i);
        assert(in_range(s[i].exponent + power));
        lemma_coefficient_present(r, i);
    }
}

/// A polynomial times the polynomial one is the polynomial.
pub proof fn lemma_multiplied_by_unit(s: Seq<Addend>)
    requires
        canonical(s),
    ensures
        multiplied(s, unit()) == s,
{
    lemma_rows_by_unit(s, s.len());
    assert(s.take(s.len() as int) == s);
}

/// The products of the first addends of a polynomial with the polynomial
/// one are those addends.
proof fn lemma_rows_by_unit(s: Seq<Addend>, n: nat)
    requires
        canonical(s),
        n <= s.len(),
    ensures
        with_rows(s, unit(), n) == s.take(n as int),
    decreases n,
{
    if n == 0 {
        assert(s.take(0) =~= Seq::<Addend>::empty());
    } else {
        lemma_rows_by_unit(s, (n - 1) as nat);
        let before = s.take(n - 1);
        let x = s[n - 1];
        lemma_product_one(x.coefficient);
        reveal_with_fuel(with_row, 2);
        assert(with_row(before, x, unit(), 1) == accumulated(
            before,
            x.exponent + unit()[0].exponent,
            product(x.coefficient, unit()[0].coefficient),
        ));
        assert(is_rank(before, x.exponent as int, n - 1)) by {
            assert forall|j: int| 0 <= j < n - 1 implies (#[trigger] before[j]).exponent
                < x.exponent by {
                assert(before[j] == s[j]);
            }
        }
        lemma_rank(before, x.exponent as int, n - 1);
        assert(before.insert(n - 1, x) =~= s.take(n as int));
    }
}

} // verus!
