//! Numbers in decimal notation.

use vstd::prelude::*;
use vstd::arithmetic::power2::{
    lemma2_to64, lemma2_to64_rest, lemma_pow2_adds, lemma_pow2_strictly_increases, pow2,
};
use crate::number::{
    bit_length, lemma_bit_length, lemma_one, lemma_rounded_wf, lemma_significand, one, product,
    quotient, rounded, sum, ten, zero, Real,
};

verus! {

/// Whether the character is a decimal digit.
pub open spec fn is_digit(c: char) -> bool {
    '0' <= c <= '9'
}

/// The number of a decimal digit.
pub open spec fn digit(c: char) -> Real {
    rounded(false, (c as u32 - '0' as u32) as nat, 0)
}

/// What has been read of a decimal numeral: the number of its digits so far,
/// read as a natural number, how many of them stand after the point, whether
/// the point was read, and whether a digit was.
pub struct Numeral {
    pub value: Real,
    pub places: nat,
    pub point: bool,
    pub digits: bool,
}

/// The numeral of which nothing has been read.
pub open spec fn numeral_start() -> Numeral {
    Numeral { value: zero(), places: 0, point: false, digits: false }
}

/// The numeral after its next character, if the character may stand there:
/// a digit, or the first point.
pub open spec fn numeral_step(s: Numeral, c: char) -> Option<Numeral> {
    if is_digit(c) {
        Some(
            Numeral {
                value: sum(product(ten(), s.value), digit(c)),
                places: if s.point { s.places + 1 } else { s.places },
                point: s.point,
                digits: true,
            },
        )
    } else if c == '.' && !s.point {
        Some(Numeral { value: s.value, places: s.places, point: true, digits: s.digits })
    } else {
        None
    }
}

/// The numeral that a text spells, if its characters are digits and at most
/// one point.
pub open spec fn numeral(text: Seq<char>) -> Option<Numeral>
    decreases text.len(),
{
    if text.len() == 0 {
        Some(numeral_start())
    } else {
        match numeral(text.drop_last()) {
            Some(s) => numeral_step(s, text.last()),
            None => None,
        }
    }
}

/// The power of ten with the given exponent, multiplied up one ten after
/// the other.
pub open spec fn power_of_ten(exponent: nat) -> Real
    decreases exponent,
{
    if exponent == 0 {
        one()
    } else {
        product(ten(), power_of_ten((exponent - 1) as nat))
    }
}

/// The number that a text spells in decimal notation: digits, among them at
/// most one point, and at least one digit. The digits are read as a natural
/// number, which is divided by the power of ten that the digits behind the
/// point call for.
pub open spec fn decimal(text: Seq<char>) -> Option<Real> {
    match numeral(text) {
        Some(s) => if s.digits {
            Some(quotient(s.value, power_of_ten(s.places)))
        } else {
            None
        },
        None => None,
    }
}

/// A number that is at least one.
pub open spec fn at_least_one(a: Real) -> bool {
    a.wf() && !a.negative && a.mantissa != 0 && a.exponent >= -63
}

/// Ten times a number that is at least one is at least one.
pub proof fn lemma_ten_times(a: Real)
    requires
        at_least_one(a),
    ensures
        at_least_one(product(ten(), a)),
{
    lemma_ten();
    let n = (ten().mantissa * a.mantissa) as nat;
    let e = ten().exponent + a.exponent;
    lemma2_to64();
    lemma2_to64_rest();
    lemma_pow2_adds(63, 63);
    assert(n >= pow2(63) * pow2(63)) by (nonlinear_arith)
        requires
            n == ten().mantissa * a.mantissa,
            ten().mantissa >= pow2(63),
            a.mantissa >= pow2(63),
    ;
    lemma_bit_length(n);
    if bit_length(n) <= 126 {
        if bit_length(n) < 126 {
            lemma_pow2_strictly_increases(bit_length(n), 126);
        }
    }
    lemma_significand(n);
    lemma_rounded_wf(false, n, e);
}

/// The number ten.
pub proof fn lemma_ten()
    ensures
        ten() == (Real { negative: false, mantissa: 0xa000_0000_0000_0000, exponent: -60i32 }),
{
    assert(bit_length(10) == 4) by {
        assert(bit_length(0) == 0);
        assert(bit_length(1) == 1);
        assert(bit_length(2) == 2);
        assert(bit_length(5) == 3);
    }
    lemma2_to64();
    lemma2_to64_rest();
    assert(10 * pow2(60) == 0xa000_0000_0000_0000);
}

/// Every power of ten is at least one.
pub proof fn lemma_power_of_ten(exponent: nat)
    ensures
        at_least_one(power_of_ten(exponent)),
    decreases exponent,
{
    if exponent == 0 {
        lemma_one();
    } else {
        lemma_power_of_ten((exponent - 1) as nat);
        lemma_ten_times(power_of_ten((exponent - 1) as nat));
    }
}

/// Reads a number in decimal notation.
pub fn parse_decimal(text: &Vec<char>) -> (r: Option<Real>)
    ensures
        r == decimal(text@),
        r is Some ==> r->0.wf(),
{
    let base: Real = Real::from_integer(10);
    let mut value: Real = Real::zero();
    let mut scale: Real = Real::from_integer(1);
    let ghost mut places: nat = 0;
    let mut point: bool = false;
    let mut digits: bool = false;
    proof {
        lemma_one();
    }
    let mut i: usize = 0;
    while i < text.len()
        invariant
            i <= text.len(),
            base == ten(),
            base.wf(),
            value.wf(),
            scale == power_of_ten(places),
            at_least_one(scale),
            numeral(text@.take(i as int)) == Some(Numeral { value, places, point, digits }),
        decreases text.len() - i,
    {
        let c: char = text[i];
        proof {
            assert(text@.take(i + 1).drop_last() == text@.take(i as int));
        }
        if c >= '0' && c <= '9' {
            let d: Real = Real::from_integer((c as u32 - '0' as u32) as u64);
            value = base.times(value).plus(d);
            if point {
                proof {
                    lemma_ten_times(scale);
                    places = places + 1;
                }
                scale = base.times(scale);
            }
            digits = true;
        } else if c == '.' && !point {
            point = true;
        } else {
            proof {
                lemma_numeral_prefix(text@, i + 1);
            }
            return None;
        }
        i = i + 1;
    }
    assert(text@.take(i as int) == text@);
    if digits {
        Some(value.over(scale))
    } else {
        None
    }
}

/// A text with a prefix that spells no numeral spells none.
pub proof fn lemma_numeral_prefix(text: Seq<char>, n: int)
    requires
        0 <= n <= text.len(),
        numeral(text.take(n)) is None,
    ensures
        numeral(text) is None,
    decreases text.len() - n,
{
    if n < text.len() {
        assert(text.take(n + 1).drop_last() == text.take(n));
        lemma_numeral_prefix(text, n + 1);
    } else {
        assert(text.take(n) == text);
    }
}

} // verus!
