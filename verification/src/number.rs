//! Real numbers as binary floating-point values built from integers.
//!
//! A `Real` stands for `mantissa * 2^exponent`, negated when `negative` is
//! set. The mantissa of a number other than zero has 64 binary digits. Each
//! operation gives its exact result truncated toward zero to 64 binary
//! digits. A magnitude above the greatest one becomes the greatest one, and
//! a magnitude below the least one becomes zero, so that every operation has
//! a result, and the same one on every machine.

use vstd::prelude::*;
use vstd::arithmetic::div_mod::{
    lemma_div_denominator, lemma_div_is_ordered, lemma_div_multiples_vanish,
    lemma_fundamental_div_mod_converse_div, lemma_multiply_divide_lt,
};
use vstd::arithmetic::mul::{lemma_mul_inequality, lemma_mul_strict_inequality};
use vstd::arithmetic::power2::{
    lemma2_to64, lemma2_to64_rest, lemma_pow2_adds, lemma_pow2_pos, lemma_pow2_strictly_increases,
    lemma_pow2_unfold, pow2,
};

verus! {

/// The lowest mantissa of a number other than zero: 2^63.
pub const TOP_BIT: u64 = 0x8000_0000_0000_0000;

/// One more than the highest mantissa: 2^64.
pub open spec fn limit() -> nat {
    0x1_0000_0000_0000_0000
}

/// A real number `mantissa * 2^exponent`, negated when `negative` holds.
#[derive(Clone, Copy, Debug, PartialEq, Eq, Structural)]
pub struct Real {
    pub negative: bool,
    pub mantissa: u64,
    pub exponent: i32,
}

/// The number zero.
pub open spec fn zero() -> Real {
    Real { negative: false, mantissa: 0, exponent: 0 }
}

/// The number of binary digits of `n`.
pub open spec fn bit_length(n: nat) -> nat
    decreases n,
{
    if n == 0 {
        0
    } else {
        1 + bit_length(n / 2)
    }
}

/// The leading 64 binary digits of `n`; if `n` has fewer, they are followed
/// by zeros.
pub open spec fn significand(n: nat) -> nat {
    if bit_length(n) >= 64 {
        n / pow2((bit_length(n) - 64) as nat)
    } else {
        n * pow2((64 - bit_length(n)) as nat)
    }
}

/// The value `n * 2^e` with the sign `negative`, truncated toward zero to 64
/// binary digits. A magnitude beyond the range of the exponent becomes the
/// greatest one, a magnitude below it zero.
pub open spec fn rounded(negative: bool, n: nat, e: int) -> Real {
    let exponent = e + bit_length(n) - 64;
    if n == 0 {
        zero()
    } else if exponent > i32::MAX {
        Real { negative, mantissa: u64::MAX, exponent: i32::MAX }
    } else if exponent < i32::MIN {
        zero()
    } else {
        Real { negative, mantissa: significand(n) as u64, exponent: exponent as i32 }
    }
}

/// The number one.
pub open spec fn one() -> Real {
    rounded(false, 1, 0)
}

/// The number ten.
pub open spec fn ten() -> Real {
    rounded(false, 10, 0)
}

/// The ratio of a circle's circumference to its diameter, truncated.
pub open spec fn pi() -> Real {
    Real { negative: false, mantissa: 0xC90F_DAA2_2168_C234, exponent: -62i32 }
}

/// The base of the natural logarithm, truncated.
pub open spec fn e() -> Real {
    Real { negative: false, mantissa: 0xADF8_5458_A2BB_4A9A, exponent: -62i32 }
}

/// The number with the opposite sign.
pub open spec fn negation(a: Real) -> Real {
    if a.mantissa == 0 {
        a
    } else {
        Real { negative: !a.negative, mantissa: a.mantissa, exponent: a.exponent }
    }
}

/// The product of two numbers, truncated.
pub open spec fn product(a: Real, b: Real) -> Real {
    rounded(a.negative != b.negative, (a.mantissa * b.mantissa) as nat, a.exponent + b.exponent)
}

/// The quotient of a number by a number other than zero, truncated.
pub open spec fn quotient(a: Real, b: Real) -> Real {
    rounded(
        a.negative != b.negative,
        ((a.mantissa * limit()) / (b.mantissa as int)) as nat,
        a.exponent - b.exponent - 64,
    )
}

/// The number as a multiple of `2^e`, where `e` is at most its exponent.
pub open spec fn scaled(a: Real, e: int) -> int {
    if a.negative {
        -(a.mantissa * pow2((a.exponent - e) as nat))
    } else {
        a.mantissa * pow2((a.exponent - e) as nat)
    }
}

/// The sum of two numbers, truncated.
pub open spec fn sum(a: Real, b: Real) -> Real {
    if a.mantissa == 0 {
        b
    } else if b.mantissa == 0 {
        a
    } else {
        let e = if a.exponent <= b.exponent {
            a.exponent as int
        } else {
            b.exponent as int
        };
        let total = scaled(a, e) + scaled(b, e);
        rounded(total < 0, (if total < 0 { -total } else { total }) as nat, e)
    }
}

/// The difference of two numbers, truncated.
pub open spec fn difference(a: Real, b: Real) -> Real {
    sum(a, negation(b))
}

/// Whether `r` is the integer part of the square root of `n`.
pub open spec fn is_integer_root(r: nat, n: nat) -> bool {
    r * r <= n < (r + 1) * (r + 1)
}

/// The integer part of the square root of `n`.
pub open spec fn integer_root(n: nat) -> nat {
    choose|r: nat| is_integer_root(r, n)
}

/// The square root of a number that is not negative, truncated.
pub open spec fn square_root(a: Real) -> Real {
    if a.mantissa == 0 {
        zero()
    } else if a.exponent % 2 == 0 {
        rounded(false, integer_root((a.mantissa * limit()) as nat), (a.exponent - 64) / 2)
    } else {
        rounded(false, integer_root((a.mantissa * TOP_BIT) as nat), (a.exponent - 63) / 2)
    }
}

/// Whether the magnitude of `a` is below that of `b`.
pub open spec fn smaller(a: Real, b: Real) -> bool {
    if a.mantissa == 0 {
        b.mantissa != 0
    } else if b.mantissa == 0 {
        false
    } else {
        a.exponent < b.exponent || (a.exponent == b.exponent && a.mantissa < b.mantissa)
    }
}

/// The order of the numbers: whether `a` is less than `b`.
pub open spec fn precedes(a: Real, b: Real) -> bool {
    if a.negative != b.negative {
        a.negative
    } else if a.negative {
        smaller(b, a)
    } else {
        smaller(a, b)
    }
}

/// Every number of the sequence is well formed.
pub open spec fn all_wf(s: Seq<Real>) -> bool {
    forall|i: int| 0 <= i < s.len() ==> (#[trigger] s[i]).wf()
}

/// No number of the sequence is less than a later one.
pub open spec fn descending(s: Seq<Real>) -> bool {
    forall|i: int, j: int| 0 <= i < j < s.len() ==> !precedes(#[trigger] s[i], #[trigger] s[j])
}

/// Every number of the sequence is greater than the later ones.
pub open spec fn strictly_descending(s: Seq<Real>) -> bool {
    forall|i: int, j: int| 0 <= i < j < s.len() ==> precedes(#[trigger] s[j], #[trigger] s[i])
}

/// A number of `b` binary digits lies between `2^(b-1)` and `2^b`.
pub proof fn lemma_bit_length(n: nat)
    requires
        n > 0,
    ensures
        bit_length(n) >= 1,
        pow2((bit_length(n) - 1) as nat) <= n < pow2(bit_length(n)),
    decreases n,
{
    lemma2_to64();
    if n == 1 {
        assert(bit_length(0) == 0);
    } else {
        lemma_bit_length(n / 2);
        lemma_pow2_unfold(bit_length(n / 2));
        lemma_pow2_unfold(bit_length(n));
    }
}

/// A number between `2^(b-1)` and `2^b` has `b` binary digits.
pub proof fn lemma_bit_length_unique(n: nat, b: nat)
    requires
        b >= 1,
        pow2((b - 1) as nat) <= n < pow2(b),
    ensures
        bit_length(n) == b,
{
    lemma_pow2_pos((b - 1) as nat);
    lemma_bit_length(n);
    let found = bit_length(n);
    if found < b {
        if found < b - 1 {
            lemma_pow2_strictly_increases(found, (b - 1) as nat);
        }
    } else if found > b {
        if found - 1 > b {
            lemma_pow2_strictly_increases(b, (found - 1) as nat);
        }
    }
}

/// The leading digits of a number other than zero are a mantissa.
pub proof fn lemma_significand(n: nat)
    requires
        n > 0,
    ensures
        TOP_BIT <= significand(n) < limit(),
{
    lemma_bit_length(n);
    lemma2_to64();
    lemma2_to64_rest();
    let b = bit_length(n);
    if b >= 64 {
        let k = (b - 64) as nat;
        let d = pow2(k);
        lemma_pow2_pos(k);
        lemma_pow2_adds(63, k);
        lemma_pow2_adds(64, k);
        lemma_div_is_ordered((pow2(63) * d) as int, n as int, d as int);
        lemma_div_multiples_vanish(pow2(63) as int, d as int);
        assert(n < d * pow2(64)) by (nonlinear_arith)
            requires
                n < pow2(64) * d,
        ;
        lemma_multiply_divide_lt(n as int, d as int, pow2(64) as int);
    } else {
        let k = (64 - b) as nat;
        let d = pow2(k);
        lemma_pow2_pos(k);
        lemma_pow2_adds((b - 1) as nat, k);
        lemma_pow2_adds(b, k);
        lemma_mul_inequality(pow2((b - 1) as nat) as int, n as int, d as int);
        lemma_mul_strict_inequality(n as int, pow2(b) as int, d as int);
    }
}

/// What `rounded` gives is well formed.
pub proof fn lemma_rounded_wf(negative: bool, n: nat, e: int)
    ensures
        rounded(negative, n, e).wf(),
{
    if n > 0 {
        lemma_significand(n);
    }
}

/// A value of at most 64 binary digits is not rounded to zero, unless its
/// exponent is among the 63 lowest.
pub proof fn lemma_rounded_nonzero(negative: bool, n: nat, e: int)
    requires
        n > 0,
        e - 63 >= i32::MIN,
    ensures
        rounded(negative, n, e).mantissa != 0,
{
    lemma_bit_length(n);
    lemma_significand(n);
}

/// A value whose leading 64 binary digits are `m`, followed by `k` more, is
/// rounded to `m * 2^(e + k)`.
pub proof fn lemma_rounded_leading(negative: bool, n: nat, e: int, m: nat, k: nat, rest: nat)
    requires
        TOP_BIT <= m < limit(),
        n == m * pow2(k) + rest,
        rest < pow2(k),
        i32::MIN <= e + k <= i32::MAX,
    ensures
        rounded(negative, n, e) == (Real { negative, mantissa: m as u64, exponent: (e + k) as i32 }),
{
    let d = pow2(k);
    lemma_pow2_pos(k);
    lemma2_to64();
    lemma2_to64_rest();
    lemma_pow2_adds(63, k);
    lemma_pow2_adds(64, k);
    assert(pow2(63) * d <= m * d) by (nonlinear_arith)
        requires
            pow2(63) <= m,
            d >= 0,
    ;
    assert(m * d + rest < pow2(64) * d) by (nonlinear_arith)
        requires
            m + 1 <= pow2(64),
            rest < d,
    ;
    lemma_bit_length_unique(n, 64 + k);
    lemma_fundamental_div_mod_converse_div(n as int, d as int, m as int, rest as int);
}

/// Two integer roots of one number are equal.
pub proof fn lemma_integer_root_unique(r: nat, s: nat, n: nat)
    requires
        is_integer_root(r, n),
        is_integer_root(s, n),
    ensures
        r == s,
{
    if r < s {
        assert((r + 1) * (r + 1) <= s * s) by (nonlinear_arith)
            requires
                r + 1 <= s,
        ;
    } else if s < r {
        assert((s + 1) * (s + 1) <= r * r) by (nonlinear_arith)
            requires
                s + 1 <= r,
        ;
    }
}

/// The sum of well-formed numbers is well formed.
pub proof fn lemma_sum_wf(a: Real, b: Real)
    requires
        a.wf(),
        b.wf(),
    ensures
        sum(a, b).wf(),
{
    if a.mantissa != 0 && b.mantissa != 0 {
        let e = if a.exponent <= b.exponent {
            a.exponent as int
        } else {
            b.exponent as int
        };
        let total = scaled(a, e) + scaled(b, e);
        lemma_rounded_wf(total < 0, (if total < 0 { -total } else { total }) as nat, e);
    }
}

/// The sum of two numbers does not depend on their order.
pub proof fn lemma_sum_commutative(a: Real, b: Real)
    requires
        a.wf(),
        b.wf(),
    ensures
        sum(a, b) == sum(b, a),
{
}

/// The product of two numbers does not depend on their order.
pub proof fn lemma_product_commutative(a: Real, b: Real)
    ensures
        product(a, b) == product(b, a),
{
    assert(a.mantissa * b.mantissa == b.mantissa * a.mantissa) by (nonlinear_arith);
}

/// A number and zero add up to the number.
pub proof fn lemma_sum_zero(a: Real)
    requires
        a.wf(),
    ensures
        sum(a, zero()) == a,
        sum(zero(), a) == a,
{
}

/// A number less itself is zero.
pub proof fn lemma_difference_of_equals(a: Real)
    requires
        a.wf(),
    ensures
        difference(a, a) == zero(),
{
}

/// The number with the opposite sign of the opposite sign is the number.
pub proof fn lemma_negation_twice(a: Real)
    ensures
        negation(negation(a)) == a,
{
}

/// A number times zero is zero.
pub proof fn lemma_product_zero(a: Real)
    ensures
        product(a, zero()) == zero(),
        product(zero(), a) == zero(),
{
    assert(a.mantissa * 0 == 0 && 0 * a.mantissa == 0);
}

/// A number other than zero, divided by itself, is one.
pub proof fn lemma_quotient_of_equals(a: Real)
    requires
        a.wf(),
        a.mantissa != 0,
    ensures
        quotient(a, a) == one(),
{
    lemma_one();
    lemma2_to64();
    let d = a.mantissa as int;
    assert((a.mantissa * limit()) / d == limit()) by {
        vstd::arithmetic::div_mod::lemma_div_multiples_vanish(limit() as int, d);
        assert(a.mantissa * limit() == limit() * d) by (nonlinear_arith)
            requires
                d == a.mantissa,
        ;
    }
    lemma_pow2_unfold(65);
    lemma_bit_length_unique(limit(), 65);
    assert(limit() / pow2(1) == TOP_BIT);
}

/// The number one has the lowest mantissa.
pub proof fn lemma_one()
    ensures
        one() == (Real { negative: false, mantissa: TOP_BIT, exponent: -63i32 }),
{
    assert(bit_length(1) == 1) by {
        assert(bit_length(0) == 0);
    }
    lemma2_to64_rest();
    assert(1 * pow2(63) == TOP_BIT);
}

/// A number times one is the number.
pub proof fn lemma_product_one(a: Real)
    requires
        a.wf(),
    ensures
        product(a, one()) == a,
        product(one(), a) == a,
{
    lemma_one();
    lemma_product_commutative(a, one());
    lemma2_to64_rest();
    if a.mantissa != 0 {
        lemma_rounded_leading(
            a.negative,
            (a.mantissa * TOP_BIT) as nat,
            a.exponent - 63,
            a.mantissa as nat,
            63,
            0,
        );
    } else {
        assert(a.mantissa * TOP_BIT == 0);
    }
}

/// The quotient of two numbers is their exact quotient truncated: times the
/// divisor it is at most the dividend, and the next greater mantissa times
/// the divisor is more. The exponent of the quotient is that of the dividend
/// less that of the divisor, less 64 or 63.
pub proof fn lemma_quotient_truncates(a: Real, b: Real)
    requires
        a.wf(),
        b.wf(),
        a.mantissa != 0,
        b.mantissa != 0,
        i32::MIN <= a.exponent - b.exponent - 64,
        a.exponent - b.exponent - 63 <= i32::MAX,
    ensures
        ({
            let q = quotient(a, b);
            let k = q.exponent - (a.exponent - b.exponent - 64);
            &&& q.negative == (a.negative != b.negative)
            &&& 0 <= k <= 1
            &&& q.mantissa * b.mantissa * pow2(k as nat) <= a.mantissa * limit()
            &&& a.mantissa * limit() < (q.mantissa + 1) * b.mantissa * pow2(k as nat)
        }),
{
    let x = (a.mantissa * limit()) as int;
    let d = b.mantissa as int;
    let n = x / d;
    lemma2_to64();
    lemma2_to64_rest();
    vstd::arithmetic::div_mod::lemma_fundamental_div_mod(x, d);
    vstd::arithmetic::div_mod::lemma_mod_bound(x, d);
    assert(n * d <= x < (n + 1) * d) by (nonlinear_arith)
        requires
            x == d * n + x % d,
            0 <= x % d < d,
    ;
    assert(x >= 0x8000_0000_0000_0000 * 0x1_0000_0000_0000_0000) by (nonlinear_arith)
        requires
            x == a.mantissa * 0x1_0000_0000_0000_0000,
            a.mantissa >= 0x8000_0000_0000_0000,
    ;
    assert(x < 0x1_0000_0000_0000_0000 * 0x1_0000_0000_0000_0000) by (nonlinear_arith)
        requires
            x == a.mantissa * 0x1_0000_0000_0000_0000,
            a.mantissa < 0x1_0000_0000_0000_0000,
    ;
    assert(n >= 0x8000_0000_0000_0000) by (nonlinear_arith)
        requires
            x < (n + 1) * d,
            x >= 0x8000_0000_0000_0000 * 0x1_0000_0000_0000_0000,
            0 < d < 0x1_0000_0000_0000_0000,
    ;
    assert(n < 0x2_0000_0000_0000_0000) by (nonlinear_arith)
        requires
            n * d <= x,
            x < 0x1_0000_0000_0000_0000 * 0x1_0000_0000_0000_0000,
            d >= 0x8000_0000_0000_0000,
    ;
    lemma_pow2_unfold(65);
    let q = quotient(a, b);
    assert(q == rounded(a.negative != b.negative, n as nat, a.exponent - b.exponent - 64));
    if n < 0x1_0000_0000_0000_0000 {
        lemma_bit_length_unique(n as nat, 64);
        assert(n / 1 == n);
        assert(significand(n as nat) == n);
        assert(q.mantissa == n);
        assert(q.exponent == a.exponent - b.exponent - 64);
        assert(q.mantissa * b.mantissa * pow2(0) == n * d) by (nonlinear_arith)
            requires
                q.mantissa == n,
                b.mantissa == d,
                pow2(0) == 1,
        ;
        assert((q.mantissa + 1) * b.mantissa * pow2(0) == (n + 1) * d) by (nonlinear_arith)
            requires
                q.mantissa == n,
                b.mantissa == d,
                pow2(0) == 1,
        ;
    } else {
        lemma_bit_length_unique(n as nat, 65);
        let m = n / 2;
        assert(significand(n as nat) == m);
        assert(q.mantissa == m);
        assert(q.exponent == a.exponent - b.exponent - 63);
        assert(q.mantissa * b.mantissa * pow2(1) == m * d * 2) by (nonlinear_arith)
            requires
                q.mantissa == m,
                b.mantissa == d,
                pow2(1) == 2,
        ;
        assert((q.mantissa + 1) * b.mantissa * pow2(1) == (m + 1) * d * 2) by (nonlinear_arith)
            requires
                q.mantissa == m,
                b.mantissa == d,
                pow2(1) == 2,
        ;
        assert(m * 2 <= n < (m + 1) * 2);
        assert(m * d * 2 <= x) by (nonlinear_arith)
            requires
                m * 2 <= n,
                n * d <= x,
                d >= 0,
        ;
        assert(x < (m + 1) * d * 2) by (nonlinear_arith)
            requires
                n + 1 <= (m + 1) * 2,
                x < (n + 1) * d,
                d >= 0,
        ;
    }
}

/// Of two well-formed numbers exactly one holds: the first is less, they
/// are equal, or the second is less.
pub proof fn lemma_precedes_total(a: Real, b: Real)
    requires
        a.wf(),
        b.wf(),
    ensures
        precedes(a, b) || a == b || precedes(b, a),
        !(precedes(a, b) && precedes(b, a)),
        !(precedes(a, b) && a == b),
{
}

/// The order of the numbers is that of their values: a number is less than
/// another one exactly if it less the other is negative. (With an exponent
/// among the 63 lowest a difference may vanish.)
pub proof fn lemma_precedes_is_negative_difference(a: Real, b: Real)
    requires
        a.wf(),
        b.wf(),
        a.exponent >= i32::MIN + 63,
        b.exponent >= i32::MIN + 63,
    ensures
        precedes(a, b) == difference(a, b).negative,
{
    if a.mantissa != 0 && b.mantissa != 0 {
        let e = if a.exponent <= b.exponent {
            a.exponent as int
        } else {
            b.exponent as int
        };
        let x = (a.mantissa * pow2((a.exponent - e) as nat)) as int;
        let y = (b.mantissa * pow2((b.exponent - e) as nat)) as int;
        lemma2_to64();
        if a.exponent < b.exponent {
            lemma_pow2_pos((b.exponent - e - 1) as nat);
            lemma_pow2_unfold((b.exponent - e) as nat);
            assert(x == a.mantissa) by (nonlinear_arith)
                requires
                    x == a.mantissa * pow2(0),
                    pow2(0) == 1,
            ;
            assert(y >= 0x1_0000_0000_0000_0000) by (nonlinear_arith)
                requires
                    y == b.mantissa * pow2((b.exponent - e) as nat),
                    pow2((b.exponent - e) as nat) >= 2,
                    b.mantissa >= 0x8000_0000_0000_0000,
            ;
        } else if a.exponent > b.exponent {
            lemma_pow2_pos((a.exponent - e - 1) as nat);
            lemma_pow2_unfold((a.exponent - e) as nat);
            assert(y == b.mantissa) by (nonlinear_arith)
                requires
                    y == b.mantissa * pow2(0),
                    pow2(0) == 1,
            ;
            assert(x >= 0x1_0000_0000_0000_0000) by (nonlinear_arith)
                requires
                    x == a.mantissa * pow2((a.exponent - e) as nat),
                    pow2((a.exponent - e) as nat) >= 2,
                    a.mantissa >= 0x8000_0000_0000_0000,
            ;
        } else {
            assert(x == a.mantissa && y == b.mantissa) by (nonlinear_arith)
                requires
                    x == a.mantissa * pow2(0),
                    y == b.mantissa * pow2(0),
                    pow2(0) == 1,
            ;
        }
        let total = scaled(a, e) + scaled(negation(b), e);
        assert(scaled(a, e) == if a.negative { -x } else { x });
        assert(scaled(negation(b), e) == if b.negative { y } else { -y });
        let size = (if total < 0 { -total } else { total }) as nat;
        if size > 0 {
            lemma_bit_length(size);
            lemma_significand(size);
        }
    }
}

/// The order of the numbers is transitive.
pub proof fn lemma_precedes_transitive(a: Real, b: Real, c: Real)
    requires
        a.wf(),
        b.wf(),
        c.wf(),
        precedes(a, b),
        precedes(b, c),
    ensures
        precedes(a, c),
{
}

/// A descending sequence of distinct numbers is strictly descending.
pub proof fn lemma_distinct_descending(s: Seq<Real>)
    requires
        all_wf(s),
        descending(s),
        s.no_duplicates(),
    ensures
        strictly_descending(s),
{
    assert forall|i: int, j: int| 0 <= i < j < s.len() implies precedes(
        #[trigger] s[j],
        #[trigger] s[i],
    ) by {
        lemma_precedes_total(s[i], s[j]);
    }
}

impl Real {
    /// A number other than zero has a mantissa of 64 binary digits, and zero
    /// is written in one way only.
    pub open spec fn wf(self) -> bool {
        if self.mantissa == 0 {
            !self.negative && self.exponent == 0
        } else {
            self.mantissa >= TOP_BIT
        }
    }

    /// The value `n * 2^e`, negated if `negative` holds, truncated to a
    /// number.
    pub fn round(negative: bool, n: u128, e: i64) -> (r: Real)
        requires
            -0x2_0000_0000 <= e <= 0x2_0000_0000,
        ensures
            r == rounded(negative, n as nat, e as int),
            r.wf(),
    {
        proof {
            lemma_rounded_wf(negative, n as nat, e as int);
        }
        if n == 0 {
            return Real { negative: false, mantissa: 0, exponent: 0 };
        }
        let mut m: u128 = n;
        let mut x: i64 = e;
        proof {
            lemma2_to64();
            lemma_bit_length(n as nat);
            lemma_pow2_adds(64, 64);
            if bit_length(n as nat) > 128 {
                if bit_length(n as nat) - 1 > 128 {
                    lemma_pow2_strictly_increases(128, (bit_length(n as nat) - 1) as nat);
                }
            }
        }
        proof {
            assert(n as nat / pow2(0) == n);
            assert(n * pow2(0) == n);
        }
        if n >= 0x1_0000_0000_0000_0000 {
            while m >= 0x1_0000_0000_0000_0000
                invariant
                    -0x2_0000_0000 <= e <= 0x2_0000_0000,
                    bit_length(n as nat) <= 128,
                    m >= 0x8000_0000_0000_0000,
                    e <= x <= e + 64,
                    m == n as nat / pow2((x - e) as nat),
                    bit_length(m as nat) + (x - e) == bit_length(n as nat),
                decreases m,
            {
                proof {
                    let c = (x - e) as nat;
                    lemma_pow2_unfold(c + 1);
                    lemma_pow2_pos(c);
                    lemma_div_denominator(n as int, pow2(c) as int, 2);
                    lemma_bit_length(m as nat);
                    lemma2_to64();
                    if bit_length(m as nat) <= 64 {
                        if bit_length(m as nat) < 64 {
                            lemma_pow2_strictly_increases(bit_length(m as nat), 64);
                        }
                    }
                }
                m = m / 2;
                x = x + 1;
            }
        } else {
            while m < 0x8000_0000_0000_0000
                invariant
                    -0x2_0000_0000 <= e <= 0x2_0000_0000,
                    0 < m < 0x1_0000_0000_0000_0000,
                    n > 0,
                    e - 64 <= x <= e,
                    m == n * pow2((e - x) as nat),
                    bit_length(m as nat) == bit_length(n as nat) + (e - x),
                decreases 0x1_0000_0000_0000_0000 - m,
            {
                proof {
                    let c = (e - x) as nat;
                    lemma_pow2_unfold(c + 1);
                    assert((n * pow2(c)) * 2 == n * (2 * pow2(c))) by (nonlinear_arith);
                    assert((m * 2) as nat / 2 == m);
                    lemma_bit_length(m as nat);
                    lemma_bit_length(n as nat);
                    lemma2_to64_rest();
                    if bit_length(m as nat) - 1 >= 63 {
                        if bit_length(m as nat) - 1 > 63 {
                            lemma_pow2_strictly_increases(63, (bit_length(m as nat) - 1) as nat);
                        }
                    }
                }
                m = m * 2;
                x = x - 1;
            }
        }
        proof {
            lemma2_to64();
            lemma2_to64_rest();
            lemma_bit_length_unique(m as nat, 64);
        }
        if x > 0x7fff_ffff {
            Real { negative, mantissa: 0xffff_ffff_ffff_ffff, exponent: 0x7fff_ffff }
        } else if x < -0x8000_0000 {
            Real { negative: false, mantissa: 0, exponent: 0 }
        } else {
            Real { negative, mantissa: m as u64, exponent: x as i32 }
        }
    }

    /// The number zero.
    pub fn zero() -> (r: Real)
        ensures
            r == zero(),
            r.wf(),
    {
        Real { negative: false, mantissa: 0, exponent: 0 }
    }

    /// The number of a natural number.
    pub fn from_integer(n: u64) -> (r: Real)
        ensures
            r == rounded(false, n as nat, 0),
            r.wf(),
    {
        Real::round(false, n as u128, 0)
    }

    /// The ratio of a circle's circumference to its diameter.
    pub fn pi() -> (r: Real)
        ensures
            r == pi(),
            r.wf(),
    {
        Real { negative: false, mantissa: 0xC90F_DAA2_2168_C234, exponent: -62 }
    }

    /// The base of the natural logarithm.
    pub fn e() -> (r: Real)
        ensures
            r == e(),
            r.wf(),
    {
        Real { negative: false, mantissa: 0xADF8_5458_A2BB_4A9A, exponent: -62 }
    }

    /// Whether the number is zero.
    pub fn is_zero(&self) -> (r: bool)
        ensures
            r == (self.mantissa == 0),
    {
        self.mantissa == 0
    }

    /// Whether the number is below zero.
    pub fn is_negative(&self) -> (r: bool)
        ensures
            r == self.negative,
    {
        self.negative
    }

    /// The number with the opposite sign.
    pub fn negated(self) -> (r: Real)
        requires
            self.wf(),
        ensures
            r == negation(self),
            r.wf(),
    {
        if self.mantissa == 0 {
            self
        } else {
            Real { negative: !self.negative, mantissa: self.mantissa, exponent: self.exponent }
        }
    }

    /// The product of two numbers.
    pub fn times(self, other: Real) -> (r: Real)
        requires
            self.wf(),
            other.wf(),
        ensures
            r == product(self, other),
            r.wf(),
    {
        assert(self.mantissa * other.mantissa <= 0xffff_ffff_ffff_ffff * 0xffff_ffff_ffff_ffff)
            by (nonlinear_arith)
            requires
                self.mantissa <= 0xffff_ffff_ffff_ffff,
                other.mantissa <= 0xffff_ffff_ffff_ffff,
        ;
        Real::round(
            self.negative != other.negative,
            (self.mantissa as u128) * (other.mantissa as u128),
            self.exponent as i64 + other.exponent as i64,
        )
    }

    /// The quotient of this number by a number other than zero.
    pub fn over(self, other: Real) -> (r: Real)
        requires
            self.wf(),
            other.wf(),
            other.mantissa != 0,
        ensures
            r == quotient(self, other),
            r.wf(),
    {
        let scaled: u128 = (self.mantissa as u128) * 0x1_0000_0000_0000_0000;
        Real::round(
            self.negative != other.negative,
            scaled / (other.mantissa as u128),
            self.exponent as i64 - other.exponent as i64 - 64,
        )
    }

    /// The sum of two numbers.
    pub fn plus(self, other: Real) -> (r: Real)
        requires
            self.wf(),
            other.wf(),
        ensures
            r == sum(self, other),
            r.wf(),
    {
        if self.mantissa == 0 {
            return other;
        }
        if other.mantissa == 0 {
            return self;
        }
        let high: Real = if self.exponent >= other.exponent { self } else { other };
        let low: Real = if self.exponent >= other.exponent { other } else { self };
        let distance: u64 = (high.exponent as i64 - low.exponent as i64) as u64;
        proof {
            lemma_sum_wf(self, other);
            lemma2_to64();
            assert(low.mantissa * pow2(0) == low.mantissa);
        }
        if distance >= 64 {
            return plus_distant(high, low);
        }
        let factor: u128 = power_of_two(distance);
        proof {
            lemma2_to64_rest();
            if distance < 63 {
                lemma_pow2_strictly_increases(distance as nat, 63);
            }
            assert(high.mantissa * factor <= 0xffff_ffff_ffff_ffff * 0x8000_0000_0000_0000)
                by (nonlinear_arith)
                requires
                    high.mantissa <= 0xffff_ffff_ffff_ffff,
                    0 <= factor <= 0x8000_0000_0000_0000,
            ;
        }
        let h: u128 = (high.mantissa as u128) * factor;
        let l: u128 = low.mantissa as u128;
        if high.negative == low.negative {
            Real::round(high.negative, h + l, low.exponent as i64)
        } else if h >= l {
            Real::round(high.negative, h - l, low.exponent as i64)
        } else {
            Real::round(low.negative, l - h, low.exponent as i64)
        }
    }

    /// The difference of two numbers.
    pub fn minus(self, other: Real) -> (r: Real)
        requires
            self.wf(),
            other.wf(),
        ensures
            r == difference(self, other),
            r.wf(),
    {
        self.plus(other.negated())
    }

    /// The square root of a number that is not negative.
    pub fn sqrt(self) -> (r: Real)
        requires
            self.wf(),
            !self.negative,
        ensures
            r == square_root(self),
            r.wf(),
    {
        if self.mantissa == 0 {
            return Real { negative: false, mantissa: 0, exponent: 0 };
        }
        let shifted: u64 = (self.exponent as i64 + 0x8000_0000) as u64;
        if shifted % 2 == 0 {
            let root: u128 = integer_sqrt((self.mantissa as u128) * 0x1_0000_0000_0000_0000);
            let half: u64 = shifted / 2;
            Real::round(false, root, half as i64 - 0x4000_0000 - 32)
        } else {
            let root: u128 = integer_sqrt((self.mantissa as u128) * 0x8000_0000_0000_0000);
            let half: u64 = (shifted + 1) / 2;
            Real::round(false, root, half as i64 - 0x4000_0000 - 32)
        }
    }

    /// Whether this number is less than the other.
    pub fn lt(&self, other: &Real) -> (r: bool)
        ensures
            r == precedes(*self, *other),
    {
        if self.negative != other.negative {
            self.negative
        } else if self.negative {
            is_smaller(other, self)
        } else {
            is_smaller(self, other)
        }
    }
}

/// Whether the magnitude of `a` is below that of `b`.
fn is_smaller(a: &Real, b: &Real) -> (r: bool)
    ensures
        r == smaller(*a, *b),
{
    if a.mantissa == 0 {
        b.mantissa != 0
    } else if b.mantissa == 0 {
        false
    } else {
        a.exponent < b.exponent || (a.exponent == b.exponent && a.mantissa < b.mantissa)
    }
}

/// The power `2^d`.
fn power_of_two(d: u64) -> (r: u128)
    requires
        d <= 63,
    ensures
        r == pow2(d as nat),
{
    let mut r: u128 = 1;
    let mut i: u64 = 0;
    proof {
        lemma2_to64();
    }
    while i < d
        invariant
            i <= d <= 63,
            r == pow2(i as nat),
            r <= 0x8000_0000_0000_0000,
        decreases d - i,
    {
        proof {
            lemma_pow2_unfold((i + 1) as nat);
            lemma2_to64_rest();
            if i + 1 < 63 {
                lemma_pow2_strictly_increases((i + 1) as nat, 63);
            }
        }
        r = r * 2;
        i = i + 1;
    }
    r
}

/// The sum of two numbers other than zero whose exponents differ by 64 or
/// more: the one with the higher exponent, or the number next to it toward
/// zero, if the other one takes away from it.
fn plus_distant(high: Real, low: Real) -> (r: Real)
    requires
        high.wf(),
        low.wf(),
        high.mantissa != 0,
        low.mantissa != 0,
        high.exponent - low.exponent >= 64,
    ensures
        r == sum(high, low),
        r == sum(low, high),
{
    let ghost k = (high.exponent - low.exponent) as nat;
    let ghost d = pow2(k);
    let ghost e = low.exponent as int;
    let ghost h = high.mantissa as nat;
    let ghost l = low.mantissa as nat;
    proof {
        lemma2_to64();
        lemma2_to64_rest();
        if k > 64 {
            lemma_pow2_strictly_increases(64, k);
        }
        assert(low.mantissa * pow2(0) == low.mantissa);
        assert(h * d >= 0x8000_0000_0000_0000 * d) by (nonlinear_arith)
            requires
                h >= 0x8000_0000_0000_0000,
                d >= 0,
        ;
    }
    if high.negative == low.negative {
        proof {
            lemma_rounded_leading(high.negative, h * d + l, e, h, k, l);
        }
        high
    } else if high.mantissa > TOP_BIT {
        proof {
            assert(h * d - l == (h - 1) * d + (d - l)) by (nonlinear_arith);
            lemma_rounded_leading(
                high.negative,
                (h * d - l) as nat,
                e,
                (h - 1) as nat,
                k,
                (d - l) as nat,
            );
        }
        Real { negative: high.negative, mantissa: high.mantissa - 1, exponent: high.exponent }
    } else {
        let ghost half = pow2((k - 1) as nat);
        proof {
            lemma_pow2_unfold(k);
            if k - 1 > 64 {
                lemma_pow2_strictly_increases(64, (k - 1) as nat);
            }
        }
        if high.exponent as i64 - low.exponent as i64 == 64 && low.mantissa > TOP_BIT {
            proof {
                assert(h * d - l == 0xffff_ffff_ffff_fffe * half + (0x1_0000_0000_0000_0000 - l))
                    by (nonlinear_arith)
                    requires
                        h == 0x8000_0000_0000_0000,
                        d == 2 * half,
                        half == 0x8000_0000_0000_0000,
                ;
                lemma_rounded_leading(
                    high.negative,
                    (h * d - l) as nat,
                    e,
                    0xffff_ffff_ffff_fffe,
                    (k - 1) as nat,
                    (0x1_0000_0000_0000_0000 - l) as nat,
                );
            }
            Real {
                negative: high.negative,
                mantissa: 0xffff_ffff_ffff_fffe,
                exponent: high.exponent - 1,
            }
        } else {
            proof {
                assert(h * d - l == 0xffff_ffff_ffff_ffff * half + (half - l)) by (nonlinear_arith)
                    requires
                        h == 0x8000_0000_0000_0000,
                        d == 2 * half,
                ;
                lemma_rounded_leading(
                    high.negative,
                    (h * d - l) as nat,
                    e,
                    0xffff_ffff_ffff_ffff,
                    (k - 1) as nat,
                    (half - l) as nat,
                );
            }
            Real {
                negative: high.negative,
                mantissa: 0xffff_ffff_ffff_ffff,
                exponent: high.exponent - 1,
            }
        }
    }
}

/// The integer part of the square root of `n`.
fn integer_sqrt(n: u128) -> (r: u128)
    ensures
        r == integer_root(n as nat),
        r < 0x1_0000_0000_0000_0000,
{
    let mut low: u128 = 0;
    let mut high: u128 = 0x1_0000_0000_0000_0000;
    assert(high * high == 0x1_0000_0000_0000_0000_0000_0000_0000_0000);
    while high - low > 1
        invariant
            low < high <= 0x1_0000_0000_0000_0000,
            low * low <= n < high * high,
        decreases high - low,
    {
        let middle: u128 = low + (high - low) / 2;
        assert(middle * middle <= 0xffff_ffff_ffff_ffff * 0xffff_ffff_ffff_ffff) by (nonlinear_arith)
            requires
                0 <= middle <= 0xffff_ffff_ffff_ffff,
        ;
        if middle * middle <= n {
            low = middle;
        } else {
            high = middle;
        }
    }
    proof {
        assert(is_integer_root(low as nat, n as nat));
        lemma_integer_root_unique(low as nat, integer_root(n as nat), n as nat);
    }
    low
}

/// The numbers in descending order.
pub fn sorted_descending(numbers: &Vec<Real>) -> (r: Vec<Real>)
    requires
        all_wf(numbers@),
    ensures
        descending(r@),
        all_wf(r@),
        r@.to_multiset() == numbers@.to_multiset(),
{
    let mut r: Vec<Real> = Vec::new();
    let mut i: usize = 0;
    assert(r@ == numbers@.take(0));
    while i < numbers.len()
        invariant
            i <= numbers.len(),
            all_wf(numbers@),
            all_wf(r@),
            descending(r@),
            r@.to_multiset() == numbers@.take(i as int).to_multiset(),
        decreases numbers.len() - i,
    {
        let x: Real = numbers[i];
        let mut p: usize = 0;
        while p < r.len() && !r[p].lt(&x)
            invariant
                p <= r.len(),
                forall|k: int| 0 <= k < p ==> !precedes(#[trigger] r@[k], x),
            decreases r.len() - p,
        {
            p = p + 1;
        }
        let ghost before = r@;
        r.insert(p, x);
        proof {
            vstd::seq_lib::to_multiset_insert(before, p as int, x);
            assert(numbers@.take(i + 1) == numbers@.take(i as int).push(x));
            vstd::seq_lib::to_multiset_build(numbers@.take(i as int), x);
            let after = r@;
            assert forall|k: int| 0 <= k < after.len() implies (#[trigger] after[k]).wf() by {
                if k < p {
                    assert(after[k] == before[k]);
                } else if k > p {
                    assert(after[k] == before[k - 1]);
                }
            }
            assert forall|a: int, b: int| 0 <= a < b < after.len() implies !precedes(
                #[trigger] after[a],
                #[trigger] after[b],
            ) by {
                if b < p {
                    assert(after[a] == before[a] && after[b] == before[b]);
                } else if b == p {
                    assert(after[a] == before[a]);
                } else if a == p {
                    assert(after[b] == before[b - 1]);
                    assert(precedes(before[p as int], x));
                    if p as int != b - 1 {
                        assert(!precedes(before[p as int], before[b - 1]));
                    }
                    lemma_precedes_total(before[p as int], before[b - 1]);
                    lemma_precedes_total(before[b - 1], x);
                    if precedes(before[b - 1], before[p as int]) {
                        lemma_precedes_transitive(before[b - 1], before[p as int], x);
                    }
                } else if a < p {
                    assert(after[a] == before[a] && after[b] == before[b - 1]);
                } else {
                    assert(after[a] == before[a - 1] && after[b] == before[b - 1]);
                }
            }
        }
        i = i + 1;
    }
    assert(numbers@.take(i as int) == numbers@);
    r
}

} // verus!
