use equation_solver::decimal::parse_decimal;
use equation_solver::number::{sorted_descending, Real};

fn value(number: &Real) -> f64 {
    let magnitude = (number.mantissa as f64 / 2f64.powi(63)) * 2f64.powi(number.exponent + 63);
    if number.negative {
        -magnitude
    } else {
        magnitude
    }
}

fn whole(n: i64) -> Real {
    let magnitude = Real::from_integer(n.unsigned_abs());
    if n < 0 {
        magnitude.negated()
    } else {
        magnitude
    }
}

fn well_formed(number: &Real) -> bool {
    if number.mantissa == 0 {
        !number.negative && number.exponent == 0
    } else {
        number.mantissa >= 0x8000_0000_0000_0000
    }
}

fn close(actual: f64, expected: f64) -> bool {
    (actual - expected).abs() <= 1e-15 * expected.abs().max(1.0)
}

fn parse(text: &str) -> Option<Real> {
    parse_decimal(&text.chars().collect())
}

#[test]
fn integers_are_exact() {
    for n in [0u64, 1, 2, 3, 10, 255, 1 << 40, u64::MAX >> 11] {
        let number = Real::from_integer(n);
        assert!(well_formed(&number));
        assert_eq!(value(&number), n as f64);
    }
    assert_eq!(
        Real::from_integer(1),
        Real { negative: false, mantissa: 0x8000_0000_0000_0000, exponent: -63 }
    );
    assert_eq!(
        Real::from_integer(u64::MAX),
        Real { negative: false, mantissa: u64::MAX, exponent: 0 }
    );
    assert_eq!(Real::from_integer(0), Real::zero());
}

#[test]
fn rounding_truncates_toward_zero() {
    assert_eq!(
        Real::round(false, (1u128 << 64) + 1, 0),
        Real { negative: false, mantissa: 0x8000_0000_0000_0000, exponent: 1 }
    );
    assert_eq!(
        Real::round(true, (1u128 << 65) - 1, -3),
        Real { negative: true, mantissa: u64::MAX, exponent: -2 }
    );
    assert_eq!(Real::round(true, 0, 17), Real::zero());
}

#[test]
fn arithmetic_on_integers_is_exact() {
    assert_eq!(whole(3).times(whole(5)), whole(15));
    assert_eq!(whole(-3).times(whole(5)), whole(-15));
    assert_eq!(whole(-3).times(whole(-5)), whole(15));
    assert_eq!(whole(6).over(whole(3)), whole(2));
    assert_eq!(whole(-6).over(whole(3)), whole(-2));
    assert_eq!(whole(1).plus(whole(2)), whole(3));
    assert_eq!(whole(1).minus(whole(3)), whole(-2));
    assert_eq!(whole(7).minus(whole(7)), Real::zero());
    assert_eq!(whole(5).plus(whole(-7)), whole(-2));
    assert_eq!(whole(0).plus(whole(4)), whole(4));
    assert_eq!(whole(4).times(whole(0)), Real::zero());
    assert_eq!(whole(0).over(whole(4)), Real::zero());
    assert_eq!(whole(9).sqrt(), whole(3));
    assert_eq!(whole(4).sqrt(), whole(2));
    assert_eq!(whole(2).sqrt().times(whole(0)), Real::zero());
    assert_eq!(whole(0).sqrt(), Real::zero());
    assert_eq!(whole(0).negated(), Real::zero());
    assert_eq!(whole(3).negated().negated(), whole(3));
}

#[test]
fn arithmetic_agrees_with_floating_point() {
    let samples: [(i64, i64); 9] =
        [(1, 3), (2, 7), (-5, 9), (22, 7), (1, 1000), (-123456, 789), (1, 1), (7, -3), (1000001, 1000000)];
    for (a, b) in samples {
        for (c, d) in samples {
            let x = whole(a).over(whole(b));
            let y = whole(c).over(whole(d));
            let (p, q) = (a as f64 / b as f64, c as f64 / d as f64);
            assert!(well_formed(&x) && well_formed(&y));
            assert!(close(value(&x), p));
            assert!(close(value(&x.plus(y)), p + q), "{p} + {q}");
            assert!(close(value(&x.minus(y)), p - q), "{p} - {q}");
            assert!(close(value(&x.times(y)), p * q), "{p} * {q}");
            assert!(close(value(&x.over(y)), p / q), "{p} / {q}");
            assert_eq!(x.plus(y), y.plus(x));
            assert_eq!(x.times(y), y.times(x));
            assert_eq!(x.lt(&y), p < q);
            if p >= 0.0 {
                assert!(close(value(&x.sqrt()), p.sqrt()));
            }
        }
    }
}

#[test]
fn sums_are_truncated_toward_zero() {
    let one = Real::from_integer(1);
    let next_below_one = Real { negative: false, mantissa: u64::MAX, exponent: -64 };
    let tiny = Real { negative: false, mantissa: 0x8000_0000_0000_0000, exponent: -127 };
    assert_eq!(one.minus(tiny), next_below_one);
    let below = Real { negative: false, mantissa: 0x8000_0000_0000_0000, exponent: -200 };
    assert_eq!(one.plus(below), one);
    assert_eq!(below.plus(one), one);
    assert_eq!(one.minus(below), next_below_one);
    assert_eq!(below.minus(one), next_below_one.negated());
    assert_eq!(one.negated().plus(below), next_below_one.negated());
    assert_eq!(one.negated().minus(below), one.negated());

    let three = Real::from_integer(3);
    assert_eq!(
        three.minus(below),
        Real { negative: false, mantissa: 0xbfff_ffff_ffff_ffff, exponent: -62 }
    );
    let at_64 = Real { negative: false, mantissa: 0x8000_0000_0000_0000, exponent: -127 };
    let above_64 = Real { negative: false, mantissa: 0x8000_0000_0000_0001, exponent: -127 };
    assert_eq!(at_64.exponent, one.exponent - 64);
    assert_eq!(one.minus(at_64), next_below_one);
    assert_eq!(
        one.minus(above_64),
        Real { negative: false, mantissa: u64::MAX - 1, exponent: -64 }
    );
    let at_63 = Real { negative: false, mantissa: 0xc000_0000_0000_0000, exponent: -126 };
    assert_eq!(
        one.plus(at_63),
        Real { negative: false, mantissa: 0x8000_0000_0000_0001, exponent: -63 }
    );
    assert_eq!(
        one.minus(at_63),
        Real { negative: false, mantissa: u64::MAX - 2, exponent: -64 }
    );
}

#[test]
fn magnitudes_out_of_range_saturate_or_vanish() {
    let huge = Real { negative: false, mantissa: 0x8000_0000_0000_0000, exponent: i32::MAX };
    let tiny = Real { negative: true, mantissa: 0x8000_0000_0000_0000, exponent: i32::MIN };
    assert_eq!(
        huge.times(huge),
        Real { negative: false, mantissa: u64::MAX, exponent: i32::MAX }
    );
    assert_eq!(
        huge.over(tiny),
        Real { negative: true, mantissa: u64::MAX, exponent: i32::MAX }
    );
    assert_eq!(tiny.times(tiny), Real::zero());
    assert_eq!(tiny.over(huge), Real::zero());
}

#[test]
fn constants_are_those_of_the_circle_and_the_logarithm() {
    assert!(close(value(&Real::pi()), std::f64::consts::PI));
    assert!(close(value(&Real::e()), std::f64::consts::E));
    assert!(well_formed(&Real::pi()) && well_formed(&Real::e()));
}

#[test]
fn order_is_that_of_the_values() {
    let numbers = [whole(-7), whole(-1), whole(-1).over(whole(3)), whole(0), whole(1).over(whole(1000)), whole(1), whole(2), whole(1000)];
    for (i, a) in numbers.iter().enumerate() {
        for (j, b) in numbers.iter().enumerate() {
            assert_eq!(a.lt(b), i < j);
        }
    }
    assert!(!whole(0).is_negative() && whole(0).is_zero());
    assert!(whole(-1).is_negative() && !whole(-1).is_zero());
}

#[test]
fn sorting_is_descending_and_keeps_every_number() {
    let numbers = vec![whole(3), whole(-2), whole(7), whole(3), whole(0), whole(-9)];
    assert_eq!(
        sorted_descending(&numbers),
        vec![whole(7), whole(3), whole(3), whole(0), whole(-2), whole(-9)]
    );
    assert_eq!(sorted_descending(&Vec::new()), Vec::new());
}

#[test]
fn decimal_notation_is_read() {
    assert_eq!(parse("0"), Some(Real::zero()));
    assert_eq!(parse("7"), Some(whole(7)));
    assert_eq!(parse("007"), Some(whole(7)));
    assert_eq!(parse("1234567890"), Some(whole(1234567890)));
    assert_eq!(parse("1.5"), Some(whole(3).over(whole(2))));
    assert_eq!(parse("5."), Some(whole(5)));
    assert_eq!(parse(".5"), Some(whole(1).over(whole(2))));
    assert_eq!(parse("0.25"), Some(whole(1).over(whole(4))));
    assert!(close(value(&parse("3.14159").unwrap()), 3.14159));
    assert!(close(value(&parse("0.001").unwrap()), 0.001));
    assert!(close(
        value(&parse("123456789012345678901234567890").unwrap()),
        123456789012345678901234567890.0
    ));
}

#[test]
fn other_texts_are_no_numbers() {
    for text in ["", ".", "1.2.3", "..", "12a", "a12", "1e5", "-1", "+1", "1 ", "inf", "nan", "x"] {
        assert_eq!(parse(text), None, "{text:?}");
    }
}

struct Sequence(u64);

impl Sequence {
    fn next(&mut self) -> u64 {
        self.0 = self.0.wrapping_mul(6364136223846793005).wrapping_add(1442695040888963407);
        let mut x = self.0;
        x ^= x >> 33;
        x = x.wrapping_mul(0xff51afd7ed558ccd);
        x ^= x >> 29;
        x
    }

    fn number(&mut self, spread: i32) -> Real {
        let bits = self.next();
        let mantissa = match bits % 5 {
            0 => 0x8000_0000_0000_0000,
            1 => u64::MAX,
            2 => 0x8000_0000_0000_0000 | (bits >> 40),
            _ => self.next() | 0x8000_0000_0000_0000,
        };
        let exponent = (self.next() % (2 * spread as u64 + 1)) as i32 - spread - 63;
        Real { negative: self.next() % 2 == 0, mantissa, exponent }
    }
}

fn truncated(negative: bool, mut n: u128, mut exponent: i32) -> Real {
    if n == 0 {
        return Real::zero();
    }
    while n >= 1 << 64 {
        n >>= 1;
        exponent += 1;
    }
    while n < 1 << 63 {
        n <<= 1;
        exponent -= 1;
    }
    Real { negative, mantissa: n as u64, exponent }
}

#[test]
fn product_is_the_exact_product_truncated() {
    let mut sequence = Sequence(1);
    for _ in 0..2000 {
        let (a, b) = (sequence.number(40), sequence.number(40));
        let exact = a.mantissa as u128 * b.mantissa as u128;
        let expected = truncated(a.negative != b.negative, exact, a.exponent + b.exponent);
        assert_eq!(a.times(b), expected);
        assert_eq!(b.times(a), expected);
    }
}

#[test]
fn quotient_is_the_exact_quotient_truncated() {
    let mut sequence = Sequence(2);
    for _ in 0..2000 {
        let (a, b) = (sequence.number(40), sequence.number(40));
        let exact = ((a.mantissa as u128) << 64) / b.mantissa as u128;
        let expected = truncated(a.negative != b.negative, exact, a.exponent - b.exponent - 64);
        let quotient = a.over(b);
        assert_eq!(quotient, expected);
        let shift = (quotient.exponent - (a.exponent - b.exponent - 64)) as u32;
        assert!(shift <= 1);
        let dividend = (a.mantissa as u128) << (64 - shift);
        assert!(quotient.mantissa as u128 * b.mantissa as u128 <= dividend);
        assert!((quotient.mantissa as u128 + 1).checked_mul(b.mantissa as u128).map_or(true, |more| more > dividend));
    }
}

#[test]
fn sum_is_the_exact_sum_truncated() {
    let mut sequence = Sequence(3);
    for round in 0..4000 {
        let (a, b) = (sequence.number(30), sequence.number(if round % 2 == 0 { 30 } else { 2 }));
        let (high, low) = if a.exponent >= b.exponent { (a, b) } else { (b, a) };
        let distance = (high.exponent - low.exponent) as u32;
        if distance > 63 {
            continue;
        }
        let h = (high.mantissa as u128) << distance;
        let l = low.mantissa as u128;
        let expected = if high.negative == low.negative {
            truncated(high.negative, h + l, low.exponent)
        } else if h >= l {
            truncated(high.negative, h - l, low.exponent)
        } else {
            truncated(low.negative, l - h, low.exponent)
        };
        assert_eq!(a.plus(b), expected);
        assert_eq!(b.plus(a), expected);
        assert_eq!(a.minus(b.negated()), expected);
    }
}

#[test]
fn distant_sum_is_the_exact_sum_truncated() {
    let mut sequence = Sequence(4);
    for _ in 0..2000 {
        let high = sequence.number(10);
        let mut low = sequence.number(10);
        let distance = 64 + (sequence.next() % 3) as i32;
        low.exponent = high.exponent - distance;
        let sum = high.plus(low);
        assert_eq!(sum, low.plus(high));
        if high.negative == low.negative {
            assert_eq!(sum, high);
            continue;
        }
        // The exact difference, with the far digits of the lower number kept as one digit that
        // says whether anything is taken away below the digits that are written out.
        let kept = 60u32;
        let h = (high.mantissa as u128) << kept;
        let shift = distance as u32 - kept;
        let l = ((low.mantissa as u128) >> shift) + (((low.mantissa as u128) & ((1 << shift) - 1)) != 0) as u128;
        let expected = truncated(high.negative, h - l, high.exponent - kept as i32);
        assert_eq!(sum, expected);
    }
}

#[test]
fn square_root_is_the_exact_square_root_truncated() {
    let mut sequence = Sequence(5);
    for _ in 0..2000 {
        let mut a = sequence.number(40);
        a.negative = false;
        let root = a.sqrt();
        let even = a.exponent.rem_euclid(2) == 0;
        let radicand = (a.mantissa as u128) << if even { 64 } else { 63 };
        assert_eq!(root.exponent, (a.exponent - if even { 64 } else { 63 }) / 2);
        assert!(!root.negative && root.mantissa >= 0x8000_0000_0000_0000);
        let r = root.mantissa as u128;
        assert!(r * r <= radicand);
        assert!((r + 1).checked_mul(r + 1).map_or(true, |more| more > radicand));
    }
}

#[test]
fn order_agrees_with_the_sign_of_the_difference() {
    let mut sequence = Sequence(6);
    for round in 0..4000 {
        let (a, b) = (sequence.number(3), sequence.number(if round % 2 == 0 { 3 } else { 70 }));
        assert_eq!(a.lt(&b), a.minus(b).is_negative());
        assert_eq!(b.lt(&a), b.minus(a).is_negative());
        assert_eq!(a == b, a.minus(b).is_zero());
        assert!(!a.lt(&a));
    }
}
