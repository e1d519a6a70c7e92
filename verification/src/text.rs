//! Strings made from characters, and numbers written in decimal digits.

use vstd::prelude::*;
use vstd::std_specs::iter::IteratorSpec;
use vstd::string::{axiom_spec_iter, next_postcondition, StrSliceExecFns};

verus! {

/// The character of a digit below ten.
pub open spec fn digit_char(d: nat) -> char {
    if d == 0 {
        '0'
    } else if d == 1 {
        '1'
    } else if d == 2 {
        '2'
    } else if d == 3 {
        '3'
    } else if d == 4 {
        '4'
    } else if d == 5 {
        '5'
    } else if d == 6 {
        '6'
    } else if d == 7 {
        '7'
    } else if d == 8 {
        '8'
    } else {
        '9'
    }
}

/// The decimal digits of a natural number, without leading zeros.
pub open spec fn natural_digits(n: nat) -> Seq<char>
    decreases n,
{
    if n < 10 {
        seq![digit_char(n)]
    } else {
        natural_digits(n / 10).push(digit_char(n % 10))
    }
}

/// The decimal notation of an integer, with a minus sign if it is negative.
pub open spec fn integer_digits(n: int) -> Seq<char> {
    if n < 0 {
        seq!['-'] + natural_digits((-n) as nat)
    } else {
        natural_digits(n as nat)
    }
}

/// The character of a digit below ten.
fn digit_to_char(d: u64) -> (c: char)
    requires
        d < 10,
    ensures
        c == digit_char(d as nat),
{
    if d == 0 {
        '0'
    } else if d == 1 {
        '1'
    } else if d == 2 {
        '2'
    } else if d == 3 {
        '3'
    } else if d == 4 {
        '4'
    } else if d == 5 {
        '5'
    } else if d == 6 {
        '6'
    } else if d == 7 {
        '7'
    } else if d == 8 {
        '8'
    } else {
        '9'
    }
}

/// Writes a natural number in decimal digits.
fn natural_to_chars(n: u64) -> (r: Vec<char>)
    ensures
        r@ == natural_digits(n as nat),
    decreases n,
{
    if n < 10 {
        let mut r: Vec<char> = Vec::new();
        r.push(digit_to_char(n));
        assert(r@ == seq![digit_char(n as nat)]);
        r
    } else {
        let mut r: Vec<char> = natural_to_chars(n / 10);
        r.push(digit_to_char(n % 10));
        r
    }
}

/// Writes an integer in decimal notation.
pub fn integer_to_chars(n: i32) -> (r: Vec<char>)
    ensures
        r@ == integer_digits(n as int),
{
    if n < 0 {
        let magnitude: u64 = (-(n as i64)) as u64;
        let mut r: Vec<char> = Vec::new();
        r.push('-');
        let mut digits: Vec<char> = natural_to_chars(magnitude);
        r.append(&mut digits);
        assert(r@ == seq!['-'] + natural_digits(magnitude as nat));
        r
    } else {
        natural_to_chars(n as u64)
    }
}

/// The characters of a text.
pub fn characters(text: &str) -> (r: Vec<char>)
    ensures
        r@ == text@,
{
    broadcast use axiom_spec_iter, next_postcondition;

    let length: usize = text.unicode_len();
    let mut r: Vec<char> = Vec::new();
    let mut rest = text.chars();
    let mut i: usize = 0;
    while i < length
        invariant
            i <= length,
            length == text@.len(),
            r@.len() == i,
            r@ + rest.remaining() == text@,
            rest.obeys_prophetic_iter_laws(),
        decreases length - i,
    {
        let ghost before = rest.remaining();
        match rest.next() {
            Some(c) => {
                r.push(c);
                assert(r@ + rest.remaining() =~= text@) by {
                    assert(before =~= seq![c] + before.drop_first());
                }
            },
            None => {},
        }
        i = i + 1;
    }
    assert(r@ =~= text@);
    r
}

/// Collects characters into a string with `String::from_iter`: the string
/// holds the characters of the vector, in their order.
#[verifier::external_body]
pub(crate) fn string_of(chars: &Vec<char>) -> (s: String)
    ensures
        s@ == chars@,
{
    String::from_iter(chars.iter())
}

} // verus!
