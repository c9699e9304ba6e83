//! Numbers as text: decimal and hexadecimal digits, and the form in which an
//! address is printed.

use vstd::prelude::*;

verus! {

/// `String::push` appends one character.
pub assume_specification[ String::push ](text: &mut String, c: char)
    ensures
        final(text)@ == old(text)@.push(c),
;

/// The character for one digit; digits from ten on are letters, upper case
/// where `upper` is set.
pub open spec fn digit_char(digit: nat, upper: bool) -> char {
    if digit == 0 {
        '0'
    } else if digit == 1 {
        '1'
    } else if digit == 2 {
        '2'
    } else if digit == 3 {
        '3'
    } else if digit == 4 {
        '4'
    } else if digit == 5 {
        '5'
    } else if digit == 6 {
        '6'
    } else if digit == 7 {
        '7'
    } else if digit == 8 {
        '8'
    } else if digit == 9 {
        '9'
    } else if digit == 10 {
        if upper { 'A' } else { 'a' }
    } else if digit == 11 {
        if upper { 'B' } else { 'b' }
    } else if digit == 12 {
        if upper { 'C' } else { 'c' }
    } else if digit == 13 {
        if upper { 'D' } else { 'd' }
    } else if digit == 14 {
        if upper { 'E' } else { 'e' }
    } else {
        if upper { 'F' } else { 'f' }
    }
}

/// The digits of `value` in `base`, most significant first, without leading
/// zeros; zero is the single digit `0`.
pub open spec fn digits_text(value: nat, base: nat, upper: bool) -> Seq<char>
    recommends
        2 <= base <= 16,
    decreases value,
    via digits_text_decreases
{
    if base < 2 || value < base {
        seq![digit_char(value, upper)]
    } else {
        digits_text(value / base, base, upper).push(digit_char(value % base, upper))
    }
}

#[via_fn]
proof fn digits_text_decreases(value: nat, base: nat, upper: bool) {
    assert(base >= 2 && value >= base ==> value / base < value) by (nonlinear_arith);
}

/// A signed value in decimal: a minus sign before the digits of a negative one.
pub open spec fn decimal_text(value: int) -> Seq<char> {
    if value < 0 {
        seq!['-'] + digits_text((-value) as nat, 10, false)
    } else {
        digits_text(value as nat, 10, false)
    }
}

/// An unsigned value in hexadecimal.
pub open spec fn hex_text(value: nat, upper: bool) -> Seq<char> {
    digits_text(value, 16, upper)
}

/// An address as printed: `0x` and its hexadecimal digits in lower case.
pub open spec fn pointer_text(address: nat) -> Seq<char> {
    seq!['0', 'x'] + digits_text(address, 16, false)
}

fn digit_to_char(digit: u64, upper: bool) -> (c: char)
    requires
        digit < 16,
    ensures
        c == digit_char(digit as nat, upper),
{
    if digit == 0 {
        '0'
    } else if digit == 1 {
        '1'
    } else if digit == 2 {
        '2'
    } else if digit == 3 {
        '3'
    } else if digit == 4 {
        '4'
    } else if digit == 5 {
        '5'
    } else if digit == 6 {
        '6'
    } else if digit == 7 {
        '7'
    } else if digit == 8 {
        '8'
    } else if digit == 9 {
        '9'
    } else if digit == 10 {
        if upper { 'A' } else { 'a' }
    } else if digit == 11 {
        if upper { 'B' } else { 'b' }
    } else if digit == 12 {
        if upper { 'C' } else { 'c' }
    } else if digit == 13 {
        if upper { 'D' } else { 'd' }
    } else if digit == 14 {
        if upper { 'E' } else { 'e' }
    } else {
        if upper { 'F' } else { 'f' }
    }
}

/// Appends the digits of `value` in `base` to `text`.
pub fn push_digits(text: &mut String, value: u64, base: u64, upper: bool)
    requires
        2 <= base <= 16,
    ensures
        final(text)@ == old(text)@ + digits_text(value as nat, base as nat, upper),
{
    let mut reversed: Vec<char> = Vec::new();
    let mut rest: u64 = value;
    let ghost mut tail: Seq<char> = Seq::empty();
    loop
        invariant_except_break
            digits_text(value as nat, base as nat, upper) == digits_text(
                rest as nat,
                base as nat,
                upper,
            ) + tail,
        invariant
            2 <= base <= 16,
            reversed@.len() == tail.len(),
            forall|i: int| 0 <= i < tail.len() ==> tail[i] == reversed@[tail.len() - 1 - i],
        ensures
            digits_text(value as nat, base as nat, upper) == tail,
        decreases rest,
    {
        let digit: u64 = rest % base;
        let quotient: u64 = rest / base;
        let c = digit_to_char(digit, upper);
        reversed.push(c);
        proof {
            let before = tail;
            tail = seq![c] + before;
            if quotient == 0 {
                assert(rest < base) by (nonlinear_arith)
                    requires
                        rest / base == 0,
                        base > 0,
                ;
                assert(digits_text(rest as nat, base as nat, upper) == seq![c]) by {
                    assert(rest % base == rest) by (nonlinear_arith)
                        requires
                            rest < base,
                    ;
                }
                assert(digits_text(value as nat, base as nat, upper) == tail);
            } else {
                assert(rest >= base) by (nonlinear_arith)
                    requires
                        rest / base != 0,
                        base > 0,
                ;
                assert(digits_text(rest as nat, base as nat, upper) == digits_text(
                    quotient as nat,
                    base as nat,
                    upper,
                ).push(c));
                assert(digits_text(quotient as nat, base as nat, upper).push(c) + before
                    == digits_text(quotient as nat, base as nat, upper) + tail);
            }
        }
        if quotient == 0 {
            break ;
        }
        assert(quotient < rest) by (nonlinear_arith)
            requires
                quotient == rest / base,
                base >= 2,
                rest > 0,
        ;
        rest = quotient;
    }
    let mut remaining: usize = reversed.len();
    while remaining > 0
        invariant
            remaining <= reversed@.len(),
            reversed@.len() == tail.len(),
            forall|i: int| 0 <= i < tail.len() ==> tail[i] == reversed@[tail.len() - 1 - i],
            text@ == old(text)@ + tail.take(tail.len() - remaining),
        decreases remaining,
    {
        remaining = remaining - 1;
        let c = reversed[remaining];
        text.push(c);
        assert(tail.take(tail.len() - remaining) == tail.take(tail.len() - remaining - 1).push(c));
    }
    assert(tail.take(tail.len() as int) == tail);
}

/// The decimal digits of a signed 32-bit value.
pub fn signed_decimal(value: i32) -> (text: String)
    ensures
        text@ == decimal_text(value as int),
{
    let mut text = String::new();
    if value < 0 {
        text.push('-');
        let magnitude: u64 = (-(value as i64)) as u64;
        push_digits(&mut text, magnitude, 10, false);
    } else {
        push_digits(&mut text, value as u64, 10, false);
    }
    text
}

/// The decimal digits of an unsigned 32-bit value.
pub fn unsigned_decimal(value: u32) -> (text: String)
    ensures
        text@ == digits_text(value as nat, 10, false),
{
    let mut text = String::new();
    push_digits(&mut text, value as u64, 10, false);
    text
}

/// The hexadecimal digits of an unsigned 32-bit value.
pub fn hexadecimal(value: u32, upper: bool) -> (text: String)
    ensures
        text@ == hex_text(value as nat, upper),
{
    let mut text = String::new();
    push_digits(&mut text, value as u64, 16, upper);
    text
}

/// An address in the form in which the formatter prints it.
pub fn pointer(address: usize) -> (text: String)
    ensures
        text@ == pointer_text(address as nat),
{
    let mut text = String::new();
    text.push('0');
    text.push('x');
    push_digits(&mut text, address as u64, 16, false);
    text
}

} // verus!
