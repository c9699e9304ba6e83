//! Text to integer, as C's `atoi` does it.

use crate::strings::{byte_at, read_byte};
use vstd::prelude::*;
use vstd::wrapping::i32_specs::signed_crop;

verus! {

/// Whether `byte` is one of the ASCII digits.
pub open spec fn is_digit_byte(byte: u8) -> bool {
    48 <= byte <= 57
}

/// The first position at or behind `pos` that holds no blank.
pub open spec fn blanks_end(s: Seq<u8>, pos: int) -> int
    decreases s.len() - pos,
{
    if 0 <= pos < s.len() && s[pos] == 32 {
        blanks_end(s, pos + 1)
    } else {
        pos
    }
}

/// The number written by the digits that stand from `pos` on, behind
/// digits that wrote `before`; `before` where no digit stands at `pos`.
pub open spec fn digits_value(s: Seq<u8>, pos: int, before: nat) -> nat
    decreases s.len() - pos,
{
    if 0 <= pos < s.len() && is_digit_byte(s[pos]) {
        digits_value(s, pos + 1, before * 10 + (s[pos] - 48) as nat)
    } else {
        before
    }
}

/// The integer that the string `s` writes, before it is cut to 32 bits:
/// blanks are skipped, a `+` or `-` may follow, and the digits behind it
/// count up to the first byte that is no digit. Without digits it is zero.
pub open spec fn written_integer(s: Seq<u8>) -> int {
    let sign_at = blanks_end(s, 0);
    let sign = byte_at(s, sign_at);
    let digits_at = if sign == 45 || sign == 43 {
        sign_at + 1
    } else {
        sign_at
    };
    let magnitude = digits_value(s, digits_at, 0);
    if sign == 45 {
        -magnitude
    } else {
        magnitude as int
    }
}

/// The value of `atoi`: the written integer, wrapped to 32 bits in two's
/// complement where it is beyond them; zero for the null string.
pub open spec fn parsed_integer(s: Option<Seq<u8>>) -> i32 {
    match s {
        Some(bytes) => signed_crop(written_integer(bytes)),
        None => 0,
    }
}

/// Integers that differ by a multiple of 2^32 are cut to the same value.
pub proof fn lemma_crop_congruent(x: int, y: int)
    requires
        (x - y) % 0x1_0000_0000 == 0,
    ensures
        signed_crop(x) == signed_crop(y),
{
    assert(x % 0x1_0000_0000 == y % 0x1_0000_0000);
}

/// Cutting changes an integer by a multiple of 2^32, and a 32-bit value not
/// at all.
pub proof fn lemma_crop_step(x: int)
    ensures
        (signed_crop(x) - x) % 0x1_0000_0000 == 0,
        i32::MIN <= x <= i32::MAX ==> signed_crop(x) == x,
{
}

/// Parses the integer at the start of a string.
pub fn atoi(s: Option<&[u8]>) -> (value: i32)
    ensures
        value == parsed_integer(
            match s {
                Some(bytes) => Some(bytes@),
                None => None,
            },
        ),
{
    let bytes = match s {
        Some(bytes) => bytes,
        None => {
            return 0;
        },
    };
    let end = bytes.len();
    let mut pos: usize = 0;
    while read_byte(bytes, pos) == 32
        invariant
            end == bytes@.len(),
            pos <= end,
            blanks_end(bytes@, pos as int) == blanks_end(bytes@, 0),
        decreases end - pos,
    {
        pos = pos + 1;
    }
    let sign = read_byte(bytes, pos);
    let negative = sign == 45;
    if sign == 45 || sign == 43 {
        pos = pos + 1;
    }
    let ghost digits_at = pos as int;
    let ghost mut magnitude: nat = 0;
    let mut result: i32 = 0;
    loop
        invariant_except_break
            end == bytes@.len(),
            digits_at <= pos <= end,
            digits_value(bytes@, pos as int, magnitude) == digits_value(bytes@, digits_at, 0),
            result == signed_crop(magnitude as int),
        ensures
            result == signed_crop(digits_value(bytes@, digits_at, 0) as int),
        decreases end - pos,
    {
        let c = read_byte(bytes, pos);
        if !(c >= 48 && c <= 57) {
            break ;
        }
        let digit: i32 = (c - 48) as i32;
        proof {
            let next = magnitude * 10 + digit as nat;
            lemma_crop_step(magnitude as int);
            lemma_crop_step(result * 10);
            lemma_crop_congruent(signed_crop(result * 10) + digit, next as int);
            magnitude = next;
        }
        result = result.wrapping_mul(10).wrapping_add(digit);
        pos = pos + 1;
    }
    if negative {
        proof {
            let m = digits_value(bytes@, digits_at, 0) as int;
            lemma_crop_step(m);
            lemma_crop_congruent(-result, -m);
        }
        0i32.wrapping_sub(result)
    } else {
        result
    }
}

} // verus!
