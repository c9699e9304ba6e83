//! Strings and memory regions as C reads them.
//!
//! A string is a run of bytes that ends before its first zero byte, the
//! terminator. Where the bytes handed in hold no zero, the string ends with
//! them: every position past the end reads as the terminator. The null
//! string is `None`.

use vstd::prelude::*;
use vstd::slice::slice_subrange;
use vstd::string::StringSliceAdditionalSpecFns;
use vstd::utf8::{decode_utf8, encode_utf8_decode_utf8, valid_utf8};

verus! {

/// `core::str::Utf8Error`, the error of `core::str::from_utf8`. Nothing is
/// read from it.
#[verifier::external_type_specification]
#[verifier::external_body]
pub struct ExUtf8Error(core::str::Utf8Error);

/// `core::str::from_utf8` gives the bytes as text where they are valid
/// UTF-8, and an error where they are not.
pub assume_specification[ core::str::from_utf8 ](v: &[u8]) -> (text: Result<
    &str,
    core::str::Utf8Error,
>)
    ensures
        text is Ok <==> valid_utf8(v@),
        text matches Ok(t) ==> t.spec_bytes() == v@,
;

/// The byte of a string at `index`: the terminator past the bytes given.
pub open spec fn byte_at(s: Seq<u8>, index: int) -> u8 {
    if 0 <= index < s.len() {
        s[index]
    } else {
        0
    }
}

/// Whether `length` is the length of the string `s`: no byte before it is
/// zero, and the byte at it is the terminator.
pub open spec fn is_string_length(s: Seq<u8>, length: int) -> bool {
    &&& 0 <= length <= s.len()
    &&& byte_at(s, length) == 0
    &&& forall|i: int| 0 <= i < length ==> s[i] != 0
}

/// The length of the string `s`, counted from `pos` on.
pub open spec fn string_end_from(s: Seq<u8>, pos: int) -> int
    decreases s.len() - pos,
{
    if 0 <= pos < s.len() && s[pos] != 0 {
        string_end_from(s, pos + 1)
    } else {
        pos
    }
}

/// The number of bytes of the string `s` before its terminator.
pub open spec fn string_length(s: Seq<u8>) -> int {
    string_end_from(s, 0)
}

/// The bytes of the string `s`, without the terminator.
pub open spec fn string_bytes(s: Seq<u8>) -> Seq<u8> {
    s.take(string_length(s))
}

/// `string_end_from` finds the first terminator at or behind `pos`.
pub proof fn lemma_string_end_from(s: Seq<u8>, pos: int)
    requires
        0 <= pos <= s.len(),
    ensures
        pos <= string_end_from(s, pos) <= s.len(),
        byte_at(s, string_end_from(s, pos)) == 0,
        forall|i: int| pos <= i < string_end_from(s, pos) ==> s[i] != 0,
    decreases s.len() - pos,
{
    if pos < s.len() && s[pos] != 0 {
        lemma_string_end_from(s, pos + 1);
    }
}

/// A string has exactly one length, and `string_length` names it.
pub proof fn lemma_string_length_unique(s: Seq<u8>, length: int)
    ensures
        is_string_length(s, length) <==> length == string_length(s),
{
    lemma_string_end_from(s, 0);
    let n = string_length(s);
    if is_string_length(s, length) {
        if length < n {
            assert(s[length] != 0);
        }
        if n < length {
            assert(s[n] != 0);
        }
    }
}

/// The signed difference of two bytes.
pub open spec fn byte_difference(a: u8, b: u8) -> int {
    a - b
}

/// The order of two strings from `pos` on, their bytes before `pos` being
/// equal: the difference of the first pair of bytes that differ, zero where
/// the terminator comes first.
pub open spec fn string_order_from(a: Seq<u8>, b: Seq<u8>, pos: int) -> int
    decreases a.len() - pos,
{
    if byte_at(a, pos) != byte_at(b, pos) {
        byte_difference(byte_at(a, pos), byte_at(b, pos))
    } else if byte_at(a, pos) == 0 {
        0
    } else {
        string_order_from(a, b, pos + 1)
    }
}

/// The order of two strings by their bytes: negative where `a` comes
/// first, zero where they are equal, positive where `b` comes first.
pub open spec fn string_order(a: Seq<u8>, b: Seq<u8>) -> int {
    string_order_from(a, b, 0)
}

/// The order of two strings of which either may be null: null equals null
/// and comes before every string.
pub open spec fn nullable_order(a: Option<Seq<u8>>, b: Option<Seq<u8>>) -> int {
    match (a, b) {
        (None, None) => 0,
        (None, Some(_)) => -1,
        (Some(_), None) => 1,
        (Some(x), Some(y)) => string_order(x, y),
    }
}

/// The order of two strings by no more than their bytes before `limit`.
pub open spec fn bounded_order_from(a: Seq<u8>, b: Seq<u8>, pos: int, limit: int) -> int
    decreases a.len() - pos,
{
    if pos >= limit {
        0
    } else if byte_at(a, pos) != byte_at(b, pos) {
        byte_difference(byte_at(a, pos), byte_at(b, pos))
    } else if byte_at(a, pos) == 0 {
        0
    } else {
        bounded_order_from(a, b, pos + 1, limit)
    }
}

/// The order of two strings, either of which may be null, by no more than
/// their first `limit` bytes; with a limit of zero they are equal.
pub open spec fn nullable_bounded_order(
    a: Option<Seq<u8>>,
    b: Option<Seq<u8>>,
    limit: usize,
) -> int {
    if limit == 0 {
        0
    } else {
        match (a, b) {
            (None, None) => 0,
            (None, Some(_)) => -1,
            (Some(_), None) => 1,
            (Some(x), Some(y)) => bounded_order_from(x, y, 0, limit as int),
        }
    }
}

/// The order of two memory regions from `pos` up to `limit`: the difference
/// of the first pair of bytes that differ, zero where none does.
pub open spec fn memory_order_from(a: Seq<u8>, b: Seq<u8>, pos: int, limit: int) -> int
    decreases limit - pos,
{
    if pos >= limit {
        0
    } else if byte_at(a, pos) != byte_at(b, pos) {
        byte_difference(byte_at(a, pos), byte_at(b, pos))
    } else {
        memory_order_from(a, b, pos + 1, limit)
    }
}

/// The order of the first `count` bytes of two regions; regions of which
/// one is null are equal.
pub open spec fn nullable_memory_order(
    a: Option<Seq<u8>>,
    b: Option<Seq<u8>>,
    count: usize,
) -> int {
    match (a, b) {
        (Some(x), Some(y)) => memory_order_from(x, y, 0, count as int),
        _ => 0,
    }
}

/// Turning two strings around turns their order around, from `pos` on.
pub proof fn lemma_string_order_turns(a: Seq<u8>, b: Seq<u8>, pos: int)
    requires
        0 <= pos,
    ensures
        string_order_from(a, b, pos) == -string_order_from(b, a, pos),
    decreases a.len() - pos,
{
    if byte_at(a, pos) == byte_at(b, pos) && byte_at(a, pos) != 0 {
        lemma_string_order_turns(a, b, pos + 1);
    }
}

/// Turning two strings around turns their order around.
pub proof fn law_string_order_turns(a: Seq<u8>, b: Seq<u8>)
    ensures
        string_order(a, b) == -string_order(b, a),
{
    lemma_string_order_turns(a, b, 0);
}

/// Two strings whose bytes agree before `pos`, none of them zero, are
/// equal in order exactly when they have the same bytes before their
/// terminators.
pub proof fn lemma_string_order_equal(a: Seq<u8>, b: Seq<u8>, pos: int)
    requires
        0 <= pos <= a.len(),
        pos <= b.len(),
        forall|i: int| 0 <= i < pos ==> a[i] == b[i] && a[i] != 0,
    ensures
        string_order_from(a, b, pos) == 0 <==> string_bytes(a) == string_bytes(b),
    decreases a.len() - pos,
{
    lemma_string_end_from(a, 0);
    lemma_string_end_from(b, 0);
    let m = string_length(a);
    let n = string_length(b);
    if m < pos {
        assert(a[m] != 0);
    }
    if n < pos {
        assert(b[n] != 0);
    }
    if byte_at(a, pos) != byte_at(b, pos) {
        if string_bytes(a) == string_bytes(b) {
            assert(string_bytes(a).len() == m && string_bytes(b).len() == n);
            if pos < m {
                assert(string_bytes(a)[pos] == a[pos]);
                assert(string_bytes(b)[pos] == b[pos]);
            }
        }
    } else if byte_at(a, pos) == 0 {
        if pos < m {
            assert(a[pos] != 0);
        }
        if pos < n {
            assert(b[pos] != 0);
        }
        assert(string_bytes(a) =~= string_bytes(b));
    } else {
        lemma_string_order_equal(a, b, pos + 1);
    }
}

/// Two strings are equal in order exactly when they have the same bytes
/// before their terminators.
pub proof fn law_string_order_equal(a: Seq<u8>, b: Seq<u8>)
    ensures
        string_order(a, b) == 0 <==> string_bytes(a) == string_bytes(b),
{
    lemma_string_order_equal(a, b, 0);
}

/// Two regions whose bytes agree before `pos` are equal in order exactly
/// when their first `limit` bytes are the same.
pub proof fn lemma_memory_order_equal(a: Seq<u8>, b: Seq<u8>, pos: int, limit: int)
    requires
        0 <= pos <= limit,
        limit <= a.len(),
        limit <= b.len(),
        forall|i: int| 0 <= i < pos ==> a[i] == b[i],
    ensures
        memory_order_from(a, b, pos, limit) == 0 <==> a.take(limit) == b.take(limit),
    decreases limit - pos,
{
    if pos >= limit {
        assert(a.take(limit) =~= b.take(limit));
    } else if byte_at(a, pos) != byte_at(b, pos) {
        if a.take(limit) == b.take(limit) {
            assert(a.take(limit)[pos] == a[pos]);
            assert(b.take(limit)[pos] == b[pos]);
        }
    } else {
        lemma_memory_order_equal(a, b, pos + 1, limit);
    }
}

/// Two regions of at least `limit` bytes are equal in order exactly when
/// their first `limit` bytes are the same.
pub proof fn law_memory_order_equal(a: Seq<u8>, b: Seq<u8>, limit: int)
    requires
        0 <= limit <= a.len(),
        limit <= b.len(),
    ensures
        memory_order_from(a, b, 0, limit) == 0 <==> a.take(limit) == b.take(limit),
{
    lemma_memory_order_equal(a, b, 0, limit);
}

/// `string_order_from` at a position of machine size.
pub open spec fn string_order_after(a: Seq<u8>, b: Seq<u8>, pos: usize) -> int {
    string_order_from(a, b, pos as int)
}

/// `bounded_order_from` at a position and with a limit of machine size.
pub open spec fn bounded_order_after(a: Seq<u8>, b: Seq<u8>, pos: usize, limit: usize) -> int {
    bounded_order_from(a, b, pos as int, limit as int)
}

/// `memory_order_from` at a position and with a limit of machine size.
pub open spec fn memory_order_after(a: Seq<u8>, b: Seq<u8>, pos: usize, limit: usize) -> int {
    memory_order_from(a, b, pos as int, limit as int)
}

/// The bytes of an optional region.
pub open spec fn bytes_view(s: Option<&[u8]>) -> Option<Seq<u8>> {
    match s {
        Some(bytes) => Some(bytes@),
        None => None,
    }
}

/// Whether a region, where there is one, has at least `count` bytes.
pub open spec fn holds_bytes(s: Option<&[u8]>, count: usize) -> bool {
    match s {
        Some(bytes) => count <= bytes@.len(),
        None => true,
    }
}

/// Reads the byte of a string at `index`.
pub fn read_byte(s: &[u8], index: usize) -> (byte: u8)
    ensures
        byte == byte_at(s@, index as int),
{
    if index < s.len() {
        s[index]
    } else {
        0
    }
}

/// The difference of two bytes as a C `int`.
pub fn difference(a: u8, b: u8) -> (d: i32)
    ensures
        d == byte_difference(a, b),
{
    (a as i32) - (b as i32)
}

/// Compares two strings byte by byte.
pub fn strcmp(s1: Option<&[u8]>, s2: Option<&[u8]>) -> (order: i32)
    ensures
        order == nullable_order(bytes_view(s1), bytes_view(s2)),
{
    match (s1, s2) {
        (None, None) => 0,
        (None, Some(_)) => -1,
        (Some(_), None) => 1,
        (Some(a), Some(b)) => {
            let end = a.len();
            let mut pos: usize = 0;
            loop
                invariant
                    s1 == Some(a),
                    s2 == Some(b),
                    end == a@.len(),
                    pos <= end,
                    string_order_after(a@, b@, pos) == string_order(a@, b@),
                decreases end - pos,
            {
                let c1 = read_byte(a, pos);
                let c2 = read_byte(b, pos);
                if c1 != c2 {
                    return difference(c1, c2);
                }
                if c1 == 0 {
                    return 0;
                }
                pos = pos + 1;
            }
        },
    }
}

/// Compares two strings by no more than their first `n` bytes.
pub fn strncmp(s1: Option<&[u8]>, s2: Option<&[u8]>, n: usize) -> (order: i32)
    ensures
        order == nullable_bounded_order(bytes_view(s1), bytes_view(s2), n),
{
    if n == 0 {
        return 0;
    }
    match (s1, s2) {
        (None, None) => 0,
        (None, Some(_)) => -1,
        (Some(_), None) => 1,
        (Some(a), Some(b)) => {
            let mut pos: usize = 0;
            while pos < n
                invariant
                    s1 == Some(a),
                    s2 == Some(b),
                    n != 0,
                    pos <= n,
                    bounded_order_after(a@, b@, pos, n) == bounded_order_after(a@, b@, 0, n),
                decreases n - pos,
            {
                let c1 = read_byte(a, pos);
                let c2 = read_byte(b, pos);
                if c1 != c2 {
                    return difference(c1, c2);
                }
                if c1 == 0 {
                    return 0;
                }
                pos = pos + 1;
            }
            0
        },
    }
}

/// The number of bytes of a string before its terminator; zero for the
/// null string.
pub fn strlen(s: Option<&[u8]>) -> (length: usize)
    ensures
        match s {
            Some(bytes) => is_string_length(bytes@, length as int),
            None => length == 0,
        },
{
    match s {
        None => 0,
        Some(bytes) => {
            let mut length: usize = 0;
            while length < bytes.len() && bytes[length] != 0
                invariant
                    length <= bytes@.len(),
                    forall|i: int| 0 <= i < length ==> bytes@[i] != 0,
                decreases bytes@.len() - length,
            {
                length = length + 1;
            }
            length
        },
    }
}

/// The text of a string: its bytes before the terminator read as UTF-8;
/// nothing for the null string or where the bytes are not valid UTF-8.
pub open spec fn string_text(s: Option<Seq<u8>>) -> Option<Seq<char>> {
    match s {
        Some(bytes) => if valid_utf8(string_bytes(bytes)) {
            Some(decode_utf8(string_bytes(bytes)))
        } else {
            None
        },
        None => None,
    }
}

/// Reads a string as text.
pub fn c_str_text(s: Option<&[u8]>) -> (text: Option<&str>)
    ensures
        match text {
            Some(t) => string_text(bytes_view(s)) == Some(t@),
            None => string_text(bytes_view(s)) is None,
        },
{
    let bytes = match s {
        Some(bytes) => bytes,
        None => {
            return None;
        },
    };
    let length = strlen(Some(bytes));
    proof {
        lemma_string_length_unique(bytes@, length as int);
    }
    let run = slice_subrange(bytes, 0, length);
    match core::str::from_utf8(run) {
        Ok(t) => {
            proof {
                encode_utf8_decode_utf8(t@);
            }
            Some(t)
        },
        Err(_) => None,
    }
}

/// Compares the first `n` bytes of two memory regions.
pub fn memcmp(s1: Option<&[u8]>, s2: Option<&[u8]>, n: usize) -> (order: i32)
    requires
        holds_bytes(s1, n),
        holds_bytes(s2, n),
    ensures
        order == nullable_memory_order(bytes_view(s1), bytes_view(s2), n),
{
    match (s1, s2) {
        (Some(a), Some(b)) => {
            let mut pos: usize = 0;
            while pos < n
                invariant
                    s1 == Some(a),
                    s2 == Some(b),
                    pos <= n,
                    n <= a@.len(),
                    n <= b@.len(),
                    memory_order_after(a@, b@, pos, n) == memory_order_after(a@, b@, 0, n),
                decreases n - pos,
            {
                let c1 = a[pos];
                let c2 = b[pos];
                if c1 != c2 {
                    return difference(c1, c2);
                }
                pos = pos + 1;
            }
            0
        },
        _ => 0,
    }
}

} // verus!
