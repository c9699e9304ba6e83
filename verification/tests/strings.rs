use baremetal_platform::basic::atoi;
use baremetal_platform::strings::{
    c_str_text, difference, memcmp, read_byte, strcmp, strlen, strncmp,
};

#[test]
fn empty_strings_are_equal() {
    assert_eq!(strcmp(Some(b"\0"), Some(b"\0")), 0);
    assert_eq!(strcmp(Some(b""), Some(b"")), 0);
}

#[test]
fn a_comes_before_b() {
    assert!(strcmp(Some(b"a\0"), Some(b"b\0")) < 0);
    assert_eq!(strcmp(Some(b"a\0"), Some(b"b\0")), -1);
    assert_eq!(strcmp(Some(b"b\0"), Some(b"a\0")), 1);
}

#[test]
fn null_strings_are_equal() {
    assert_eq!(strcmp(None, None), 0);
}

#[test]
fn the_null_string_comes_first() {
    assert_eq!(strcmp(None, Some(b"\0")), -1);
    assert_eq!(strcmp(Some(b"\0"), None), 1);
    assert_eq!(strcmp(None, Some(b"abc\0")), -1);
}

#[test]
fn strings_are_ordered_by_the_first_bytes_that_differ() {
    assert_eq!(strcmp(Some(b"heap\0"), Some(b"heap\0")), 0);
    assert_eq!(strcmp(Some(b"heap\0"), Some(b"help\0")), -11);
    assert_eq!(strcmp(Some(b"help\0"), Some(b"heap\0")), 11);
    assert_eq!(strcmp(Some(b"heap\0"), Some(b"heaps\0")), -115);
    assert_eq!(strcmp(Some(b"heaps\0"), Some(b"heap\0")), 115);
}

#[test]
fn bytes_are_compared_without_sign() {
    assert_eq!(strcmp(Some(&[0xff, 0]), Some(&[0x01, 0])), 254);
    assert_eq!(strcmp(Some(&[0x01, 0]), Some(&[0xff, 0])), -254);
    assert_eq!(memcmp(Some(&[0x80]), Some(&[0x7f]), 1), 1);
}

#[test]
fn bytes_behind_the_terminator_do_not_count() {
    assert_eq!(strcmp(Some(b"ab\0x"), Some(b"ab\0y")), 0);
    assert_eq!(strlen(Some(b"ab\0cd\0")), 2);
}

#[test]
fn a_string_ends_with_the_bytes_given() {
    assert_eq!(strlen(Some(b"abc")), 3);
    assert_eq!(strcmp(Some(b"abc"), Some(b"abc\0")), 0);
    assert_eq!(strcmp(Some(b"abc"), Some(b"abcd")), -100);
    assert_eq!(read_byte(b"ab", 1), b'b');
    assert_eq!(read_byte(b"ab", 2), 0);
    assert_eq!(read_byte(b"ab", 200), 0);
}

#[test]
fn bounded_comparison_stops_at_the_limit() {
    assert_eq!(strncmp(Some(b"heap\0"), Some(b"help\0"), 2), 0);
    assert_eq!(strncmp(Some(b"heap\0"), Some(b"help\0"), 3), -11);
    assert_eq!(strncmp(Some(b"heap\0"), Some(b"help\0"), 100), -11);
    assert_eq!(strncmp(Some(b"ab\0x"), Some(b"ab\0y"), 4), 0);
}

#[test]
fn bounded_comparison_of_nothing_is_equal() {
    assert_eq!(strncmp(Some(b"a\0"), Some(b"b\0"), 0), 0);
    assert_eq!(strncmp(None, Some(b"b\0"), 0), 0);
    assert_eq!(strncmp(None, None, 0), 0);
}

#[test]
fn bounded_comparison_with_the_null_string() {
    assert_eq!(strncmp(None, None, 3), 0);
    assert_eq!(strncmp(None, Some(b"b\0"), 3), -1);
    assert_eq!(strncmp(Some(b"b\0"), None, 3), 1);
}

#[test]
fn length_of_strings() {
    assert_eq!(strlen(None), 0);
    assert_eq!(strlen(Some(b"\0")), 0);
    assert_eq!(strlen(Some(b"")), 0);
    assert_eq!(strlen(Some(b"guest\0")), 5);
}

#[test]
fn memory_is_compared_through_zero_bytes() {
    assert_eq!(memcmp(Some(b"a\0b"), Some(b"a\0c"), 3), -1);
    assert_eq!(memcmp(Some(b"a\0b"), Some(b"a\0c"), 2), 0);
    assert_eq!(memcmp(Some(b"abc"), Some(b"abc"), 3), 0);
    assert_eq!(memcmp(Some(b"abd"), Some(b"abc"), 3), 1);
    assert_eq!(memcmp(Some(&[0, 200]), Some(&[0, 10]), 2), 190);
}

#[test]
fn memory_of_no_bytes_or_at_null_is_equal() {
    assert_eq!(memcmp(Some(b"a"), Some(b"b"), 0), 0);
    assert_eq!(memcmp(None, Some(b"b"), 1), 0);
    assert_eq!(memcmp(Some(b"a"), None, 1), 0);
    assert_eq!(memcmp(None, None, 5), 0);
}

#[test]
fn difference_of_bytes() {
    assert_eq!(difference(0, 0), 0);
    assert_eq!(difference(255, 0), 255);
    assert_eq!(difference(0, 255), -255);
    assert_eq!(difference(b'a', b'b'), -1);
}

#[test]
fn integer_behind_blanks_and_sign() {
    assert_eq!(atoi(Some(b" -42abc\0")), -42);
}

#[test]
fn integer_of_the_empty_string_is_zero() {
    assert_eq!(atoi(Some(b"\0")), 0);
    assert_eq!(atoi(Some(b"")), 0);
    assert_eq!(atoi(None), 0);
}

#[test]
fn integers() {
    assert_eq!(atoi(Some(b"0\0")), 0);
    assert_eq!(atoi(Some(b"7\0")), 7);
    assert_eq!(atoi(Some(b"+15\0")), 15);
    assert_eq!(atoi(Some(b"   120 7\0")), 120);
    assert_eq!(atoi(Some(b"2147483647\0")), i32::MAX);
    assert_eq!(atoi(Some(b"-2147483648\0")), i32::MIN);
    assert_eq!(atoi(Some(b"0042\0")), 42);
    assert_eq!(atoi(Some(b"12")), 12);
}

#[test]
fn integer_without_digits_is_zero() {
    assert_eq!(atoi(Some(b"abc\0")), 0);
    assert_eq!(atoi(Some(b"-\0")), 0);
    assert_eq!(atoi(Some(b"+-5\0")), 0);
    assert_eq!(atoi(Some(b"- 5\0")), 0);
    assert_eq!(atoi(Some(b"\t5\0")), 0);
}

#[test]
fn integer_beyond_32_bits_wraps() {
    assert_eq!(atoi(Some(b"2147483648\0")), i32::MIN);
    assert_eq!(atoi(Some(b"4294967296\0")), 0);
    assert_eq!(atoi(Some(b"4294967297\0")), 1);
    assert_eq!(atoi(Some(b"-2147483649\0")), i32::MAX);
    assert_eq!(atoi(Some(b"99999999999\0")), 1215752191);
}

#[test]
fn text_of_a_string() {
    assert_eq!(c_str_text(Some(b"guest\0tail")), Some("guest"));
    assert_eq!(c_str_text(Some(b"\0")), Some(""));
    assert_eq!(c_str_text(Some("é".as_bytes())), Some("é"));
    assert_eq!(c_str_text(Some(&[0xff, 0])), None);
    assert_eq!(c_str_text(Some(&[b'a', 0, 0xff])), Some("a"));
    assert_eq!(c_str_text(None), None);
}

#[test]
fn turning_strings_around_turns_their_order_around() {
    let words: [&[u8]; 6] = [b"\0", b"a\0", b"ab\0", b"b\0", b"ab\0c", &[0xff, 0]];
    for one in words {
        for other in words {
            assert_eq!(strcmp(Some(one), Some(other)), -strcmp(Some(other), Some(one)));
            let equal = strcmp(Some(one), Some(other)) == 0;
            let same = one[..strlen(Some(one))] == other[..strlen(Some(other))];
            assert_eq!(equal, same);
        }
    }
}
