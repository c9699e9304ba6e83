use baremetal_platform::arguments::FormatArg;
use baremetal_platform::printing::{
    format_bounded, format_va_list, os_printf, os_vprintf, snprintf, text_chars,
};

fn bounded(size: usize, format: &str, args: &[FormatArg]) -> (i32, Vec<u8>) {
    let mut buffer = vec![0xAAu8; size];
    let written = snprintf(Some(&mut buffer), size, Some(format), args);
    (written, buffer)
}

fn text_of(buffer: &[u8]) -> String {
    let end = buffer.iter().position(|b| *b == 0).unwrap();
    String::from_utf8(buffer[..end].to_vec()).unwrap()
}

fn bounded_text(format: &str, args: &[FormatArg]) -> String {
    let (written, buffer) = bounded(600, format, args);
    let text = text_of(&buffer);
    assert_eq!(written, i32::try_from(text.len()).unwrap());
    text
}

fn plain_text(format: &str, args: &[FormatArg]) -> String {
    let printed = os_printf(Some(format), args);
    let line = printed.line.unwrap();
    assert_eq!(printed.length, i32::try_from(line.len()).unwrap());
    line
}

#[test]
fn decimal_without_width() {
    let (written, buffer) = bounded(32, "%d", &[FormatArg::Int(42)]);
    assert_eq!(written, 2);
    assert_eq!(text_of(&buffer), "42");
}

#[test]
fn decimal_right_aligned() {
    let (written, buffer) = bounded(32, "%5d", &[FormatArg::Int(42)]);
    assert_eq!(written, 5);
    assert_eq!(text_of(&buffer), "   42");
}

#[test]
fn decimal_left_aligned() {
    assert_eq!(bounded_text("%-5d", &[FormatArg::Int(42)]), "42   ");
}

#[test]
fn decimal_zero_padded() {
    assert_eq!(bounded_text("%05d", &[FormatArg::Int(42)]), "00042");
}

#[test]
fn null_string_gives_nothing() {
    assert_eq!(bounded_text("[%s]", &[FormatArg::Str(None)]), "[]");
    assert_eq!(plain_text("[%s]", &[FormatArg::Str(None)]), "[]");
}

#[test]
fn doubled_percent_is_one_percent() {
    assert_eq!(bounded_text("100%%", &[]), "100%");
    let printed = os_printf(Some("100%%"), &[]);
    assert_eq!(printed.line.as_deref(), Some("100%"));
    assert_eq!(printed.length, 4);
}

#[test]
fn output_is_cut_to_the_buffer_and_the_whole_length_returned() {
    let (written, buffer) = bounded(4, "%d apples", &[FormatArg::Int(12345)]);
    assert_eq!(written, 12);
    assert_eq!(buffer, vec![b'1', b'2', b'3', 0]);
}

#[test]
fn bytes_behind_the_terminator_are_left() {
    let (written, buffer) = bounded(8, "ab", &[]);
    assert_eq!(written, 2);
    assert_eq!(buffer, vec![b'a', b'b', 0, 0xAA, 0xAA, 0xAA, 0xAA, 0xAA]);
}

#[test]
fn buffer_of_one_byte_takes_the_terminator_only() {
    let (written, buffer) = bounded(1, "hello", &[]);
    assert_eq!(written, 5);
    assert_eq!(buffer, vec![0]);
}

#[test]
fn size_may_be_smaller_than_the_buffer() {
    let mut buffer = vec![0x55u8; 6];
    let written = snprintf(Some(&mut buffer), 3, Some("wxyz"), &[]);
    assert_eq!(written, 4);
    assert_eq!(buffer, vec![b'w', b'x', 0, 0x55, 0x55, 0x55]);
}

#[test]
fn null_buffer_null_format_and_zero_size_give_zero() {
    assert_eq!(snprintf(None, 8, Some("x"), &[]), 0);
    let mut buffer = vec![7u8; 4];
    assert_eq!(snprintf(Some(&mut buffer), 4, None, &[]), 0);
    assert_eq!(buffer, vec![7u8; 4]);
    assert_eq!(snprintf(Some(&mut buffer), 0, Some("x"), &[]), 0);
    assert_eq!(buffer, vec![7u8; 4]);
}

#[test]
fn null_format_prints_no_line() {
    let printed = os_printf(None, &[]);
    assert!(printed.line.is_none());
    assert_eq!(printed.length, 0);
    let printed = os_vprintf(None, &[FormatArg::Int(1)]);
    assert!(printed.line.is_none());
    assert_eq!(printed.length, 0);
}

#[test]
fn empty_format_prints_an_empty_line() {
    let printed = os_printf(Some(""), &[]);
    assert_eq!(printed.line.as_deref(), Some(""));
    assert_eq!(printed.length, 0);
}

#[test]
fn plain_conversions() {
    let args = [
        FormatArg::Str(Some(String::from("heap"))),
        FormatArg::Int(-17),
        FormatArg::Int(8),
        FormatArg::Uint(4_000_000_000),
        FormatArg::Uint(0xdead_beef),
        FormatArg::Uint(0xdead_beef),
        FormatArg::Pointer(0x2000_1000),
    ];
    assert_eq!(
        plain_text("%s %d %i %u %x %X %p", &args),
        "heap -17 8 4000000000 deadbeef DEADBEEF 0x20001000"
    );
}

#[test]
fn the_list_variant_prints_what_the_variadic_one_prints() {
    let args = [FormatArg::Int(3), FormatArg::Str(Some(String::from("pages")))];
    let one = os_printf(Some("%d %s"), &args);
    let other = os_vprintf(Some("%d %s"), &args);
    assert_eq!(one.line, other.line);
    assert_eq!(one.length, other.length);
    assert_eq!(other.line.as_deref(), Some("3 pages"));
    let line = format_va_list("%d %s", &args);
    assert_eq!(line.as_str(), "3 pages");
    assert_eq!(line.total(), 7);
}

#[test]
fn extreme_numbers() {
    assert_eq!(plain_text("%d", &[FormatArg::Int(i32::MIN)]), "-2147483648");
    assert_eq!(plain_text("%d", &[FormatArg::Int(i32::MAX)]), "2147483647");
    assert_eq!(plain_text("%d", &[FormatArg::Int(0)]), "0");
    assert_eq!(plain_text("%u", &[FormatArg::Uint(u32::MAX)]), "4294967295");
    assert_eq!(plain_text("%x", &[FormatArg::Uint(0)]), "0");
    assert_eq!(plain_text("%X", &[FormatArg::Uint(255)]), "FF");
    assert_eq!(plain_text("%p", &[FormatArg::Pointer(0)]), "0x0");
}

#[test]
fn plain_variant_leaves_an_unknown_character_in_place() {
    assert_eq!(plain_text("%q", &[]), "%q");
    assert_eq!(plain_text("a%", &[]), "a%");
    assert_eq!(plain_text("%5d", &[FormatArg::Int(42)]), "%5d");
}

#[test]
fn bounded_variant_swallows_an_unknown_character() {
    assert_eq!(bounded_text("%q", &[]), "%");
    assert_eq!(bounded_text("a%qb", &[]), "a%b");
    assert_eq!(bounded_text("a%", &[]), "a%");
    assert_eq!(bounded_text("a%-05l", &[]), "a%");
}

#[test]
fn an_unknown_character_takes_no_value() {
    assert_eq!(bounded_text("%q%d", &[FormatArg::Int(5)]), "%5");
    assert_eq!(plain_text("%%%d", &[FormatArg::Int(5)]), "%5");
}

#[test]
fn widths_and_flags_of_numbers() {
    assert_eq!(bounded_text("%3u|", &[FormatArg::Uint(7)]), "  7|");
    assert_eq!(bounded_text("%-3u|", &[FormatArg::Uint(7)]), "7  |");
    assert_eq!(bounded_text("%03u|", &[FormatArg::Uint(7)]), "007|");
    assert_eq!(bounded_text("%8x|", &[FormatArg::Uint(0xbeef)]), "    beef|");
    assert_eq!(bounded_text("%08X|", &[FormatArg::Uint(0xbeef)]), "0000BEEF|");
    assert_eq!(bounded_text("%-8x|", &[FormatArg::Uint(0xbeef)]), "beef    |");
    assert_eq!(bounded_text("%2d|", &[FormatArg::Int(12345)]), "12345|");
    assert_eq!(bounded_text("%5i|", &[FormatArg::Int(-42)]), "  -42|");
}

#[test]
fn zeros_stand_before_the_sign() {
    assert_eq!(bounded_text("%05d", &[FormatArg::Int(-42)]), "00-42");
}

#[test]
fn left_alignment_wins_over_zero_padding() {
    assert_eq!(bounded_text("%-05d|", &[FormatArg::Int(42)]), "42   |");
    assert_eq!(bounded_text("%0-5d|", &[FormatArg::Int(42)]), "42   |");
}

#[test]
fn widths_of_text() {
    let word = || FormatArg::Str(Some(String::from("ab")));
    assert_eq!(bounded_text("%5s|", &[word()]), "   ab|");
    assert_eq!(bounded_text("%-5s|", &[word()]), "ab   |");
    assert_eq!(bounded_text("%05s|", &[word()]), "   ab|");
    assert_eq!(bounded_text("%1s|", &[word()]), "ab|");
    assert_eq!(bounded_text("%3s|", &[FormatArg::Str(None)]), "   |");
}

#[test]
fn width_counts_bytes() {
    let word = FormatArg::Str(Some(String::from("é")));
    assert_eq!(bounded_text("%4s|", &[word]), "  é|");
}

#[test]
fn the_last_width_holds() {
    assert_eq!(bounded_text("%5-3d|", &[FormatArg::Int(1)]), "1  |");
    assert_eq!(bounded_text("%3-5d|", &[FormatArg::Int(1)]), "1    |");
}

#[test]
fn width_with_leading_zeros() {
    assert_eq!(bounded_text("%0004d|", &[FormatArg::Int(7)]), "0007|");
    assert_eq!(bounded_text("%00d|", &[FormatArg::Int(7)]), "7|");
}

#[test]
fn every_digit_of_a_width_counts() {
    assert_eq!(
        bounded_text("%00000000031d|", &[FormatArg::Int(7)]),
        format!("{}7|", "0".repeat(30))
    );
}

#[test]
fn a_width_beyond_the_machine_is_the_greatest() {
    let (written, buffer) = bounded(8, "%99999999999999999999999999d", &[FormatArg::Int(7)]);
    assert_eq!(written, i32::MAX);
    assert_eq!(text_of(&buffer), " ".repeat(7));
}

#[test]
fn pointer_takes_no_width() {
    assert_eq!(bounded_text("%12p|", &[FormatArg::Pointer(0x40)]), "0x40|");
}

#[test]
fn length_modifiers() {
    assert_eq!(bounded_text("%ld", &[FormatArg::Int(-5)]), "-5");
    assert_eq!(bounded_text("%lld", &[FormatArg::Int(-5)]), "-5");
    assert_eq!(bounded_text("%hd", &[FormatArg::Int(-5)]), "-5");
    assert_eq!(bounded_text("%hhu", &[FormatArg::Uint(5)]), "5");
    assert_eq!(bounded_text("%lx", &[FormatArg::Size(0xabc)]), "abc");
    assert_eq!(bounded_text("%llx", &[FormatArg::Long(0x1_2345_6789)]), "23456789");
    assert_eq!(bounded_text("%llX", &[FormatArg::Long(0xffff_ffff_0000_00ab)]), "AB");
    assert_eq!(bounded_text("%lu", &[FormatArg::Uint(9)]), "9");
}

#[test]
fn long_text_is_printed_whole() {
    let long = "x".repeat(300);
    assert_eq!(bounded_text("[%s]", &[FormatArg::Str(Some(long.clone()))]), format!("[{}]", long));
    assert_eq!(plain_text("[%s]", &[FormatArg::Str(Some(long.clone()))]), format!("[{}]", long));
    assert_eq!(
        bounded_text("[%302s]", &[FormatArg::Str(Some(long.clone()))]),
        format!("[  {}]", long)
    );
}

#[test]
fn a_line_is_cut_to_512_bytes_and_the_whole_length_returned() {
    let format = "a".repeat(600);
    let printed = os_printf(Some(&format), &[]);
    assert_eq!(printed.length, 600);
    assert_eq!(printed.line.unwrap(), "a".repeat(512));
    let printed = os_vprintf(Some(&format), &[]);
    assert_eq!(printed.length, 600);
    assert_eq!(printed.line.unwrap(), "a".repeat(512));
}

#[test]
fn a_line_of_512_bytes_is_kept_whole() {
    let format = "a".repeat(512);
    let printed = os_printf(Some(&format), &[]);
    assert_eq!(printed.length, 512);
    assert_eq!(printed.line.unwrap(), format);
}

#[test]
fn the_buffer_of_the_caller_is_the_capacity() {
    let format = "a".repeat(600);
    let (written, buffer) = bounded(1024, &format, &[]);
    assert_eq!(written, 600);
    assert_eq!(&buffer[..600], format.as_bytes());
    assert_eq!(buffer[600], 0);
    assert_eq!(&buffer[601..], &[0xAAu8; 423][..]);
}

#[test]
fn a_line_is_cut_inside_a_piece() {
    let format = format!("{}%d!", "a".repeat(510));
    let printed = os_printf(Some(&format), &[FormatArg::Int(123)]);
    assert_eq!(printed.length, 514);
    assert_eq!(printed.line.unwrap(), format!("{}12", "a".repeat(510)));
    let (written, buffer) = bounded(600, &format, &[FormatArg::Int(123)]);
    assert_eq!(written, 514);
    assert_eq!(text_of(&buffer), format!("{}123!", "a".repeat(510)));
}

#[test]
fn a_line_is_cut_at_a_character_boundary() {
    let format = format!("{}éb", "a".repeat(511));
    let printed = os_printf(Some(&format), &[]);
    assert_eq!(printed.length, 514);
    assert_eq!(printed.line.unwrap(), "a".repeat(511));
    let format = format!("{}éb", "a".repeat(510));
    let printed = os_printf(Some(&format), &[]);
    assert_eq!(printed.length, 513);
    assert_eq!(printed.line.unwrap(), format!("{}é", "a".repeat(510)));
}

#[test]
fn the_buffer_is_cut_by_bytes() {
    let (written, buffer) = bounded(3, "aéb", &[]);
    assert_eq!(written, 4);
    assert_eq!(buffer, vec![b'a', 0xc3, 0]);
}

#[test]
fn padding_is_cut_with_the_text() {
    let (written, buffer) = bounded(6, "%9d", &[FormatArg::Int(7)]);
    assert_eq!(written, 9);
    assert_eq!(buffer, vec![b' ', b' ', b' ', b' ', b' ', 0]);
    let (written, buffer) = bounded(6, "%-9d", &[FormatArg::Int(7)]);
    assert_eq!(written, 9);
    assert_eq!(buffer, vec![b'7', b' ', b' ', b' ', b' ', 0]);
    let (written, buffer) = bounded(6, "%09d|", &[FormatArg::Int(7)]);
    assert_eq!(written, 10);
    assert_eq!(buffer, vec![b'0', b'0', b'0', b'0', b'0', 0]);
}

#[test]
fn a_length_beyond_int_is_the_greatest_int() {
    let (written, buffer) = bounded(16, "%4000000000d", &[FormatArg::Int(7)]);
    assert_eq!(written, i32::MAX);
    assert_eq!(text_of(&buffer), " ".repeat(15));
    let (written, buffer) = bounded(16, "%2147483647d", &[FormatArg::Int(7)]);
    assert_eq!(written, i32::MAX);
    assert_eq!(text_of(&buffer), " ".repeat(15));
    let (written, _) = bounded(16, "%2147483646d", &[FormatArg::Int(7)]);
    assert_eq!(written, 2147483646);
}

#[test]
fn values_are_taken_in_order() {
    let args = [FormatArg::Int(1), FormatArg::Int(2), FormatArg::Int(3)];
    assert_eq!(plain_text("%d-%d-%d", &args), "1-2-3");
    assert_eq!(bounded_text("%d-%%-%d-%d", &args), "1-%-2-3");
}

#[test]
fn missing_values_read_as_zero_and_null() {
    assert_eq!(plain_text("%d %u %x %s|%p", &[]), "0 0 0 |0x0");
    assert_eq!(bounded_text("%d %s|", &[]), "0 |");
}

#[test]
fn values_are_read_as_the_conversion_asks() {
    assert_eq!(plain_text("%u", &[FormatArg::Int(-1)]), "4294967295");
    assert_eq!(plain_text("%d", &[FormatArg::Uint(u32::MAX)]), "-1");
    assert_eq!(plain_text("%x", &[FormatArg::Long(0x1_0000_00ff)]), "ff");
    assert_eq!(plain_text("%d", &[FormatArg::Str(Some(String::from("7")))]), "0");
    assert_eq!(plain_text("%s|", &[FormatArg::Int(7)]), "|");
    assert_eq!(plain_text("%p", &[FormatArg::Size(16)]), "0x10");
}

#[test]
fn bounded_core_keeps_the_first_bytes_and_counts_all() {
    let out = format_bounded("%-4d|%4s", &[FormatArg::Int(5), FormatArg::Str(None)], 100);
    assert_eq!(out.bytes(), b"5   |    ");
    assert_eq!(out.total(), 9);
    let out = format_bounded("%-4d|%4s", &[FormatArg::Int(5), FormatArg::Str(None)], 3);
    assert_eq!(out.bytes(), b"5  ");
    assert_eq!(out.total(), 9);
    let out = format_bounded("abc", &[], 0);
    assert_eq!(out.bytes(), b"");
    assert_eq!(out.total(), 3);
}

#[test]
fn characters_of_a_text() {
    assert_eq!(text_chars("a%é"), vec!['a', '%', 'é']);
    assert_eq!(text_chars(""), Vec::<char>::new());
}
