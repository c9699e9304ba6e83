//! Formatted output in the manner of C's `printf`.
//!
//! A format is scanned once from left to right. Ordinary characters are
//! copied; a `%` starts a directive, and each conversion takes the next value
//! of the argument list. The text that results has a length of its own,
//! which every call returns. What a call stores of it is cut: a line for
//! the log sink to 512 bytes, the bounded variant to the caller's buffer.

use crate::arguments::{
    int_at, long_at, read_int, read_long, read_size, read_text, read_uint, size_at, text_at,
    uint_at, FormatArg,
};
use crate::buffer::{
    byte_len, cut_to, repeated, saturated, utf8_len, ByteSink, LineBuffer, OUTPUT_CAPACITY,
};
use crate::text::{
    decimal_text, digits_text, hex_text, hexadecimal, pointer, pointer_text, signed_decimal,
    unsigned_decimal,
};
use vstd::prelude::*;
use vstd::string::StringExecFns;
use vstd::utf8::encode_utf8;

verus! {

/// The characters of `text`, in order.
pub fn text_chars(text: &str) -> (chars: Vec<char>)
    ensures
        chars@ == text@,
{
    let mut chars: Vec<char> = Vec::new();
    for c in it: text.chars()
        invariant
            it.seq() == text@,
            chars@ == it.seq().take(it.index() as int),
    {
        chars.push(c);
        assert(it.seq().take(it.index() + 1) == it.seq().take(it.index() as int).push(c));
    }
    assert(text@.take(text@.len() as int) == text@);
    chars
}

/// The conversions of the plain variants; each takes one value.
pub open spec fn is_plain_conversion(c: char) -> bool {
    c == 's' || c == 'd' || c == 'i' || c == 'u' || c == 'x' || c == 'X' || c == 'p'
}

/// The text that the plain conversion `c` makes of the value at `index`.
pub open spec fn plain_conversion_text(c: char, args: Seq<FormatArg>, index: int) -> Seq<char>
    recommends
        is_plain_conversion(c),
{
    if c == 's' {
        match text_at(args, index) {
            Some(text) => text,
            None => Seq::empty(),
        }
    } else if c == 'd' || c == 'i' {
        decimal_text(int_at(args, index) as int)
    } else if c == 'u' {
        digits_text(uint_at(args, index) as nat, 10, false)
    } else if c == 'x' {
        hex_text(uint_at(args, index) as nat, false)
    } else if c == 'X' {
        hex_text(uint_at(args, index) as nat, true)
    } else {
        pointer_text(size_at(args, index) as nat)
    }
}

/// The text of the plain variants from position `pos` of the format on,
/// behind `out`, with `used` values already taken.
///
/// A character other than `%` is copied. `%` before a conversion gives the
/// conversion's text, `%%` gives `%`, and `%` before anything else, or at the
/// end, gives `%` and leaves the following character to be copied.
pub open spec fn plain_format_from(
    format: Seq<char>,
    pos: int,
    args: Seq<FormatArg>,
    used: int,
    out: Seq<char>,
) -> Seq<char>
    decreases format.len() - pos,
{
    if pos < 0 || pos >= format.len() {
        out
    } else if format[pos] != '%' {
        plain_format_from(format, pos + 1, args, used, out.push(format[pos]))
    } else if pos + 1 >= format.len() {
        out.push('%')
    } else if is_plain_conversion(format[pos + 1]) {
        plain_format_from(
            format,
            pos + 2,
            args,
            used + 1,
            out + plain_conversion_text(format[pos + 1], args, used),
        )
    } else if format[pos + 1] == '%' {
        plain_format_from(format, pos + 2, args, used, out.push('%'))
    } else {
        plain_format_from(format, pos + 1, args, used, out.push('%'))
    }
}

/// The whole text that the plain variants make of a format and its values.
pub open spec fn plain_format(format: Seq<char>, args: Seq<FormatArg>) -> Seq<char> {
    plain_format_from(format, 0, args, 0, Seq::empty())
}

/// Appends to `whole` what the plain conversion `c` makes of the value at `index`.
fn push_plain_conversion(whole: &mut String, c: char, args: &[FormatArg], index: usize)
    requires
        is_plain_conversion(c),
    ensures
        final(whole)@ == old(whole)@ + plain_conversion_text(c, args@, index as int),
{
    if c == 's' {
        match read_text(args, index) {
            Some(text) => {
                whole.append(text);
            },
            None => {
                assert(old(whole)@ + Seq::<char>::empty() =~= old(whole)@);
            },
        }
    } else if c == 'd' || c == 'i' {
        let text = signed_decimal(read_int(args, index));
        whole.append(text.as_str());
    } else if c == 'u' {
        let text = unsigned_decimal(read_uint(args, index));
        whole.append(text.as_str());
    } else if c == 'x' {
        let text = hexadecimal(read_uint(args, index), false);
        whole.append(text.as_str());
    } else if c == 'X' {
        let text = hexadecimal(read_uint(args, index), true);
        whole.append(text.as_str());
    } else {
        let text = pointer(read_size(args, index));
        whole.append(text.as_str());
    }
}

/// Formats `format` with the values `args`, without widths or flags, into
/// a line.
pub fn format_va_list(format: &str, args: &[FormatArg]) -> (line: LineBuffer)
    ensures
        line.wf(),
        line.whole() == plain_format(format@, args@),
{
    let chars = text_chars(format);
    let mut whole = String::new();
    let mut pos: usize = 0;
    let mut used: usize = 0;
    while pos < chars.len()
        invariant
            chars@ == format@,
            pos <= chars@.len(),
            used <= pos,
            plain_format_from(format@, pos as int, args@, used as int, whole@) == plain_format(
                format@,
                args@,
            ),
        decreases chars@.len() - pos,
    {
        let c = chars[pos];
        if c != '%' {
            whole.push(c);
            pos = pos + 1;
        } else if pos + 1 >= chars.len() {
            whole.push('%');
            pos = pos + 1;
        } else {
            let next = chars[pos + 1];
            if next == 's' || next == 'd' || next == 'i' || next == 'u' || next == 'x' || next
                == 'X' || next == 'p' {
                push_plain_conversion(&mut whole, next, args, used);
                pos = pos + 2;
                used = used + 1;
            } else if next == '%' {
                whole.push('%');
                pos = pos + 2;
            } else {
                whole.push('%');
                pos = pos + 1;
            }
        }
    }
    let mut line = LineBuffer::new();
    line.append(whole.as_str());
    assert(Seq::<char>::empty() + whole@ =~= whole@);
    line
}

/// A length modifier of a directive.
#[derive(Clone, Copy, PartialEq, Eq, Structural, Debug)]
pub enum LengthModifier {
    /// No modifier, or only `h`.
    Plain,
    /// `l`.
    Long,
    /// `ll`.
    LongLong,
}

/// What stands between `%` and the conversion character of a directive.
#[derive(Clone, Copy, PartialEq, Eq, Structural, Debug)]
pub struct Directive {
    /// `-`: the text stands at the left of its field.
    pub left_align: bool,
    /// `0`: a number is padded with zeros instead of blanks.
    pub zero_pad: bool,
    /// The least number of bytes the field takes; zero for none.
    pub width: usize,
    /// The length modifier.
    pub length: LengthModifier,
}

impl Directive {
    /// A directive without flags, width or modifier.
    pub open spec fn plain() -> Directive {
        Directive { left_align: false, zero_pad: false, width: 0, length: LengthModifier::Plain }
    }
}

/// Whether `c` is one of the digits `0` to `9`.
pub open spec fn is_digit(c: char) -> bool {
    '0' <= c <= '9'
}

/// The number a digit stands for.
pub open spec fn digit_value(c: char) -> nat
    recommends
        is_digit(c),
{
    (c as int - '0' as int) as nat
}

/// The number that a run of digits writes in decimal; zero for no digits.
pub open spec fn decimal_value(digits: Seq<char>) -> nat
    decreases digits.len(),
{
    if digits.len() == 0 {
        0
    } else {
        decimal_value(digits.drop_last()) * 10 + digit_value(digits.last())
    }
}

/// The first position from `pos` on that holds no digit.
pub open spec fn digits_end(format: Seq<char>, pos: int) -> int
    decreases format.len() - pos,
{
    if 0 <= pos < format.len() && is_digit(format[pos]) {
        digits_end(format, pos + 1)
    } else {
        pos
    }
}

/// The width written by the digits from `pos` up to `end`: their value,
/// or the greatest number of machine size where the value is beyond it.
pub open spec fn width_value(format: Seq<char>, pos: int, end: int) -> usize {
    saturated(decimal_value(format.subrange(pos, end)))
}

/// The run of digits from `pos` ends at or behind `pos`, inside the format,
/// and behind `pos` where `pos` holds a digit.
pub proof fn lemma_digits_end(format: Seq<char>, pos: int)
    requires
        0 <= pos <= format.len(),
    ensures
        pos <= digits_end(format, pos) <= format.len(),
        pos < format.len() && is_digit(format[pos]) ==> pos < digits_end(format, pos),
        forall|i: int| pos <= i < digits_end(format, pos) ==> is_digit(#[trigger] format[i]),
        digits_end(format, pos) < format.len() ==> !is_digit(format[digits_end(format, pos)]),
    decreases format.len() - pos,
{
    if pos < format.len() && is_digit(format[pos]) {
        lemma_digits_end(format, pos + 1);
    }
}

/// The flags, width and length modifier that stand from `pos` on, added to
/// `seen`, and the position behind them.
///
/// `-` and `0` set their flag. A run of digits sets the width, a leading `0`
/// of the run setting its flag as well. `l` and `ll` set the modifier, `h`
/// is skipped. They may come in any order and more than once; the last width
/// and the last modifier hold.
pub open spec fn scan_directive(format: Seq<char>, pos: int, seen: Directive) -> (Directive, int)
    decreases format.len() - pos,
{
    if pos < 0 || pos >= format.len() {
        (seen, pos)
    } else if format[pos] == '-' {
        scan_directive(format, pos + 1, Directive { left_align: true, ..seen })
    } else if format[pos] == '0' && !(pos + 1 < format.len() && is_digit(format[pos + 1])) {
        scan_directive(format, pos + 1, Directive { zero_pad: true, ..seen })
    } else if is_digit(format[pos]) {
        let end = digits_end(format, pos);
        proof {
            lemma_digits_end(format, pos);
        }
        scan_directive(
            format,
            end,
            Directive {
                zero_pad: seen.zero_pad || format[pos] == '0',
                width: width_value(format, pos, end),
                ..seen
            },
        )
    } else if format[pos] == 'l' {
        if pos + 1 < format.len() && format[pos + 1] == 'l' {
            scan_directive(format, pos + 2, Directive { length: LengthModifier::LongLong, ..seen })
        } else {
            scan_directive(format, pos + 1, Directive { length: LengthModifier::Long, ..seen })
        }
    } else if format[pos] == 'h' {
        scan_directive(format, pos + 1, seen)
    } else {
        (seen, pos)
    }
}

/// The scan ends at or behind its start, inside the format.
pub proof fn lemma_scan_directive_end(format: Seq<char>, pos: int, seen: Directive)
    requires
        0 <= pos <= format.len(),
    ensures
        pos <= scan_directive(format, pos, seen).1 <= format.len(),
    decreases format.len() - pos,
{
    if pos >= format.len() {
    } else if format[pos] == '-' {
        lemma_scan_directive_end(format, pos + 1, Directive { left_align: true, ..seen });
    } else if format[pos] == '0' && !(pos + 1 < format.len() && is_digit(format[pos + 1])) {
        lemma_scan_directive_end(format, pos + 1, Directive { zero_pad: true, ..seen });
    } else if is_digit(format[pos]) {
        let end = digits_end(format, pos);
        lemma_digits_end(format, pos);
        lemma_scan_directive_end(
            format,
            end,
            Directive {
                zero_pad: seen.zero_pad || format[pos] == '0',
                width: width_value(format, pos, end),
                ..seen
            },
        );
    } else if format[pos] == 'l' {
        if pos + 1 < format.len() && format[pos + 1] == 'l' {
            lemma_scan_directive_end(
                format,
                pos + 2,
                Directive { length: LengthModifier::LongLong, ..seen },
            );
        } else {
            lemma_scan_directive_end(
                format,
                pos + 1,
                Directive { length: LengthModifier::Long, ..seen },
            );
        }
    } else if format[pos] == 'h' {
        lemma_scan_directive_end(format, pos + 1, seen);
    }
}

/// The text of a value that is printed as text: nothing for the null
/// string.
pub open spec fn text_or_nothing(value: Option<Seq<char>>) -> Seq<char> {
    match value {
        Some(text) => text,
        None => Seq::empty(),
    }
}

/// The number of padding characters of a field: what `text` lacks to the
/// width, in bytes.
pub open spec fn pad_count(directive: Directive, text: Seq<char>) -> nat {
    if directive.width > 0 && utf8_len(text) < directive.width {
        (directive.width - utf8_len(text)) as nat
    } else {
        0
    }
}

/// `out` with a number's field behind it: blanks behind the text where it
/// is left-aligned, else zeros or blanks before it.
pub open spec fn padded_number(out: Seq<char>, directive: Directive, text: Seq<char>) -> Seq<
    char,
> {
    let count = pad_count(directive, text);
    if directive.left_align {
        out + text + repeated(' ', count)
    } else if directive.zero_pad {
        out + repeated('0', count) + text
    } else {
        out + repeated(' ', count) + text
    }
}

/// `out` with a text's field behind it: blanks behind the text where it is
/// left-aligned, else before it.
pub open spec fn padded_text(out: Seq<char>, directive: Directive, text: Seq<char>) -> Seq<char> {
    let count = pad_count(directive, text);
    if directive.left_align {
        out + text + repeated(' ', count)
    } else {
        out + repeated(' ', count) + text
    }
}

/// The value that `%x` and `%X` print: the next value read in the size the
/// length modifier names, cut to 32 bits.
pub open spec fn hex_operand(length: LengthModifier, args: Seq<FormatArg>, index: int) -> u32 {
    match length {
        LengthModifier::Plain => uint_at(args, index),
        LengthModifier::Long => size_at(args, index) as u32,
        LengthModifier::LongLong => long_at(args, index) as u32,
    }
}

/// The conversions of the bounded variant that take a value.
pub open spec fn takes_value(c: char) -> bool {
    is_plain_conversion(c)
}

/// `out` with what the directive `directive` of conversion `c` prints behind
/// it. A conversion that is not known, and `%`, print `%`.
pub open spec fn converted(
    out: Seq<char>,
    directive: Directive,
    c: char,
    args: Seq<FormatArg>,
    index: int,
) -> Seq<char> {
    if c == 's' {
        padded_text(out, directive, text_or_nothing(text_at(args, index)))
    } else if c == 'd' || c == 'i' {
        padded_number(out, directive, decimal_text(int_at(args, index) as int))
    } else if c == 'u' {
        padded_number(out, directive, digits_text(uint_at(args, index) as nat, 10, false))
    } else if c == 'x' {
        padded_number(
            out,
            directive,
            hex_text(hex_operand(directive.length, args, index) as nat, false),
        )
    } else if c == 'X' {
        padded_number(
            out,
            directive,
            hex_text(hex_operand(directive.length, args, index) as nat, true),
        )
    } else if c == 'p' {
        out + pointer_text(size_at(args, index) as nat)
    } else {
        out.push('%')
    }
}

/// The text of the bounded variant from position `pos` of the format on,
/// behind `out`, with `used` values already taken.
///
/// A character other than `%` is copied. After `%` come flags, width and
/// length modifier, then the conversion character; where the format ends
/// before it, `%` is printed.
pub open spec fn bounded_format_from(
    format: Seq<char>,
    pos: int,
    args: Seq<FormatArg>,
    used: int,
    out: Seq<char>,
) -> Seq<char>
    decreases format.len() - pos,
{
    if pos < 0 || pos >= format.len() {
        out
    } else if format[pos] != '%' {
        bounded_format_from(format, pos + 1, args, used, out.push(format[pos]))
    } else {
        let (directive, at) = scan_directive(format, pos + 1, Directive::plain());
        proof {
            lemma_scan_directive_end(format, pos + 1, Directive::plain());
        }
        if at >= format.len() {
            out.push('%')
        } else {
            bounded_format_from(
                format,
                at + 1,
                args,
                if takes_value(format[at]) {
                    used + 1
                } else {
                    used
                },
                converted(out, directive, format[at], args, used),
            )
        }
    }
}

/// The whole text that the bounded variant makes of a format and its
/// values.
pub open spec fn bounded_format(format: Seq<char>, args: Seq<FormatArg>) -> Seq<char> {
    bounded_format_from(format, 0, args, 0, Seq::empty())
}

/// Whether `c` is a digit.
fn is_digit_char(c: char) -> (digit: bool)
    ensures
        digit == is_digit(c),
{
    c >= '0' && c <= '9'
}

/// The number the digit `c` stands for.
fn digit_of(c: char) -> (value: usize)
    requires
        is_digit(c),
    ensures
        value == digit_value(c),
        value <= 9,
{
    (c as u32 - '0' as u32) as usize
}

/// Reads the width whose first digit stands at `pos`; gives the width and
/// the position behind its digits.
fn scan_width(chars: &Vec<char>, pos: usize) -> (found: (usize, usize))
    requires
        pos < chars@.len(),
        is_digit(chars@[pos as int]),
    ensures
        found.1 == digits_end(chars@, pos as int),
        found.0 == width_value(chars@, pos as int, found.1 as int),
        pos < found.1 <= chars@.len(),
{
    let mut cur: usize = pos;
    let mut width: usize = 0;
    while cur < chars.len() && is_digit_char(chars[cur])
        invariant
            pos <= cur <= chars@.len(),
            digits_end(chars@, cur as int) == digits_end(chars@, pos as int),
            width == saturated(decimal_value(chars@.subrange(pos as int, cur as int))),
        decreases chars@.len() - cur,
    {
        let digit = digit_of(chars[cur]);
        proof {
            let longer = chars@.subrange(pos as int, cur + 1);
            assert(longer.drop_last() == chars@.subrange(pos as int, cur as int));
            assert(longer.last() == chars@[cur as int]);
        }
        width = match width.checked_mul(10) {
            Some(tens) => tens.saturating_add(digit),
            None => usize::MAX,
        };
        cur = cur + 1;
    }
    (width, cur)
}

/// Reads the flags, width and length modifier that stand from `start` on;
/// gives them and the position behind them.
fn parse_directive(chars: &Vec<char>, start: usize) -> (found: (Directive, usize))
    requires
        start <= chars@.len(),
    ensures
        found.0 == scan_directive(chars@, start as int, Directive::plain()).0,
        found.1 == scan_directive(chars@, start as int, Directive::plain()).1,
        start <= found.1 <= chars@.len(),
{
    let mut directive = Directive {
        left_align: false,
        zero_pad: false,
        width: 0,
        length: LengthModifier::Plain,
    };
    let mut pos: usize = start;
    let mut done = false;
    while pos < chars.len() && !done
        invariant
            start <= pos <= chars@.len(),
            scan_directive(chars@, pos as int, directive) == scan_directive(
                chars@,
                start as int,
                Directive::plain(),
            ),
            done ==> scan_directive(chars@, pos as int, directive) == (directive, pos as int),
        decreases chars@.len() - pos + (if done { 0int } else { 1int }),
    {
        let c = chars[pos];
        if c == '-' {
            directive.left_align = true;
            pos = pos + 1;
        } else if c == '0' && !(pos + 1 < chars.len() && is_digit_char(chars[pos + 1])) {
            directive.zero_pad = true;
            pos = pos + 1;
        } else if is_digit_char(c) {
            let (width, end) = scan_width(chars, pos);
            if c == '0' {
                directive.zero_pad = true;
            }
            directive.width = width;
            pos = end;
        } else if c == 'l' {
            if pos + 1 < chars.len() && chars[pos + 1] == 'l' {
                directive.length = LengthModifier::LongLong;
                pos = pos + 2;
            } else {
                directive.length = LengthModifier::Long;
                pos = pos + 1;
            }
        } else if c == 'h' {
            pos = pos + 1;
        } else {
            done = true;
        }
    }
    (directive, pos)
}

/// The number of padding characters of a field for `text`.
fn padding(directive: &Directive, text: &str) -> (count: usize)
    ensures
        count == pad_count(*directive, text@),
{
    let len = byte_len(text);
    if directive.width > 0 && len < directive.width {
        directive.width - len
    } else {
        0
    }
}

/// Writes a number's field to `out`.
fn push_padded_number(out: &mut ByteSink, directive: &Directive, text: &str)
    requires
        old(out).wf(),
    ensures
        final(out).wf(),
        final(out).limit() == old(out).limit(),
        final(out).whole() == padded_number(old(out).whole(), *directive, text@),
{
    let count = padding(directive, text);
    if directive.left_align {
        out.append(text);
        out.append_repeated(' ', count);
    } else if directive.zero_pad {
        out.append_repeated('0', count);
        out.append(text);
    } else {
        out.append_repeated(' ', count);
        out.append(text);
    }
}

/// Writes a text's field to `out`.
fn push_padded_text(out: &mut ByteSink, directive: &Directive, text: &str)
    requires
        old(out).wf(),
    ensures
        final(out).wf(),
        final(out).limit() == old(out).limit(),
        final(out).whole() == padded_text(old(out).whole(), *directive, text@),
{
    let count = padding(directive, text);
    if directive.left_align {
        out.append(text);
        out.append_repeated(' ', count);
    } else {
        out.append_repeated(' ', count);
        out.append(text);
    }
}

/// Writes to `out` what the directive `directive` of conversion `c` prints.
fn push_converted(
    out: &mut ByteSink,
    directive: &Directive,
    c: char,
    args: &[FormatArg],
    index: usize,
)
    requires
        old(out).wf(),
    ensures
        final(out).wf(),
        final(out).limit() == old(out).limit(),
        final(out).whole() == converted(old(out).whole(), *directive, c, args@, index as int),
{
    if c == 's' {
        match read_text(args, index) {
            Some(text) => {
                push_padded_text(out, directive, text);
            },
            None => {
                proof {
                    reveal_strlit("");
                }
                push_padded_text(out, directive, "");
            },
        }
    } else if c == 'd' || c == 'i' {
        let text = signed_decimal(read_int(args, index));
        push_padded_number(out, directive, text.as_str());
    } else if c == 'u' {
        let text = unsigned_decimal(read_uint(args, index));
        push_padded_number(out, directive, text.as_str());
    } else if c == 'x' || c == 'X' {
        let value: u32 = match directive.length {
            LengthModifier::Plain => read_uint(args, index),
            LengthModifier::Long => read_size(args, index) as u32,
            LengthModifier::LongLong => read_long(args, index) as u32,
        };
        let text = hexadecimal(value, c == 'X');
        push_padded_number(out, directive, text.as_str());
    } else if c == 'p' {
        let text = pointer(read_size(args, index));
        out.append(text.as_str());
    } else {
        proof {
            reveal_strlit("%");
        }
        out.append("%");
        assert(old(out).whole() + "%"@ =~= old(out).whole().push('%'));
    }
}

/// Formats `format` with the values `args`, with flags, widths and length
/// modifiers, and keeps the first `limit` bytes of the text.
pub fn format_bounded(format: &str, args: &[FormatArg], limit: usize) -> (out: ByteSink)
    ensures
        out.wf(),
        out.limit() == limit,
        out.whole() == bounded_format(format@, args@),
{
    let chars = text_chars(format);
    let mut out = ByteSink::new(limit);
    let mut run = String::new();
    let mut pos: usize = 0;
    let mut used: usize = 0;
    proof {
        assert(out.whole() + run@ =~= Seq::<char>::empty());
    }
    while pos < chars.len()
        invariant
            chars@ == format@,
            pos <= chars@.len(),
            used <= pos,
            out.wf(),
            out.limit() == limit,
            bounded_format_from(format@, pos as int, args@, used as int, out.whole() + run@)
                == bounded_format(format@, args@),
        decreases chars@.len() - pos,
    {
        let c = chars[pos];
        if c != '%' {
            proof {
                assert((out.whole() + run@).push(c) =~= out.whole() + run@.push(c));
            }
            run.push(c);
            pos = pos + 1;
        } else {
            out.append(run.as_str());
            run = String::new();
            proof {
                assert(out.whole() + run@ =~= out.whole());
            }
            let (directive, at) = parse_directive(&chars, pos + 1);
            if at >= chars.len() {
                proof {
                    reveal_strlit("%");
                    assert(out.whole() + "%"@ =~= out.whole().push('%'));
                }
                out.append("%");
                pos = at;
            } else {
                let conversion = chars[at];
                push_converted(&mut out, &directive, conversion, args, used);
                if conversion == 's' || conversion == 'd' || conversion == 'i' || conversion == 'u'
                    || conversion == 'x' || conversion == 'X' || conversion == 'p' {
                    used = used + 1;
                }
                pos = at + 1;
            }
            proof {
                assert(out.whole() + run@ =~= out.whole());
            }
        }
    }
    out.append(run.as_str());
    out
}

/// A length as C's `int`: the greatest `int` where the length is beyond it.
pub open spec fn clamped_length(len: nat) -> i32 {
    if len <= i32::MAX {
        len as i32
    } else {
        i32::MAX
    }
}

/// The count of a buffer as C's `int`.
fn clamp_length(total: usize, Ghost(len): Ghost<nat>) -> (length: i32)
    requires
        total == saturated(len),
    ensures
        length == clamped_length(len),
{
    if total > i32::MAX as usize {
        i32::MAX
    } else {
        total as i32
    }
}

/// What a plain formatting call hands to the log sink and returns.
#[derive(Debug)]
pub struct Printed {
    /// The line for the log sink; `None` where nothing is logged.
    pub line: Option<String>,
    /// The value returned to the caller: the bytes of the whole text.
    pub length: i32,
}

/// Whether `printed` is what a plain formatting call gives for `format`
/// and `args`. For the null format it is no line and zero. Else the line
/// is the whole text cut to 512 bytes at a character boundary, and the
/// length is that of the whole text.
pub open spec fn is_plain_output(
    format: Option<Seq<char>>,
    args: Seq<FormatArg>,
    printed: Printed,
) -> bool {
    match format {
        None => printed.line is None && printed.length == 0,
        Some(f) => {
            &&& printed.line matches Some(line) && line@ == cut_to(
                plain_format(f, args),
                OUTPUT_CAPACITY as nat,
            )
            &&& printed.length == clamped_length(utf8_len(plain_format(f, args)))
        },
    }
}

/// The view of an optional format.
pub open spec fn format_view(format: Option<&str>) -> Option<Seq<char>> {
    match format {
        Some(f) => Some(f@),
        None => None,
    }
}

/// Formats a line for the log sink from a format and the list of its values.
pub fn os_vprintf(format: Option<&str>, ap: &[FormatArg]) -> (printed: Printed)
    ensures
        is_plain_output(format_view(format), ap@, printed),
{
    match format {
        None => Printed { line: None, length: 0 },
        Some(f) => {
            let formatted = format_va_list(f, ap);
            let length = clamp_length(formatted.total(), Ghost(utf8_len(formatted.whole())));
            let line = formatted.as_str().to_owned();
            Printed { line: Some(line), length }
        },
    }
}

/// Formats a line for the log sink from a format and its values.
pub fn os_printf(format: Option<&str>, args: &[FormatArg]) -> (printed: Printed)
    ensures
        is_plain_output(format_view(format), args@, printed),
{
    os_vprintf(format, args)
}

/// The caller's buffer after `bytes` were handed out through it: as many of
/// them as fit before the terminator, the terminator, and behind it what
/// the buffer held before.
pub open spec fn copied_out(before: Seq<u8>, bytes: Seq<u8>, size: int) -> Seq<u8>
    recommends
        0 < size <= before.len(),
{
    let count = if bytes.len() < size - 1 {
        bytes.len() as int
    } else {
        size - 1
    };
    bytes.take(count) + seq![0u8] + before.skip(count + 1)
}

/// What handing out through the caller's buffer comes to: of `length`
/// bytes the first `size - 1` at most are stored, a zero byte stands behind
/// them, and nothing behind that is touched.
pub proof fn law_copied_out(before: Seq<u8>, bytes: Seq<u8>, size: int)
    requires
        0 < size <= before.len(),
    ensures
        ({
            let after = copied_out(before, bytes, size);
            let count = if bytes.len() < size - 1 {
                bytes.len() as int
            } else {
                size - 1
            };
            &&& after.len() == before.len()
            &&& forall|i: int| 0 <= i < count ==> after[i] == bytes[i]
            &&& after[count] == 0
            &&& forall|i: int| count < i < before.len() ==> after[i] == before[i]
        }),
{
}

/// Formats into the first `size` bytes of `buffer`, which it has to have:
/// the text's first bytes, as many as fit before the last of them, then a
/// zero byte. Returns the bytes of the whole text, also where the buffer
/// took fewer; zero where the buffer or the format is null or `size` is
/// zero, and the buffer is then left as it was.
pub fn snprintf(
    buffer: Option<&mut Vec<u8>>,
    size: usize,
    format: Option<&str>,
    args: &[FormatArg],
) -> (written: i32)
    requires
        buffer matches Some(b) ==> (format is Some ==> size <= b@.len()),
    ensures
        buffer is None || format is None || size == 0 ==> written == 0,
        buffer matches Some(b) ==> (format is None || size == 0 ==> final(b)@ == b@),
        buffer matches Some(b) ==> (format matches Some(f) ==> (size > 0 ==> {
            &&& final(b)@ == copied_out(b@, encode_utf8(bounded_format(f@, args@)), size as int)
            &&& written == clamped_length(utf8_len(bounded_format(f@, args@)))
        })),
{
    match buffer {
        None => 0,
        Some(target) => {
            match format {
                None => 0,
                Some(f) => {
                    if size == 0 {
                        return 0;
                    }
                    let formatted = format_bounded(f, args, size - 1);
                    let bytes = formatted.bytes();
                    let count = bytes.len();
                    let ghost before = target@;
                    let mut index: usize = 0;
                    while index < count
                        invariant
                            index <= count,
                            count == bytes@.len(),
                            count < size <= target@.len(),
                            target@.len() == before.len(),
                            target@ == bytes@.take(index as int) + before.skip(index as int),
                        decreases count - index,
                    {
                        target.set(index, bytes[index]);
                        index = index + 1;
                    }
                    target.set(count, 0);
                    assert(target@ == copied_out(
                        before,
                        encode_utf8(bounded_format(f@, args@)),
                        size as int,
                    ));
                    clamp_length(formatted.total(), Ghost(utf8_len(formatted.whole())))
                },
            }
        },
    }
}

} // verus!
