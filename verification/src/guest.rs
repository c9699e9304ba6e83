//! What the guest hands to the host: the text it logs, and the work of the
//! benchmark module.

use core::str::from_utf8;
use vstd::prelude::*;
use vstd::slice::slice_subrange;
use vstd::string::{StringExecFns, StringSliceAdditionalSpecFns};
use vstd::utf8::{decode_utf8, encode_utf8_decode_utf8, valid_utf8};

verus! {

/// Why no text could be read from the guest's memory.
#[derive(Clone, Copy, PartialEq, Eq, Structural, Debug)]
pub enum MessageError {
    /// The bytes do not lie in the memory.
    OutOfBounds,
    /// The bytes are not valid UTF-8.
    InvalidText,
}

/// The text of `length` bytes that stands at `offset` in the guest's
/// memory, or why there is none.
pub open spec fn message_in(memory: Seq<u8>, offset: u32, length: u32) -> Result<
    Seq<char>,
    MessageError,
> {
    if offset + length > memory.len() {
        Err(MessageError::OutOfBounds)
    } else if !valid_utf8(memory.subrange(offset as int, offset + length)) {
        Err(MessageError::InvalidText)
    } else {
        Ok(decode_utf8(memory.subrange(offset as int, offset + length)))
    }
}

/// Reads the text that the guest logs from its memory.
pub fn guest_message(memory: &[u8], offset: u32, length: u32) -> (message: Result<
    &str,
    MessageError,
>)
    ensures
        match message {
            Ok(text) => message_in(memory@, offset, length) == Ok::<Seq<char>, MessageError>(text@),
            Err(error) => message_in(memory@, offset, length) == Err::<Seq<char>, MessageError>(
                error,
            ),
        },
{
    let size = memory.len();
    let start = offset as usize;
    let count = length as usize;
    if start > size || count > size - start {
        return Err(MessageError::OutOfBounds);
    }
    match from_utf8(slice_subrange(memory, start, start + count)) {
        Ok(text) => {
            proof {
                encode_utf8_decode_utf8(text@);
            }
            Ok(text)
        },
        Err(_) => Err(MessageError::InvalidText),
    }
}

/// The line that the logging callback hands to the log sink for the bytes
/// the guest gave it.
pub open spec fn log_line(buffer: Option<Seq<u8>>) -> Seq<char> {
    match buffer {
        None => "buffer pointer is null"@,
        Some(bytes) => if valid_utf8(bytes) {
            "module log: "@ + decode_utf8(bytes)
        } else {
            "module logged using an invalid string"@
        },
    }
}

/// The logging callback: makes the line for the log sink out of the bytes
/// that the guest logs.
pub fn log_host_function(buffer: Option<&[u8]>) -> (line: String)
    ensures
        line@ == log_line(
            match buffer {
                Some(bytes) => Some(bytes@),
                None => None,
            },
        ),
{
    match buffer {
        None => String::from_str("buffer pointer is null"),
        Some(bytes) => match from_utf8(bytes) {
            Ok(text) => {
                proof {
                    encode_utf8_decode_utf8(text@);
                }
                let mut line = String::from_str("module log: ");
                line.append(text);
                line
            },
            Err(_) => String::from_str("module logged using an invalid string"),
        },
    }
}

/// The number that the benchmark module has after `rounds` rounds: each
/// round adds its index to the number, multiplies by 1664525 and adds
/// 1013904223, all within 32 bits.
pub open spec fn mixed(rounds: nat) -> u32
    decreases rounds,
{
    if rounds == 0 {
        0
    } else {
        let before = mixed((rounds - 1) as nat);
        ((((before + (rounds - 1)) % 0x1_0000_0000) * 1_664_525 + 1_013_904_223)
            % 0x1_0000_0000) as u32
    }
}

/// The message that the benchmark module logs at its end.
pub open spec fn run_message(iterations: i32) -> Seq<char> {
    let rounds = if iterations > 0 {
        iterations as nat
    } else {
        0
    };
    if mixed(rounds) % 2 == 0 {
        "done-even"@
    } else {
        "done-odd"@
    }
}

/// The work of the benchmark module: mixes a number for `iterations`
/// rounds and says whether it ends even or odd.
pub fn run(iterations: i32) -> (message: &'static str)
    ensures
        message@ == run_message(iterations),
{
    let mut acc: u32 = 0;
    let mut i: i32 = 0;
    while i < iterations
        invariant
            0 <= i,
            iterations > 0 ==> i <= iterations,
            iterations <= 0 ==> i == 0,
            acc == mixed(i as nat),
        decreases iterations - i,
    {
        let val: u32 = i as u32;
        acc = acc.wrapping_add(val).wrapping_mul(1_664_525).wrapping_add(1_013_904_223);
        i = i + 1;
    }
    assert(acc & 1 == acc % 2) by (bit_vector);
    if acc & 1 == 0 {
        "done-even"
    } else {
        "done-odd"
    }
}

} // verus!
