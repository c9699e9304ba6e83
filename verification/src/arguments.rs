//! The values handed to a formatting call, in call order.
//!
//! A conversion takes the next value and reads it as the type it needs. No
//! kind is checked against the conversion: an integer of another width is
//! converted as an integer cast converts it, text read as a number is zero,
//! and a number read as text is the null string. Past the last value every
//! read gives zero or the null string.

use vstd::prelude::*;

verus! {

/// One value of the argument list.
#[derive(Debug)]
pub enum FormatArg {
    /// Text, or the null string.
    Str(Option<String>),
    /// A signed 32-bit integer.
    Int(i32),
    /// An unsigned 32-bit integer.
    Uint(u32),
    /// An unsigned integer of the machine's word size.
    Size(usize),
    /// An unsigned 64-bit integer.
    Long(u64),
    /// An address.
    Pointer(usize),
}

impl FormatArg {
    /// The value read as a signed 32-bit integer.
    pub open spec fn as_int(self) -> i32 {
        match self {
            FormatArg::Str(_) => 0i32,
            FormatArg::Int(v) => v,
            FormatArg::Uint(v) => v as i32,
            FormatArg::Size(v) => v as i32,
            FormatArg::Long(v) => v as i32,
            FormatArg::Pointer(v) => v as i32,
        }
    }

    /// The value read as an unsigned 32-bit integer.
    pub open spec fn as_uint(self) -> u32 {
        match self {
            FormatArg::Str(_) => 0u32,
            FormatArg::Int(v) => v as u32,
            FormatArg::Uint(v) => v,
            FormatArg::Size(v) => v as u32,
            FormatArg::Long(v) => v as u32,
            FormatArg::Pointer(v) => v as u32,
        }
    }

    /// The value read as an unsigned integer of the machine's word size.
    pub open spec fn as_size(self) -> usize {
        match self {
            FormatArg::Str(_) => 0usize,
            FormatArg::Int(v) => v as usize,
            FormatArg::Uint(v) => v as usize,
            FormatArg::Size(v) => v,
            FormatArg::Long(v) => v as usize,
            FormatArg::Pointer(v) => v,
        }
    }

    /// The value read as an unsigned 64-bit integer.
    pub open spec fn as_long(self) -> u64 {
        match self {
            FormatArg::Str(_) => 0u64,
            FormatArg::Int(v) => v as u64,
            FormatArg::Uint(v) => v as u64,
            FormatArg::Size(v) => v as u64,
            FormatArg::Long(v) => v,
            FormatArg::Pointer(v) => v as u64,
        }
    }

    /// The value read as text: the characters of a string, nothing for the
    /// null string or a number.
    pub open spec fn as_text(self) -> Option<Seq<char>> {
        match self {
            FormatArg::Str(Some(text)) => Some(text@),
            _ => None,
        }
    }
}

/// The value at `index`, where the list has one.
pub open spec fn arg_at(args: Seq<FormatArg>, index: int) -> Option<FormatArg> {
    if 0 <= index < args.len() {
        Some(args[index])
    } else {
        None
    }
}

/// The next value read as a signed 32-bit integer.
pub open spec fn int_at(args: Seq<FormatArg>, index: int) -> i32 {
    match arg_at(args, index) {
        Some(arg) => arg.as_int(),
        None => 0i32,
    }
}

/// The next value read as an unsigned 32-bit integer.
pub open spec fn uint_at(args: Seq<FormatArg>, index: int) -> u32 {
    match arg_at(args, index) {
        Some(arg) => arg.as_uint(),
        None => 0u32,
    }
}

/// The next value read as an unsigned integer of the machine's word size.
pub open spec fn size_at(args: Seq<FormatArg>, index: int) -> usize {
    match arg_at(args, index) {
        Some(arg) => arg.as_size(),
        None => 0usize,
    }
}

/// The next value read as an unsigned 64-bit integer.
pub open spec fn long_at(args: Seq<FormatArg>, index: int) -> u64 {
    match arg_at(args, index) {
        Some(arg) => arg.as_long(),
        None => 0u64,
    }
}

/// The next value read as text.
pub open spec fn text_at(args: Seq<FormatArg>, index: int) -> Option<Seq<char>> {
    match arg_at(args, index) {
        Some(arg) => arg.as_text(),
        None => None,
    }
}

/// Reads the value at `index` as a signed 32-bit integer.
pub fn read_int(args: &[FormatArg], index: usize) -> (value: i32)
    ensures
        value == int_at(args@, index as int),
{
    if index < args.len() {
        match &args[index] {
            FormatArg::Str(_) => 0i32,
            FormatArg::Int(v) => *v,
            FormatArg::Uint(v) => *v as i32,
            FormatArg::Size(v) => *v as i32,
            FormatArg::Long(v) => *v as i32,
            FormatArg::Pointer(v) => *v as i32,
        }
    } else {
        0i32
    }
}

/// Reads the value at `index` as an unsigned 32-bit integer.
pub fn read_uint(args: &[FormatArg], index: usize) -> (value: u32)
    ensures
        value == uint_at(args@, index as int),
{
    if index < args.len() {
        match &args[index] {
            FormatArg::Str(_) => 0u32,
            FormatArg::Int(v) => *v as u32,
            FormatArg::Uint(v) => *v,
            FormatArg::Size(v) => *v as u32,
            FormatArg::Long(v) => *v as u32,
            FormatArg::Pointer(v) => *v as u32,
        }
    } else {
        0u32
    }
}

/// Reads the value at `index` as an unsigned integer of the machine's word size.
pub fn read_size(args: &[FormatArg], index: usize) -> (value: usize)
    ensures
        value == size_at(args@, index as int),
{
    if index < args.len() {
        match &args[index] {
            FormatArg::Str(_) => 0usize,
            FormatArg::Int(v) => *v as usize,
            FormatArg::Uint(v) => *v as usize,
            FormatArg::Size(v) => *v,
            FormatArg::Long(v) => *v as usize,
            FormatArg::Pointer(v) => *v,
        }
    } else {
        0usize
    }
}

/// Reads the value at `index` as an unsigned 64-bit integer.
pub fn read_long(args: &[FormatArg], index: usize) -> (value: u64)
    ensures
        value == long_at(args@, index as int),
{
    if index < args.len() {
        match &args[index] {
            FormatArg::Str(_) => 0u64,
            FormatArg::Int(v) => *v as u64,
            FormatArg::Uint(v) => *v as u64,
            FormatArg::Size(v) => *v as u64,
            FormatArg::Long(v) => *v,
            FormatArg::Pointer(v) => *v as u64,
        }
    } else {
        0u64
    }
}

/// Reads the value at `index` as text.
pub fn read_text(args: &[FormatArg], index: usize) -> (text: Option<&str>)
    ensures
        match text {
            Some(t) => text_at(args@, index as int) == Some(t@),
            None => text_at(args@, index as int) is None,
        },
{
    if index < args.len() {
        match &args[index] {
            FormatArg::Str(Some(text)) => Some(text.as_str()),
            _ => None,
        }
    } else {
        None
    }
}

} // verus!
