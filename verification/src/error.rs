//! The failures of reading and of writing. All of them are values that the
//! caller inspects; none ends the process.
use vstd::prelude::*;

verus! {

/// Why a read failed.
#[derive(Debug, PartialEq, Eq, Copy, Clone, Structural)]
pub enum ReadError {
    /// More bits were asked for than the target type holds.
    TooManyBits { requested: usize, max: usize },
    /// More bits were asked for than are left in the stream.
    NotEnoughData { requested: usize, bits_left: usize },
    /// The bytes read for a string are not valid UTF-8.
    InvalidText,
}

/// Why a write failed.
#[derive(Debug, PartialEq, Eq, Copy, Clone, Structural)]
pub enum BitError {
    /// More bits were asked for than the field holds: than the type of the
    /// value has, or, for a length prefix, than the prefix has.
    TooManyBits { requested: usize, max: usize },
    /// The text has more bytes than the field it is to fill.
    StringToLong { string_length: usize, requested_length: usize },
}

} // verus!
