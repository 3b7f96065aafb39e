//! The ways in which decoding fails.
use vstd::prelude::*;

verus! {

/// Why the decoded bytes of a field are not UTF-8. Both lengths count
/// decoded bytes, not bytes of the input.
#[derive(Debug, Clone, Copy, PartialEq, Eq)]
pub struct Utf8Fault {
    /// Length of the longest prefix of the bytes that is valid UTF-8.
    pub valid_up_to: usize,
    /// Length of the invalid sequence that starts there, or `None` if the
    /// bytes end in the middle of a character.
    pub error_len: Option<usize>,
}

/// A failed decode. The first fault met while scanning from the left decides
/// the variant; nothing is returned besides it.
#[derive(Debug, Clone, Copy, PartialEq, Eq)]
pub enum Error {
    /// The decoded bytes of a key or of a value are not valid UTF-8.
    TextDecoding(Utf8Fault),
    /// The input ended inside a key, or less than two bytes after a `%`.
    EndOfInput,
    /// A `%` is not followed by two upper-case hexadecimal digits.
    InvalidHex,
    /// A key is empty: `=` stands where a key should begin.
    EmptyKey,
    /// `&` inside a key, or `=` inside a value.
    InvalidInput,
}

} // verus!
