//! A one-pass decoder for `application/x-www-form-urlencoded` data.
//!
//! The input is a byte string of `key=value` pairs separated by `&`. Inside a
//! field `+` stands for a space and `%XY`, with two upper-case hexadecimal
//! digits, for the byte `0xXY`; every other byte stands for itself. A decoded
//! field must be valid UTF-8. Decoding yields a map from key text to value
//! text in which a later pair replaces an earlier pair with the same key.
//!
//! [`parse_urlencoded`] and [`parse_urlencoded_str`] are the entry points.
//! What they return is fixed by the specification function
//! [`decode::decoded`], which is built from the field grammar in [`field`]
//! and the escape grammar in [`hex`]. The module [`laws`] proves what
//! decoding does to well-formed pair lists and to percent-encoded text.
pub mod error;
pub mod hex;
pub mod text;
pub mod field;
pub mod decode;
pub mod laws;

pub use crate::decode::{parse_urlencoded, parse_urlencoded_str};
pub use crate::error::{Error, Utf8Fault};
pub use crate::field::{get_key, get_value};
pub use crate::hex::{parse_hex_char, valid_hex};
