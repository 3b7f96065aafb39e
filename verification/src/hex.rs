//! The `%XY` escape: two upper-case hexadecimal digits that stand for one byte.
use vstd::prelude::*;
use crate::error::Error;

verus! {

/// The bytes of `input` from position `at` on; empty when `at` lies outside
/// the input.
pub open spec fn remaining(input: Seq<u8>, at: int) -> Seq<u8> {
    if 0 <= at <= input.len() {
        input.skip(at)
    } else {
        Seq::empty()
    }
}

/// `0`–`9` and `A`–`F`. Lower-case letters are not hexadecimal digits here.
pub open spec fn is_hex_digit(byte: u8) -> bool {
    (0x30 <= byte <= 0x39) || (0x41 <= byte <= 0x46)
}

/// The number that a hexadecimal digit stands for.
pub open spec fn hex_digit_value(byte: u8) -> int
    recommends
        is_hex_digit(byte),
{
    if byte <= 0x39 {
        byte - 0x30
    } else {
        byte - 0x41 + 10
    }
}

/// What the two bytes after a `%` decode to, `rest` being the input that
/// follows the `%`.
pub open spec fn hex_escape(rest: Seq<u8>) -> Result<u8, Error> {
    if rest.len() < 2 {
        Err(Error::EndOfInput)
    } else if !(is_hex_digit(rest[0]) && is_hex_digit(rest[1])) {
        Err(Error::InvalidHex)
    } else {
        Ok((16 * hex_digit_value(rest[0]) + hex_digit_value(rest[1])) as u8)
    }
}

/// Whether `input` is an upper-case hexadecimal digit.
pub fn valid_hex(input: u8) -> (r: bool)
    ensures
        r == is_hex_digit(input),
{
    (0x30 <= input && input <= 0x39) || (0x41 <= input && input <= 0x46)
}

/// The number that the hexadecimal digit `digit` stands for.
fn hex_digit(digit: u8) -> (r: u8)
    requires
        is_hex_digit(digit),
    ensures
        r == hex_digit_value(digit),
        r < 16,
{
    if digit <= 0x39 {
        digit - 0x30
    } else {
        digit - 0x41 + 10
    }
}

/// Decodes the two hexadecimal digits at `index`, the position just past a
/// `%`. On success the cursor moves on by one, to the second digit; on
/// failure it stays.
pub fn parse_hex_char(input: &[u8], index: &mut usize) -> (r: Result<u8, Error>)
    ensures
        r == hex_escape(remaining(input@, *old(index) as int)),
        r is Ok ==> *final(index) == *old(index) + 1,
        r is Err ==> *final(index) == *old(index),
{
    let at: usize = *index;
    if at < input.len() && input.len() - at >= 2 {
        let high: u8 = input[at];
        let low: u8 = input[at + 1];
        if valid_hex(high) && valid_hex(low) {
            let value: u8 = hex_digit(high) * 16 + hex_digit(low);
            *index = at + 1;
            Ok(value)
        } else {
            Err(Error::InvalidHex)
        }
    } else {
        Err(Error::EndOfInput)
    }
}

} // verus!
