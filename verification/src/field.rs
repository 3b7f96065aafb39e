//! Fields: what a key and a value look like in the input, and the two readers
//! that decode them.
//!
//! A field runs from the cursor to the first `=` or `&`, or to the end of the
//! input. On the way `+` decodes to a space, `%XY` to the byte with that
//! hexadecimal value, and any other byte to itself. A key must end at `=` and
//! must not be empty; a value ends at `&` or at the end of the input.
use vstd::prelude::*;
use crate::error::Error;
use crate::hex::{hex_escape, parse_hex_char, remaining};
use crate::text::{text_from_bytes, text_of, text_result};

verus! {

/// `+`, which decodes to a space.
pub const PLUS: u8 = 0x2B;

/// `%`, which opens an escape.
pub const PERCENT: u8 = 0x25;

/// `=`, which ends a key.
pub const EQUALS: u8 = 0x3D;

/// `&`, which ends a value.
pub const AMPERSAND: u8 = 0x26;

/// The space that `+` decodes to.
pub const SPACE: u8 = 0x20;

/// What brings a field to its end.
#[derive(Debug, Clone, Copy, PartialEq, Eq)]
pub enum Stop {
    /// An `=`.
    Equals,
    /// An `&`.
    Ampersand,
    /// The end of the input.
    End,
    /// A `%` that no two hexadecimal digits follow, with the fault it raises.
    Escape(Error),
}

/// A field as it is scanned from the front of some input.
pub struct Field {
    /// The decoded bytes of the field.
    pub bytes: Seq<u8>,
    /// The number of input bytes that precede the place where the field stops.
    pub len: nat,
    /// What stops the field.
    pub stop: Stop,
}

impl Field {
    /// This field with one more decoded byte in front, which took `width`
    /// bytes of input.
    pub open spec fn after(self, byte: u8, width: nat) -> Field {
        Field { bytes: seq![byte] + self.bytes, len: self.len + width, stop: self.stop }
    }
}

/// The field at the front of `rest`.
pub open spec fn scan_field(rest: Seq<u8>) -> Field
    decreases rest.len(),
{
    if rest.len() == 0 {
        Field { bytes: Seq::empty(), len: 0, stop: Stop::End }
    } else if rest[0] == EQUALS {
        Field { bytes: Seq::empty(), len: 0, stop: Stop::Equals }
    } else if rest[0] == AMPERSAND {
        Field { bytes: Seq::empty(), len: 0, stop: Stop::Ampersand }
    } else if rest[0] == PERCENT {
        match hex_escape(rest.skip(1)) {
            Ok(byte) => scan_field(rest.skip(3)).after(byte, 3),
            Err(e) => Field { bytes: Seq::empty(), len: 0, stop: Stop::Escape(e) },
        }
    } else if rest[0] == PLUS {
        scan_field(rest.skip(1)).after(SPACE, 1)
    } else {
        scan_field(rest.skip(1)).after(rest[0], 1)
    }
}

/// What a reader makes of the input in front of it.
pub struct Reading {
    /// The text of the field, or the fault that stopped the reader.
    pub outcome: Result<Seq<char>, Error>,
    /// The number of input bytes that the cursor moves on by.
    pub consumed: nat,
}

/// What the key reader makes of `rest`. A key ends at `=`, which the cursor
/// passes. On a fault the cursor stays at the byte that raised it, but for a
/// faulty escape, where it stays just past the `%`.
pub open spec fn read_key(rest: Seq<u8>) -> Reading {
    let field = scan_field(rest);
    match field.stop {
        Stop::Escape(e) => Reading { outcome: Err(e), consumed: field.len + 1 },
        Stop::End => Reading { outcome: Err(Error::EndOfInput), consumed: field.len },
        Stop::Ampersand => Reading { outcome: Err(Error::InvalidInput), consumed: field.len },
        Stop::Equals => if field.bytes.len() == 0 {
            Reading { outcome: Err(Error::EmptyKey), consumed: field.len }
        } else {
            match text_of(field.bytes) {
                Ok(text) => Reading { outcome: Ok(text), consumed: field.len + 1 },
                Err(e) => Reading { outcome: Err(e), consumed: field.len },
            }
        },
    }
}

/// What the value reader makes of `rest`. A value ends at `&`, which the
/// cursor passes, or at the end of the input. On a fault the cursor stays as
/// it does for a key.
pub open spec fn read_value(rest: Seq<u8>) -> Reading {
    let field = scan_field(rest);
    match field.stop {
        Stop::Escape(e) => Reading { outcome: Err(e), consumed: field.len + 1 },
        Stop::Equals => Reading { outcome: Err(Error::InvalidInput), consumed: field.len },
        Stop::Ampersand => match text_of(field.bytes) {
            Ok(text) => Reading { outcome: Ok(text), consumed: field.len + 1 },
            Err(e) => Reading { outcome: Err(e), consumed: field.len },
        },
        Stop::End => Reading { outcome: text_of(field.bytes), consumed: field.len },
    }
}

/// A field stops inside the input it was scanned from, and what stops it,
/// unless that is the end of the input, takes one byte more.
pub proof fn lemma_field_within(rest: Seq<u8>)
    ensures
        scan_field(rest).stop is End ==> scan_field(rest).len == rest.len(),
        !(scan_field(rest).stop is End) ==> scan_field(rest).len < rest.len(),
        scan_field(rest).bytes.len() <= scan_field(rest).len,
    decreases rest.len(),
{
    if rest.len() > 0 {
        lemma_field_within(rest.skip(1));
        if rest.len() >= 3 {
            lemma_field_within(rest.skip(3));
        }
    }
}

/// Both readers stay inside the input, and a key that was read took at least
/// one byte.
pub proof fn lemma_readers_advance(rest: Seq<u8>)
    ensures
        read_key(rest).consumed <= rest.len(),
        read_value(rest).consumed <= rest.len(),
        read_key(rest).outcome is Ok ==> read_key(rest).consumed >= 2,
{
    lemma_field_within(rest);
}

/// Scans the field at the cursor and returns its decoded bytes with what
/// stopped it. The cursor comes to rest on the byte that stopped the field, at
/// the end of the input, or just past a faulty `%`.
fn scan(input: &[u8], index: &mut usize) -> (r: (Vec<u8>, Stop))
    ensures
        r.0@ == scan_field(remaining(input@, *old(index) as int)).bytes,
        r.1 == scan_field(remaining(input@, *old(index) as int)).stop,
        *final(index) == *old(index) + scan_field(remaining(input@, *old(index) as int)).len + (
        if r.1 is Escape {
            1int
        } else {
            0int
        }),
        r.1 is Equals || r.1 is Ampersand ==> *final(index) < input.len(),
{
    let ghost start: int = *index as int;
    let ghost whole: Field = scan_field(remaining(input@, start));
    let mut at: usize = *index;
    let mut buf: Vec<u8> = Vec::new();
    while at < input.len()
        invariant
            start == *old(index),
            start <= at,
            at <= input.len() || at == start,
            whole == scan_field(remaining(input@, start)),
            whole.bytes == buf@ + scan_field(remaining(input@, at as int)).bytes,
            whole.len == (at - start) + scan_field(remaining(input@, at as int)).len,
            whole.stop == scan_field(remaining(input@, at as int)).stop,
        decreases input.len() - at,
    {
        let ghost here: Seq<u8> = remaining(input@, at as int);
        let byte: u8 = input[at];
        assert(here.len() > 0 && here[0] == byte);
        if byte == EQUALS {
            *index = at;
            return (buf, Stop::Equals);
        } else if byte == AMPERSAND {
            *index = at;
            return (buf, Stop::Ampersand);
        } else if byte == PERCENT {
            at = at + 1;
            assert(remaining(input@, at as int) == here.skip(1));
            match parse_hex_char(input, &mut at) {
                Ok(decoded) => {
                    at = at + 1;
                    assert(remaining(input@, at as int) == here.skip(3));
                    assert(buf@.push(decoded) + scan_field(here.skip(3)).bytes == buf@ + (
                    seq![decoded] + scan_field(here.skip(3)).bytes));
                    buf.push(decoded);
                },
                Err(e) => {
                    *index = at;
                    return (buf, Stop::Escape(e));
                },
            }
        } else {
            let decoded: u8 = if byte == PLUS {
                SPACE
            } else {
                byte
            };
            at = at + 1;
            assert(remaining(input@, at as int) == here.skip(1));
            assert(buf@.push(decoded) + scan_field(here.skip(1)).bytes == buf@ + (seq![decoded]
                + scan_field(here.skip(1)).bytes));
            buf.push(decoded);
        }
    }
    *index = at;
    (buf, Stop::End)
}

/// Reads the key at the cursor: the text before the next `=`, which the
/// cursor passes. Fails with `EmptyKey` where the `=` comes first, with
/// `InvalidInput` where an `&` comes before it, with `EndOfInput` where the
/// input ends before it, with the fault of an escape that is not two
/// hexadecimal digits, and with `TextDecoding` where the decoded bytes are
/// not UTF-8.
pub fn get_key(input: &[u8], index: &mut usize) -> (r: Result<String, Error>)
    ensures
        text_result(r) == read_key(remaining(input@, *old(index) as int)).outcome,
        *final(index) == *old(index) + read_key(remaining(input@, *old(index) as int)).consumed,
        *old(index) <= input.len() ==> *final(index) <= input.len(),
{
    proof {
        lemma_readers_advance(remaining(input@, *index as int));
    }
    let (bytes, stop) = scan(input, index);
    match stop {
        Stop::Escape(e) => Err(e),
        Stop::End => Err(Error::EndOfInput),
        Stop::Ampersand => Err(Error::InvalidInput),
        Stop::Equals => {
            if bytes.len() == 0 {
                return Err(Error::EmptyKey);
            }
            match text_from_bytes(bytes) {
                Ok(text) => {
                    *index = *index + 1;
                    Ok(text)
                },
                Err(e) => Err(e),
            }
        },
    }
}

/// Reads the value at the cursor: the text before the next `&`, which the
/// cursor passes, or before the end of the input. Fails with `InvalidInput`
/// where an `=` comes first, with the fault of an escape that is not two
/// hexadecimal digits, and with `TextDecoding` where the decoded bytes are
/// not UTF-8.
pub fn get_value(input: &[u8], index: &mut usize) -> (r: Result<String, Error>)
    ensures
        text_result(r) == read_value(remaining(input@, *old(index) as int)).outcome,
        *final(index) == *old(index) + read_value(
            remaining(input@, *old(index) as int),
        ).consumed,
        *old(index) <= input.len() ==> *final(index) <= input.len(),
{
    proof {
        lemma_readers_advance(remaining(input@, *index as int));
    }
    let (bytes, stop) = scan(input, index);
    match stop {
        Stop::Escape(e) => Err(e),
        Stop::Equals => Err(Error::InvalidInput),
        Stop::Ampersand => match text_from_bytes(bytes) {
            Ok(text) => {
                *index = *index + 1;
                Ok(text)
            },
            Err(e) => Err(e),
        },
        Stop::End => text_from_bytes(bytes),
    }
}

} // verus!
