//! From decoded bytes to text: the UTF-8 check that ends every field.
use vstd::prelude::*;
use vstd::utf8::{decode_utf8, partial_valid_utf8, valid_utf8};
use crate::error::{Error, Utf8Fault};

verus! {

/// `len` is the length of the longest prefix of `bytes` that is valid UTF-8.
pub open spec fn is_longest_valid_prefix(bytes: Seq<u8>, len: int) -> bool {
    &&& partial_valid_utf8(bytes, len)
    &&& forall|longer: int|
        len < longer <= bytes.len() ==> !#[trigger] partial_valid_utf8(bytes, longer)
}

/// The length of the longest prefix of `bytes` that is valid UTF-8.
pub open spec fn valid_prefix_len(bytes: Seq<u8>) -> int {
    choose|len: int| is_longest_valid_prefix(bytes, len)
}

/// The length that `Utf8Error::error_len` reports for `bytes` that are not
/// UTF-8: the length of the invalid sequence that follows the longest valid
/// prefix, or `None` where the bytes end inside a character.
pub uninterp spec fn utf8_error_len(bytes: Seq<u8>) -> Option<usize>;

/// Why `bytes` are not UTF-8.
pub open spec fn utf8_fault(bytes: Seq<u8>) -> Utf8Fault {
    Utf8Fault { valid_up_to: valid_prefix_len(bytes) as usize, error_len: utf8_error_len(bytes) }
}

/// The text that `bytes` encode, or the fault that keeps them from being
/// UTF-8.
pub open spec fn text_of(bytes: Seq<u8>) -> Result<Seq<char>, Error> {
    if valid_utf8(bytes) {
        Ok(decode_utf8(bytes))
    } else {
        Err(Error::TextDecoding(utf8_fault(bytes)))
    }
}

/// A reader's result with the text taken by its view.
pub open spec fn text_result(r: Result<String, Error>) -> Result<Seq<char>, Error> {
    match r {
        Ok(text) => Ok(text@),
        Err(e) => Err(e),
    }
}

/// A byte string has one longest valid prefix.
pub proof fn lemma_longest_valid_prefix_unique(bytes: Seq<u8>, len: int)
    requires
        is_longest_valid_prefix(bytes, len),
    ensures
        valid_prefix_len(bytes) == len,
{
    let chosen = valid_prefix_len(bytes);
    assert(is_longest_valid_prefix(bytes, chosen));
    if chosen < len {
        assert(!partial_valid_utf8(bytes, len));
    } else if len < chosen {
        assert(!partial_valid_utf8(bytes, chosen));
    }
}

/// Calls `String::from_utf8` and copies the two fields of the error it may
/// return. Trusted: the call succeeds exactly on valid UTF-8 and then yields
/// the text that the bytes encode; otherwise `valid_up_to` is the greatest
/// length at which a prefix of the bytes is valid, as std documents it, and
/// `error_len` is the value named [`utf8_error_len`].
#[verifier::external_body]
fn string_from_utf8(bytes: Vec<u8>) -> (r: Result<String, Utf8Fault>)
    ensures
        r is Ok <==> valid_utf8(bytes@),
        r matches Ok(text) ==> text@ == decode_utf8(bytes@),
        r matches Err(fault) ==> is_longest_valid_prefix(bytes@, fault.valid_up_to as int),
        r matches Err(fault) ==> fault.error_len == utf8_error_len(bytes@),
{
    match String::from_utf8(bytes) {
        Ok(text) => Ok(text),
        Err(e) => {
            let cause = e.utf8_error();
            Err(Utf8Fault { valid_up_to: cause.valid_up_to(), error_len: cause.error_len() })
        },
    }
}

/// Turns the decoded bytes of a field into text.
pub fn text_from_bytes(bytes: Vec<u8>) -> (r: Result<String, Error>)
    ensures
        text_result(r) == text_of(bytes@),
{
    let ghost content = bytes@;
    match string_from_utf8(bytes) {
        Ok(text) => Ok(text),
        Err(fault) => {
            proof {
                lemma_longest_valid_prefix_unique(content, fault.valid_up_to as int);
            }
            Err(Error::TextDecoding(fault))
        },
    }
}

} // verus!
