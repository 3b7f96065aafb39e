//! The decoder: pairs are read from the left and entered into a map, so that
//! of two pairs with one key the later stays.
use std::collections::HashMap;
use vstd::prelude::*;
use vstd::std_specs::hash::lemma_hashmap_deepview_dom;
use vstd::utf8::encode_utf8;
use crate::error::Error;
use crate::field::{get_key, get_value, lemma_readers_advance, read_key, read_value};
use crate::hex::remaining;

verus! {

/// Key text to value text.
pub type Entries = Map<Seq<char>, Seq<char>>;

/// What decoding `rest` adds to `entries`: the map with every pair of `rest`
/// entered from the left, or the first fault.
pub open spec fn decoded_onto(entries: Entries, rest: Seq<u8>) -> Result<Entries, Error>
    decreases rest.len(),
    via decoded_onto_terminates
{
    if rest.len() == 0 {
        Ok(entries)
    } else {
        let key = read_key(rest);
        let value = read_value(rest.skip(key.consumed as int));
        match (key.outcome, value.outcome) {
            (Err(e), _) => Err(e),
            (Ok(_), Err(e)) => Err(e),
            (Ok(k), Ok(v)) => decoded_onto(
                entries.insert(k, v),
                rest.skip(key.consumed as int).skip(value.consumed as int),
            ),
        }
    }
}

#[via_fn]
proof fn decoded_onto_terminates(entries: Entries, rest: Seq<u8>) {
    lemma_readers_advance(rest);
    lemma_readers_advance(rest.skip(read_key(rest).consumed as int));
}

/// What `input` decodes to.
pub open spec fn decoded(input: Seq<u8>) -> Result<Entries, Error> {
    decoded_onto(Map::empty(), input)
}

/// A decoder's result with the map taken by the views of its keys and values.
pub open spec fn entries_result(r: Result<HashMap<String, String>, Error>) -> Result<
    Entries,
    Error,
> {
    match r {
        Ok(map) => Ok(map.deep_view()),
        Err(e) => Err(e),
    }
}

/// Calls `HashMap::insert` on a map with `String` keys. vstd describes
/// `insert` only for key types that it takes to hash and compare by value,
/// and `String` is not among them. Trusted: two strings are one key exactly
/// when they hold the same text, so the map then holds `value` under the text
/// of `key` and is otherwise as it was.
#[verifier::external_body]
fn insert_entry(map: &mut HashMap<String, String>, key: String, value: String)
    ensures
        final(map).deep_view() == old(map).deep_view().insert(key@, value@),
{
    map.insert(key, value);
}

/// Decodes urlencoded data from a byte string.
pub fn parse_urlencoded(input: &[u8]) -> (r: Result<HashMap<String, String>, Error>)
    ensures
        entries_result(r) == decoded(input@),
{
    let mut key_value: HashMap<String, String> = HashMap::new();
    let mut index: usize = 0;
    proof {
        lemma_hashmap_deepview_dom(key_value);
        assert(key_value.deep_view() =~= Map::empty());
        assert(remaining(input@, 0) == input@);
    }
    while index < input.len()
        invariant
            index <= input.len(),
            decoded(input@) == decoded_onto(
                key_value.deep_view(),
                remaining(input@, index as int),
            ),
        decreases input.len() - index,
    {
        let ghost rest = remaining(input@, index as int);
        let ghost after_key = rest.skip(read_key(rest).consumed as int);
        proof {
            lemma_readers_advance(rest);
            lemma_readers_advance(after_key);
        }
        let key = get_key(input, &mut index)?;
        assert(remaining(input@, index as int) == after_key);
        let value = get_value(input, &mut index)?;
        assert(remaining(input@, index as int) == after_key.skip(
            read_value(after_key).consumed as int,
        ));
        insert_entry(&mut key_value, key, value);
    }
    Ok(key_value)
}

/// Decodes urlencoded data from a string, by its UTF-8 bytes.
pub fn parse_urlencoded_str(input: &str) -> (r: Result<HashMap<String, String>, Error>)
    ensures
        entries_result(r) == decoded(encode_utf8(input@)),
{
    parse_urlencoded(input.as_bytes())
}

} // verus!
