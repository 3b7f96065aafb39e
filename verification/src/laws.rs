//! What decoding does to well-formed input.
//!
//! Two laws are proved here. A list of well-formed pairs, written as
//! `k1=v1&k2=v2&...`, decodes to the map that holds the decoded pairs, a
//! later pair replacing an earlier one with the same key. And a map that is
//! percent-encoded, in any order of its entries, decodes to itself.
use vstd::prelude::*;
use vstd::utf8::{decode_utf8, encode_utf8, valid_utf8};
use crate::decode::{decoded, decoded_onto, Entries};
use crate::error::Error;
use crate::field::{
    lemma_readers_advance, read_key, read_value, scan_field, Stop, AMPERSAND, EQUALS, PERCENT,
};
use crate::hex::{hex_escape, is_hex_digit};

verus! {

/// A key and a value as they stand in the input.
pub type RawPair = (Seq<u8>, Seq<u8>);

/// A key and a value as text.
pub type TextPair = (Seq<char>, Seq<char>);

/// `raw` can stand in the input as one field: it holds no `=` and no `&`,
/// and two hexadecimal digits follow every `%`.
pub open spec fn is_raw_field(raw: Seq<u8>) -> bool {
    &&& forall|i: int| 0 <= i < raw.len() ==> raw[i] != EQUALS && raw[i] != AMPERSAND
    &&& forall|i: int|
        0 <= i < raw.len() && #[trigger] raw[i] == PERCENT ==> i + 2 < raw.len()
            && is_hex_digit(raw[i + 1]) && is_hex_digit(raw[i + 2])
}

/// The bytes that the raw field `raw` decodes to.
pub open spec fn unescaped(raw: Seq<u8>) -> Seq<u8> {
    scan_field(raw).bytes
}

/// What may follow a field: nothing, or something that begins with `=` or `&`.
pub open spec fn ends_field(tail: Seq<u8>) -> bool {
    tail.len() == 0 || tail[0] == EQUALS || tail[0] == AMPERSAND
}

/// A raw field is scanned to its end, whatever follows it, and is left by
/// what follows it.
pub proof fn lemma_scan_raw_field(raw: Seq<u8>, tail: Seq<u8>)
    requires
        is_raw_field(raw),
        ends_field(tail),
    ensures
        scan_field(raw + tail).bytes == unescaped(raw),
        scan_field(raw + tail).len == raw.len(),
        scan_field(raw + tail).stop == scan_field(tail).stop,
        scan_field(tail).stop == if tail.len() == 0 {
            Stop::End
        } else if tail[0] == EQUALS {
            Stop::Equals
        } else {
            Stop::Ampersand
        },
        raw.len() > 0 ==> unescaped(raw).len() > 0,
    decreases raw.len(),
{
    let whole = raw + tail;
    if raw.len() == 0 {
        assert(whole == tail);
    } else {
        assert(whole[0] == raw[0]);
        let width: int = if raw[0] == PERCENT {
            3
        } else {
            1
        };
        if raw[0] == PERCENT {
            assert(whole.skip(1)[0] == raw[1] && whole.skip(1)[1] == raw[2]);
            assert(raw.skip(1)[0] == raw[1] && raw.skip(1)[1] == raw[2]);
            assert(hex_escape(whole.skip(1)) == hex_escape(raw.skip(1)));
        }
        let shorter = raw.skip(width);
        assert(whole.skip(width) == shorter + tail);
        assert(is_raw_field(shorter)) by {
            assert forall|i: int| 0 <= i < shorter.len() implies shorter[i] != EQUALS && shorter[i]
                != AMPERSAND by {
                assert(shorter[i] == raw[i + width]);
            }
            assert forall|i: int|
                0 <= i < shorter.len() && #[trigger] shorter[i] == PERCENT implies i + 2
                < shorter.len() && is_hex_digit(shorter[i + 1]) && is_hex_digit(
                shorter[i + 2],
            ) by {
                assert(shorter[i] == raw[i + width]);
                assert(shorter[i + 1] == raw[i + width + 1]);
                assert(shorter[i + 2] == raw[i + width + 2]);
            }
        }
        lemma_scan_raw_field(shorter, tail);
    }
}

/// The text that the raw field `raw` decodes to, for a field whose decoded
/// bytes are UTF-8.
pub open spec fn field_text(raw: Seq<u8>) -> Seq<char> {
    decode_utf8(unescaped(raw))
}

/// `pair` can stand in the input as one pair: both parts are raw fields that
/// decode to UTF-8, and the key is not empty.
pub open spec fn is_raw_pair(pair: RawPair) -> bool {
    &&& is_raw_field(pair.0)
    &&& is_raw_field(pair.1)
    &&& pair.0.len() > 0
    &&& valid_utf8(unescaped(pair.0))
    &&& valid_utf8(unescaped(pair.1))
}

/// The key text and the value text that a raw pair decodes to.
pub open spec fn pair_text(pair: RawPair) -> TextPair {
    (field_text(pair.0), field_text(pair.1))
}

/// The input `k1=v1&k2=v2&...` that holds `pairs` in their order.
pub open spec fn joined(pairs: Seq<RawPair>) -> Seq<u8>
    decreases pairs.len(),
{
    if pairs.len() == 0 {
        Seq::empty()
    } else if pairs.len() == 1 {
        pairs[0].0 + seq![EQUALS] + pairs[0].1
    } else {
        pairs[0].0 + seq![EQUALS] + pairs[0].1 + seq![AMPERSAND] + joined(pairs.drop_first())
    }
}

/// `entries` after `pairs` were entered into it from the left, so that a
/// later pair replaces an earlier one with the same key.
pub open spec fn entered(entries: Entries, pairs: Seq<TextPair>) -> Entries
    decreases pairs.len(),
{
    if pairs.len() == 0 {
        entries
    } else {
        entered(entries.insert(pairs[0].0, pairs[0].1), pairs.drop_first())
    }
}

/// Decoding the joined form of raw pairs enters their texts into the map
/// that decoding began with.
pub proof fn lemma_decoded_onto_joined(entries: Entries, pairs: Seq<RawPair>)
    requires
        forall|i: int| 0 <= i < pairs.len() ==> is_raw_pair(#[trigger] pairs[i]),
    ensures
        decoded_onto(entries, joined(pairs)) == Ok::<Entries, Error>(
            entered(entries, pairs.map_values(|pair: RawPair| pair_text(pair))),
        ),
    decreases pairs.len(),
{
    let texts = pairs.map_values(|pair: RawPair| pair_text(pair));
    if pairs.len() > 0 {
        let (key, value) = pairs[0];
        let later = pairs.drop_first();
        let input = joined(pairs);
        let after_value: Seq<u8> = if pairs.len() == 1 {
            Seq::empty()
        } else {
            seq![AMPERSAND] + joined(later)
        };
        let after_key = seq![EQUALS] + value + after_value;
        assert(input == key + after_key);
        lemma_scan_raw_field(key, after_key);
        assert(read_key(input).outcome == Ok::<Seq<char>, Error>(field_text(key)));
        assert(read_key(input).consumed == key.len() + 1);
        assert(input.skip(key.len() as int + 1) == value + after_value);
        lemma_scan_raw_field(value, after_value);
        assert(read_value(value + after_value).outcome == Ok::<Seq<char>, Error>(
            field_text(value),
        ));
        assert(texts[0] == pair_text(pairs[0]));
        assert(texts.drop_first() == later.map_values(|pair: RawPair| pair_text(pair)));
        let grown = entries.insert(field_text(key), field_text(value));
        assert(entered(entries, texts) == entered(grown, texts.drop_first()));
        let rest = (value + after_value).skip(read_value(value + after_value).consumed as int);
        assert(input.len() > 0);
        assert(decoded_onto(entries, input) == decoded_onto(grown, rest));
        if pairs.len() == 1 {
            assert(rest == Seq::<u8>::empty());
            assert(texts.drop_first().len() == 0);
        } else {
            assert(rest == joined(later));
            assert forall|i: int| 0 <= i < later.len() implies is_raw_pair(
                #[trigger] later[i],
            ) by {
                assert(later[i] == pairs[i + 1]);
            }
            lemma_decoded_onto_joined(grown, later);
        }
    }
}

/// Input of the form `k1=v1&k2=v2&...`, each part a raw field that decodes to
/// UTF-8 and no key empty, decodes to the map of the decoded pairs, in which
/// the last pair with a given key wins.
pub proof fn lemma_decoded_joined(pairs: Seq<RawPair>)
    requires
        forall|i: int| 0 <= i < pairs.len() ==> is_raw_pair(#[trigger] pairs[i]),
    ensures
        decoded(joined(pairs)) == Ok::<Entries, Error>(
            entered(Map::empty(), pairs.map_values(|pair: RawPair| pair_text(pair))),
        ),
{
    lemma_decoded_onto_joined(Map::empty(), pairs);
}

/// Letters, digits, `-`, `.`, `_` and `~`: the bytes that percent-encoding
/// leaves as they are.
pub open spec fn is_unreserved(byte: u8) -> bool {
    ||| 0x30 <= byte <= 0x39
    ||| 0x41 <= byte <= 0x5A
    ||| 0x61 <= byte <= 0x7A
    ||| byte == 0x2D
    ||| byte == 0x2E
    ||| byte == 0x5F
    ||| byte == 0x7E
}

/// The upper-case hexadecimal digit for a number below 16.
pub open spec fn hex_digit_for(value: int) -> u8
    recommends
        0 <= value < 16,
{
    if value < 10 {
        (0x30 + value) as u8
    } else {
        (0x41 + value - 10) as u8
    }
}

/// The percent-encoding of one byte: itself if it is unreserved, else `%`
/// and its two hexadecimal digits.
pub open spec fn percent_encoded_byte(byte: u8) -> Seq<u8> {
    if is_unreserved(byte) {
        seq![byte]
    } else {
        seq![PERCENT, hex_digit_for(byte as int / 16), hex_digit_for(byte as int % 16)]
    }
}

/// The percent-encoding of a byte string, byte by byte.
pub open spec fn percent_encoded(bytes: Seq<u8>) -> Seq<u8>
    decreases bytes.len(),
{
    if bytes.len() == 0 {
        Seq::empty()
    } else {
        percent_encoded_byte(bytes[0]) + percent_encoded(bytes.drop_first())
    }
}

/// A percent-encoded byte string is a raw field, and it decodes to the bytes
/// that were encoded.
pub proof fn lemma_percent_encoded_decodes(bytes: Seq<u8>)
    ensures
        is_raw_field(percent_encoded(bytes)),
        unescaped(percent_encoded(bytes)) == bytes,
        bytes.len() > 0 ==> percent_encoded(bytes).len() > 0,
    decreases bytes.len(),
{
    if bytes.len() > 0 {
        let first = percent_encoded_byte(bytes[0]);
        let later = percent_encoded(bytes.drop_first());
        let whole = percent_encoded(bytes);
        let width = first.len() as int;
        lemma_percent_encoded_decodes(bytes.drop_first());
        assert(whole == first + later);
        assert(whole.skip(width) == later);
        assert forall|i: int| 0 <= i < whole.len() implies whole[i] != EQUALS && whole[i]
            != AMPERSAND by {
            if i >= width {
                assert(whole[i] == later[i - width]);
            }
        }
        assert forall|i: int| 0 <= i < whole.len() && #[trigger] whole[i] == PERCENT implies i + 2
            < whole.len() && is_hex_digit(whole[i + 1]) && is_hex_digit(whole[i + 2]) by {
            if i >= width {
                assert(whole[i] == later[i - width]);
                assert(whole[i + 1] == later[i - width + 1]);
                assert(whole[i + 2] == later[i - width + 2]);
            } else {
                assert(i == 0 && width == 3);
                assert(whole[1] == first[1] && whole[2] == first[2]);
            }
        }
        assert(whole[0] == first[0]);
        if !is_unreserved(bytes[0]) {
            assert(whole.skip(1)[0] == first[1] && whole.skip(1)[1] == first[2]);
            assert(hex_escape(whole.skip(1)) == Ok::<u8, Error>(bytes[0]));
        }
        assert(unescaped(whole) == seq![bytes[0]] + unescaped(later));
        assert(seq![bytes[0]] + bytes.drop_first() == bytes);
    }
}

/// The raw pair that percent-encodes the UTF-8 bytes of a key and a value.
pub open spec fn encoded_pair(pair: TextPair) -> RawPair {
    (percent_encoded(encode_utf8(pair.0)), percent_encoded(encode_utf8(pair.1)))
}

/// The urlencoded form of `pairs`: each pair percent-encoded, in their order.
pub open spec fn encoded_form(pairs: Seq<TextPair>) -> Seq<u8> {
    joined(pairs.map_values(|pair: TextPair| encoded_pair(pair)))
}

/// `pairs` holds the entries of `entries` and nothing else, in some order.
pub open spec fn lists(pairs: Seq<TextPair>, entries: Entries) -> bool {
    &&& forall|i: int|
        0 <= i < pairs.len() ==> entries.contains_key((#[trigger] pairs[i]).0)
            && entries[pairs[i].0] == pairs[i].1
    &&& forall|key: Seq<char>| #[trigger]
        entries.contains_key(key) ==> exists|i: int|
            0 <= i < pairs.len() && (#[trigger] pairs[i]).0 == key
}

/// Entering pairs that all agree with `target` into a map that agrees with
/// `target` gives a map that agrees with `target` and holds every key that
/// was there or was entered.
pub proof fn lemma_entered_agrees(entries: Entries, pairs: Seq<TextPair>, target: Entries)
    requires
        entries.submap_of(target),
        forall|i: int|
            0 <= i < pairs.len() ==> target.contains_key((#[trigger] pairs[i]).0)
                && target[pairs[i].0] == pairs[i].1,
    ensures
        entered(entries, pairs).submap_of(target),
        entries.dom().subset_of(entered(entries, pairs).dom()),
        forall|i: int|
            0 <= i < pairs.len() ==> entered(entries, pairs).contains_key((#[trigger] pairs[i]).0),
    decreases pairs.len(),
{
    if pairs.len() > 0 {
        let grown = entries.insert(pairs[0].0, pairs[0].1);
        let later = pairs.drop_first();
        assert(target.contains_key(pairs[0].0) && target[pairs[0].0] == pairs[0].1);
        assert(grown.submap_of(target));
        assert forall|i: int| 0 <= i < later.len() implies target.contains_key(
            (#[trigger] later[i]).0,
        ) && target[later[i].0] == later[i].1 by {
            assert(later[i] == pairs[i + 1]);
        }
        lemma_entered_agrees(grown, later, target);
        assert(grown.contains_key(pairs[0].0));
        assert forall|i: int| 0 <= i < pairs.len() implies entered(entries, pairs).contains_key(
            (#[trigger] pairs[i]).0,
        ) by {
            if i > 0 {
                assert(pairs[i] == later[i - 1]);
            }
        }
    }
}

/// Percent-encoding pairs of text and decoding the result enters the pairs,
/// as long as no key is empty.
pub proof fn lemma_decoded_encoded_form(pairs: Seq<TextPair>)
    requires
        forall|i: int| 0 <= i < pairs.len() ==> (#[trigger] pairs[i]).0.len() > 0,
    ensures
        decoded(encoded_form(pairs)) == Ok::<Entries, Error>(entered(Map::empty(), pairs)),
{
    let raw = pairs.map_values(|pair: TextPair| encoded_pair(pair));
    assert forall|i: int| 0 <= i < raw.len() implies is_raw_pair(#[trigger] raw[i]) && pair_text(
        raw[i],
    ) == pairs[i] by {
        let (key, value) = pairs[i];
        assert(raw[i] == encoded_pair(pairs[i]));
        lemma_percent_encoded_decodes(encode_utf8(key));
        lemma_percent_encoded_decodes(encode_utf8(value));
        vstd::utf8::encode_utf8_valid_utf8(key);
        vstd::utf8::encode_utf8_valid_utf8(value);
        vstd::utf8::encode_utf8_decode_utf8(key);
        vstd::utf8::encode_utf8_decode_utf8(value);
        assert(encode_utf8(key).len() > 0);
    }
    assert(raw.map_values(|pair: RawPair| pair_text(pair)) == pairs);
    lemma_decoded_joined(raw);
}

/// Round trip: a map without the empty key, percent-encoded in any order of
/// its entries, decodes to itself.
pub proof fn lemma_round_trip(entries: Entries, pairs: Seq<TextPair>)
    requires
        lists(pairs, entries),
        !entries.contains_key(Seq::empty()),
    ensures
        decoded(encoded_form(pairs)) == Ok::<Entries, Error>(entries),
{
    assert forall|i: int| 0 <= i < pairs.len() implies (#[trigger] pairs[i]).0.len() > 0 by {
        assert(entries.contains_key(pairs[i].0));
        if pairs[i].0.len() == 0 {
            assert(pairs[i].0 == Seq::<char>::empty());
        }
    }
    lemma_decoded_encoded_form(pairs);
    lemma_entered_agrees(Map::empty(), pairs, entries);
    assert(entered(Map::empty(), pairs) == entries);
}

/// Decoding enters no empty key: if no key of `entries` is empty, no key of
/// the map that decoding `rest` makes of it is.
pub proof fn lemma_decoded_onto_keys_not_empty(entries: Entries, rest: Seq<u8>)
    requires
        forall|key: Seq<char>| #[trigger] entries.contains_key(key) ==> key.len() > 0,
    ensures
        decoded_onto(entries, rest) matches Ok(map) ==> forall|key: Seq<char>| #[trigger]
            map.contains_key(key) ==> key.len() > 0,
    decreases rest.len(),
{
    if rest.len() > 0 {
        let key = read_key(rest);
        let after_key = rest.skip(key.consumed as int);
        let value = read_value(after_key);
        lemma_readers_advance(rest);
        lemma_readers_advance(after_key);
        if let (Ok(k), Ok(v)) = (key.outcome, value.outcome) {
            assert(k == decode_utf8(scan_field(rest).bytes));
            assert(k.len() > 0);
            lemma_decoded_onto_keys_not_empty(
                entries.insert(k, v),
                after_key.skip(value.consumed as int),
            );
        }
    }
}

/// No map that decoding returns holds the empty key.
pub proof fn lemma_decoded_keys_not_empty(input: Seq<u8>)
    ensures
        decoded(input) matches Ok(map) ==> !map.contains_key(Seq::empty()),
{
    lemma_decoded_onto_keys_not_empty(Map::empty(), input);
}

} // verus!
