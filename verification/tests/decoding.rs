use std::collections::HashMap;
use urlencoded::{parse_urlencoded, parse_urlencoded_str, Error, Utf8Fault};

fn map_of(pairs: &[(&str, &str)]) -> HashMap<String, String> {
    let mut map = HashMap::new();
    for (key, value) in pairs {
        map.insert(String::from(*key), String::from(*value));
    }
    map
}

fn percent_encode(text: &str) -> Vec<u8> {
    let digits = b"0123456789ABCDEF";
    let mut out = Vec::new();
    for byte in text.bytes() {
        let unreserved = byte.is_ascii_alphanumeric()
            || byte == b'-'
            || byte == b'.'
            || byte == b'_'
            || byte == b'~';
        if unreserved {
            out.push(byte);
        } else {
            out.push(b'%');
            out.push(digits[(byte / 16) as usize]);
            out.push(digits[(byte % 16) as usize]);
        }
    }
    out
}

fn encode_form(pairs: &[(&str, &str)]) -> Vec<u8> {
    let mut out = Vec::new();
    for (at, (key, value)) in pairs.iter().enumerate() {
        if at > 0 {
            out.push(b'&');
        }
        out.extend(percent_encode(key));
        out.push(b'=');
        out.extend(percent_encode(value));
    }
    out
}

#[test]
fn empty_input_is_the_empty_map() {
    assert_eq!(parse_urlencoded(b""), Ok(HashMap::new()));
    assert_eq!(parse_urlencoded_str(""), Ok(HashMap::new()));
}

#[test]
fn pairs_are_entered_in_order() {
    assert_eq!(
        parse_urlencoded(b"a=1&b=2&c=3"),
        Ok(map_of(&[("a", "1"), ("b", "2"), ("c", "3")]))
    );
}

#[test]
fn later_pair_replaces_earlier_pair() {
    assert_eq!(parse_urlencoded(b"a=1&a=2"), Ok(map_of(&[("a", "2")])));
    assert_eq!(parse_urlencoded(b"a=1&b=x&a=3&b="), Ok(map_of(&[("a", "3"), ("b", "")])));
    assert_eq!(parse_urlencoded(b"k=v&%6B=w"), Ok(map_of(&[("k", "w")])));
}

#[test]
fn trailing_ampersand_ends_the_input() {
    assert_eq!(parse_urlencoded(b"a=1&"), Ok(map_of(&[("a", "1")])));
    assert_eq!(parse_urlencoded(b"a=&"), Ok(map_of(&[("a", "")])));
}

#[test]
fn plus_is_a_space_and_escapes_are_bytes() {
    assert_eq!(
        parse_urlencoded(b"full+name=Ada+Lovelace&sym=%26%3D%25%2B"),
        Ok(map_of(&[("full name", "Ada Lovelace"), ("sym", "&=%+")]))
    );
    assert_eq!(parse_urlencoded(b"nl=%0D%0A"), Ok(map_of(&[("nl", "\r\n")])));
}

#[test]
fn str_entry_point_decodes_its_bytes() {
    assert_eq!(parse_urlencoded_str("key=val&key1=val1"), parse_urlencoded(b"key=val&key1=val1"));
    assert_eq!(
        parse_urlencoded_str("key=%E6%97%A9%E3%81%8F+test"),
        Ok(map_of(&[("key", "\u{65e9}\u{304f} test")]))
    );
    assert_eq!(parse_urlencoded_str("k\u{e9}y=v"), Ok(map_of(&[("k\u{e9}y", "v")])));
    assert_eq!(parse_urlencoded_str("=val"), Err(Error::EmptyKey));
}

#[test]
fn empty_key_fails() {
    assert_eq!(parse_urlencoded(b"=val"), Err(Error::EmptyKey));
    assert_eq!(parse_urlencoded(b"a=b&=c"), Err(Error::EmptyKey));
    assert_eq!(parse_urlencoded(b"="), Err(Error::EmptyKey));
}

#[test]
fn incomplete_escape_fails_with_end_of_input() {
    assert_eq!(parse_urlencoded(b"key=%4"), Err(Error::EndOfInput));
    assert_eq!(parse_urlencoded(b"key=%"), Err(Error::EndOfInput));
    assert_eq!(parse_urlencoded(b"ke%4"), Err(Error::EndOfInput));
}

#[test]
fn key_without_equals_fails_with_end_of_input() {
    assert_eq!(parse_urlencoded(b"key"), Err(Error::EndOfInput));
    assert_eq!(parse_urlencoded(b"a=b&key"), Err(Error::EndOfInput));
}

#[test]
fn escape_with_other_bytes_fails_with_invalid_hex() {
    assert_eq!(parse_urlencoded(b"key=%GZ"), Err(Error::InvalidHex));
    assert_eq!(parse_urlencoded(b"k%4=v"), Err(Error::InvalidHex));
}

#[test]
fn lower_case_hex_digits_are_rejected() {
    assert_eq!(parse_urlencoded(b"key=%e6%97%a9"), Err(Error::InvalidHex));
    assert_eq!(parse_urlencoded(b"key=%2b"), Err(Error::InvalidHex));
    assert_eq!(parse_urlencoded(b"key=%2B"), Ok(map_of(&[("key", "+")])));
}

#[test]
fn misplaced_separators_fail_with_invalid_input() {
    assert_eq!(parse_urlencoded(b"a&b=c"), Err(Error::InvalidInput));
    assert_eq!(parse_urlencoded(b"a=b=c"), Err(Error::InvalidInput));
    assert_eq!(parse_urlencoded(b"&"), Err(Error::InvalidInput));
    assert_eq!(parse_urlencoded(b"a=b&&c=d"), Err(Error::InvalidInput));
}

#[test]
fn bytes_that_are_not_utf8_fail_with_text_decoding() {
    assert_eq!(
        parse_urlencoded(b"key=%FF"),
        Err(Error::TextDecoding(Utf8Fault { valid_up_to: 0, error_len: Some(1) }))
    );
    assert_eq!(
        parse_urlencoded(b"k%E6%97=v"),
        Err(Error::TextDecoding(Utf8Fault { valid_up_to: 1, error_len: None }))
    );
    assert_eq!(
        parse_urlencoded(b"a=b&key=ok%C3%28"),
        Err(Error::TextDecoding(Utf8Fault { valid_up_to: 2, error_len: Some(1) }))
    );
}

#[test]
fn no_map_comes_back_with_a_fault() {
    assert_eq!(parse_urlencoded(b"a=1&b=2&c"), Err(Error::EndOfInput));
    assert_eq!(parse_urlencoded(b"a=1&b=%zz"), Err(Error::InvalidHex));
}

#[test]
fn well_formed_pairs_decode_to_their_texts() {
    let pairs: [(&[u8], &[u8], &str, &str); 4] = [
        (b"name", b"J%C3%BCrgen", "name", "J\u{fc}rgen"),
        (b"a+b", b"c+d", "a b", "c d"),
        (b"%41", b"", "A", ""),
        (b"name", b"last", "name", "last"),
    ];
    let mut input = Vec::new();
    let mut expected = HashMap::new();
    for (at, (raw_key, raw_value, key, value)) in pairs.iter().enumerate() {
        if at > 0 {
            input.push(b'&');
        }
        input.extend_from_slice(raw_key);
        input.push(b'=');
        input.extend_from_slice(raw_value);
        expected.insert(String::from(*key), String::from(*value));
    }
    assert_eq!(input, b"name=J%C3%BCrgen&a+b=c+d&%41=&name=last".to_vec());
    assert_eq!(expected.len(), 3);
    assert_eq!(parse_urlencoded(&input), Ok(expected));
}

#[test]
fn round_trip_of_plain_entries() {
    let pairs = [("key", "val"), ("key1", "val1"), ("a-b.c_d~e", "XYZ019")];
    let form = encode_form(&pairs);
    assert_eq!(form, b"key=val&key1=val1&a-b.c_d~e=XYZ019".to_vec());
    assert_eq!(parse_urlencoded(&form), Ok(map_of(&pairs)));
}

#[test]
fn round_trip_of_reserved_and_multibyte_text() {
    let pairs = [
        ("a b", "c&d=e"),
        ("100%", "+1"),
        ("\u{65e9}\u{304f}", "\u{1f631}"),
        ("empty", ""),
        ("line", "one\r\ntwo"),
    ];
    let form = encode_form(&pairs);
    assert_eq!(
        form,
        b"a%20b=c%26d%3De&100%25=%2B1&%E6%97%A9%E3%81%8F=%F0%9F%98%B1&empty=&line=one%0D%0Atwo"
            .to_vec()
    );
    assert_eq!(parse_urlencoded(&form), Ok(map_of(&pairs)));
}

#[test]
fn round_trip_in_any_order_of_the_entries() {
    let forward = [("x", "1"), ("y", "2"), ("z", "3")];
    let backward = [("z", "3"), ("y", "2"), ("x", "1")];
    assert_eq!(parse_urlencoded(&encode_form(&forward)), Ok(map_of(&forward)));
    assert_eq!(parse_urlencoded(&encode_form(&backward)), Ok(map_of(&forward)));
}

#[test]
fn round_trip_fails_for_the_empty_key() {
    let form = encode_form(&[("", "val")]);
    assert_eq!(form, b"=val".to_vec());
    assert_eq!(parse_urlencoded(&form), Err(Error::EmptyKey));
}
