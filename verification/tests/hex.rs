use urlencoded::{parse_hex_char, valid_hex, Error};

#[test]
fn parse_cr_nl() {
    let data = b"%0D%0A";
    let mut i = 1;
    assert_eq!(Ok(13), parse_hex_char(data, &mut i));
    i += 2;
    assert_eq!(Ok(10), parse_hex_char(data, &mut i));
}

#[test]
fn hex_char_moves_cursor_to_second_digit() {
    let data = b"%0D%0A";
    let mut i = 1;
    assert_eq!(parse_hex_char(data, &mut i), Ok(13));
    assert_eq!(i, 2);
    i += 2;
    assert_eq!(parse_hex_char(data, &mut i), Ok(10));
    assert_eq!(i, 5);
}

#[test]
fn hex_char_extremes() {
    let mut i = 0;
    assert_eq!(parse_hex_char(b"00", &mut i), Ok(0));
    let mut i = 0;
    assert_eq!(parse_hex_char(b"FF", &mut i), Ok(255));
    let mut i = 0;
    assert_eq!(parse_hex_char(b"7E", &mut i), Ok(126));
    let mut i = 0;
    assert_eq!(parse_hex_char(b"A0", &mut i), Ok(160));
    let mut i = 0;
    assert_eq!(parse_hex_char(b"9F", &mut i), Ok(159));
}

#[test]
fn hex_char_every_byte() {
    let digits = b"0123456789ABCDEF";
    for high in 0..16usize {
        for low in 0..16usize {
            let data = [digits[high], digits[low]];
            let mut i = 0;
            assert_eq!(parse_hex_char(&data, &mut i), Ok((high * 16 + low) as u8));
            assert_eq!(i, 1);
        }
    }
}

#[test]
fn hex_char_needs_two_bytes() {
    let mut i = 0;
    assert_eq!(parse_hex_char(b"", &mut i), Err(Error::EndOfInput));
    assert_eq!(i, 0);
    let mut i = 0;
    assert_eq!(parse_hex_char(b"4", &mut i), Err(Error::EndOfInput));
    assert_eq!(i, 0);
    let mut i = 1;
    assert_eq!(parse_hex_char(b"%4", &mut i), Err(Error::EndOfInput));
    assert_eq!(i, 1);
    let mut i = 2;
    assert_eq!(parse_hex_char(b"41", &mut i), Err(Error::EndOfInput));
    assert_eq!(i, 2);
}

#[test]
fn hex_char_cursor_outside_input() {
    let mut i = 7;
    assert_eq!(parse_hex_char(b"41", &mut i), Err(Error::EndOfInput));
    assert_eq!(i, 7);
    let mut i = usize::MAX;
    assert_eq!(parse_hex_char(b"41", &mut i), Err(Error::EndOfInput));
    assert_eq!(i, usize::MAX);
}

#[test]
fn hex_char_rejects_other_bytes() {
    let mut i = 0;
    assert_eq!(parse_hex_char(b"GZ", &mut i), Err(Error::InvalidHex));
    assert_eq!(i, 0);
    let mut i = 0;
    assert_eq!(parse_hex_char(b"4G", &mut i), Err(Error::InvalidHex));
    let mut i = 0;
    assert_eq!(parse_hex_char(b"G4", &mut i), Err(Error::InvalidHex));
    let mut i = 0;
    assert_eq!(parse_hex_char(b"=1", &mut i), Err(Error::InvalidHex));
}

#[test]
fn hex_char_rejects_lower_case() {
    let mut i = 0;
    assert_eq!(parse_hex_char(b"e6", &mut i), Err(Error::InvalidHex));
    let mut i = 0;
    assert_eq!(parse_hex_char(b"E6", &mut i), Ok(230));
    let mut i = 0;
    assert_eq!(parse_hex_char(b"Ff", &mut i), Err(Error::InvalidHex));
}

#[test]
fn valid_hex_is_digits_and_upper_case_a_to_f() {
    for byte in 0..=255u8 {
        let expected = (b'0'..=b'9').contains(&byte) || (b'A'..=b'F').contains(&byte);
        assert_eq!(valid_hex(byte), expected);
    }
}

#[test]
fn valid_hex_neighbours() {
    assert!(valid_hex(b'0'));
    assert!(valid_hex(b'9'));
    assert!(valid_hex(b'A'));
    assert!(valid_hex(b'F'));
    assert!(!valid_hex(b'/'));
    assert!(!valid_hex(b':'));
    assert!(!valid_hex(b'@'));
    assert!(!valid_hex(b'G'));
    assert!(!valid_hex(b'a'));
    assert!(!valid_hex(b'f'));
}
