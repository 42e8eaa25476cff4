use unicode_util::codec::{encode, encode_code, lookup, parse_hex, scalar_value, DecodeError};

#[test]
fn lookup_rejects_surrogates() {
    let r = lookup("D800");
    assert_eq!(r, Err(DecodeError::NotScalar { code: 0xD800 }));
    let r = lookup("DFFF");
    assert_eq!(r, Err(DecodeError::NotScalar { code: 0xDFFF }));
}

#[test]
fn lookup_rejects_out_of_range() {
    assert_eq!(lookup("110000"), Err(DecodeError::NotScalar { code: 0x110000 }));
    assert_eq!(lookup("FFFFFFFF"), Err(DecodeError::NotScalar { code: 0xFFFFFFFF }));
}

#[test]
fn lookup_rejects_bad_input() {
    assert_eq!(lookup(""), Err(DecodeError::EmptyInput));
    assert_eq!(lookup("XY"), Err(DecodeError::BadDigit { digit: 'X' }));
    assert_eq!(lookup("12G4"), Err(DecodeError::BadDigit { digit: 'G' }));
    assert_eq!(lookup("100000000"), Err(DecodeError::TooLarge));
    assert_eq!(lookup("FFFFFFFFFF"), Err(DecodeError::TooLarge));
}

#[test]
fn lookup_finds_grinning_face() {
    assert_eq!(lookup("1F600"), Ok('\u{1F600}'));
    assert_eq!(lookup("1f600"), Ok('\u{1F600}'));
}

#[test]
fn encode_grinning_face() {
    assert_eq!(encode('\u{1F600}'), "1F600".to_string());
}

#[test]
fn encode_pads_to_four_digits() {
    assert_eq!(encode('a'), "0061".to_string());
    assert_eq!(encode('A'), "0041".to_string());
    assert_eq!(encode('\u{0}'), "0000".to_string());
    assert_eq!(encode('\u{10FFFF}'), "10FFFF".to_string());
    assert_eq!(encode_code(0xABCDE), "ABCDE".to_string());
}

#[test]
fn encode_then_lookup_round_trips() {
    for c in ['a', 'Z', '0', 'é', 'ß', '\u{D7FF}', '\u{E000}', '\u{1F600}', '\u{10FFFF}'] {
        assert_eq!(lookup(&encode(c)), Ok(c));
    }
}

#[test]
fn parse_hex_reads_both_cases() {
    assert_eq!(parse_hex("00ff"), Ok(0xFF));
    assert_eq!(parse_hex("00FF"), Ok(0xFF));
    assert_eq!(parse_hex("FFFFFFFF"), Ok(0xFFFFFFFF));
}

#[test]
fn scalar_value_bounds() {
    assert!(scalar_value(0));
    assert!(scalar_value(0xD7FF));
    assert!(!scalar_value(0xD800));
    assert!(!scalar_value(0xDFFF));
    assert!(scalar_value(0xE000));
    assert!(scalar_value(0x10FFFF));
    assert!(!scalar_value(0x110000));
}
