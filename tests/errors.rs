use utf_regex::error::RegexError;
use utf_regex::regex::Regex;
use utf_regex::utf_parser::bytes_to_codepoints;

fn failure_of(pattern: &[u8]) -> RegexError {
    match Regex::new(pattern.to_vec()) {
        Ok(_) => panic!("pattern compiled"),
        Err(e) => e,
    }
}

#[test]
fn invalid_leading_byte() {
    assert_eq!(bytes_to_codepoints(vec![0x61, 0xFF]).err(), Some(RegexError::InvalidEncoding));
    assert_eq!(bytes_to_codepoints(vec![0x80]).err(), Some(RegexError::InvalidEncoding));
}

#[test]
fn invalid_continuation_byte() {
    assert_eq!(bytes_to_codepoints(vec![0xC3, 0x41]).err(), Some(RegexError::InvalidEncoding));
}

#[test]
fn truncated_unit() {
    assert_eq!(bytes_to_codepoints(vec![0x61, 0xE2, 0x82]).err(), Some(RegexError::TruncatedEncoding));
    assert_eq!(bytes_to_codepoints(vec![0xC3]).err(), Some(RegexError::TruncatedEncoding));
}

#[test]
fn bad_continuation_before_end_is_invalid() {
    assert_eq!(bytes_to_codepoints(vec![0xE2, 0x41]).err(), Some(RegexError::InvalidEncoding));
}

#[test]
fn pattern_encoding_errors() {
    assert_eq!(failure_of(&[0xFF]), RegexError::InvalidEncoding);
    assert_eq!(failure_of(&[0x61, 0xF0, 0x9F]), RegexError::TruncatedEncoding);
}

#[test]
fn missing_atoms() {
    assert_eq!(failure_of(b""), RegexError::UnexpectedEndOfInput);
    assert_eq!(failure_of(b"a|"), RegexError::UnexpectedEndOfInput);
    assert_eq!(failure_of(b"()"), RegexError::UnexpectedEndOfInput);
    assert_eq!(failure_of(b"("), RegexError::UnexpectedEndOfInput);
}

#[test]
fn unbalanced_groups() {
    assert_eq!(failure_of(b"(ab"), RegexError::UnbalancedGroup);
    assert_eq!(failure_of(b"ab)"), RegexError::UnbalancedGroup);
    assert_eq!(failure_of(b"a(b|c"), RegexError::UnbalancedGroup);
}

#[test]
fn malformed_input_is_an_error() {
    let regex = Regex::new(b"a".to_vec()).unwrap();
    assert_eq!(regex.accepts_bytes(vec![0xC3]), Err(RegexError::TruncatedEncoding));
    assert_eq!(regex.accepts_bytes(vec![0xFE]), Err(RegexError::InvalidEncoding));
}
