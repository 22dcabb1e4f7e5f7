use crystalrake::error::{LexErrorKind, ParseErrorKind};
use crystalrake::json::JsonValue;

fn parse_kind(text: &str) -> ParseErrorKind {
    *text.parse::<JsonValue>().unwrap_err().kind()
}

#[test]
fn two_top_level_values() {
    assert!(matches!(parse_kind("1 2"), ParseErrorKind::InvalidToken));
}

#[test]
fn unterminated_object() {
    assert!(matches!(parse_kind("{"), ParseErrorKind::NonEndObject));
}

#[test]
fn unterminated_object_after_pair() {
    assert!(matches!(parse_kind(r#"{"a":1"#), ParseErrorKind::NonEndObject));
}

#[test]
fn bare_minus() {
    assert!(matches!(
        parse_kind("-"),
        ParseErrorKind::LexError(e) if matches!(e.kind, LexErrorKind::NotDigit)
    ));
}

#[test]
fn empty_input() {
    assert!(matches!(parse_kind(""), ParseErrorKind::NonValue));
}

#[test]
fn whitespace_only_input() {
    assert!(matches!(parse_kind(" \t\r\n"), ParseErrorKind::NonValue));
}

#[test]
fn unterminated_array() {
    assert!(matches!(parse_kind("[1"), ParseErrorKind::NonEndArray));
}

#[test]
fn separator_without_value() {
    assert!(matches!(parse_kind("[1,]"), ParseErrorKind::InvalidToken));
}

#[test]
fn missing_object_name() {
    assert!(matches!(parse_kind(r#"{"a":1,"#), ParseErrorKind::NoObjectName));
}

#[test]
fn object_name_not_string() {
    assert!(matches!(parse_kind("{1:2}"), ParseErrorKind::InvalidToken));
}

#[test]
fn lone_high_surrogate() {
    assert!(matches!(parse_kind(r#""\uD800""#), ParseErrorKind::FromUtf16Error));
}

#[test]
fn lone_low_surrogate() {
    assert!(matches!(parse_kind(r#""\uDC00""#), ParseErrorKind::FromUtf16Error));
}

#[test]
fn exponent_with_sign_but_no_digits() {
    assert!(matches!(parse_kind("1E+"), ParseErrorKind::ParseFloatError));
}

#[test]
fn invalid_character() {
    assert!(matches!(
        parse_kind("x"),
        ParseErrorKind::LexError(e) if matches!(e.kind, LexErrorKind::InvalidChar('x'))
    ));
}

#[test]
fn missing_closing_quote() {
    assert!(matches!(
        parse_kind(r#""abc"#),
        ParseErrorKind::LexError(e) if matches!(e.kind, LexErrorKind::NonQuotationMark)
    ));
}

#[test]
fn decimal_point_without_digit() {
    assert!(matches!(
        parse_kind("1."),
        ParseErrorKind::LexError(e) if matches!(e.kind, LexErrorKind::NonFracDigit)
    ));
}

#[test]
fn malformed_unicode_escape() {
    assert!(matches!(
        parse_kind(r#""\u12G4""#),
        ParseErrorKind::LexError(e) if matches!(e.kind, LexErrorKind::ParseError)
    ));
}

#[test]
fn invalid_escape_character() {
    assert!(matches!(
        parse_kind(r#""\x""#),
        ParseErrorKind::LexError(e) if matches!(e.kind, LexErrorKind::InvalidChar('\\'))
    ));
}

#[test]
fn misspelled_keyword() {
    assert!(matches!(
        parse_kind("tru"),
        ParseErrorKind::LexError(e) if matches!(e.kind, LexErrorKind::InvalidChar('t'))
    ));
}

#[test]
fn control_character_in_string() {
    assert!(matches!(
        parse_kind("\"a\u{1}b\""),
        ParseErrorKind::LexError(e) if matches!(e.kind, LexErrorKind::InvalidChar('\u{1}'))
    ));
}

#[test]
fn error_messages() {
    let e = "x".parse::<JsonValue>().unwrap_err();
    assert_eq!(e.message(), "invalid character 'x' found in JSON");
    let e2 = "{".parse::<JsonValue>().unwrap_err();
    assert_eq!(
        e2.message(),
        "expected end of object, but cannot find any right curly bracket"
    );
}

#[test]
fn bare_decimal_point() {
    assert!(matches!(parse_kind("."), ParseErrorKind::InvalidToken));
}

#[test]
fn bare_plus_sign() {
    assert!(matches!(parse_kind("+"), ParseErrorKind::InvalidToken));
}
