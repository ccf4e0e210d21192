use store_escape_fixup::escape::DecodeError;
use store_escape_fixup::escape::prolog_string_to_string;
use store_escape_fixup::escape::unescape_legacy_prolog_escape_sequence;

#[test]
fn escape_free_input_is_returned_unchanged() {
    assert_eq!(
        prolog_string_to_string("hello world"),
        Ok(String::from("hello world"))
    );
    assert_eq!(prolog_string_to_string(""), Ok(String::from("")));
    assert_eq!(
        prolog_string_to_string("Grüße, мир"),
        Ok(String::from("Grüße, мир"))
    );
}

#[test]
fn escape_table_backslash() {
    assert_eq!(prolog_string_to_string("\\\\"), Ok(String::from("\\")));
}

#[test]
fn escape_table_double_quote() {
    assert_eq!(prolog_string_to_string("\\\""), Ok(String::from("\"")));
}

#[test]
fn escape_table_alert() {
    assert_eq!(prolog_string_to_string("\\a"), Ok(String::from("\u{7}")));
}

#[test]
fn escape_table_backspace() {
    assert_eq!(prolog_string_to_string("\\b"), Ok(String::from("\u{8}")));
}

#[test]
fn escape_table_tab() {
    assert_eq!(prolog_string_to_string("\\t"), Ok(String::from("\t")));
}

#[test]
fn escape_table_newline() {
    assert_eq!(prolog_string_to_string("\\n"), Ok(String::from("\n")));
}

#[test]
fn escape_table_vertical_tab() {
    assert_eq!(prolog_string_to_string("\\v"), Ok(String::from("\u{B}")));
}

#[test]
fn escape_table_form_feed() {
    assert_eq!(prolog_string_to_string("\\f"), Ok(String::from("\u{C}")));
}

#[test]
fn escape_table_carriage_return() {
    assert_eq!(prolog_string_to_string("\\r"), Ok(String::from("\r")));
}

#[test]
fn hex_escape_round_trip_samples() {
    assert_eq!(prolog_string_to_string("\\x41\\"), Ok(String::from("A")));
    assert_eq!(prolog_string_to_string("\\x20\\"), Ok(String::from(" ")));
    assert_eq!(
        prolog_string_to_string("\\x10FFFF\\"),
        Ok(String::from("\u{10FFFF}"))
    );
    assert_eq!(prolog_string_to_string("\\x2764\\"), Ok(String::from("❤")));
    // digits may come in either case
    assert_eq!(prolog_string_to_string("\\x4a\\"), Ok(String::from("J")));
    assert_eq!(prolog_string_to_string("\\x4A\\"), Ok(String::from("J")));
}

#[test]
fn hex_escape_keeps_following_text() {
    // the terminating backslash is consumed; what follows stays
    assert_eq!(prolog_string_to_string("\\x41\\BC"), Ok(String::from("ABC")));
}

#[test]
fn unknown_escape_is_an_error() {
    assert_eq!(
        prolog_string_to_string("\\q"),
        Err(DecodeError::UnknownEscape)
    );
    assert_eq!(
        prolog_string_to_string("ab\\q"),
        Err(DecodeError::UnknownEscape)
    );
}

#[test]
fn trailing_backslash_is_an_error() {
    assert_eq!(
        prolog_string_to_string("abc\\"),
        Err(DecodeError::UnknownEscape)
    );
}

#[test]
fn malformed_hex_is_an_error() {
    // no digits before the terminator
    assert_eq!(
        prolog_string_to_string("\\x\\"),
        Err(DecodeError::MalformedHex)
    );
    // a non-hex character before the terminator
    assert_eq!(
        prolog_string_to_string("\\xZZ\\"),
        Err(DecodeError::MalformedHex)
    );
    // no terminator at all
    assert_eq!(
        prolog_string_to_string("\\x41"),
        Err(DecodeError::MalformedHex)
    );
    // a surrogate code point
    assert_eq!(
        prolog_string_to_string("\\xD800\\"),
        Err(DecodeError::MalformedHex)
    );
    // beyond the last code point
    assert_eq!(
        prolog_string_to_string("\\x110000\\"),
        Err(DecodeError::MalformedHex)
    );
    // far beyond any code point
    assert_eq!(
        prolog_string_to_string("\\xFFFFFFFFFFFFFFFFFF\\"),
        Err(DecodeError::MalformedHex)
    );
}

#[test]
fn escapes_mix_with_plain_text() {
    assert_eq!(
        prolog_string_to_string("a\\nb\\tc"),
        Ok(String::from("a\nb\tc"))
    );
    assert_eq!(
        prolog_string_to_string("say \\\"hi\\\""),
        Ok(String::from("say \"hi\""))
    );
}

#[test]
fn unescape_legacy_sequence_reads_digits_up_to_terminator() {
    let chars: Vec<char> = "41\\rest".chars().collect();
    assert_eq!(
        unescape_legacy_prolog_escape_sequence(&chars, 0),
        Ok(('A', 3))
    );
}

#[test]
fn unescape_legacy_sequence_rejects_missing_terminator() {
    let chars: Vec<char> = "41".chars().collect();
    assert_eq!(
        unescape_legacy_prolog_escape_sequence(&chars, 0),
        Err(DecodeError::MalformedHex)
    );
}
