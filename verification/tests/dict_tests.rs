use store_escape_fixup::dict::compare_entries;
use store_escape_fixup::dict::convert_value_dict;
use store_escape_fixup::dict::KeyOrder;
use store_escape_fixup::dict::DictEntry;
use store_escape_fixup::dict::DictError;
use store_escape_fixup::dict::EntryBody;
use store_escape_fixup::dict::LANG_STRING_CODE;
use store_escape_fixup::dict::STRING_CODE;
use store_escape_fixup::escape::DecodeError;

fn text_entry(code: u8, s: &str) -> DictEntry {
    DictEntry {
        code,
        body: EntryBody::Text(s.chars().collect()),
    }
}

fn raw_entry(code: u8, bytes: &[u8]) -> DictEntry {
    DictEntry {
        code,
        body: EntryBody::Raw(bytes.to_vec()),
    }
}

fn entry_text(e: &DictEntry) -> String {
    match &e.body {
        EntryBody::Text(v) => v.iter().collect(),
        EntryBody::Raw(_) => panic!("expected a text entry"),
    }
}

#[test]
fn escape_free_dictionary_passes_through() {
    let entries = vec![
        text_entry(STRING_CODE, "alpha"),
        text_entry(STRING_CODE, "bravo"),
        text_entry(STRING_CODE, "charlie"),
    ];
    let (out, frag, new_offset) = convert_value_dict(&entries, 0).unwrap();
    assert_eq!(out.len(), 3);
    assert_eq!(entry_text(&out[0]), "alpha");
    assert_eq!(entry_text(&out[1]), "bravo");
    assert_eq!(entry_text(&out[2]), "charlie");
    assert_eq!(frag.len(), 0);
    assert_eq!(new_offset, 3);
}

#[test]
fn decode_that_reorders_yields_a_fragment() {
    // "\t" (9) sorts before "\n" (10), so decoding swaps the first two
    let entries = vec![
        text_entry(STRING_CODE, "a\\nb"),
        text_entry(STRING_CODE, "a\\tb"),
        text_entry(STRING_CODE, "z"),
    ];
    let (out, frag, new_offset) = convert_value_dict(&entries, 0).unwrap();
    assert_eq!(new_offset, 3);
    assert_eq!(out.len(), 3);
    assert_eq!(entry_text(&out[0]), "a\tb");
    assert_eq!(entry_text(&out[1]), "a\nb");
    assert_eq!(entry_text(&out[2]), "z");
    assert_eq!(frag.apply(0), 1);
    assert_eq!(frag.apply(1), 0);
    assert_eq!(frag.apply(2), 2);
}

#[test]
fn fragment_images_stay_in_the_layer_range() {
    let entries = vec![
        text_entry(STRING_CODE, "a\\nb"),
        text_entry(STRING_CODE, "a\\tb"),
    ];
    let (_, frag, new_offset) = convert_value_dict(&entries, 10).unwrap();
    assert_eq!(new_offset, 12);
    let a = frag.apply(10);
    let b = frag.apply(11);
    assert!(10 <= a && a < 12);
    assert!(10 <= b && b < 12);
    assert_ne!(a, b);
}

#[test]
fn lang_string_keeps_its_language_part() {
    let entries = vec![text_entry(LANG_STRING_CODE, "en@hello\\nworld")];
    let (out, frag, new_offset) = convert_value_dict(&entries, 0).unwrap();
    assert_eq!(out.len(), 1);
    assert_eq!(out[0].code, LANG_STRING_CODE);
    assert_eq!(entry_text(&out[0]), "en@hello\nworld");
    assert_eq!(frag.len(), 0);
    assert_eq!(new_offset, 1);
}

#[test]
fn lang_string_without_separator_is_an_error() {
    let entries = vec![text_entry(LANG_STRING_CODE, "hello")];
    assert!(matches!(
        convert_value_dict(&entries, 0),
        Err(DictError::LangStringWithoutTag)
    ));
}

#[test]
fn string_like_entries_are_retagged_as_strings() {
    // tag 11 is a string-like datatype; its decoded entry becomes a plain string
    let entries = vec![text_entry(11, "http://example.com/a")];
    let (out, _, _) = convert_value_dict(&entries, 0).unwrap();
    assert_eq!(out[0].code, STRING_CODE);
    assert_eq!(entry_text(&out[0]), "http://example.com/a");
}

#[test]
fn non_string_entries_pass_through_byte_for_byte() {
    let entries = vec![
        text_entry(STRING_CODE, "alpha"),
        raw_entry(4, &[0, 0, 0, 0, 0, 0, 0, 9]),
    ];
    let (out, frag, new_offset) = convert_value_dict(&entries, 0).unwrap();
    assert_eq!(out.len(), 2);
    assert_eq!(out[1].code, 4);
    assert!(matches!(&out[1].body, EntryBody::Raw(b) if b == &vec![0, 0, 0, 0, 0, 0, 0, 9]));
    assert_eq!(frag.len(), 0);
    assert_eq!(new_offset, 2);
}

#[test]
fn collision_after_decode_is_an_error() {
    let entries = vec![
        text_entry(STRING_CODE, "a\nb"),
        text_entry(STRING_CODE, "a\\nb"),
    ];
    assert!(matches!(
        convert_value_dict(&entries, 0),
        Err(DictError::DuplicateAfterDecode)
    ));
}

#[test]
fn collision_revealed_only_by_sorting_is_an_error() {
    // '"' via the table, then tab, then '"' again via hex: the two quote
    // entries stand apart in the input and meet only when the order is
    // rebuilt
    let entries = vec![
        text_entry(STRING_CODE, "\\\""),
        text_entry(STRING_CODE, "\\t"),
        text_entry(STRING_CODE, "\\x22\\"),
    ];
    assert!(matches!(
        convert_value_dict(&entries, 0),
        Err(DictError::DuplicateAfterDecode)
    ));
}

#[test]
fn decode_failure_is_reported_with_its_cause() {
    let entries = vec![text_entry(STRING_CODE, "a\\qb")];
    assert!(matches!(
        convert_value_dict(&entries, 0),
        Err(DictError::Escape(DecodeError::UnknownEscape))
    ));
    let entries = vec![text_entry(STRING_CODE, "a\\xZZ\\b")];
    assert!(matches!(
        convert_value_dict(&entries, 0),
        Err(DictError::Escape(DecodeError::MalformedHex))
    ));
}

#[test]
fn empty_dictionary_keeps_its_offset() {
    let entries: Vec<DictEntry> = Vec::new();
    let (out, frag, new_offset) = convert_value_dict(&entries, 17).unwrap();
    assert_eq!(out.len(), 0);
    assert_eq!(frag.len(), 0);
    assert_eq!(new_offset, 17);
}

#[test]
fn child_layer_reorders_only_within_its_own_range() {
    // the parent produced one value (offset 1); the child's entries decode
    // into an order of their own, and the fragment never leaves [1, 3)
    let entries = vec![
        text_entry(STRING_CODE, "b\\nb"),
        text_entry(STRING_CODE, "b\\tb"),
    ];
    let (out, frag, new_offset) = convert_value_dict(&entries, 1).unwrap();
    assert_eq!(new_offset, 3);
    assert_eq!(out.len(), 2);
    assert_eq!(entry_text(&out[0]), "b\tb");
    assert_eq!(entry_text(&out[1]), "b\nb");
    assert_eq!(frag.apply(1), 2);
    assert_eq!(frag.apply(2), 1);
    // an ordinal of the parent chain is untouched by the child's fragment
    assert_eq!(frag.get(0), None);
}

#[test]
fn entries_order_by_tag_then_payload() {
    let a = text_entry(STRING_CODE, "zebra");
    let b = raw_entry(4, &[0]);
    // the datatype tag decides first, whatever the payloads hold
    assert_eq!(compare_entries(&a, &b), KeyOrder::Before);
    assert_eq!(compare_entries(&b, &a), KeyOrder::After);
    // same tag: payload order decides
    let c = text_entry(STRING_CODE, "apple");
    assert_eq!(compare_entries(&c, &a), KeyOrder::Before);
    assert_eq!(compare_entries(&a, &a), KeyOrder::Same);
    // a payload that is a strict prefix sorts first
    let d = text_entry(STRING_CODE, "app");
    assert_eq!(compare_entries(&d, &c), KeyOrder::Before);
}
