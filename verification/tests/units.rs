//! Unit tests for the smaller verified pieces: hashing, encoding,
//! filters, entity normalization, span ordering, and path handling.

use quickner::config::Filters;
use quickner::entity::normalize_entities;
use quickner::matcher::find_index;
use quickner::spans::{dedup_spans, sort_spans};
use quickner::{char_to_byte, hash_string, is_valid_utf8, Entity, Format, ValidationError};

#[test]
fn hash_string_exact_values() {
    // 64-bit FNV-1a over the characters, lowercase hex, no leading zeros.
    assert_eq!(hash_string("abc"), "e71fa2190541574b");
    assert_eq!(hash_string(""), "cbf29ce484222325");
}

#[test]
fn hash_string_is_deterministic() {
    assert_eq!(hash_string("some text"), hash_string("some text"));
    assert_ne!(hash_string("some text"), hash_string("some text!"));
}

#[test]
fn utf8_validation_accepts_and_rejects() {
    assert!(is_valid_utf8(b"plain ascii"));
    assert!(is_valid_utf8("caf\u{e9} \u{4e16}\u{754c} \u{1f600}".as_bytes()));
    // Lone continuation byte.
    assert!(!is_valid_utf8(&[0x80]));
    // Truncated two-byte sequence.
    assert!(!is_valid_utf8(&[0xc3]));
    // Overlong encoding of NUL.
    assert!(!is_valid_utf8(&[0xc0, 0x80]));
    // Encoded surrogate.
    assert!(!is_valid_utf8(&[0xed, 0xa0, 0x80]));
    // Above the last scalar value.
    assert!(!is_valid_utf8(&[0xf4, 0x90, 0x80, 0x80]));
    // Invalid lead byte.
    assert!(!is_valid_utf8(&[0xff]));
}

#[test]
fn char_to_byte_converts_offsets() {
    // Two-byte character first: character offsets differ from byte offsets.
    let text = "\u{e9}abc";
    assert_eq!(char_to_byte(text, 1, 3), (2, 4));
    assert_eq!(char_to_byte(text, 0, 4), (0, 5));
    // Offsets at or past the end clamp: start to 0, end to the byte length.
    assert_eq!(char_to_byte(text, 9, 9), (0, 5));
}

#[test]
fn filters_screen_texts() {
    let mut f = Filters::default();
    assert!(!f.is_valid(""));
    assert!(f.is_valid("hello world"));
    f.alphanumeric = true;
    assert!(!f.is_valid("hello"));
    assert!(f.is_valid("hello world"));
    f.alphanumeric = false;
    f.punctuation = true;
    assert!(!f.is_valid("hello, world"));
    assert!(f.is_valid("hello world"));
    f.punctuation = false;
    f.numbers = true;
    assert!(!f.is_valid("agent 007"));
    assert!(f.is_valid("agent"));
    f.numbers = false;
    f.max_length = 5;
    assert!(!f.is_valid("toolong"));
    assert!(f.is_valid("ok"));
    f.max_length = 1024;
    f.min_length = 3;
    assert!(!f.is_valid("ab"));
    assert!(f.is_valid("abc"));
}

#[test]
fn filters_special_characters_respect_accept_list() {
    let mut f = Filters::default();
    f.special_characters = true;
    f.accept_special_characters = Some(".-".to_string());
    f.set_special_characters();
    assert!(f.is_valid("a.b-c"));
    assert!(!f.is_valid("a@b"));
    let specials = f.get_special_characters();
    assert!(!specials.contains(&'.'));
    assert!(!specials.contains(&'-'));
    assert!(specials.contains(&'@'));
}

#[test]
fn normalize_rejects_empty_names() {
    let ents = vec![
        Entity::new("ok".to_string(), "A".to_string()),
        Entity::new("".to_string(), "B".to_string()),
    ];
    let r = normalize_entities(&ents, true);
    assert!(matches!(r, Err(ValidationError::EmptyEntityName)));
}

#[test]
fn normalize_folds_and_keeps_first_seen() {
    let ents = vec![
        Entity::new("Apple".to_string(), "FRUIT".to_string()),
        Entity::new("apple".to_string(), "FRUIT".to_string()),
        Entity::new("Banana".to_string(), "FRUIT".to_string()),
    ];
    let out = normalize_entities(&ents, false).unwrap();
    // "Apple" and "apple" collapse after lowercasing; first seen wins.
    assert_eq!(out.len(), 2);
    assert_eq!(out[0].name, "apple");
    assert_eq!(out[1].name, "banana");
}

#[test]
fn normalize_keeps_case_when_sensitive() {
    let ents = vec![
        Entity::new("Apple".to_string(), "FRUIT".to_string()),
        Entity::new("apple".to_string(), "FRUIT".to_string()),
    ];
    let out = normalize_entities(&ents, true).unwrap();
    assert_eq!(out.len(), 2);
}

#[test]
fn sort_and_dedup_is_idempotent() {
    let make = || {
        vec![
            (5, 7, "B".to_string()),
            (0, 3, "A".to_string()),
            (5, 7, "B".to_string()),
            (0, 3, "Z".to_string()),
            (2, 4, "A".to_string()),
        ]
    };
    let mut v = make();
    sort_spans(&mut v);
    let mut once = dedup_spans(&v);
    let expected = vec![
        (0, 3, "A".to_string()),
        (0, 3, "Z".to_string()),
        (2, 4, "A".to_string()),
        (5, 7, "B".to_string()),
    ];
    assert_eq!(once, expected);
    sort_spans(&mut once);
    let twice = dedup_spans(&once);
    assert_eq!(twice, expected);
}

#[test]
fn remove_extension_from_path_cuts_last_dot() {
    assert_eq!(Format::remove_extension_from_path("out.jsonl"), "out");
    assert_eq!(Format::remove_extension_from_path("a.b.c"), "a.b");
    assert_eq!(Format::remove_extension_from_path("nodot"), "nodot");
}

#[test]
fn find_index_collects_every_occurrence() {
    let ents = vec![
        Entity::new("cat".to_string(), "A".to_string()),
        Entity::new("dog".to_string(), "B".to_string()),
    ];
    let r = find_index("a cat, a dog, a cat", &ents).unwrap();
    // Every boundary-correct occurrence of every entity, sorted.
    assert_eq!(
        r,
        vec![
            (2, 5, "A".to_string()),
            (9, 12, "B".to_string()),
            (16, 19, "A".to_string())
        ]
    );
    let none = find_index("nothing here", &ents);
    assert!(none.is_none());
}

#[test]
fn text_screens() {
    assert!(quickner::is_alphanumeric("abc123"));
    assert!(!quickner::is_alphanumeric("ab!"));
    assert!(!quickner::is_alphanumeric(""));
    assert!(quickner::contains_punctuation("a,b"));
    assert!(!quickner::contains_punctuation("ab"));
    assert!(quickner::contains_numbers("a1"));
    assert!(!quickner::contains_numbers("ab"));
}
