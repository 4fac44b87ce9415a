//! Scenario tests for the annotation engine: boundary rules, case
//! folding, and the round-trip behaviour of a whole annotate pass.

use quickner::{Document, Entity, Quickner};

fn store_with(texts: &[&str], entities: &[(&str, &str)], case_sensitive: bool) -> Quickner {
    let mut q = Quickner::default();
    q.config.texts.filters.case_sensitive = case_sensitive;
    for (name, label) in entities {
        q.add_entity(Entity::new(name.to_string(), label.to_string()));
    }
    for text in texts {
        q.add_document_from_string(text);
    }
    q
}

#[test]
fn boundary_rejects_inner_substring() {
    // "art" must not match inside "start": the left boundary fails.
    let mut q = store_with(&["start"], &[("art", "NOUN")], true);
    assert!(q.annotate());
    assert_eq!(q.documents[0].label.len(), 0);
}

#[test]
fn boundary_accepts_standalone_token() {
    let mut q = store_with(&["The cat sat."], &[("cat", "ANIMAL")], true);
    assert!(q.annotate());
    assert_eq!(q.documents[0].label, vec![(4, 7, "ANIMAL".to_string())]);
}

#[test]
fn boundary_accepts_whole_text_match() {
    let mut q = store_with(&["art"], &[("art", "NOUN")], true);
    assert!(q.annotate());
    assert_eq!(q.documents[0].label, vec![(0, 3, "NOUN".to_string())]);
}

#[test]
fn abbreviation_guard_rejects_dotted_text() {
    // "us" does not even occur in "u.s. government".
    let mut q = store_with(&["u.s. government"], &[("us", "ORG")], true);
    assert!(q.annotate());
    assert_eq!(q.documents[0].label.len(), 0);
}

#[test]
fn abbreviation_guard_rejects_trailing_period() {
    // A trailing "." is not a valid right terminator.
    let mut q = store_with(&["the us."], &[("us", "ORG")], true);
    assert!(q.annotate());
    assert_eq!(q.documents[0].label.len(), 0);
}

#[test]
fn non_period_punctuation_terminates() {
    let mut q = store_with(&["the us, here"], &[("us", "ORG")], true);
    assert!(q.annotate());
    assert_eq!(q.documents[0].label, vec![(4, 6, "ORG".to_string())]);
}

#[test]
fn case_folding_matches_lowercased_name() {
    // With case_sensitive = false, "Apple" matches "apple is a fruit" at
    // offsets 0..5 with the label unchanged.
    let mut q = store_with(&["apple is a fruit"], &[("Apple", "FRUIT")], false);
    assert!(q.annotate());
    assert_eq!(q.documents[0].label, vec![(0, 5, "FRUIT".to_string())]);
    assert_eq!(q.documents[0].text, "apple is a fruit");
}

#[test]
fn round_trip_two_entities() {
    let mut q = store_with(
        &["Rust is made by Mozilla"],
        &[("rust", "LANG"), ("mozilla", "ORG")],
        false,
    );
    assert!(q.annotate());
    // The stored text is untouched; the offsets were computed against its
    // lowercased working copy.
    assert_eq!(q.documents[0].text, "Rust is made by Mozilla");
    assert_eq!(
        q.documents[0].label,
        vec![(0, 4, "LANG".to_string()), (16, 23, "ORG".to_string())]
    );
}

#[test]
fn no_match_leaves_document_unchanged() {
    let mut q = store_with(&["Rust is great"], &[("python", "LANG")], true);
    assert!(q.annotate());
    assert_eq!(q.documents[0].label.len(), 0);
    assert_eq!(q.documents[0].text, "Rust is great");
}

#[test]
fn annotate_is_deterministic() {
    let build = || {
        let mut q = store_with(
            &["the cat and the dog sat", "a cat, a dog and a cat"],
            &[("cat", "ANIMAL"), ("dog", "ANIMAL"), ("a", "DET")],
            false,
        );
        assert!(q.annotate());
        q
    };
    let q1 = build();
    let q2 = build();
    for (d1, d2) in q1.documents.iter().zip(q2.documents.iter()) {
        assert_eq!(d1.label, d2.label);
    }
    assert!(q1.documents_hash == q2.documents_hash);
    assert_eq!(q1.documents_label_index, q2.documents_label_index);
    assert_eq!(q1.documents_entities_index, q2.documents_entities_index);
}

#[test]
fn annotate_appends_and_dedups_across_runs() {
    let mut q = store_with(&["the cat sat"], &[("cat", "ANIMAL")], true);
    assert!(q.annotate());
    let first = q.documents[0].label.clone();
    assert_eq!(first, vec![(4, 7, "ANIMAL".to_string())]);
    // A second run finds the same span again; the dedup pass removes the
    // exact repeat, so the list is unchanged.
    assert!(q.annotate());
    assert_eq!(q.documents[0].label, first);
}

#[test]
fn empty_catalog_yields_no_spans() {
    let mut q = store_with(&["anything at all"], &[], true);
    assert!(q.annotate());
    assert_eq!(q.documents[0].label.len(), 0);
}

#[test]
fn overlapping_entities_both_reported() {
    // "app" and "apple" both occur at offset 0; only the boundary-correct
    // one survives ("app" ends inside a word, so it is rejected).
    let mut q = store_with(&["apple pie"], &[("app", "A"), ("apple", "B")], true);
    assert!(q.annotate());
    assert_eq!(q.documents[0].label, vec![(0, 5, "B".to_string())]);
}

#[test]
fn multiple_occurrences_all_found() {
    let mut q = store_with(&["cat cat cat"], &[("cat", "A")], true);
    assert!(q.annotate());
    assert_eq!(
        q.documents[0].label,
        vec![
            (0, 3, "A".to_string()),
            (4, 7, "A".to_string()),
            (8, 11, "A".to_string())
        ]
    );
}

#[test]
fn non_ascii_offsets_are_character_offsets() {
    // The text contains a two-byte character before the match, so the
    // character offset differs from the byte offset.
    let mut q = store_with(&["\u{e9}t\u{e9} cat"], &[("cat", "A")], true);
    assert!(q.annotate());
    assert_eq!(q.documents[0].label, vec![(4, 7, "A".to_string())]);
}

#[test]
fn document_annotate_single() {
    let mut d = Document::from_string("Rust is developed by Mozilla".to_string());
    let entities = vec![
        Entity::new("Rust".to_string(), "Language".to_string()),
        Entity::new("Mozilla".to_string(), "Organization".to_string()),
    ];
    assert!(d.annotate(&entities, true));
    assert_eq!(
        d.label,
        vec![
            (0, 4, "Language".to_string()),
            (21, 28, "Organization".to_string())
        ]
    );
}
