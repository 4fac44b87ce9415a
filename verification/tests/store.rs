//! Tests for the document store: ingestion, deduplication, indices,
//! lookups, and the handling of malformed input bytes.

use quickner::{Document, Entity, Quickner};

#[test]
fn same_text_same_id() {
    let a = Document::from_string("hello world".to_string());
    let b = Document::from_string("hello world".to_string());
    let c = Document::from_string("hello there".to_string());
    assert_eq!(a.id, b.id);
    assert_ne!(a.id, c.id);
}

#[test]
fn add_document_guards_duplicates() {
    let mut q = Quickner::default();
    let d1 = Document::from_string("same text".to_string());
    let d2 = Document::from_string("same text".to_string());
    q.add_document(d1);
    q.add_document(d2);
    assert_eq!(q.documents.len(), 1);
    assert_eq!(q.documents_hash.len(), 1);
}

#[test]
fn add_entity_guards_duplicates() {
    let mut q = Quickner::default();
    q.add_entity(Entity::new("cat".to_string(), "A".to_string()));
    q.add_entity(Entity::new("cat".to_string(), "A".to_string()));
    q.add_entity(Entity::new("cat".to_string(), "B".to_string()));
    assert_eq!(q.entities.len(), 2);
}

#[test]
fn invalid_utf8_document_is_skipped() {
    // One malformed-byte text among valid ones: the bad one is rejected,
    // the rest are annotated normally, and the run completes.
    let mut q = Quickner::default();
    q.config.texts.filters.case_sensitive = true;
    q.add_entity(Entity::new("cat".to_string(), "A".to_string()));
    assert!(q.add_document_from_bytes(&b"a cat here".to_vec()));
    assert!(!q.add_document_from_bytes(&vec![0x61, 0xff, 0x62]));
    assert!(q.add_document_from_bytes(&b"no dogs".to_vec()));
    assert_eq!(q.documents.len(), 2);
    assert!(q.annotate());
    assert_eq!(q.documents[0].label, vec![(2, 5, "A".to_string())]);
    assert_eq!(q.documents[1].label.len(), 0);
}

#[test]
fn index_consistency_after_annotate() {
    let mut q = Quickner::default();
    q.config.texts.filters.case_sensitive = false;
    q.add_entity(Entity::new("cat".to_string(), "ANIMAL".to_string()));
    q.add_entity(Entity::new("dog".to_string(), "ANIMAL".to_string()));
    q.add_document_from_string("the Cat sat");
    q.add_document_from_string("a dog barked");
    assert!(q.annotate());
    // Every span's label maps to its document's id in the label index,
    // and the lowercased span text maps to it in the entity index.
    for doc in &q.documents {
        for (s, e, label) in &doc.label {
            let entry = q
                .documents_label_index
                .iter()
                .find(|(k, _)| k == label)
                .expect("label key missing");
            assert!(entry.1.contains(&doc.id));
            let key: String = doc.text.chars().skip(*s).take(e - s).collect::<String>().to_lowercase();
            let entry = q
                .documents_entities_index
                .iter()
                .find(|(k, _)| k == &key)
                .expect("entity key missing");
            assert!(entry.1.contains(&doc.id));
        }
    }
}

#[test]
fn find_documents_by_label_returns_matching_docs() {
    let mut q = Quickner::default();
    q.config.texts.filters.case_sensitive = true;
    q.add_entity(Entity::new("cat".to_string(), "ANIMAL".to_string()));
    q.add_document_from_string("a cat sat");
    q.add_document_from_string("nothing here");
    assert!(q.annotate());
    let found = q.find_documents_by_label("ANIMAL");
    assert_eq!(found.len(), 1);
    assert_eq!(found[0].text, "a cat sat");
    let none = q.find_documents_by_label("PLANT");
    assert_eq!(none.len(), 0);
}

#[test]
fn find_documents_by_entity_compares_lowercased() {
    let mut q = Quickner::default();
    q.config.texts.filters.case_sensitive = false;
    q.add_entity(Entity::new("cat".to_string(), "ANIMAL".to_string()));
    q.add_document_from_string("the Cat sat");
    assert!(q.annotate());
    let found = q.find_documents_by_entity("CAT");
    assert_eq!(found.len(), 1);
    let none = q.find_documents_by_entity("dog");
    assert_eq!(none.len(), 0);
}

#[test]
fn remove_excluded_entities_filters_catalog() {
    let mut q = Quickner::default();
    q.add_entity(Entity::new("cat".to_string(), "A".to_string()));
    q.add_entity(Entity::new("dog".to_string(), "B".to_string()));
    q.add_entity(Entity::new("fox".to_string(), "C".to_string()));
    q.remove_excluded_entities(&vec!["dog".to_string()]);
    let names: Vec<&str> = q.entities.iter().map(|e| e.name.as_str()).collect();
    assert_eq!(names, vec!["cat", "fox"]);
}

#[test]
fn from_annotated_documents_derives_catalog() {
    let docs = vec![
        Document::new(
            "Rust is here".to_string(),
            vec![(0, 4, "LANG".to_string())],
        ),
        Document::new(
            "more Rust code".to_string(),
            vec![(5, 9, "LANG".to_string())],
        ),
    ];
    let q = Quickner::from_annotated_documents(docs);
    assert_eq!(q.documents.len(), 2);
    // Both spans extract "Rust", lowercased to "rust", so the derived
    // catalog holds a single entity.
    assert_eq!(q.entities.len(), 1);
    assert_eq!(q.entities[0].name, "rust");
    assert_eq!(q.entities[0].label, "LANG");
    assert!(q
        .documents_label_index
        .iter()
        .any(|(k, ids)| k == "LANG" && ids.len() == 2));
}

#[test]
fn spacy_chunks_cover_all_documents() {
    let mut q = Quickner::default();
    q.add_document_from_string("one");
    q.add_document_from_string("two");
    q.add_document_from_string("three");
    let chunks = q.spacy(Some(2));
    assert_eq!(chunks.len(), 2);
    assert_eq!(chunks[0].len(), 2);
    assert_eq!(chunks[1].len(), 1);
    assert_eq!(chunks[0][0].0, "one");
    assert_eq!(chunks[1][0].0, "three");
    let whole = q.spacy(None);
    assert_eq!(whole.len(), 1);
    assert_eq!(whole[0].len(), 3);
}

#[test]
fn set_unique_labels_keeps_first_occurrences() {
    let mut d = Document::new(
        "x".to_string(),
        vec![
            (0, 1, "A".to_string()),
            (0, 1, "B".to_string()),
            (0, 1, "A".to_string()),
        ],
    );
    d.set_unique_labels();
    assert_eq!(
        d.label,
        vec![(0, 1, "A".to_string()), (0, 1, "B".to_string())]
    );
}
