use eidosdb::analyzer::tokenize;
use eidosdb::document::Document;
use eidosdb::errors::LexicalError;

#[test]
fn lowercases_and_splits_on_punctuation() {
    assert_eq!(tokenize("Recupere l'Error-42"), vec!["recupere", "l", "error", "42"]);
}

#[test]
fn collapses_runs_of_separators() {
    assert_eq!(tokenize("  a , ; b  "), vec!["a", "b"]);
}

#[test]
fn keeps_accented_letters() {
    assert_eq!(tokenize("Eté ÉCOLE"), vec!["eté", "école"]);
}

#[test]
fn empty_and_separator_only_yield_nothing() {
    assert!(tokenize("").is_empty());
    assert!(tokenize("---  ...").is_empty());
}

#[test]
fn keeps_original_text() {
    let doc = Document::new("Quick brown fox").expect("valid");
    assert_eq!(doc.as_str(), "Quick brown fox");
}

#[test]
fn rejects_blank_text() {
    assert_eq!(Document::new("   "), Err(LexicalError::EmptyDocument));
    assert_eq!(Document::new(""), Err(LexicalError::EmptyDocument));
}

#[test]
fn blank_includes_tabs_and_newlines() {
    assert_eq!(Document::new("\t\n  \r"), Err(LexicalError::EmptyDocument));
    assert!(Document::new(" x ").is_ok());
}

#[test]
fn empty_document_message_is_explicit() {
    assert_eq!(LexicalError::EmptyDocument.message(), "document text is empty");
}

#[test]
fn lexical_serialization_message() {
    assert_eq!(LexicalError::Serialization("bad".to_string()).message(), "serialization error: bad");
}

fn doc(text: &str) -> Document {
    Document::new(text).expect("valid")
}

#[test]
fn index_counts_documents_terms_and_tokens() {
    let mut index = eidosdb::lexical_index::InMemoryLexicalIndex::new();
    let a = eidosdb::vector_id::VectorId::from_u128(1);
    let b = eidosdb::vector_id::VectorId::from_u128(2);
    index.insert(a, &doc("the quick brown fox")).expect("a");
    index.insert(b, &doc("the lazy dog")).expect("b");
    assert_eq!(index.len(), 2);
    assert_eq!(index.total_tokens(), 7);
    assert_eq!(index.doc_frequency("the"), 2);
    assert_eq!(index.doc_frequency("fox"), 1);
    assert_eq!(index.doc_frequency("cat"), 0);
    assert_eq!(index.document_at(0), (a, 4));
    assert_eq!(index.term_frequency(0, "fox"), Some(1));
    assert_eq!(index.term_frequency(1, "fox"), None);
}

#[test]
fn index_insert_replaces_prior_document() {
    let mut index = eidosdb::lexical_index::InMemoryLexicalIndex::new();
    let id = eidosdb::vector_id::VectorId::from_u128(7);
    index.insert(id, &doc("alpha alpha")).expect("first");
    index.insert(id, &doc("beta")).expect("second");
    assert_eq!(index.len(), 1);
    assert_eq!(index.total_tokens(), 1);
    assert_eq!(index.doc_frequency("alpha"), 0);
    assert_eq!(index.doc_frequency("beta"), 1);
}

#[test]
fn index_remove_is_idempotent() {
    let mut index = eidosdb::lexical_index::InMemoryLexicalIndex::new();
    let id = eidosdb::vector_id::VectorId::from_u128(3);
    let other = eidosdb::vector_id::VectorId::from_u128(4);
    index.insert(id, &doc("alpha beta")).expect("insert");
    index.insert(other, &doc("beta")).expect("insert");
    index.remove(&id).expect("remove");
    index.remove(&id).expect("remove again");
    assert_eq!(index.len(), 1);
    assert_eq!(index.doc_frequency("alpha"), 0);
    assert_eq!(index.doc_frequency("beta"), 1);
    assert_eq!(index.total_tokens(), 1);
    index.remove(&other).expect("remove");
    assert!(index.is_empty());
    assert_eq!(index.total_tokens(), 0);
}

#[test]
fn index_repeated_terms_are_counted_once_per_document() {
    let mut index = eidosdb::lexical_index::InMemoryLexicalIndex::new();
    let id = eidosdb::vector_id::VectorId::from_u128(9);
    index.insert(id, &doc("Rust rust RUST, trust")).expect("insert");
    assert_eq!(index.doc_frequency("rust"), 1);
    assert_eq!(index.term_frequency(0, "rust"), Some(3));
    assert_eq!(index.term_frequency(0, "trust"), Some(1));
    assert_eq!(index.document_at(0).1, 4);
}

#[test]
fn query_hits_follow_query_order_with_repeats() {
    let mut index = eidosdb::lexical_index::InMemoryLexicalIndex::new();
    let a = eidosdb::vector_id::VectorId::from_u128(1);
    let b = eidosdb::vector_id::VectorId::from_u128(2);
    index.insert(a, &doc("fox fox hound")).expect("a");
    index.insert(b, &doc("hound")).expect("b");
    let query = tokenize("fox cat hound fox");
    assert_eq!(index.query_hits(0, &query), vec![(2, 1), (1, 2), (2, 1)]);
    assert_eq!(index.query_hits(1, &query), vec![(1, 2)]);
}
