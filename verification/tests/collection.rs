use eidosdb::collection_stores::CollectionStores;
use eidosdb::document::Document;
use eidosdb::filter::Filter;
use eidosdb::payload::Payload;
use eidosdb::value::{FieldValue, Value};
use eidosdb::vector_id::VectorId;

fn payload(source: &str) -> Payload {
    Payload::new(vec![("source".to_string(), FieldValue::Scalar(Value::Text(source.to_string())))]).expect("valid")
}

#[test]
fn upsert_overwrites_document_and_payload() {
    let mut stores = CollectionStores::new();
    let id = VectorId::from_u128(1);
    let first = Document::new("alpha beta").expect("doc");
    stores.upsert(id, Some(&first), Some(payload("wiki"))).expect("first");
    let second = Document::new("gamma").expect("doc");
    assert!(stores.document_fits(id, &second));
    stores.upsert(id, Some(&second), Some(payload("blog"))).expect("second");
    assert_eq!(stores.lexical().len(), 1);
    assert_eq!(stores.lexical().doc_frequency("alpha"), 0);
    assert_eq!(stores.lexical().doc_frequency("gamma"), 1);
    let hits = stores.hydrate(&vec![(id, 0.5f32)], 10).expect("hydrate");
    assert_eq!(hits.len(), 1);
    assert_eq!(hits[0].2, Some(payload("blog")));
}

#[test]
fn upsert_without_document_or_payload_clears_them() {
    let mut stores = CollectionStores::new();
    let id = VectorId::from_u128(2);
    stores.upsert(id, Some(&Document::new("text").expect("doc")), Some(payload("wiki"))).expect("first");
    stores.upsert(id, None, None).expect("second");
    assert!(stores.lexical().is_empty());
    assert!(stores.payloads().is_empty());
}

#[test]
fn stores_delete_removes_document_and_payload() {
    let mut stores = CollectionStores::new();
    let keep = VectorId::from_u128(3);
    let gone = VectorId::from_u128(4);
    stores.upsert(keep, Some(&Document::new("kept").expect("doc")), Some(payload("a"))).expect("keep");
    stores.upsert(gone, Some(&Document::new("gone").expect("doc")), Some(payload("b"))).expect("gone");
    stores.delete(&gone).expect("delete");
    assert_eq!(stores.lexical().len(), 1);
    assert_eq!(stores.payloads().len(), 1);
    assert_eq!(stores.lexical().doc_frequency("gone"), 0);
}

#[test]
fn allowed_ids_follow_the_filter() {
    let mut stores = CollectionStores::new();
    let wiki = VectorId::from_u128(5);
    let blog = VectorId::from_u128(6);
    stores.upsert(wiki, None, Some(payload("wiki"))).expect("wiki");
    stores.upsert(blog, None, Some(payload("blog"))).expect("blog");
    assert_eq!(stores.allowed(&None).expect("allowed"), None);
    let only_wiki = Filter::Eq("source".to_string(), Value::Text("wiki".to_string()));
    assert_eq!(stores.allowed(&Some(only_wiki)).expect("allowed"), Some(vec![wiki]));
}

#[test]
fn hydrate_keeps_order_and_cuts_to_k() {
    let mut stores = CollectionStores::new();
    let a = VectorId::from_u128(7);
    let b = VectorId::from_u128(8);
    stores.upsert(b, None, Some(payload("b"))).expect("b");
    let hits = stores.hydrate(&vec![(a, 3u8), (b, 2u8), (a, 1u8)], 2).expect("hydrate");
    assert_eq!(hits.len(), 2);
    assert_eq!((hits[0].0, hits[0].1, hits[0].2.clone()), (a, 3, None));
    assert_eq!((hits[1].0, hits[1].1, hits[1].2.clone()), (b, 2, Some(payload("b"))));
}

#[test]
fn checked_upsert_indexes_a_fitting_document() {
    let mut stores = CollectionStores::new();
    let id = VectorId::from_u128(7);
    let doc = Document::new("one two two").expect("doc");
    stores.upsert_checked(id, Some(&doc), Some(payload("wiki"))).expect("fits");
    assert_eq!(stores.lexical().len(), 1);
    assert_eq!(stores.lexical().doc_frequency("two"), 1);
    stores.upsert_checked(id, None, None).expect("clear");
    assert_eq!(stores.lexical().len(), 0);
}
