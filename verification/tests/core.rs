use eidosdb::dimension::{Dimension, DimensionError};
use eidosdb::errors::{IndexError, LexicalError, PayloadError, QueryError, ConversionError, ServerError};
use eidosdb::metric::Metric;
use eidosdb::vector_id::VectorId;

#[test]
fn exposes_inner_value() {
    assert_eq!(Dimension::new(42).expect("42 is valid").get(), 42);
}

#[test]
fn new_rejects_zero() {
    assert_eq!(Dimension::new(0), Err(DimensionError::Zero));
}

#[test]
fn new_rejects_too_large() {
    let overflow = u32::MAX as usize + 1;
    assert_eq!(Dimension::new(overflow), Err(DimensionError::TooLarge(overflow)));
}

#[test]
fn new_accepts_a_realistic_dimension() {
    assert_eq!(Dimension::new(768).expect("768 is valid").get(), 768);
}

#[test]
fn dimension_from_u32_rejects_zero_and_keeps_value() {
    assert_eq!(Dimension::from_u32(0), Err(DimensionError::Zero));
    assert_eq!(Dimension::from_u32(768).expect("768").as_u32(), 768);
}

#[test]
fn dimension_mismatch_message_is_explicit() {
    let err = IndexError::DimensionMismatch { expected: 768, got: 384 };
    assert_eq!(err.message(), "dimension mismatch: index expects 768, got 384");
}

#[test]
fn error_backend_message_is_explicit() {
    let err = IndexError::Backend("disk full".to_string());
    assert_eq!(err.message(), "storage backend error: disk full");
    let err = LexicalError::Backend("disk full".to_string());
    assert_eq!(err.message(), "storage backend error: disk full");
}

#[test]
fn index_error_messages_name_their_cause() {
    assert_eq!(IndexError::EmptyEmbedding.message(), "embedding is empty");
    assert_eq!(IndexError::NonFiniteComponent.message(), "embedding contains a non-finite component");
    assert_eq!(IndexError::UnsupportedMetric(Metric::Euclidean).message(), "metric not supported by this index: Euclidean");
    let id = VectorId::from_u128(0x1234_5678_1234_4234_9234_5678_9abc_def0);
    assert_eq!(
        IndexError::DuplicateId(id).message(),
        "duplicate id: VectorId(12345678-1234-4234-9234-56789abcdef0)"
    );
}

#[test]
fn round_trips_through_uuid() {
    let id = VectorId::new();
    assert_eq!(VectorId::from_u128(id.as_u128()), id);
}

#[test]
fn fresh_ids_carry_version_seven_and_the_rfc_variant() {
    let bits = VectorId::new().as_u128();
    assert_eq!((bits >> 76) & 0xF, 7);
    assert_eq!((bits >> 62) & 0x3, 0b10);
    assert_eq!(VectorId::new().to_hyphenated().chars().nth(14), Some('7'));
}

#[test]
fn fresh_ids_are_distinct() {
    assert_ne!(VectorId::new(), VectorId::new());
}

#[test]
fn from_uuid_round_trips_via_from() {
    let id = VectorId::new();
    let text = id.to_hyphenated();
    assert_eq!(VectorId::parse(&text), Some(id));
}

#[test]
fn accepts_and_restores_a_uuid_v4() {
    let bits: u128 = 0x1234_5678_1234_4234_9234_5678_9abc_def0;
    let id = VectorId::from_u128(bits);
    assert_eq!(id.as_u128(), bits);
    assert_eq!(id.to_hyphenated(), "12345678-1234-4234-9234-56789abcdef0");
}

#[test]
fn vector_id_parse_rejects_garbage_and_orders_by_bits() {
    assert_eq!(VectorId::parse("not-a-uuid"), None);
    assert_eq!(VectorId::nil().as_u128(), 0);
    assert!(VectorId::from_u128(1).less_than(VectorId::from_u128(2)));
    assert!(!VectorId::from_u128(2).less_than(VectorId::from_u128(2)));
}

#[test]
fn non_finite_payload_message_is_explicit() {
    assert_eq!(PayloadError::NonFiniteValue.message(), "payload contains a non-finite float value");
}

#[test]
fn unsupported_metric_message_is_explicit() {
    let err = QueryError::UnsupportedMetric(Metric::DotProduct);
    assert_eq!(err.message(), "metric not supported by this index: DotProduct");
}

#[test]
fn empty_query_message_is_explicit() {
    assert_eq!(QueryError::EmptyQuery.message(), "query has neither a vector nor text");
}

#[test]
fn wrapped_query_errors_show_their_inner_message() {
    assert_eq!(QueryError::Index(IndexError::EmptyEmbedding).message(), "embedding is empty");
    assert_eq!(QueryError::Lexical(LexicalError::EmptyDocument).message(), "document text is empty");
    assert_eq!(
        QueryError::Payload(PayloadError::Backend("x".to_string())).message(),
        "payload backend error: x"
    );
}

#[test]
fn conversion_and_server_messages() {
    assert_eq!(ConversionError::InvalidUuid("zz".to_string()).message(), "invalid UUID: zz");
    assert_eq!(ConversionError::MissingField("vector").message(), "missing required field: vector");
    assert_eq!(ConversionError::Domain("bad".to_string()).message(), "domain error: bad");
    assert_eq!(ServerError::BadName("a b".to_string()).message(), "invalid collection name: a b");
    assert_eq!(ServerError::AlreadyExists("notes".to_string()).message(), "collection already exists: notes");
}
