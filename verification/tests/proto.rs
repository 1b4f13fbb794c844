use eidosdb::convert_delete::{delete_by_filter_from_pb, delete_by_filter_to_pb};
use eidosdb::convert_enums::{
    index_type_from_pb, index_type_to_pb, metric_from_pb, metric_to_pb, optional_metric_from_pb, IndexTypeChoice,
};
use eidosdb::convert_filter::{filter_from_pb, filter_to_pb};
use eidosdb::convert_payload::{
    field_value_from_pb, field_value_to_pb, payload_from_pb, payload_to_pb, value_from_pb, value_to_pb,
};
use eidosdb::convert_point::{point_from_pb, vector_id_from_pb, vector_id_to_pb};
use eidosdb::convert_search::{hybrid_query_from_pb, search_query_from_pb};
use eidosdb::errors::{ConversionError, IndexError, LexicalError, PayloadError, QueryError};
use eidosdb::filter::Filter;
use eidosdb::metric::Metric;
use eidosdb::payload::Payload;
use eidosdb::pb;
use eidosdb::query::{DEFAULT_OVERFETCH_FACTOR, DEFAULT_RRF_K};
use eidosdb::status::{
    already_exists, conversion_error_to_status, index_error_to_status, not_found, query_error_to_status, StatusCode,
};
use eidosdb::value::{FieldValue, Value};
use eidosdb::vector_id::VectorId;

fn float(x: f64) -> Value {
    Value::Float(x.to_bits())
}

#[test]
fn metric_round_trips_through_pb() {
    for m in [Metric::Cosine, Metric::DotProduct, Metric::Euclidean] {
        let back = metric_from_pb(metric_to_pb(m)).expect("known metric");
        assert_eq!(back, m);
    }
}

#[test]
fn unspecified_metric_is_rejected() {
    assert!(matches!(metric_from_pb(pb::Metric::Unspecified), Err(ConversionError::MissingField(_))));
}

#[test]
fn index_type_round_trips_through_pb() {
    for c in [IndexTypeChoice::Flat, IndexTypeChoice::Hnsw] {
        let back = index_type_from_pb(index_type_to_pb(c)).expect("known index type");
        assert_eq!(back, c);
    }
}

#[test]
fn unspecified_index_type_is_rejected() {
    assert!(matches!(index_type_from_pb(pb::IndexType::Unspecified), Err(ConversionError::MissingField(_))));
}

#[test]
fn wire_enum_numbers_round_trip() {
    assert_eq!(pb::Metric::from_i32(2), Some(pb::Metric::DotProduct));
    assert_eq!(pb::Metric::Euclidean.as_i32(), 3);
    assert_eq!(pb::Metric::from_i32(9), None);
    assert_eq!(pb::IndexType::from_i32(2), Some(pb::IndexType::Hnsw));
    assert_eq!(pb::IndexType::Flat.as_i32(), 1);
}

#[test]
fn optional_metric_numbers() {
    assert_eq!(optional_metric_from_pb(None), Ok(None));
    assert_eq!(optional_metric_from_pb(Some(0)), Ok(None));
    assert_eq!(optional_metric_from_pb(Some(1)), Ok(Some(Metric::Cosine)));
    assert_eq!(
        optional_metric_from_pb(Some(-999)),
        Err(ConversionError::Domain("unknown metric discriminant: -999".to_string()))
    );
}

#[test]
fn payload_round_trips() {
    let p = Payload::new(vec![
        ("title".to_string(), FieldValue::Scalar(Value::Text("hello".into()))),
        ("count".to_string(), FieldValue::Scalar(Value::Integer(7))),
        ("ratio".to_string(), FieldValue::Scalar(float(0.5))),
        ("flag".to_string(), FieldValue::Scalar(Value::Bool(true))),
        ("tags".to_string(), FieldValue::Array(vec![Value::Text("a".into()), Value::Integer(1)])),
    ])
    .expect("valid payload");
    let back = payload_from_pb(payload_to_pb(&p)).expect("round trip");
    assert_eq!(back, p);
}

#[test]
fn value_with_no_kind_is_rejected() {
    let bad = pb::Value { kind: None };
    assert!(value_from_pb(bad).is_err());
}

#[test]
fn field_value_with_no_kind_is_rejected() {
    let bad = pb::FieldValue { kind: None };
    assert_eq!(field_value_from_pb(bad), Err(ConversionError::MissingField("field_value.kind")));
}

#[test]
fn value_round_trips_all_variants() {
    let cases = [Value::Text("world".into()), Value::Integer(-42), float(1.5), Value::Bool(false)];
    for v in cases {
        let back = value_from_pb(value_to_pb(&v)).expect("round trip");
        assert_eq!(back, v);
    }
}

#[test]
fn field_value_round_trips_scalar_and_array() {
    let scalar = FieldValue::Scalar(Value::Integer(99));
    let array = FieldValue::Array(vec![Value::Text("x".into()), Value::Bool(true)]);
    for fv in [scalar, array] {
        let back = field_value_from_pb(field_value_to_pb(&fv)).expect("round trip");
        assert_eq!(back, fv);
    }
}

#[test]
fn payload_decoding_reports_missing_kinds_and_non_finite_values() {
    let missing = pb::Payload {
        fields: vec![(
            "xs".to_string(),
            pb::FieldValue {
                kind: Some(pb::FieldValueKind::Array(pb::ValueArray { values: vec![pb::Value { kind: None }] })),
            },
        )],
    };
    assert_eq!(payload_from_pb(missing), Err(ConversionError::MissingField("value.kind")));
    let nan = pb::Payload {
        fields: vec![(
            "x".to_string(),
            pb::FieldValue {
                kind: Some(pb::FieldValueKind::Scalar(pb::Value { kind: Some(pb::ValueKind::FloatValue(f64::NAN.to_bits())) })),
            },
        )],
    };
    assert_eq!(
        payload_from_pb(nan),
        Err(ConversionError::Domain("payload contains a non-finite float value".to_string()))
    );
}

#[test]
fn nested_filter_round_trips() {
    let f = Filter::And(vec![
        Filter::Eq("kind".into(), Value::Text("note".into())),
        Filter::Or(vec![
            Filter::Gt("score".into(), Value::Integer(3)),
            Filter::Not(Box::new(Filter::Exists("archived".into()))),
        ]),
        Filter::In("tag".into(), vec![Value::Text("a".into()), Value::Text("b".into())]),
        Filter::Contains("list".into(), Value::Integer(7)),
    ]);
    let back = filter_from_pb(filter_to_pb(&f)).expect("round trip");
    assert_eq!(back, f);
}

#[test]
fn filter_with_no_kind_is_rejected() {
    assert!(filter_from_pb(pb::Filter { kind: None }).is_err());
}

#[test]
fn comparison_with_no_value_is_rejected() {
    let bad = pb::Filter {
        kind: Some(pb::FilterKind::Eq(pb::Comparison { field: "k".into(), value: None })),
    };
    assert!(filter_from_pb(bad).is_err());
}

#[test]
fn all_comparison_leaves_round_trip() {
    let cases = [
        Filter::Eq("f".into(), Value::Integer(1)),
        Filter::Ne("f".into(), Value::Integer(2)),
        Filter::Lt("f".into(), float(1.5)),
        Filter::Lte("f".into(), float(2.5)),
        Filter::Gt("f".into(), Value::Bool(true)),
        Filter::Gte("f".into(), Value::Text("x".into())),
    ];
    for f in cases {
        let back = filter_from_pb(filter_to_pb(&f)).expect("round trip");
        assert_eq!(back, f);
    }
}

#[test]
fn exists_round_trips() {
    let f = Filter::Exists("presence".into());
    let back = filter_from_pb(filter_to_pb(&f)).expect("round trip");
    assert_eq!(back, f);
}

#[test]
fn not_round_trips() {
    let f = Filter::Not(Box::new(Filter::Exists("gone".into())));
    let back = filter_from_pb(filter_to_pb(&f)).expect("round trip");
    assert_eq!(back, f);
}

#[test]
fn in_filter_round_trips() {
    let f = Filter::In("color".into(), vec![Value::Text("red".into()), Value::Text("blue".into())]);
    let back = filter_from_pb(filter_to_pb(&f)).expect("round trip");
    assert_eq!(back, f);
}

#[test]
fn contains_with_no_value_is_rejected() {
    let bad = pb::Filter {
        kind: Some(pb::FilterKind::Contains(pb::ContainsFilter { field: "items".into(), value: None })),
    };
    assert_eq!(filter_from_pb(bad), Err(ConversionError::MissingField("contains.value")));
}

#[test]
fn empty_and_and_or_round_trip() {
    let and = Filter::And(vec![]);
    let or = Filter::Or(vec![]);
    assert_eq!(filter_from_pb(filter_to_pb(&and)).unwrap(), and);
    assert_eq!(filter_from_pb(filter_to_pb(&or)).unwrap(), or);
}

#[test]
fn first_error_in_pre_order_wins() {
    let bad = pb::Filter {
        kind: Some(pb::FilterKind::Or(pb::FilterList {
            filters: vec![
                pb::Filter { kind: Some(pb::FilterKind::Exists("ok".into())) },
                pb::Filter { kind: Some(pb::FilterKind::Not(Box::new(pb::Filter { kind: None }))) },
                pb::Filter { kind: Some(pb::FilterKind::Lt(pb::Comparison { field: "k".into(), value: None })) },
            ],
        })),
    };
    assert_eq!(filter_from_pb(bad), Err(ConversionError::MissingField("filter.kind")));
}

#[test]
fn round_trips_collection_and_filter() {
    let filter = Filter::Eq("theme".into(), Value::Text("press".into()));
    let wire = delete_by_filter_to_pb("press", &filter);
    let (collection, parsed) = delete_by_filter_from_pb(wire).expect("round trip");
    assert_eq!(collection, "press");
    assert_eq!(parsed, filter);
}

#[test]
fn rejects_missing_filter() {
    let wire = pb::DeleteByFilterRequest { collection: "press".into(), filter: None };
    assert_eq!(delete_by_filter_from_pb(wire), Err(ConversionError::MissingField("delete_by_filter.filter")));
}

#[test]
fn vector_id_round_trips() {
    let id = VectorId::new();
    assert_eq!(vector_id_from_pb(&vector_id_to_pb(id)).expect("uuid"), id);
}

#[test]
fn bad_uuid_is_rejected() {
    assert!(matches!(vector_id_from_pb("not-a-uuid"), Err(ConversionError::InvalidUuid(_))));
}

#[test]
fn point_round_trips_with_document_and_payload() {
    let id = VectorId::new();
    let decoded = point_from_pb(&vector_id_to_pb(id), Ok(vec![1.0f32, 0.0, 0.0]), Some("hello world".to_string()), None)
        .expect("decode");
    assert_eq!(decoded.id, id);
    assert_eq!(decoded.embedding, vec![1.0f32, 0.0, 0.0]);
    assert_eq!(decoded.document.expect("doc").as_str(), "hello world");
    assert!(decoded.payload.is_none());
}

#[test]
fn point_decoding_checks_in_order() {
    let id = VectorId::new().to_hyphenated();
    let bad_uuid = point_from_pb::<Vec<f32>>("nope", Err(ConversionError::Domain("e".into())), None, None);
    assert!(matches!(bad_uuid, Err(ConversionError::InvalidUuid(_))));
    let bad_embedding = point_from_pb::<Vec<f32>>(&id, Err(ConversionError::Domain("embedding is empty".into())), Some("  ".into()), None);
    assert!(matches!(bad_embedding, Err(ConversionError::Domain(m)) if m == "embedding is empty"));
    let blank = point_from_pb(&id, Ok(()), Some("  ".into()), None);
    assert!(matches!(blank, Err(ConversionError::Domain(m)) if m == "document text is empty"));
    let with_payload = point_from_pb(
        &id,
        Ok(()),
        None,
        Some(pb::Payload { fields: vec![("n".into(), pb::FieldValue { kind: None })] }),
    );
    assert!(matches!(with_payload, Err(ConversionError::MissingField("field_value.kind"))));
}

#[test]
fn search_request_maps_fields() {
    let (name, q) = search_query_from_pb(
        "notes".to_string(),
        Ok(vec![0.1f32, 0.2, 0.3]),
        5,
        Some(pb::Metric::Cosine.as_i32()),
        None,
    )
    .expect("valid");
    assert_eq!(name, "notes");
    assert_eq!(q.k, 5);
    assert_eq!(q.embedding, vec![0.1f32, 0.2, 0.3]);
    assert!(q.metric.is_some());
}

#[test]
fn search_request_empty_vector_is_rejected() {
    let r = search_query_from_pb::<Vec<f32>>(
        "n".to_string(),
        Err(ConversionError::Domain("embedding is empty".into())),
        1,
        None,
        None,
    );
    assert!(r.is_err());
}

#[test]
fn search_request_no_metric_is_none() {
    let (_, q) = search_query_from_pb("n".to_string(), Ok(vec![1.0f32]), 1, None, None).expect("valid");
    assert!(q.metric.is_none());
}

#[test]
fn search_request_unspecified_metric_is_none() {
    let (_, q) = search_query_from_pb("n".to_string(), Ok(vec![1.0f32]), 1, Some(pb::Metric::Unspecified.as_i32()), None)
        .expect("valid");
    assert!(q.metric.is_none());
}

#[test]
fn search_request_unknown_metric_is_rejected() {
    assert!(search_query_from_pb("n".to_string(), Ok(vec![1.0f32]), 1, Some(999), None).is_err());
}

#[test]
fn search_request_decodes_its_filter() {
    let wire = filter_to_pb(&Filter::Exists("k".into()));
    let (_, q) = search_query_from_pb("n".to_string(), Ok(()), 2, None, Some(wire)).expect("valid");
    assert_eq!(q.filter, Some(Filter::Exists("k".into())));
}

#[test]
fn hybrid_defaults_when_zero() {
    let (_, q) = hybrid_query_from_pb(
        "n".to_string(),
        Some(Ok(vec![1.0f32])),
        Some("x".into()),
        3,
        None,
        None,
        0.0f64.to_bits(),
        0,
    )
    .expect("valid");
    assert_eq!(q.rrf_k, DEFAULT_RRF_K);
    assert_eq!(f64::from_bits(q.rrf_k), 60.0);
    assert_eq!(q.overfetch_factor, DEFAULT_OVERFETCH_FACTOR);
}

#[test]
fn hybrid_keeps_a_positive_rrf_k_and_defaults_a_negative_one() {
    let (_, q) = hybrid_query_from_pb::<()>("n".to_string(), None, Some("x".into()), 3, None, None, 10.0f64.to_bits(), 7)
        .expect("valid");
    assert_eq!(f64::from_bits(q.rrf_k), 10.0);
    assert_eq!(q.overfetch_factor, 7);
    let (_, q) = hybrid_query_from_pb::<()>("n".to_string(), None, Some("x".into()), 3, None, None, (-1.0f64).to_bits(), 1)
        .expect("valid");
    assert_eq!(q.rrf_k, DEFAULT_RRF_K);
}

#[test]
fn hybrid_empty_vector_and_text_become_none() {
    let (_, q) = hybrid_query_from_pb::<Vec<f32>>("n".to_string(), None, None, 3, None, None, 60.0f64.to_bits(), 4)
        .expect("valid");
    assert!(q.vector.is_none());
    assert!(q.text.is_none());
}

#[test]
fn hybrid_empty_text_string_becomes_none() {
    let (_, q) = hybrid_query_from_pb(
        "n".to_string(),
        Some(Ok(vec![1.0f32])),
        Some(String::new()),
        3,
        None,
        None,
        60.0f64.to_bits(),
        4,
    )
    .expect("valid");
    assert!(q.text.is_none());
}

#[test]
fn index_duplicate_id_maps_to_already_exists() {
    let err = IndexError::DuplicateId(VectorId::new());
    assert_eq!(index_error_to_status(&err).code, StatusCode::AlreadyExists);
}

#[test]
fn index_dimension_mismatch_maps_to_invalid_argument() {
    let err = IndexError::DimensionMismatch { expected: 768, got: 384 };
    assert_eq!(index_error_to_status(&err).code, StatusCode::InvalidArgument);
}

#[test]
fn index_empty_embedding_maps_to_invalid_argument() {
    assert_eq!(index_error_to_status(&IndexError::EmptyEmbedding).code, StatusCode::InvalidArgument);
}

#[test]
fn index_non_finite_component_maps_to_invalid_argument() {
    assert_eq!(index_error_to_status(&IndexError::NonFiniteComponent).code, StatusCode::InvalidArgument);
}

#[test]
fn index_unsupported_metric_maps_to_invalid_argument() {
    let err = IndexError::UnsupportedMetric(Metric::Cosine);
    assert_eq!(index_error_to_status(&err).code, StatusCode::InvalidArgument);
}

#[test]
fn index_backend_maps_to_internal() {
    let err = IndexError::Backend("disk full".to_string());
    assert_eq!(index_error_to_status(&err).code, StatusCode::Internal);
}

#[test]
fn index_error_status_message_contains_error_text() {
    let status = index_error_to_status(&IndexError::Backend("redb crashed".to_string()));
    assert!(status.message.contains("redb crashed"));
}

#[test]
fn query_empty_query_maps_to_invalid_argument() {
    assert_eq!(query_error_to_status(&QueryError::EmptyQuery).code, StatusCode::InvalidArgument);
}

#[test]
fn query_unsupported_metric_maps_to_invalid_argument() {
    let err = QueryError::UnsupportedMetric(Metric::DotProduct);
    assert_eq!(query_error_to_status(&err).code, StatusCode::InvalidArgument);
}

#[test]
fn query_index_variant_delegates_to_index_mapping() {
    let err = QueryError::Index(IndexError::DuplicateId(VectorId::new()));
    assert_eq!(query_error_to_status(&err).code, StatusCode::AlreadyExists);
}

#[test]
fn query_index_backend_delegates_correctly() {
    let err = QueryError::Index(IndexError::Backend("io error".to_string()));
    assert_eq!(query_error_to_status(&err).code, StatusCode::Internal);
}

#[test]
fn query_payload_non_finite_maps_to_invalid_argument() {
    let err = QueryError::Payload(PayloadError::NonFiniteValue);
    assert_eq!(query_error_to_status(&err).code, StatusCode::InvalidArgument);
}

#[test]
fn query_payload_serialization_maps_to_internal() {
    let err = QueryError::Payload(PayloadError::Serialization("bad json".to_string()));
    assert_eq!(query_error_to_status(&err).code, StatusCode::Internal);
}

#[test]
fn query_payload_backend_maps_to_internal() {
    let err = QueryError::Payload(PayloadError::Backend("redb".to_string()));
    assert_eq!(query_error_to_status(&err).code, StatusCode::Internal);
}

#[test]
fn query_lexical_maps_to_internal() {
    let err = QueryError::Lexical(LexicalError::Backend("tantivy".to_string()));
    assert_eq!(query_error_to_status(&err).code, StatusCode::Internal);
}

#[test]
fn query_error_status_message_contains_error_text() {
    let status = query_error_to_status(&QueryError::EmptyQuery);
    assert!(!status.message.is_empty());
    assert_eq!(status.message, "query has neither a vector nor text");
}

#[test]
fn conversion_invalid_uuid_maps_to_invalid_argument() {
    let err = ConversionError::InvalidUuid("not-a-uuid".to_string());
    assert_eq!(conversion_error_to_status(&err).code, StatusCode::InvalidArgument);
}

#[test]
fn conversion_missing_field_maps_to_invalid_argument() {
    let err = ConversionError::MissingField("vector");
    assert_eq!(conversion_error_to_status(&err).code, StatusCode::InvalidArgument);
}

#[test]
fn conversion_domain_maps_to_invalid_argument() {
    let err = ConversionError::Domain("bad metric value".to_string());
    assert_eq!(conversion_error_to_status(&err).code, StatusCode::InvalidArgument);
}

#[test]
fn not_found_returns_not_found_code() {
    assert_eq!(not_found("collection:my_coll").code, StatusCode::NotFound);
}

#[test]
fn not_found_message_contains_name() {
    assert!(not_found("collection:my_coll").message.contains("my_coll"));
    assert_eq!(not_found("x").message, "resource not found: x");
}

#[test]
fn already_exists_returns_already_exists_code() {
    assert_eq!(already_exists("collection:my_coll").code, StatusCode::AlreadyExists);
}

#[test]
fn already_exists_message_contains_name() {
    assert!(already_exists("collection:my_coll").message.contains("my_coll"));
}
