use eidosdb::cli::{build_hnsw, index_type_label, metric_label, to_usize, IndexTypeArg, MetricArg};
use eidosdb::client::{collection_info_to_view, narrow_u32, spec_to_create_request, CollectionSpec};
use eidosdb::collection_meta::{collection_info, is_valid_name, meta_from_create_request, CollectionMeta};
use eidosdb::convert_enums::IndexTypeChoice;
use eidosdb::dimension::Dimension;
use eidosdb::errors::{ConversionError, ServerError};
use eidosdb::hnsw_config::{HnswConfig, DEFAULT_SEED};
use eidosdb::metric::Metric;
use eidosdb::pb;
use eidosdb::service_rules::{
    admit_batch, admit_collection, check_query_dimension, check_vector_dimension, hnsw_config_of, BulkUpsert,
};
use eidosdb::convert_point::point_from_pb;
use eidosdb::vector_id::VectorId;
use eidosdb::status::{already_exists, invalid_argument, not_found, StatusCode};

fn meta(name: &str, index_type: IndexTypeChoice, hnsw: Option<HnswConfig>) -> CollectionMeta {
    CollectionMeta {
        name: name.to_string(),
        metric: Metric::Cosine,
        dimension: Dimension::new(3).expect("dimension"),
        index_type,
        hnsw,
    }
}

fn request(metric: i32, dimension: u32, index_type: i32) -> pb::CreateCollectionRequest {
    pb::CreateCollectionRequest {
        name: "docs".to_string(),
        metric,
        dimension,
        index_type,
        hnsw_params: None,
    }
}

#[test]
fn valid_name_rules() {
    assert!(is_valid_name("notes"));
    assert!(is_valid_name("my-collection_2"));
    assert!(!is_valid_name(""));
    assert!(!is_valid_name("../x"));
    assert!(!is_valid_name("a b"));
}

#[test]
fn name_length_limit_is_sixty_four() {
    assert!(is_valid_name(&"a".repeat(64)));
    assert!(!is_valid_name(&"a".repeat(65)));
}

#[test]
fn admit_rejects_bad_name_then_duplicate() {
    let bad = meta("a/b", IndexTypeChoice::Flat, None);
    assert_eq!(admit_collection(&bad, true), Err(ServerError::BadName("a/b".to_string())));
    let good = meta("notes", IndexTypeChoice::Flat, None);
    assert_eq!(admit_collection(&good, true), Err(ServerError::AlreadyExists("notes".to_string())));
    assert_eq!(admit_collection(&good, false), Ok(()));
}

#[test]
fn hnsw_config_defaults_when_unrecorded() {
    assert_eq!(hnsw_config_of(&meta("f", IndexTypeChoice::Flat, None)), None);
    assert_eq!(hnsw_config_of(&meta("h", IndexTypeChoice::Hnsw, None)), Some(HnswConfig::default()));
    let custom = HnswConfig {
        metric: Metric::Euclidean,
        m: 8,
        ef_construction: 50,
        ef_search: 20,
        seed: 7,
    };
    assert_eq!(hnsw_config_of(&meta("h", IndexTypeChoice::Hnsw, Some(custom))), Some(custom));
}

#[test]
fn dimension_checks_name_the_vector_kind() {
    assert!(check_vector_dimension(3, 3).is_ok());
    let err = check_vector_dimension(3, 2).unwrap_err();
    assert_eq!(err.code, StatusCode::InvalidArgument);
    assert_eq!(err.message, "vector dimension mismatch: expected 3, got 2");
    let err = check_query_dimension(128, 1000).unwrap_err();
    assert_eq!(err.code, StatusCode::InvalidArgument);
    assert_eq!(err.message, "query dimension mismatch: expected 128, got 1000");
}

#[test]
fn bulk_upsert_tracks_collection_and_count() {
    let mut bulk = BulkUpsert::start("docs".to_string(), 4);
    assert_eq!(bulk.collection(), "docs");
    assert!(bulk.check_message("").is_ok());
    assert!(bulk.check_message("docs").is_ok());
    let err = bulk.check_message("other").unwrap_err();
    assert_eq!(err.code, StatusCode::InvalidArgument);
    assert_eq!(err.message, "bulk_upsert stream changed collection mid-stream");
    assert!(bulk.check_point(4).is_ok());
    assert_eq!(bulk.check_point(5).unwrap_err().message, "vector dimension mismatch: expected 4, got 5");
    bulk.record_chunk(3);
    bulk.record_chunk(2);
    assert_eq!(bulk.upserted(), 5);
}

#[test]
fn create_request_decodes_each_failure_in_order() {
    let cases = [
        (9, 3, 1, "unknown metric value"),
        (0, 3, 1, "missing required field: metric"),
        (1, 0, 1, "dimension must be greater than zero"),
        (1, 3, 7, "unknown index_type value"),
        (1, 3, 0, "missing required field: index_type"),
    ];
    for (metric, dimension, index_type, message) in cases {
        let err = meta_from_create_request(request(metric, dimension, index_type)).unwrap_err();
        assert_eq!(err.code, StatusCode::InvalidArgument);
        assert_eq!(err.message, message);
    }
}

#[test]
fn create_request_fills_zero_hnsw_params_with_defaults() {
    let mut req = request(3, 16, 2);
    req.hnsw_params = Some(pb::HnswParams { m: 8, ef_construction: 0, ef_search: 32, seed: 0 });
    let m = meta_from_create_request(req).expect("valid");
    assert_eq!(m.name, "docs");
    assert_eq!(m.metric, Metric::Euclidean);
    assert_eq!(m.dimension.get(), 16);
    assert_eq!(m.index_type, IndexTypeChoice::Hnsw);
    assert_eq!(
        m.hnsw,
        Some(HnswConfig { metric: Metric::Euclidean, m: 8, ef_construction: 200, ef_search: 32, seed: DEFAULT_SEED })
    );
    let flat = meta_from_create_request(request(2, 4, 1)).expect("valid");
    assert_eq!(flat.metric, Metric::DotProduct);
    assert_eq!(flat.index_type, IndexTypeChoice::Flat);
    assert_eq!(flat.hnsw, None);
}

#[test]
fn collection_info_round_trips_through_the_view() {
    let m = meta("notes", IndexTypeChoice::Hnsw, None);
    let info = collection_info(&m, 42);
    assert_eq!(info.name, "notes");
    assert_eq!(info.metric, 1);
    assert_eq!(info.dimension, 3);
    assert_eq!(info.index_type, 2);
    assert_eq!(info.count, 42);
    let view = collection_info_to_view(info).expect("view");
    assert_eq!(view.name, "notes");
    assert_eq!(view.metric, Metric::Cosine);
    assert_eq!(view.dimension.get(), 3);
    assert_eq!(view.index_type, IndexTypeChoice::Hnsw);
    assert_eq!(view.count, 42);
}

#[test]
fn collection_info_view_reports_each_bad_field() {
    let info = |metric: i32, dimension: u32, index_type: i32| pb::CollectionInfo {
        name: "n".to_string(),
        metric,
        dimension,
        index_type,
        count: 0,
    };
    assert_eq!(
        collection_info_to_view(info(5, 3, 1)).unwrap_err(),
        ConversionError::Domain("metric out of range".to_string())
    );
    assert_eq!(collection_info_to_view(info(0, 3, 1)).unwrap_err(), ConversionError::MissingField("metric"));
    assert_eq!(
        collection_info_to_view(info(1, 3, 9)).unwrap_err(),
        ConversionError::Domain("index_type out of range".to_string())
    );
    assert_eq!(collection_info_to_view(info(1, 3, 0)).unwrap_err(), ConversionError::MissingField("index_type"));
    assert_eq!(
        collection_info_to_view(info(1, 0, 1)).unwrap_err(),
        ConversionError::Domain("dimension out of range".to_string())
    );
}

#[test]
fn spec_to_create_request_carries_hnsw_params() {
    let spec = CollectionSpec {
        name: "v".to_string(),
        metric: Metric::DotProduct,
        dimension: Dimension::new(8).expect("dimension"),
        index_type: IndexTypeChoice::Hnsw,
        hnsw: Some(HnswConfig { metric: Metric::DotProduct, m: 12, ef_construction: 100, ef_search: 40, seed: 9 }),
    };
    let req = spec_to_create_request(spec).expect("request");
    assert_eq!(req.name, "v");
    assert_eq!(req.metric, 2);
    assert_eq!(req.dimension, 8);
    assert_eq!(req.index_type, 2);
    assert_eq!(req.hnsw_params, Some(pb::HnswParams { m: 12, ef_construction: 100, ef_search: 40, seed: 9 }));
    let flat = CollectionSpec {
        name: "f".to_string(),
        metric: Metric::Cosine,
        dimension: Dimension::new(2).expect("dimension"),
        index_type: IndexTypeChoice::Flat,
        hnsw: None,
    };
    assert_eq!(spec_to_create_request(flat).expect("request").hnsw_params, None);
}

#[test]
fn narrow_u32_names_the_field() {
    assert_eq!(narrow_u32(7, "m"), Ok(7));
    if usize::BITS > 32 {
        let too_big = (u32::MAX as usize) + 1;
        assert_eq!(narrow_u32(too_big, "m"), Err(ConversionError::Domain("m out of range".to_string())));
    }
}

#[test]
fn cli_labels_and_hnsw_defaults() {
    assert_eq!(metric_label(Metric::DotProduct), "dot-product");
    assert_eq!(metric_label(Metric::Cosine), "cosine");
    assert_eq!(index_type_label(IndexTypeChoice::Hnsw), "hnsw");
    assert_eq!(index_type_label(IndexTypeChoice::Flat), "flat");
    assert_eq!(to_usize(12), 12);
    assert_eq!(Metric::from(MetricArg::Euclidean), Metric::Euclidean);
    assert_eq!(IndexTypeChoice::from(IndexTypeArg::Flat), IndexTypeChoice::Flat);
    let c = build_hnsw(Metric::Euclidean, Some(4), None, Some(10), None);
    assert_eq!(c, HnswConfig { metric: Metric::Euclidean, m: 4, ef_construction: 200, ef_search: 10, seed: DEFAULT_SEED });
}

#[test]
fn status_helpers_set_code_and_message() {
    let s = not_found("docs");
    assert_eq!(s.code, StatusCode::NotFound);
    assert_eq!(s.message, "resource not found: docs");
    let s2 = already_exists("docs");
    assert_eq!(s2.code, StatusCode::AlreadyExists);
    assert_eq!(s2.message, "resource already exists: docs");
    let s3 = invalid_argument("bad");
    assert_eq!(s3.code, StatusCode::InvalidArgument);
    assert_eq!(s3.message, "bad");
}

#[test]
fn batch_is_admitted_whole_or_rejected_at_its_first_bad_point() {
    let good = |n: u128| point_from_pb(&VectorId::from_u128(n).to_hyphenated(), Ok(vec![0.0f32; 3]), None, None);
    let all_good = vec![good(1), good(2)];
    assert_eq!(admit_batch(3, &vec![3, 3], &all_good).expect("admitted"), 2);
    let short = admit_batch(3, &vec![3, 2], &all_good).expect_err("short vector");
    assert_eq!(short.code, StatusCode::InvalidArgument);
    assert_eq!(short.message, "vector dimension mismatch: expected 3, got 2");
    let bad_id = vec![good(1), point_from_pb::<Vec<f32>>("nope", Ok(vec![0.0; 3]), None, None), good(3)];
    let rejected = admit_batch(3, &vec![3, 3, 1], &bad_id).expect_err("bad id");
    assert_eq!(rejected.code, StatusCode::InvalidArgument);
    assert_eq!(rejected.message, ConversionError::InvalidUuid("nope".to_string()).message());
    let empty: Vec<Result<eidosdb::convert_point::DecodedPoint<Vec<f32>>, ConversionError>> = Vec::new();
    assert_eq!(admit_batch(3, &vec![], &empty).expect("empty batch"), 0);
}
