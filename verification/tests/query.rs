use eidosdb::errors::PayloadError;
use eidosdb::filter::{evaluate, Filter};
use eidosdb::float_bits::{floats_equal, is_finite, is_nan, order_floats, order_int_float, round_to_f64};
use eidosdb::payload::Payload;
use eidosdb::payload_store::InMemoryPayloadStore;
use eidosdb::query::resolve_metric;
use eidosdb::errors::QueryError;
use eidosdb::metric::Metric;
use eidosdb::value::{FieldValue, Value};
use eidosdb::vector_id::VectorId;
use std::cmp::Ordering;

fn float(x: f64) -> Value {
    Value::Float(x.to_bits())
}

fn scalar(v: Value) -> FieldValue {
    FieldValue::Scalar(v)
}

fn payload(pairs: Vec<(&str, FieldValue)>) -> Payload {
    Payload::new(pairs.into_iter().map(|(k, v)| (k.to_string(), v)).collect()).expect("valid")
}

fn matches(filter: &Filter, p: &Payload) -> bool {
    filter.compile().matches(p)
}

#[test]
fn numeric_values_order_across_integer_and_float() {
    assert_eq!(Value::Integer(2).ordered(&float(2.5)), Some(Ordering::Less));
    assert_eq!(float(3.0).ordered(&Value::Integer(3)), Some(Ordering::Equal));
}

#[test]
fn text_values_order_lexicographically() {
    assert_eq!(Value::Text("a".into()).ordered(&Value::Text("b".into())), Some(Ordering::Less));
}

#[test]
fn mismatched_types_have_no_order() {
    assert_eq!(Value::Text("a".into()).ordered(&Value::Integer(1)), None);
    assert_eq!(Value::Bool(true).ordered(&Value::Bool(false)), None);
}

#[test]
fn field_value_equality_distinguishes_variants() {
    let scalar = FieldValue::Scalar(Value::Integer(7));
    let array = FieldValue::Array(vec![Value::Text("x".into()), Value::Bool(true)]);
    assert_eq!(scalar, FieldValue::Scalar(Value::Integer(7)));
    assert_ne!(scalar, array);
}

#[test]
fn floats_order_as_numbers_and_nan_is_unordered() {
    assert_eq!(float(-0.0).ordered(&float(0.0)), Some(Ordering::Equal));
    assert_eq!(float(-1.5).ordered(&float(-1.25)), Some(Ordering::Less));
    assert_eq!(float(f64::NAN).ordered(&float(1.0)), None);
    assert_eq!(Value::Integer(1).ordered(&float(f64::NAN)), None);
    assert_eq!(Value::Integer(i64::MAX).ordered(&float(f64::INFINITY)), Some(Ordering::Less));
    assert_ne!(float(f64::NAN), float(f64::NAN));
    assert_eq!(float(0.0), float(-0.0));
    assert_ne!(Value::Integer(3), float(3.0));
}

#[test]
fn integers_compare_through_binary64_against_floats() {
    // 2^53 + 1 rounds to 2^53 as a binary64 value.
    let big: i64 = 9_007_199_254_740_993;
    assert_eq!(Value::Integer(big).ordered(&float(9_007_199_254_740_992.0)), Some(Ordering::Equal));
    assert_eq!(order_int_float(big, 9_007_199_254_740_992.0f64.to_bits()), Some(0));
    assert_eq!(round_to_f64(big), 9_007_199_254_740_992);
    assert_eq!(round_to_f64(-7), -7);
}

#[test]
fn float_bit_predicates() {
    assert!(is_finite(1.0f64.to_bits()));
    assert!(!is_finite(f64::INFINITY.to_bits()));
    assert!(is_nan(f64::NAN.to_bits()));
    assert!(!is_nan(f64::NEG_INFINITY.to_bits()));
    assert!(floats_equal(0.0f64.to_bits(), (-0.0f64).to_bits()));
    assert_eq!(order_floats(1.0f64.to_bits(), 2.0f64.to_bits()), Some(-1));
    assert_eq!(order_floats(f64::NEG_INFINITY.to_bits(), f64::MIN.to_bits()), Some(-1));
}

#[test]
fn builds_and_reads_back_fields() {
    let p = payload(vec![
        ("source", scalar(Value::Text("wiki".into()))),
        ("score", scalar(float(0.5))),
    ]);
    assert_eq!(p.get("source"), Some(&FieldValue::Scalar(Value::Text("wiki".into()))));
    assert_eq!(p.get("missing"), None);
    assert_eq!(p.len(), 2);
    assert!(!p.is_empty());
}

#[test]
fn rejects_non_finite_scalar_float() {
    let err = Payload::new(vec![("x".to_string(), scalar(float(f64::NAN)))]);
    assert!(matches!(err, Err(PayloadError::NonFiniteValue)));
}

#[test]
fn rejects_non_finite_float_inside_array() {
    let err = Payload::new(vec![(
        "xs".to_string(),
        FieldValue::Array(vec![float(1.0), float(f64::INFINITY)]),
    )]);
    assert!(matches!(err, Err(PayloadError::NonFiniteValue)));
}

#[test]
fn deserialization_rejects_non_finite_via_try_from() {
    let raw = vec![("x".to_string(), scalar(float(f64::NAN)))];
    let result: Result<Payload, _> = Payload::new(raw);
    assert!(matches!(result, Err(PayloadError::NonFiniteValue)));
}

#[test]
fn later_pairs_replace_earlier_ones_and_names_come_out_sorted() {
    let p = payload(vec![
        ("b", scalar(Value::Integer(1))),
        ("a", scalar(Value::Integer(2))),
        ("b", scalar(Value::Integer(3))),
    ]);
    assert_eq!(p.len(), 2);
    assert_eq!(p.get("b"), Some(&FieldValue::Scalar(Value::Integer(3))));
    let names: Vec<&str> = p.iter().iter().map(|(k, _)| k.as_str()).collect();
    assert_eq!(names, vec!["a", "b"]);
    // A non-finite value that a later pair replaces does not reach the payload.
    let replaced = Payload::new(vec![
        ("x".to_string(), scalar(float(f64::NAN))),
        ("x".to_string(), scalar(float(1.0))),
    ]);
    assert!(replaced.is_ok());
    assert_eq!(payload(vec![]).len(), 0);
    assert!(payload(vec![]).is_empty());
}

#[test]
fn cloned_payload_is_equal() {
    let p = payload(vec![("tags", FieldValue::Array(vec![Value::Text("a".into())]))]);
    assert_eq!(p.clone(), p);
}

#[test]
fn eq_matches_present_scalar() {
    let p = payload(vec![("k", scalar(Value::Text("a".into())))]);
    assert!(matches(&Filter::Eq("k".into(), Value::Text("a".into())), &p));
    assert!(!matches(&Filter::Eq("k".into(), Value::Text("b".into())), &p));
}

#[test]
fn eq_on_absent_field_is_false() {
    let p = payload(vec![("k", scalar(Value::Integer(1)))]);
    assert!(!matches(&Filter::Eq("missing".into(), Value::Integer(1)), &p));
}

#[test]
fn ne_on_absent_field_is_false() {
    let p = payload(vec![("k", scalar(Value::Integer(1)))]);
    assert!(!matches(&Filter::Ne("missing".into(), Value::Integer(1)), &p));
}

#[test]
fn ne_is_true_only_for_present_differing_scalar() {
    let p = payload(vec![("k", scalar(Value::Integer(1)))]);
    assert!(matches(&Filter::Ne("k".into(), Value::Integer(2)), &p));
    assert!(!matches(&Filter::Ne("k".into(), Value::Integer(1)), &p));
}

#[test]
fn numeric_ranges_match() {
    let p = payload(vec![("price", scalar(Value::Integer(100)))]);
    assert!(matches(&Filter::Lt("price".into(), Value::Integer(150)), &p));
    assert!(matches(&Filter::Gte("price".into(), float(100.0)), &p));
    assert!(!matches(&Filter::Gt("price".into(), Value::Integer(100)), &p));
    assert!(matches(&Filter::Lte("price".into(), Value::Integer(100)), &p));
}

#[test]
fn type_mismatch_comparison_is_false() {
    let p = payload(vec![("k", scalar(Value::Text("a".into())))]);
    assert!(!matches(&Filter::Lt("k".into(), Value::Integer(1)), &p));
}

#[test]
fn in_matches_membership() {
    let p = payload(vec![("color", scalar(Value::Text("red".into())))]);
    let filter = Filter::In("color".into(), vec![Value::Text("red".into()), Value::Text("blue".into())]);
    assert!(matches(&filter, &p));
    let other = Filter::In("color".into(), vec![Value::Text("green".into())]);
    assert!(!matches(&other, &p));
}

#[test]
fn contains_matches_array_membership() {
    let p = payload(vec![(
        "tags",
        FieldValue::Array(vec![Value::Text("rust".into()), Value::Text("db".into())]),
    )]);
    assert!(matches(&Filter::Contains("tags".into(), Value::Text("rust".into())), &p));
    assert!(!matches(&Filter::Contains("tags".into(), Value::Text("go".into())), &p));
    let q = payload(vec![("tags", scalar(Value::Text("rust".into())))]);
    assert!(!matches(&Filter::Contains("tags".into(), Value::Text("rust".into())), &q));
}

#[test]
fn exists_and_not_exists() {
    let p = payload(vec![("k", scalar(Value::Bool(true)))]);
    assert!(matches(&Filter::Exists("k".into()), &p));
    assert!(!matches(&Filter::Exists("missing".into()), &p));
    let is_null = Filter::Not(Box::new(Filter::Exists("missing".into())));
    assert!(matches(&is_null, &p));
}

#[test]
fn boolean_combinators_compose() {
    let p = payload(vec![("a", scalar(Value::Integer(1))), ("b", scalar(Value::Text("x".into())))]);
    let both = Filter::And(vec![
        Filter::Eq("a".into(), Value::Integer(1)),
        Filter::Eq("b".into(), Value::Text("x".into())),
    ]);
    assert!(matches(&both, &p));
    let either = Filter::Or(vec![
        Filter::Eq("a".into(), Value::Integer(999)),
        Filter::Eq("b".into(), Value::Text("x".into())),
    ]);
    assert!(matches(&either, &p));
    assert!(matches(&Filter::Not(Box::new(Filter::Eq("a".into(), Value::Integer(2)))), &p));
}

#[test]
fn empty_and_is_true_empty_or_is_false() {
    let p = payload(vec![("k", scalar(Value::Integer(1)))]);
    assert!(matches(&Filter::And(vec![]), &p));
    assert!(!matches(&Filter::Or(vec![]), &p));
}

#[test]
fn compiled_and_cloned_filters_agree_with_evaluation() {
    let p = payload(vec![("a", scalar(Value::Integer(1)))]);
    let f = Filter::Or(vec![Filter::Not(Box::new(Filter::Exists("a".into()))), Filter::Gt("a".into(), float(0.5))]);
    assert_eq!(evaluate(&f, &p), true);
    assert_eq!(f.clone().compile().matches(&p), evaluate(&f, &p));
    assert_eq!(f.clone(), f);
}

fn store_payload(source: &str) -> Payload {
    payload(vec![("source", scalar(Value::Text(source.into())))])
}

#[test]
fn set_get_remove_round_trip() {
    let mut store = InMemoryPayloadStore::new();
    let id = VectorId::new();
    assert_eq!(store.get(&id).expect("get"), None);
    store.set(id, store_payload("wiki")).expect("set");
    assert_eq!(store.get(&id).expect("get"), Some(store_payload("wiki")));
    assert_eq!(store.len(), 1);
    assert!(store.remove(&id).expect("remove"));
    assert!(!store.remove(&id).expect("remove again"));
    assert_eq!(store.len(), 0);
    assert!(store.is_empty());
}

#[test]
fn matching_ids_returns_only_matches() {
    let mut store = InMemoryPayloadStore::new();
    let wiki = VectorId::new();
    let blog = VectorId::new();
    store.set(wiki, store_payload("wiki")).expect("set wiki");
    store.set(blog, store_payload("blog")).expect("set blog");
    let filter = Filter::Eq("source".into(), Value::Text("wiki".into())).compile();
    let matched = store.matching_ids(&filter).expect("match");
    assert_eq!(matched.len(), 1);
    assert!(matched.contains(&wiki));
    assert!(!matched.contains(&blog));
}

#[test]
fn set_overwrites_the_previous_payload() {
    let mut store = InMemoryPayloadStore::new();
    let id = VectorId::new();
    store.set(id, store_payload("wiki")).expect("set");
    store.set(id, store_payload("blog")).expect("set again");
    assert_eq!(store.len(), 1);
    assert_eq!(store.get(&id).expect("get"), Some(store_payload("blog")));
}

#[test]
fn resolve_metric_defaults_and_rejects_unsupported() {
    let supported = vec![Metric::Cosine];
    assert_eq!(resolve_metric(None, Metric::Cosine, &supported), Ok(Metric::Cosine));
    assert_eq!(
        resolve_metric(Some(Metric::Euclidean), Metric::Cosine, &supported),
        Err(QueryError::UnsupportedMetric(Metric::Euclidean))
    );
}
