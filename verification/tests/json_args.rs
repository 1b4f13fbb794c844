use eidosdb::filter::Filter;
use eidosdb::json_args::{filter_from_json, parse_filter, parse_payload, payload_from_json};
use eidosdb::json_parse::{parse_json, ArgError, JsonValue};
use eidosdb::value::{FieldValue, Value};

fn usage(message: &str) -> ArgError {
    ArgError::Usage(message.to_string())
}

#[test]
fn parse_json_keeps_numbers_as_integer_and_float() {
    match parse_json("[1, -2, 2.5, 18446744073709551615]").expect("json") {
        JsonValue::Array(items) => {
            assert!(matches!(items[0], JsonValue::Number { as_i64: Some(1), .. }));
            assert!(matches!(items[1], JsonValue::Number { as_i64: Some(-2), .. }));
            match items[2] {
                JsonValue::Number { as_i64: None, as_f64_bits: Some(bits) } => assert_eq!(bits, 2.5f64.to_bits()),
                _ => panic!("2.5 is a float"),
            }
            assert!(matches!(items[3], JsonValue::Number { as_i64: None, as_f64_bits: Some(_) }));
        }
        _ => panic!("an array"),
    }
}

#[test]
fn parse_json_reports_serde_json_errors() {
    assert!(parse_json("{not json").is_err());
}

#[test]
fn payload_argument_becomes_a_payload() {
    let payload = parse_payload(r#"{"lang":"en","n":3,"x":1.5,"ok":true,"tags":["a","b"]}"#).expect("payload");
    let fields: Vec<(String, FieldValue)> = payload.iter().iter().map(|(k, v)| (k.clone(), v.clone())).collect();
    assert_eq!(
        fields,
        vec![
            ("lang".to_string(), FieldValue::Scalar(Value::Text("en".to_string()))),
            ("n".to_string(), FieldValue::Scalar(Value::Integer(3))),
            ("ok".to_string(), FieldValue::Scalar(Value::Bool(true))),
            ("tags".to_string(), FieldValue::Array(vec![Value::Text("a".to_string()), Value::Text("b".to_string())])),
            ("x".to_string(), FieldValue::Scalar(Value::Float(1.5f64.to_bits()))),
        ]
    );
}

#[test]
fn payload_argument_refusals() {
    assert_eq!(parse_payload("[1]").err(), Some(usage("payload must be a JSON object")));
    assert_eq!(parse_payload(r#"{"a":null}"#).err(), Some(usage("payload values must be scalars or scalar arrays")));
    assert_eq!(parse_payload(r#"{"a":[1,{"b":2}]}"#).err(), Some(usage("payload values must be scalars or scalar arrays")));
    assert!(matches!(parse_payload("{"), Err(ArgError::Json(_))));
    let object = JsonValue::Object(vec![(
        "x".to_string(),
        JsonValue::Number { as_i64: None, as_f64_bits: Some(f64::INFINITY.to_bits()) },
    )]);
    assert_eq!(payload_from_json(&object).err(), Some("payload contains a non-finite float value".to_string()));
    let odd = JsonValue::Object(vec![("x".to_string(), JsonValue::Number { as_i64: None, as_f64_bits: None })]);
    assert_eq!(payload_from_json(&odd).err(), Some("number out of range".to_string()));
}

#[test]
fn filter_argument_becomes_an_equality_filter() {
    assert_eq!(
        parse_filter(r#"{"field":"lang","eq":"en"}"#).expect("filter"),
        Filter::Eq("lang".to_string(), Value::Text("en".to_string()))
    );
    assert_eq!(parse_filter(r#"{"eq":7,"field":"n"}"#).expect("filter"), Filter::Eq("n".to_string(), Value::Integer(7)));
}

#[test]
fn filter_argument_refusals() {
    assert_eq!(parse_filter("3").err(), Some(usage("filter must be a JSON object")));
    assert_eq!(parse_filter(r#"{"field":3,"eq":1}"#).err(), Some(usage("filter requires a string \"field\"")));
    assert_eq!(parse_filter(r#"{"eq":1}"#).err(), Some(usage("filter requires a string \"field\"")));
    assert_eq!(parse_filter(r#"{"field":"a"}"#).err(), Some(usage("filter supports only {\"field\":..,\"eq\":..}")));
    assert_eq!(parse_filter(r#"{"field":"a","eq":[1]}"#).err(), Some(usage("payload values must be scalars or scalar arrays")));
    assert!(matches!(parse_filter("nope"), Err(ArgError::Json(_))));
    let not_object = JsonValue::Bool(true);
    assert_eq!(filter_from_json(&not_object).err(), Some("filter must be a JSON object".to_string()));
}
