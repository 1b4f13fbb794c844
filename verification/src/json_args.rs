//! The JSON arguments of the command line: a payload given as a flat JSON
//! object, and an equality filter given as `{"field":..,"eq":..}`.
//!
//! `serde_json` parses the text; the rules that turn the parsed value into
//! a payload or a filter are verified here.

use vstd::prelude::*;
use crate::errors::{PayloadError, payload_error_text};
use crate::filter::Filter;
use crate::payload::{Payload, pairs_map, entry_value, all_fields_finite, field_is_finite, value_is_finite};
use crate::value::{FieldValue, FieldView, Value};
use crate::json_parse::{ArgError, JsonValue, json_parsed, parse_json};

verus! {

/// The message for a payload value that is neither a scalar nor an array of
/// scalars.
pub open spec fn scalar_rule_text() -> Seq<char> {
    "payload values must be scalars or scalar arrays"@
}

/// The scalar a JSON value stands for: a string, a boolean, or a number,
/// taken as an integer when it reads as one and as a float otherwise.
pub open spec fn json_scalar(j: JsonValue) -> Result<Value, Seq<char>> {
    match j {
        JsonValue::Text(s) => Ok(Value::Text(s)),
        JsonValue::Bool(b) => Ok(Value::Bool(b)),
        JsonValue::Number { as_i64, as_f64_bits } => match as_i64 {
            Some(i) => Ok(Value::Integer(i)),
            None => match as_f64_bits {
                Some(bits) => Ok(Value::Float(bits)),
                None => Err("number out of range"@),
            },
        },
        _ => Err(scalar_rule_text()),
    }
}

/// The scalars of a JSON array, or the error of the first item that is not
/// one.
pub open spec fn json_scalars(items: Seq<JsonValue>) -> Result<Seq<Value>, Seq<char>>
    decreases items.len(),
{
    if items.len() == 0 {
        Ok(Seq::empty())
    } else {
        match json_scalars(items.drop_last()) {
            Err(m) => Err(m),
            Ok(vs) => match json_scalar(items.last()) {
                Err(m) => Err(m),
                Ok(v) => Ok(vs.push(v)),
            },
        }
    }
}

/// The payload field a JSON value stands for: an array of scalars, or one
/// scalar.
pub open spec fn json_field(j: JsonValue) -> Result<FieldView, Seq<char>> {
    match j {
        JsonValue::Array(items) => match json_scalars(items@) {
            Ok(vs) => Ok(FieldView::Array(vs)),
            Err(m) => Err(m),
        },
        _ => match json_scalar(j) {
            Ok(v) => Ok(FieldView::Scalar(v)),
            Err(m) => Err(m),
        },
    }
}

/// The named fields the entries of a JSON object stand for, in order, or
/// the error of the first entry that is not a field.
pub open spec fn json_fields(entries: Seq<(String, JsonValue)>) -> Result<Seq<(Seq<char>, FieldView)>, Seq<char>>
    decreases entries.len(),
{
    if entries.len() == 0 {
        Ok(Seq::empty())
    } else {
        match json_fields(entries.drop_last()) {
            Err(m) => Err(m),
            Ok(fs) => match json_field(entries.last().1) {
                Err(m) => Err(m),
                Ok(f) => Ok(fs.push((entries.last().0@, f))),
            },
        }
    }
}

/// The map named fields build, later ones replacing earlier ones.
pub open spec fn fields_map(fs: Seq<(Seq<char>, FieldView)>) -> Map<Seq<char>, FieldView>
    decreases fs.len(),
{
    if fs.len() == 0 {
        Map::empty()
    } else {
        fields_map(fs.drop_last()).insert(fs.last().0, fs.last().1)
    }
}

/// A field none of whose values is a non-finite float.
pub open spec fn field_view_finite(f: FieldView) -> bool {
    match f {
        FieldView::Scalar(v) => value_is_finite(v),
        FieldView::Array(vs) => forall|i: int| 0 <= i < vs.len() ==> value_is_finite(#[trigger] vs[i]),
    }
}

/// The payload a JSON value stands for: an object whose every entry is a
/// field, with no non-finite float. Errors: not an object, the first entry
/// that is not a field, a non-finite float.
pub open spec fn payload_json_result(j: JsonValue) -> Result<Map<Seq<char>, FieldView>, Seq<char>> {
    match j {
        JsonValue::Object(entries) => match json_fields(entries@) {
            Err(m) => Err(m),
            Ok(fs) => if forall|k: Seq<char>| #[trigger] fields_map(fs).contains_key(k) ==> field_view_finite(fields_map(fs)[k]) {
                Ok(fields_map(fs))
            } else {
                Err(payload_error_text(PayloadError::NonFiniteValue))
            },
        },
        _ => Err("payload must be a JSON object"@),
    }
}

/// The value of the first entry named `key`.
pub open spec fn json_lookup(entries: Seq<(String, JsonValue)>, key: Seq<char>) -> Option<JsonValue>
    decreases entries.len(),
{
    if entries.len() == 0 {
        None
    } else if entries[0].0@ == key {
        Some(entries[0].1)
    } else {
        json_lookup(entries.drop_first(), key)
    }
}

/// The field name and the value of the equality filter a JSON value stands
/// for: an object with a string `"field"` and a scalar `"eq"`. Errors, in
/// order: not an object, no string `"field"`, no `"eq"`, `"eq"` not a
/// scalar.
pub open spec fn filter_json_result(j: JsonValue) -> Result<(String, Value), Seq<char>> {
    match j {
        JsonValue::Object(entries) => match json_lookup(entries@, "field"@) {
            Some(JsonValue::Text(f)) => match json_lookup(entries@, "eq"@) {
                Some(e) => match json_scalar(e) {
                    Ok(v) => Ok((f, v)),
                    Err(m) => Err(m),
                },
                None => Err("filter supports only {\"field\":..,\"eq\":..}"@),
            },
            _ => Err("filter requires a string \"field\""@),
        },
        _ => Err("filter must be a JSON object"@),
    }
}

/// The scalar a JSON value stands for.
pub fn json_to_value(j: &JsonValue) -> (r: Result<Value, String>)
    ensures
        match json_scalar(*j) {
            Ok(v) => r == Ok::<Value, String>(v),
            Err(m) => r matches Err(e) && e@ == m,
        },
{
    match j {
        JsonValue::Text(s) => Ok(Value::Text(s.clone())),
        JsonValue::Bool(b) => Ok(Value::Bool(*b)),
        JsonValue::Number { as_i64, as_f64_bits } => match as_i64 {
            Some(i) => Ok(Value::Integer(*i)),
            None => match as_f64_bits {
                Some(bits) => Ok(Value::Float(*bits)),
                None => Err(String::from_str("number out of range")),
            },
        },
        _ => Err(String::from_str("payload values must be scalars or scalar arrays")),
    }
}

/// The payload field a JSON value stands for.
pub fn json_to_field_value(j: &JsonValue) -> (r: Result<FieldValue, String>)
    ensures
        match json_field(*j) {
            Ok(f) => r matches Ok(v) && v@ == f,
            Err(m) => r matches Err(e) && e@ == m,
        },
{
    match j {
        JsonValue::Array(items) => {
            let mut out: Vec<Value> = Vec::new();
            let mut i: usize = 0;
            proof {
                assert(items@.take(0) =~= Seq::<JsonValue>::empty());
            }
            while i < items.len()
                invariant
                    i <= items@.len(),
                    *j == JsonValue::Array(*items),
                    json_scalars(items@.take(i as int)) == Ok::<Seq<Value>, Seq<char>>(out@),
                decreases items.len() - i,
            {
                proof {
                    assert(items@.take(i + 1).drop_last() =~= items@.take(i as int));
                    assert(items@.take(i + 1).last() == items@[i as int]);
                }
                match json_to_value(&items[i]) {
                    Ok(v) => {
                        out.push(v);
                    },
                    Err(e) => {
                        proof {
                            lemma_scalars_error(items@, i as int);
                        }
                        return Err(e);
                    },
                }
                i = i + 1;
            }
            proof {
                assert(items@.take(i as int) =~= items@);
            }
            Ok(FieldValue::Array(out))
        },
        _ => match json_to_value(j) {
            Ok(v) => Ok(FieldValue::Scalar(v)),
            Err(e) => Err(e),
        },
    }
}

/// The first failing item decides the error of the whole array.
proof fn lemma_scalars_error(items: Seq<JsonValue>, i: int)
    requires
        0 <= i < items.len(),
        json_scalars(items.take(i)) is Ok,
        json_scalar(items[i]) is Err,
    ensures
        json_scalars(items) == Err::<Seq<Value>, Seq<char>>(json_scalar(items[i])->Err_0),
    decreases items.len() - i,
{
    if i == items.len() - 1 {
        assert(items.drop_last() =~= items.take(i));
    } else {
        assert(items.drop_last().take(i) =~= items.take(i));
        assert(items.drop_last()[i] == items[i]);
        lemma_scalars_error(items.drop_last(), i);
    }
}

/// The first failing entry decides the error of the whole object.
proof fn lemma_fields_error(entries: Seq<(String, JsonValue)>, i: int)
    requires
        0 <= i < entries.len(),
        json_fields(entries.take(i)) is Ok,
        json_field(entries[i].1) is Err,
    ensures
        json_fields(entries) == Err::<Seq<(Seq<char>, FieldView)>, Seq<char>>(json_field(entries[i].1)->Err_0),
    decreases entries.len() - i,
{
    if i == entries.len() - 1 {
        assert(entries.drop_last() =~= entries.take(i));
    } else {
        assert(entries.drop_last().take(i) =~= entries.take(i));
        assert(entries.drop_last()[i] == entries[i]);
        lemma_fields_error(entries.drop_last(), i);
    }
}

/// A field is finite exactly when its contents are.
proof fn lemma_field_finite(f: FieldValue)
    ensures
        field_is_finite(f) == field_view_finite(f@),
{
    match f {
        FieldValue::Scalar(v) => {
            assert(f@ == FieldView::Scalar(v));
        },
        FieldValue::Array(vs) => {
            let w = vs@;
            let fv = FieldView::Array(w);
            assert(f@ == fv);
            assert(fv->Array_0 == w);
            assert(field_view_finite(fv) == (forall|j: int| 0 <= j < w.len() ==> value_is_finite(#[trigger] w[j])));
        },
    }
}

/// Pairs whose names and contents are those of `fs`, position by
/// position, build the map `fs` builds, and are finite when it is.
proof fn lemma_pairs_map_fields(pairs: Seq<(String, FieldValue)>, fs: Seq<(Seq<char>, FieldView)>)
    requires
        pairs.len() == fs.len(),
        forall|i: int| 0 <= i < pairs.len() ==> #[trigger] pairs[i].0@ == fs[i].0 && pairs[i].1@ == fs[i].1,
    ensures
        pairs_map(pairs) == fields_map(fs),
        all_fields_finite(pairs) == forall|k: Seq<char>| #[trigger] fields_map(fs).contains_key(k) ==> field_view_finite(fields_map(fs)[k]),
    decreases pairs.len(),
{
    if pairs.len() > 0 {
        let pp = pairs.drop_last();
        let pf = fs.drop_last();
        assert forall|i: int| 0 <= i < pp.len() implies #[trigger] pp[i].0@ == pf[i].0 && pp[i].1@ == pf[i].1 by {
            assert(pp[i] == pairs[i] && pf[i] == fs[i]);
        }
        lemma_pairs_map_fields(pp, pf);
        let last = pairs.len() - 1;
        assert(pairs[last].0@ == fs[last].0 && pairs[last].1@ == fs[last].1);
        assert forall|k: Seq<char>| #[trigger] entry_value(pairs, k) == if pairs.last().0@ == k { Some(pairs.last().1) } else { entry_value(pp, k) } by {}
        assert(pairs_map(pairs) =~= fields_map(fs)) by {
            assert forall|k: Seq<char>| pairs_map(pairs).contains_key(k) == fields_map(fs).contains_key(k) by {
                assert(pairs_map(pp).contains_key(k) == fields_map(pf).contains_key(k));
            }
            assert forall|k: Seq<char>| #[trigger] pairs_map(pairs).contains_key(k) implies pairs_map(pairs)[k] == fields_map(fs)[k] by {
                if pairs.last().0@ != k {
                    assert(pairs_map(pp).contains_key(k));
                    assert(pairs_map(pp)[k] == fields_map(pf)[k]);
                }
            }
        }
        assert(all_fields_finite(pairs) == forall|k: Seq<char>| #[trigger] fields_map(fs).contains_key(k) ==> field_view_finite(fields_map(fs)[k])) by {
            if all_fields_finite(pairs) {
                assert forall|k: Seq<char>| #[trigger] fields_map(fs).contains_key(k) implies field_view_finite(fields_map(fs)[k]) by {
                    assert(pairs_map(pairs).contains_key(k));
                    assert(entry_value(pairs, k) is Some);
                    lemma_field_finite(entry_value(pairs, k).unwrap());
                }
            }
            if forall|k: Seq<char>| #[trigger] fields_map(fs).contains_key(k) ==> field_view_finite(fields_map(fs)[k]) {
                assert forall|k: Seq<char>| #[trigger] entry_value(pairs, k) is Some implies field_is_finite(entry_value(pairs, k).unwrap()) by {
                    assert(pairs_map(pairs).contains_key(k));
                    assert(fields_map(fs).contains_key(k));
                    lemma_field_finite(entry_value(pairs, k).unwrap());
                }
            }
        }
    } else {
        assert(pairs_map(pairs) =~= fields_map(fs));
    }
}

/// The payload a JSON value stands for; the error message otherwise.
pub fn payload_from_json(j: &JsonValue) -> (r: Result<Payload, String>)
    ensures
        match payload_json_result(*j) {
            Ok(m) => r matches Ok(p) && p@ == m,
            Err(m) => r matches Err(e) && e@ == m,
        },
{
    let entries = match j {
        JsonValue::Object(entries) => entries,
        _ => return Err(String::from_str("payload must be a JSON object")),
    };
    let mut fields: Vec<(String, FieldValue)> = Vec::new();
    let ghost mut fs: Seq<(Seq<char>, FieldView)> = Seq::empty();
    let mut i: usize = 0;
    proof {
        assert(entries@.take(0) =~= Seq::<(String, JsonValue)>::empty());
    }
    while i < entries.len()
        invariant
            i <= entries@.len(),
            *j == JsonValue::Object(*entries),
            json_fields(entries@.take(i as int)) == Ok::<Seq<(Seq<char>, FieldView)>, Seq<char>>(fs),
            fields@.len() == fs.len(),
            forall|t: int| 0 <= t < fields@.len() ==> #[trigger] fields@[t].0@ == fs[t].0 && fields@[t].1@ == fs[t].1,
        decreases entries.len() - i,
    {
        proof {
            assert(entries@.take(i + 1).drop_last() =~= entries@.take(i as int));
            assert(entries@.take(i + 1).last() == entries@[i as int]);
        }
        let entry = &entries[i];
        match json_to_field_value(&entry.1) {
            Ok(f) => {
                let ghost fv = f@;
                fields.push((entry.0.clone(), f));
                proof {
                    fs = fs.push((entry.0@, fv));
                    assert forall|t: int| 0 <= t < fields@.len() implies #[trigger] fields@[t].0@ == fs[t].0 && fields@[t].1@ == fs[t].1 by {}
                }
            },
            Err(e) => {
                proof {
                    lemma_fields_error(entries@, i as int);
                }
                return Err(e);
            },
        }
        i = i + 1;
    }
    proof {
        assert(entries@.take(i as int) =~= entries@);
        lemma_pairs_map_fields(fields@, fs);
    }
    match Payload::new(fields) {
        Ok(p) => Ok(p),
        Err(e) => Err(e.message()),
    }
}

/// The index of the first entry named `key`.
fn find_entry(entries: &Vec<(String, JsonValue)>, key: &str) -> (r: Option<usize>)
    ensures
        match r {
            Some(i) => i < entries@.len() && json_lookup(entries@, key@) == Some(entries@[i as int].1),
            None => json_lookup(entries@, key@) is None,
        },
{
    let k = String::from_str(key);
    let mut i: usize = 0;
    proof {
        assert(entries@.skip(0) =~= entries@);
    }
    while i < entries.len()
        invariant
            i <= entries@.len(),
            k@ == key@,
            json_lookup(entries@, key@) == json_lookup(entries@.skip(i as int), key@),
        decreases entries.len() - i,
    {
        proof {
            assert(entries@.skip(i as int)[0] == entries@[i as int]);
            assert(entries@.skip(i as int).drop_first() =~= entries@.skip(i + 1));
        }
        if entries[i].0 == k {
            return Some(i);
        }
        i = i + 1;
    }
    None
}

/// The equality filter a JSON value stands for; the error message
/// otherwise.
pub fn filter_from_json(j: &JsonValue) -> (r: Result<Filter, String>)
    ensures
        match filter_json_result(*j) {
            Ok((f, v)) => r == Ok::<Filter, String>(Filter::Eq(f, v)),
            Err(m) => r matches Err(e) && e@ == m,
        },
{
    let entries = match j {
        JsonValue::Object(entries) => entries,
        _ => return Err(String::from_str("filter must be a JSON object")),
    };
    let field = match find_entry(entries, "field") {
        Some(i) => match &entries[i].1 {
            JsonValue::Text(f) => f.clone(),
            _ => return Err(String::from_str("filter requires a string \"field\"")),
        },
        None => return Err(String::from_str("filter requires a string \"field\"")),
    };
    let eq = match find_entry(entries, "eq") {
        Some(i) => &entries[i].1,
        None => return Err(String::from_str("filter supports only {\"field\":..,\"eq\":..}")),
    };
    match json_to_value(eq) {
        Ok(v) => Ok(Filter::Eq(field, v)),
        Err(e) => Err(e),
    }
}

/// Parses a payload argument: a flat JSON object of scalars and arrays of
/// scalars.
pub fn parse_payload(raw: &str) -> (r: Result<Payload, ArgError>)
    ensures
        match json_parsed(raw@) {
            Err(m) => r matches Err(ArgError::Json(e)) && e@ == m,
            Ok(j) => match payload_json_result(j) {
                Ok(m) => r matches Ok(p) && p@ == m,
                Err(m) => r matches Err(ArgError::Usage(e)) && e@ == m,
            },
        },
{
    match parse_json(raw) {
        Err(e) => Err(ArgError::Json(e)),
        Ok(j) => match payload_from_json(&j) {
            Ok(p) => Ok(p),
            Err(e) => Err(ArgError::Usage(e)),
        },
    }
}

/// Parses a filter argument of the form `{"field":"f","eq":value}`.
pub fn parse_filter(raw: &str) -> (r: Result<Filter, ArgError>)
    ensures
        match json_parsed(raw@) {
            Err(m) => r matches Err(ArgError::Json(e)) && e@ == m,
            Ok(j) => match filter_json_result(j) {
                Ok((f, v)) => r == Ok::<Filter, ArgError>(Filter::Eq(f, v)),
                Err(m) => r matches Err(ArgError::Usage(e)) && e@ == m,
            },
        },
{
    match parse_json(raw) {
        Err(e) => Err(ArgError::Json(e)),
        Ok(j) => match filter_from_json(&j) {
            Ok(f) => Ok(f),
            Err(e) => Err(ArgError::Usage(e)),
        },
    }
}

} // verus!
