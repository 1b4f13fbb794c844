//! Conversions between wire payload messages and domain payload values.

use vstd::prelude::*;
use crate::errors::{ConversionError, PayloadError, payload_error_text};
use crate::payload::{
    Payload, all_fields_finite, entry_value, field_is_finite, lemma_entry_value_some,
    lemma_entry_value_views, lemma_field_finite_view, names_ascending, pairs_map,
};
use crate::pb;
use crate::value::{FieldValue, FieldView, Value};

verus! {

/// The wire form of a domain value.
pub open spec fn value_to_pb_spec(v: Value) -> pb::Value {
    pb::Value {
        kind: Some(
            match v {
                Value::Text(s) => pb::ValueKind::Text(s),
                Value::Integer(i) => pb::ValueKind::Integer(i),
                Value::Float(b) => pb::ValueKind::FloatValue(b),
                Value::Bool(b) => pb::ValueKind::BoolValue(b),
            },
        ),
    }
}

/// The domain value of a wire value; a value without `kind` is refused.
pub open spec fn value_from_pb_spec(p: pb::Value) -> Result<Value, ConversionError> {
    match p.kind {
        None => Err(ConversionError::MissingField("value.kind")),
        Some(pb::ValueKind::Text(s)) => Ok(Value::Text(s)),
        Some(pb::ValueKind::Integer(i)) => Ok(Value::Integer(i)),
        Some(pb::ValueKind::FloatValue(b)) => Ok(Value::Float(b)),
        Some(pb::ValueKind::BoolValue(b)) => Ok(Value::Bool(b)),
    }
}

/// The wire forms of a sequence of values.
pub open spec fn values_to_pb(vs: Seq<Value>) -> Seq<pb::Value> {
    vs.map_values(|v: Value| value_to_pb_spec(v))
}

/// Whether some wire value of the sequence has no `kind`.
pub open spec fn some_value_unset(ps: Seq<pb::Value>) -> bool {
    exists|i: int| 0 <= i < ps.len() && (#[trigger] ps[i]).kind is None
}

/// `p` is the wire form of the field `f`.
pub open spec fn field_encodes(p: pb::FieldValue, f: FieldValue) -> bool {
    match f {
        FieldValue::Scalar(v) => p.kind == Some(pb::FieldValueKind::Scalar(value_to_pb_spec(v))),
        FieldValue::Array(vs) => match p.kind {
            Some(pb::FieldValueKind::Array(arr)) => arr.values@ == values_to_pb(vs@),
            _ => false,
        },
    }
}

/// The error decoding a wire field value gives, if any.
pub open spec fn field_decode_error(p: pb::FieldValue) -> Option<ConversionError> {
    match p.kind {
        None => Some(ConversionError::MissingField("field_value.kind")),
        Some(pb::FieldValueKind::Scalar(v)) => if v.kind is None {
            Some(ConversionError::MissingField("value.kind"))
        } else {
            None
        },
        Some(pb::FieldValueKind::Array(arr)) => if some_value_unset(arr.values@) {
            Some(ConversionError::MissingField("value.kind"))
        } else {
            None
        },
    }
}

/// The first error, in entry order, that decoding wire payload entries
/// gives, if any.
pub open spec fn fields_decode_error(ws: Seq<(String, pb::FieldValue)>) -> Option<ConversionError>
    decreases ws.len(),
{
    if ws.len() == 0 {
        None
    } else {
        match field_decode_error(ws[0].1) {
            Some(e) => Some(e),
            None => fields_decode_error(ws.drop_first()),
        }
    }
}

/// `ds` is the entry-by-entry decoding of the wire entries `ws`.
pub open spec fn fields_decoded(ws: Seq<(String, pb::FieldValue)>, ds: Seq<(String, FieldValue)>) -> bool {
    &&& ws.len() == ds.len()
    &&& forall|i: int| 0 <= i < ws.len() ==> #[trigger] ds[i].0@ == ws[i].0@ && field_encodes(ws[i].1, ds[i].1)
}

/// `p` is the wire form of the payload `q`: its entries in ascending name
/// order.
pub open spec fn payload_encodes(p: pb::Payload, q: Payload) -> bool {
    &&& p.fields@.len() == q.entries().len()
    &&& forall|i: int| 0 <= i < p.fields@.len() ==> #[trigger] p.fields@[i].0@ == q.entries()[i].0@
        && field_encodes(p.fields@[i].1, q.entries()[i].1)
}

/// `r` is what decoding the wire payload `w` gives: the first entry that
/// fails to decode decides the error; otherwise the decoded entries build the
/// payload, or, when one holds a non-finite float, `Domain` with the payload
/// error's message.
pub open spec fn payload_decodes_to(w: pb::Payload, r: Result<Payload, ConversionError>) -> bool {
    &&& fields_decode_error(w.fields@) is Some ==> r == Err::<Payload, ConversionError>(fields_decode_error(w.fields@).unwrap())
    &&& fields_decode_error(w.fields@) is None ==> exists|ds: Seq<(String, FieldValue)>| #[trigger] fields_decoded(w.fields@, ds) && match r {
            Ok(q) => all_fields_finite(ds) && q@ == pairs_map(ds),
            Err(e) => !all_fields_finite(ds) && (e matches ConversionError::Domain(m) && m@ == payload_error_text(PayloadError::NonFiniteValue)),
        }
}

/// Converts a domain value to its wire form.
pub fn value_to_pb(value: &Value) -> (r: pb::Value)
    ensures
        r == value_to_pb_spec(*value),
{
    let kind = match value {
        Value::Text(s) => pb::ValueKind::Text(s.clone()),
        Value::Integer(i) => pb::ValueKind::Integer(*i),
        Value::Float(b) => pb::ValueKind::FloatValue(*b),
        Value::Bool(b) => pb::ValueKind::BoolValue(*b),
    };
    pb::Value { kind: Some(kind) }
}

/// Converts a wire value to the domain; `MissingField("value.kind")` when
/// the value has no `kind`.
pub fn value_from_pb(value: pb::Value) -> (r: Result<Value, ConversionError>)
    ensures
        r == value_from_pb_spec(value),
{
    match value.kind {
        None => Err(ConversionError::MissingField("value.kind")),
        Some(pb::ValueKind::Text(s)) => Ok(Value::Text(s)),
        Some(pb::ValueKind::Integer(i)) => Ok(Value::Integer(i)),
        Some(pb::ValueKind::FloatValue(b)) => Ok(Value::Float(b)),
        Some(pb::ValueKind::BoolValue(b)) => Ok(Value::Bool(b)),
    }
}

/// Converts values to their wire forms, one for one.
pub fn values_to_pb_exec(values: &Vec<Value>) -> (r: Vec<pb::Value>)
    ensures
        r@ == values_to_pb(values@),
{
    let mut out: Vec<pb::Value> = Vec::new();
    let mut i: usize = 0;
    while i < values.len()
        invariant
            i <= values@.len(),
            out@ == values_to_pb(values@.take(i as int)),
        decreases values.len() - i,
    {
        out.push(value_to_pb(&values[i]));
        proof {
            assert(values_to_pb(values@.take(i + 1)) =~= values_to_pb(values@.take(i as int)).push(value_to_pb_spec(values@[i as int])));
        }
        i = i + 1;
    }
    proof {
        assert(values@.take(values@.len() as int) =~= values@);
    }
    out
}

/// Decodes wire values one for one, failing with `MissingField("value.kind")`
/// when one has no `kind`.
pub fn values_from_pb(values: Vec<pb::Value>) -> (r: Result<Vec<Value>, ConversionError>)
    ensures
        match r {
            Ok(vs) => !some_value_unset(values@) && values_to_pb(vs@) == values@,
            Err(e) => some_value_unset(values@) && e == ConversionError::MissingField("value.kind"),
        },
{
    broadcast use vstd::std_specs::vec::axiom_spec_into_iter;
    let ghost input = values@;
    let mut out: Vec<Value> = Vec::new();
    for v in it: values.into_iter()
        invariant
            it.seq() == input,
            values_to_pb(out@) == input.take(it.index()),
    {
        let ghost i = it.index();
        assert(v == input[i]);
        match value_from_pb(v) {
            Ok(x) => {
                let ghost before = out@;
                out.push(x);
                proof {
                    lemma_value_pb_round_trip(input[i]);
                    assert(values_to_pb(out@) =~= values_to_pb(before).push(value_to_pb_spec(x)));
                    assert(input.take(i + 1) =~= input.take(i as int).push(input[i]));
                }
            },
            Err(e) => {
                assert(input[i].kind is None);
                return Err(e);
            },
        }
    }
    proof {
        assert(input.take(input.len() as int) =~= input);
        assert forall|i: int| 0 <= i < input.len() implies (#[trigger] input[i]).kind is Some by {
            assert(input[i] == values_to_pb(out@)[i]);
        }
    }
    Ok(out)
}

/// Converts a domain field value to its wire form.
pub fn field_value_to_pb(field_value: &FieldValue) -> (r: pb::FieldValue)
    ensures
        field_encodes(r, *field_value),
{
    let kind = match field_value {
        FieldValue::Scalar(v) => pb::FieldValueKind::Scalar(value_to_pb(v)),
        FieldValue::Array(values) => pb::FieldValueKind::Array(pb::ValueArray { values: values_to_pb_exec(values) }),
    };
    pb::FieldValue { kind: Some(kind) }
}

/// Converts a wire field value to the domain: `MissingField("field_value.kind")`
/// when it has no `kind`, `MissingField("value.kind")` when a value in it has
/// none.
pub fn field_value_from_pb(field_value: pb::FieldValue) -> (r: Result<FieldValue, ConversionError>)
    ensures
        match r {
            Ok(f) => field_decode_error(field_value) is None && field_encodes(field_value, f),
            Err(e) => field_decode_error(field_value) == Some(e),
        },
{
    match field_value.kind {
        None => Err(ConversionError::MissingField("field_value.kind")),
        Some(pb::FieldValueKind::Scalar(v)) => {
            let ghost w = v;
            match value_from_pb(v) {
                Ok(x) => {
                    proof {
                        lemma_value_pb_round_trip(w);
                    }
                    Ok(FieldValue::Scalar(x))
                },
                Err(e) => Err(e),
            }
        },
        Some(pb::FieldValueKind::Array(arr)) => match values_from_pb(arr.values) {
            Ok(vs) => Ok(FieldValue::Array(vs)),
            Err(e) => Err(e),
        },
    }
}

/// Converts a domain payload to its wire form, entries in ascending name
/// order.
pub fn payload_to_pb(payload: &Payload) -> (r: pb::Payload)
    ensures
        payload_encodes(r, *payload),
{
    let entries = payload.iter();
    let mut out: Vec<(String, pb::FieldValue)> = Vec::new();
    let mut i: usize = 0;
    while i < entries.len()
        invariant
            entries@ == payload.entries(),
            i <= entries@.len(),
            out@.len() == i,
            forall|j: int| 0 <= j < i ==> #[trigger] out@[j].0@ == entries@[j].0@ && field_encodes(out@[j].1, entries@[j].1),
        decreases entries.len() - i,
    {
        let name = entries[i].0.clone();
        let wire = field_value_to_pb(&entries[i].1);
        out.push((name, wire));
        proof {
            assert(out@[i as int].0@ == entries@[i as int].0@);
        }
        i = i + 1;
    }
    pb::Payload { fields: out }
}

/// Converts a wire payload to the domain. Entries are decoded in order and
/// the first decoding error is returned; a decoded payload holding a
/// non-finite float is refused with `Domain` and the payload error's message.
/// Later entries replace earlier ones with the same name.
pub fn payload_from_pb(payload: pb::Payload) -> (r: Result<Payload, ConversionError>)
    ensures
        payload_decodes_to(payload, r),
{
    broadcast use vstd::std_specs::vec::axiom_spec_into_iter;
    let ghost input = payload.fields@;
    let mut out: Vec<(String, FieldValue)> = Vec::new();
    proof {
        assert(input.skip(0) =~= input);
    }
    for entry in it: payload.fields.into_iter()
        invariant
            it.seq() == input,
            fields_decoded(input.take(it.index()), out@),
            fields_decode_error(input) == fields_decode_error(input.skip(it.index())),
    {
        let ghost i = it.index();
        assert(entry == input[i]);
        proof {
            assert(input.skip(i).drop_first() =~= input.skip(i + 1));
            assert(input.skip(i)[0] == input[i]);
        }
        let (name, wire) = entry;
        match field_value_from_pb(wire) {
            Ok(f) => {
                out.push((name, f));
                proof {
                    assert forall|j: int| 0 <= j < i + 1 implies #[trigger] out@[j].0@ == input.take(i + 1)[j].0@
                        && field_encodes(input.take(i + 1)[j].1, out@[j].1) by {
                        if j < i {
                            assert(input.take(i + 1)[j] == input.take(i as int)[j]);
                        }
                    }
                }
            },
            Err(e) => {
                return Err(e);
            },
        }
    }
    proof {
        assert(input.take(input.len() as int) =~= input);
        assert(input.skip(input.len() as int).len() == 0);
    }
    let ghost ds = out@;
    match Payload::new(out) {
        Ok(p) => Ok(p),
        Err(e) => {
            let m = e.message();
            Err(ConversionError::Domain(m))
        },
    }
}

/// A wire value decodes back to the value it encodes.
pub proof fn lemma_value_round_trip(v: Value)
    ensures
        value_from_pb_spec(value_to_pb_spec(v)) == Ok::<Value, ConversionError>(v),
{
}

/// A wire value that decodes is the wire form of what it decodes to.
pub proof fn lemma_value_pb_round_trip(p: pb::Value)
    ensures
        value_from_pb_spec(p) matches Ok(v) ==> value_to_pb_spec(v) == p,
{
}

/// Distinct sequences of values have distinct wire forms.
pub proof fn lemma_values_to_pb_injective(a: Seq<Value>, b: Seq<Value>)
    requires
        values_to_pb(a) == values_to_pb(b),
    ensures
        a == b,
{
    assert(values_to_pb(a).len() == a.len() && values_to_pb(b).len() == b.len());
    assert forall|i: int| 0 <= i < a.len() implies a[i] == b[i] by {
        assert(values_to_pb(a)[i] == value_to_pb_spec(a[i]));
        assert(values_to_pb(b)[i] == value_to_pb_spec(b[i]));
        lemma_value_round_trip(a[i]);
        lemma_value_round_trip(b[i]);
    }
    assert(a =~= b);
}

/// A field's wire form decodes without error, and decodes to a field with
/// the same contents.
pub proof fn lemma_field_value_round_trip(p: pb::FieldValue, f: FieldValue, g: FieldValue)
    requires
        field_encodes(p, f),
    ensures
        field_decode_error(p) is None,
        field_encodes(p, g) ==> g@ == f@,
{
    match f {
        FieldValue::Scalar(v) => {
            if field_encodes(p, g) {
                match g {
                    FieldValue::Scalar(w) => {
                        lemma_value_round_trip(v);
                        lemma_value_round_trip(w);
                    },
                    FieldValue::Array(_) => {},
                }
            }
        },
        FieldValue::Array(vs) => {
            if let Some(pb::FieldValueKind::Array(arr)) = p.kind {
                if some_value_unset(arr.values@) {
                    let i = choose|i: int| 0 <= i < arr.values@.len() && (#[trigger] arr.values@[i]).kind is None;
                    assert(arr.values@[i] == value_to_pb_spec(vs@[i]));
                }
                if field_encodes(p, g) {
                    match g {
                        FieldValue::Array(ws) => lemma_values_to_pb_injective(vs@, ws@),
                        FieldValue::Scalar(_) => {},
                    }
                }
            }
        },
    }
}

/// Wire entries that each encode a field decode without error.
proof fn lemma_fields_decode_ok(ws: Seq<(String, pb::FieldValue)>, ds: Seq<(String, FieldValue)>)
    requires
        fields_decoded(ws, ds),
    ensures
        fields_decode_error(ws) is None,
    decreases ws.len(),
{
    if ws.len() > 0 {
        assert(ds[0].0@ == ws[0].0@);
        lemma_field_value_round_trip(ws[0].1, ds[0].1, ds[0].1);
        assert forall|i: int| 0 <= i < ws.drop_first().len() implies #[trigger] ds.drop_first()[i].0@ == ws.drop_first()[i].0@
            && field_encodes(ws.drop_first()[i].1, ds.drop_first()[i].1) by {
            assert(ds[i + 1].0@ == ws[i + 1].0@);
        }
        lemma_fields_decode_ok(ws.drop_first(), ds.drop_first());
    }
}

/// The wire form of a valid payload decodes back to the same fields: no
/// entry fails to decode, and every decoding of the entries is finite and
/// builds the payload's own fields.
pub proof fn lemma_payload_round_trip(w: pb::Payload, q: Payload, ds: Seq<(String, FieldValue)>)
    requires
        payload_encodes(w, q),
        names_ascending(q.entries()),
        forall|i: int| 0 <= i < q.entries().len() ==> #[trigger] field_is_finite(q.entries()[i].1),
    ensures
        fields_decode_error(w.fields@) is None,
        fields_decoded(w.fields@, ds) ==> all_fields_finite(ds) && pairs_map(ds) == q@,
{
    let es = q.entries();
    assert(fields_decoded(w.fields@, es)) by {
        assert forall|i: int| 0 <= i < w.fields@.len() implies #[trigger] es[i].0@ == w.fields@[i].0@
            && field_encodes(w.fields@[i].1, es[i].1) by {
            assert(w.fields@[i].0@ == q.entries()[i].0@ && field_encodes(w.fields@[i].1, q.entries()[i].1));
        }
        assert(w.fields@.len() == es.len());
    }
    lemma_fields_decode_ok(w.fields@, es);
    if fields_decoded(w.fields@, ds) {
        assert forall|j: int| 0 <= j < ds.len() implies #[trigger] ds[j].0@ == es[j].0@ && ds[j].1@ == es[j].1@ by {
            assert(ds[j].0@ == w.fields@[j].0@);
            assert(w.fields@[j].0@ == q.entries()[j].0@);
            lemma_field_value_round_trip(w.fields@[j].1, es[j].1, ds[j].1);
        }
        assert forall|k: Seq<char>| #[trigger] pairs_map(ds).contains_key(k) == pairs_map(es).contains_key(k)
            && (pairs_map(ds).contains_key(k) ==> pairs_map(ds)[k] == pairs_map(es)[k]) by {
            lemma_entry_value_views(ds, es, k);
        }
        assert(pairs_map(ds) =~= pairs_map(es));
        assert forall|k: Seq<char>| #[trigger] entry_value(ds, k) is Some implies field_is_finite(entry_value(ds, k).unwrap()) by {
            lemma_entry_value_some(ds, k);
            let i = choose|i: int| 0 <= i < ds.len() && ds[i].0@ == k && entry_value(ds, k) == Some(ds[i].1);
            assert(ds[i].0@ == es[i].0@);
            lemma_field_finite_view(ds[i].1, es[i].1);
        }
    }
}

} // verus!
