//! Conversions between wire filters and the domain filter AST, including
//! the `And`/`Or` lists, the `Not` box and every comparison leaf.

use vstd::prelude::*;
use crate::convert_payload::{
    lemma_value_pb_round_trip, lemma_value_round_trip, lemma_values_to_pb_injective,
    some_value_unset, value_from_pb, value_to_pb, value_to_pb_spec, values_from_pb, values_to_pb,
    values_to_pb_exec,
};
use crate::errors::ConversionError;
use crate::filter::{Filter, filter_matches};
use crate::pb;
use crate::value::{FieldView, Value};

verus! {

/// `c` is the wire form of a comparison of the field `name` with `v`.
pub open spec fn comparison_encodes(c: pb::Comparison, name: String, v: Value) -> bool {
    c.field == name && c.value == Some(value_to_pb_spec(v))
}

/// `p` is the wire form of the filter `f`.
pub open spec fn filter_encodes(p: pb::Filter, f: Filter) -> bool
    decreases f,
{
    match f {
        Filter::Eq(n, v) => match p.kind {
            Some(pb::FilterKind::Eq(c)) => comparison_encodes(c, n, v),
            _ => false,
        },
        Filter::Ne(n, v) => match p.kind {
            Some(pb::FilterKind::Ne(c)) => comparison_encodes(c, n, v),
            _ => false,
        },
        Filter::Lt(n, v) => match p.kind {
            Some(pb::FilterKind::Lt(c)) => comparison_encodes(c, n, v),
            _ => false,
        },
        Filter::Lte(n, v) => match p.kind {
            Some(pb::FilterKind::Lte(c)) => comparison_encodes(c, n, v),
            _ => false,
        },
        Filter::Gt(n, v) => match p.kind {
            Some(pb::FilterKind::Gt(c)) => comparison_encodes(c, n, v),
            _ => false,
        },
        Filter::Gte(n, v) => match p.kind {
            Some(pb::FilterKind::Gte(c)) => comparison_encodes(c, n, v),
            _ => false,
        },
        Filter::In(n, vs) => match p.kind {
            Some(pb::FilterKind::In(inf)) => inf.field == n && inf.values@ == values_to_pb(vs@),
            _ => false,
        },
        Filter::Contains(n, v) => match p.kind {
            Some(pb::FilterKind::Contains(cf)) => cf.field == n && cf.value == Some(value_to_pb_spec(v)),
            _ => false,
        },
        Filter::Exists(n) => p.kind == Some(pb::FilterKind::Exists(n)),
        Filter::And(fs) => match p.kind {
            Some(pb::FilterKind::And(l)) => l.filters@.len() == fs@.len()
                && forall|i: int| 0 <= i < fs@.len() ==> filter_encodes(l.filters@[i], #[trigger] fs@[i]),
            _ => false,
        },
        Filter::Or(fs) => match p.kind {
            Some(pb::FilterKind::Or(l)) => l.filters@.len() == fs@.len()
                && forall|i: int| 0 <= i < fs@.len() ==> filter_encodes(l.filters@[i], #[trigger] fs@[i]),
            _ => false,
        },
        Filter::Not(inner) => match p.kind {
            Some(pb::FilterKind::Not(b)) => filter_encodes(*b, *inner),
            _ => false,
        },
    }
}

/// Two filters with the same shape, the same field names and the same
/// operands.
pub open spec fn filter_same(a: Filter, b: Filter) -> bool
    decreases a,
{
    match a {
        Filter::Eq(n, v) => b matches Filter::Eq(m, w) && n@ == m@ && v == w,
        Filter::Ne(n, v) => b matches Filter::Ne(m, w) && n@ == m@ && v == w,
        Filter::Lt(n, v) => b matches Filter::Lt(m, w) && n@ == m@ && v == w,
        Filter::Lte(n, v) => b matches Filter::Lte(m, w) && n@ == m@ && v == w,
        Filter::Gt(n, v) => b matches Filter::Gt(m, w) && n@ == m@ && v == w,
        Filter::Gte(n, v) => b matches Filter::Gte(m, w) && n@ == m@ && v == w,
        Filter::In(n, vs) => b matches Filter::In(m, ws) && n@ == m@ && vs@ == ws@,
        Filter::Contains(n, v) => b matches Filter::Contains(m, w) && n@ == m@ && v == w,
        Filter::Exists(n) => b matches Filter::Exists(m) && n@ == m@,
        Filter::And(fs) => b matches Filter::And(gs) && fs@.len() == gs@.len()
            && forall|i: int| 0 <= i < fs@.len() ==> filter_same(#[trigger] fs@[i], gs@[i]),
        Filter::Or(fs) => b matches Filter::Or(gs) && fs@.len() == gs@.len()
            && forall|i: int| 0 <= i < fs@.len() ==> filter_same(#[trigger] fs@[i], gs@[i]),
        Filter::Not(x) => b matches Filter::Not(y) && filter_same(*x, *y),
    }
}

/// The error a wire comparison gives, if any.
pub open spec fn comparison_decode_error(c: pb::Comparison) -> Option<ConversionError> {
    match c.value {
        None => Some(ConversionError::MissingField("comparison.value")),
        Some(v) => if v.kind is None {
            Some(ConversionError::MissingField("value.kind"))
        } else {
            None
        },
    }
}

/// The sub-filters of a wire `And` or `Or`; empty for any other filter.
pub open spec fn sub_filters(p: pb::Filter) -> Seq<pb::Filter> {
    match p.kind {
        Some(pb::FilterKind::And(l)) => l.filters@,
        Some(pb::FilterKind::Or(l)) => l.filters@,
        _ => Seq::empty(),
    }
}

/// The first error, in pre-order, that decoding a wire filter gives, if any.
pub open spec fn filter_decode_error(p: pb::Filter) -> Option<ConversionError>
    decreases p, 1nat, 0nat,
{
    match p.kind {
        None => Some(ConversionError::MissingField("filter.kind")),
        Some(pb::FilterKind::Eq(c)) => comparison_decode_error(c),
        Some(pb::FilterKind::Ne(c)) => comparison_decode_error(c),
        Some(pb::FilterKind::Lt(c)) => comparison_decode_error(c),
        Some(pb::FilterKind::Lte(c)) => comparison_decode_error(c),
        Some(pb::FilterKind::Gt(c)) => comparison_decode_error(c),
        Some(pb::FilterKind::Gte(c)) => comparison_decode_error(c),
        Some(pb::FilterKind::In(inf)) => if some_value_unset(inf.values@) {
            Some(ConversionError::MissingField("value.kind"))
        } else {
            None
        },
        Some(pb::FilterKind::Contains(cf)) => match cf.value {
            None => Some(ConversionError::MissingField("contains.value")),
            Some(v) => if v.kind is None {
                Some(ConversionError::MissingField("value.kind"))
            } else {
                None
            },
        },
        Some(pb::FilterKind::Exists(_)) => None,
        Some(pb::FilterKind::And(_)) => list_decode_error(p, 0),
        Some(pb::FilterKind::Or(_)) => list_decode_error(p, 0),
        Some(pb::FilterKind::Not(b)) => filter_decode_error(*b),
    }
}

/// The first error that decoding the sub-filters of `p` from position `i`
/// on gives, if any.
pub open spec fn list_decode_error(p: pb::Filter, i: int) -> Option<ConversionError>
    decreases p, 0nat, sub_filters(p).len() - i,
{
    if 0 <= i < sub_filters(p).len() {
        proof {
            lemma_sub_filter_decreases(p, i);
        }
        match filter_decode_error(sub_filters(p)[i]) {
            Some(e) => Some(e),
            None => list_decode_error(p, i + 1),
        }
    } else {
        None
    }
}

/// A sub-filter is smaller than the filter that holds it.
pub proof fn lemma_sub_filter_decreases(p: pb::Filter, i: int)
    requires
        0 <= i < sub_filters(p).len(),
    ensures
        decreases_to!(p => sub_filters(p)[i]),
{
    match p.kind {
        Some(pb::FilterKind::And(l)) => {
            assert(decreases_to!(p => p.kind));
            assert(decreases_to!(p.kind => p.kind->Some_0));
            assert(decreases_to!(p.kind->Some_0 => p.kind->Some_0->And_0));
            assert(decreases_to!(l => l.filters));
            assert(decreases_to!(l.filters => l.filters@));
            assert(decreases_to!(l.filters@ => l.filters@[i]));
        },
        Some(pb::FilterKind::Or(l)) => {
            assert(decreases_to!(p => p.kind));
            assert(decreases_to!(p.kind => p.kind->Some_0));
            assert(decreases_to!(p.kind->Some_0 => p.kind->Some_0->Or_0));
            assert(decreases_to!(l => l.filters));
            assert(decreases_to!(l.filters => l.filters@));
            assert(decreases_to!(l.filters@ => l.filters@[i]));
        },
        _ => {},
    }
}

/// The wire form of a comparison of `name` with `value`.
fn comparison_to_pb(name: &String, value: &Value) -> (r: pb::Comparison)
    ensures
        comparison_encodes(r, *name, *value),
{
    pb::Comparison { field: name.clone(), value: Some(value_to_pb(value)) }
}

/// Converts a domain filter to its wire form.
pub fn filter_to_pb(filter: &Filter) -> (r: pb::Filter)
    ensures
        filter_encodes(r, *filter),
    decreases filter,
{
    let kind = match filter {
        Filter::Eq(n, v) => pb::FilterKind::Eq(comparison_to_pb(n, v)),
        Filter::Ne(n, v) => pb::FilterKind::Ne(comparison_to_pb(n, v)),
        Filter::Lt(n, v) => pb::FilterKind::Lt(comparison_to_pb(n, v)),
        Filter::Lte(n, v) => pb::FilterKind::Lte(comparison_to_pb(n, v)),
        Filter::Gt(n, v) => pb::FilterKind::Gt(comparison_to_pb(n, v)),
        Filter::Gte(n, v) => pb::FilterKind::Gte(comparison_to_pb(n, v)),
        Filter::In(n, vs) => pb::FilterKind::In(pb::InFilter { field: n.clone(), values: values_to_pb_exec(vs) }),
        Filter::Contains(n, v) => pb::FilterKind::Contains(pb::ContainsFilter { field: n.clone(), value: Some(value_to_pb(v)) }),
        Filter::Exists(n) => pb::FilterKind::Exists(n.clone()),
        Filter::And(fs) => {
            let mut out: Vec<pb::Filter> = Vec::new();
            let mut i: usize = 0;
            while i < fs.len()
                invariant
                    *filter == Filter::And(*fs),
                    i <= fs@.len(),
                    out@.len() == i,
                    forall|j: int| 0 <= j < i ==> filter_encodes(out@[j], #[trigger] fs@[j]),
                decreases fs.len() - i,
            {
                proof {
                    assert(decreases_to!(*filter => filter->And_0));
                    assert(decreases_to!(*fs => fs@[i as int]));
                }
                let w = filter_to_pb(&fs[i]);
                out.push(w);
                proof {
                    assert(out@[i as int] == w);
                }
                i = i + 1;
            }
            pb::FilterKind::And(pb::FilterList { filters: out })
        },
        Filter::Or(fs) => {
            let mut out: Vec<pb::Filter> = Vec::new();
            let mut i: usize = 0;
            while i < fs.len()
                invariant
                    *filter == Filter::Or(*fs),
                    i <= fs@.len(),
                    out@.len() == i,
                    forall|j: int| 0 <= j < i ==> filter_encodes(out@[j], #[trigger] fs@[j]),
                decreases fs.len() - i,
            {
                proof {
                    assert(decreases_to!(*filter => filter->Or_0));
                    assert(decreases_to!(*fs => fs@[i as int]));
                }
                let w = filter_to_pb(&fs[i]);
                out.push(w);
                proof {
                    assert(out@[i as int] == w);
                }
                i = i + 1;
            }
            pb::FilterKind::Or(pb::FilterList { filters: out })
        },
        Filter::Not(inner) => pb::FilterKind::Not(Box::new(filter_to_pb(inner))),
    };
    pb::Filter { kind: Some(kind) }
}

/// Extracts the field name and operand of a wire comparison:
/// `MissingField("comparison.value")` when the operand is absent,
/// `MissingField("value.kind")` when it has no `kind`.
pub fn comparison_from_pb(c: pb::Comparison) -> (r: Result<(String, Value), ConversionError>)
    ensures
        match r {
            Ok((n, v)) => comparison_decode_error(c) is None && comparison_encodes(c, n, v),
            Err(e) => comparison_decode_error(c) == Some(e),
        },
{
    let pb::Comparison { field, value } = c;
    match value {
        None => Err(ConversionError::MissingField("comparison.value")),
        Some(w) => {
            let ghost wv = w;
            match value_from_pb(w) {
                Ok(v) => {
                    proof {
                        lemma_value_pb_round_trip(wv);
                    }
                    Ok((field, v))
                },
                Err(e) => Err(e),
            }
        },
    }
}

/// Decodes the sub-filters of the wire `And` or `Or` filter `parent`, in
/// order, stopping at the first error.
fn filters_from_pb(Ghost(parent): Ghost<pb::Filter>, filters: Vec<pb::Filter>) -> (r: Result<Vec<Filter>, ConversionError>)
    requires
        filters@ == sub_filters(parent),
        parent.kind matches Some(k) && (k is And || k is Or),
    ensures
        match r {
            Ok(gs) => list_decode_error(parent, 0) is None && gs@.len() == filters@.len()
                && forall|j: int| 0 <= j < gs@.len() ==> filter_encodes(filters@[j], #[trigger] gs@[j]),
            Err(e) => list_decode_error(parent, 0) == Some(e),
        },
    decreases parent, 0nat, 0nat,
{
    broadcast use vstd::std_specs::vec::axiom_spec_into_iter;
    let ghost input = filters@;
    let mut out: Vec<Filter> = Vec::new();
    for g in it: filters.into_iter()
        invariant
            it.seq() == input,
            input == sub_filters(parent),
            out@.len() == it.index(),
            forall|j: int| 0 <= j < it.index() ==> filter_encodes(input[j], #[trigger] out@[j]),
            list_decode_error(parent, 0) == list_decode_error(parent, it.index()),
    {
        let ghost i = it.index();
        assert(g == input[i]);
        proof {
            lemma_sub_filter_decreases(parent, i);
        }
        match filter_from_pb(g) {
            Ok(x) => {
                out.push(x);
                proof {
                    assert(out@[i] == x);
                }
            },
            Err(e) => {
                return Err(e);
            },
        }
    }
    Ok(out)
}

/// Converts a wire filter to the domain. A filter without `kind` gives
/// `MissingField("filter.kind")`; a comparison without operand
/// `MissingField("comparison.value")`; a containment without operand
/// `MissingField("contains.value")`; a value without `kind`
/// `MissingField("value.kind")`. The first error in pre-order is returned.
pub fn filter_from_pb(filter: pb::Filter) -> (r: Result<Filter, ConversionError>)
    ensures
        match r {
            Ok(g) => filter_decode_error(filter) is None && filter_encodes(filter, g),
            Err(e) => filter_decode_error(filter) == Some(e),
        },
    decreases filter, 1nat, 0nat,
{
    let ghost p = filter;
    match filter.kind {
        None => Err(ConversionError::MissingField("filter.kind")),
        Some(pb::FilterKind::Eq(c)) => match comparison_from_pb(c) {
            Ok((n, v)) => Ok(Filter::Eq(n, v)),
            Err(e) => Err(e),
        },
        Some(pb::FilterKind::Ne(c)) => match comparison_from_pb(c) {
            Ok((n, v)) => Ok(Filter::Ne(n, v)),
            Err(e) => Err(e),
        },
        Some(pb::FilterKind::Lt(c)) => match comparison_from_pb(c) {
            Ok((n, v)) => Ok(Filter::Lt(n, v)),
            Err(e) => Err(e),
        },
        Some(pb::FilterKind::Lte(c)) => match comparison_from_pb(c) {
            Ok((n, v)) => Ok(Filter::Lte(n, v)),
            Err(e) => Err(e),
        },
        Some(pb::FilterKind::Gt(c)) => match comparison_from_pb(c) {
            Ok((n, v)) => Ok(Filter::Gt(n, v)),
            Err(e) => Err(e),
        },
        Some(pb::FilterKind::Gte(c)) => match comparison_from_pb(c) {
            Ok((n, v)) => Ok(Filter::Gte(n, v)),
            Err(e) => Err(e),
        },
        Some(pb::FilterKind::In(inf)) => {
            let pb::InFilter { field, values } = inf;
            match values_from_pb(values) {
                Ok(vs) => Ok(Filter::In(field, vs)),
                Err(e) => Err(e),
            }
        },
        Some(pb::FilterKind::Contains(cf)) => {
            let pb::ContainsFilter { field, value } = cf;
            match value {
                None => Err(ConversionError::MissingField("contains.value")),
                Some(w) => {
                    let ghost wv = w;
                    match value_from_pb(w) {
                        Ok(v) => {
                            proof {
                                lemma_value_pb_round_trip(wv);
                            }
                            Ok(Filter::Contains(field, v))
                        },
                        Err(e) => Err(e),
                    }
                },
            }
        },
        Some(pb::FilterKind::Exists(n)) => Ok(Filter::Exists(n)),
        Some(pb::FilterKind::And(l)) => match filters_from_pb(Ghost(p), l.filters) {
            Ok(gs) => Ok(Filter::And(gs)),
            Err(e) => Err(e),
        },
        Some(pb::FilterKind::Or(l)) => match filters_from_pb(Ghost(p), l.filters) {
            Ok(gs) => Ok(Filter::Or(gs)),
            Err(e) => Err(e),
        },
        Some(pb::FilterKind::Not(b)) => {
            proof {
                assert(decreases_to!(p => p.kind));
                assert(decreases_to!(p.kind => p.kind->Some_0));
                assert(decreases_to!(p.kind->Some_0 => p.kind->Some_0->Not_0));
            }
            match filter_from_pb(*b) {
                Ok(x) => Ok(Filter::Not(Box::new(x))),
                Err(e) => Err(e),
            }
        },
    }
}

/// The wire form of a filter decodes without error.
proof fn lemma_encoded_decodes(p: pb::Filter, f: Filter)
    requires
        filter_encodes(p, f),
    ensures
        filter_decode_error(p) is None,
    decreases f, 1nat, 0nat,
{
    match f {
        Filter::In(n, vs) => {
            if let Some(pb::FilterKind::In(inf)) = p.kind {
                if some_value_unset(inf.values@) {
                    let i = choose|i: int| 0 <= i < inf.values@.len() && (#[trigger] inf.values@[i]).kind is None;
                    assert(inf.values@[i] == value_to_pb_spec(vs@[i]));
                }
            }
        },
        Filter::And(fs) => {
            lemma_encoded_list_decodes(p, f, 0);
        },
        Filter::Or(fs) => {
            lemma_encoded_list_decodes(p, f, 0);
        },
        Filter::Not(inner) => {
            if let Some(pb::FilterKind::Not(b)) = p.kind {
                lemma_encoded_decodes(*b, *inner);
            }
        },
        _ => {},
    }
}

/// The wire forms of the sub-filters of `f`, from position `i` on, decode
/// without error.
proof fn lemma_encoded_list_decodes(p: pb::Filter, f: Filter, i: int)
    requires
        filter_encodes(p, f),
        f is And || f is Or,
        0 <= i,
    ensures
        list_decode_error(p, i) is None,
    decreases f, 0nat, sub_filters(p).len() - i,
{
    let fs = if f is And { f->And_0 } else { f->Or_0 };
    assert(sub_filters(p).len() == fs@.len());
    if i < sub_filters(p).len() {
        assert(filter_encodes(sub_filters(p)[i], fs@[i]));
        if f is And {
            assert(decreases_to!(f => f->And_0));
        } else {
            assert(decreases_to!(f => f->Or_0));
        }
        assert(decreases_to!(fs => fs@[i]));
        lemma_encoded_decodes(sub_filters(p)[i], fs@[i]);
        lemma_encoded_list_decodes(p, f, i + 1);
    }
}

/// A wire filter is the wire form of at most one filter, up to the identity
/// of its strings and vectors.
proof fn lemma_encodes_unique(p: pb::Filter, a: Filter, b: Filter)
    requires
        filter_encodes(p, a),
        filter_encodes(p, b),
    ensures
        filter_same(a, b),
    decreases a,
{
    match a {
        Filter::Eq(n, v) => if let Filter::Eq(m, w) = b {
            lemma_value_round_trip(v);
            lemma_value_round_trip(w);
        },
        Filter::Ne(n, v) => if let Filter::Ne(m, w) = b {
            lemma_value_round_trip(v);
            lemma_value_round_trip(w);
        },
        Filter::Lt(n, v) => if let Filter::Lt(m, w) = b {
            lemma_value_round_trip(v);
            lemma_value_round_trip(w);
        },
        Filter::Lte(n, v) => if let Filter::Lte(m, w) = b {
            lemma_value_round_trip(v);
            lemma_value_round_trip(w);
        },
        Filter::Gt(n, v) => if let Filter::Gt(m, w) = b {
            lemma_value_round_trip(v);
            lemma_value_round_trip(w);
        },
        Filter::Gte(n, v) => if let Filter::Gte(m, w) = b {
            lemma_value_round_trip(v);
            lemma_value_round_trip(w);
        },
        Filter::In(n, vs) => if let Filter::In(m, ws) = b {
            lemma_values_to_pb_injective(vs@, ws@);
        },
        Filter::Contains(n, v) => if let Filter::Contains(m, w) = b {
            lemma_value_round_trip(v);
            lemma_value_round_trip(w);
        },
        Filter::Exists(n) => {},
        Filter::And(fs) => if let Filter::And(gs) = b {
            let l = sub_filters(p);
            assert forall|i: int| 0 <= i < fs@.len() implies filter_same(#[trigger] fs@[i], gs@[i]) by {
                assert(filter_encodes(l[i], fs@[i]));
                assert(filter_encodes(l[i], gs@[i]));
                lemma_encodes_unique(l[i], fs@[i], gs@[i]);
            }
        },
        Filter::Or(fs) => if let Filter::Or(gs) = b {
            let l = sub_filters(p);
            assert forall|i: int| 0 <= i < fs@.len() implies filter_same(#[trigger] fs@[i], gs@[i]) by {
                assert(filter_encodes(l[i], fs@[i]));
                assert(filter_encodes(l[i], gs@[i]));
                lemma_encodes_unique(l[i], fs@[i], gs@[i]);
            }
        },
        Filter::Not(x) => if let Filter::Not(y) = b {
            if let Some(pb::FilterKind::Not(w)) = p.kind {
                lemma_encodes_unique(*w, *x, *y);
            }
        },
    }
}

/// Filters of the same shape, names and operands match the same payloads.
pub proof fn lemma_same_filters_match_alike(a: Filter, b: Filter)
    requires
        filter_same(a, b),
    ensures
        forall|m: Map<Seq<char>, FieldView>| #[trigger] filter_matches(a, m) == filter_matches(b, m),
    decreases a,
{
    match a {
        Filter::And(fs) => if let Filter::And(gs) = b {
            assert forall|i: int, m: Map<Seq<char>, FieldView>| 0 <= i < fs@.len() implies #[trigger] filter_matches(fs@[i], m) == filter_matches(gs@[i], m) by {
                assert(filter_same(fs@[i], gs@[i]));
                lemma_same_filters_match_alike(fs@[i], gs@[i]);
            }
            lemma_conjunctions_match_alike(fs, gs);
        },
        Filter::Or(fs) => if let Filter::Or(gs) = b {
            assert forall|i: int, m: Map<Seq<char>, FieldView>| 0 <= i < fs@.len() implies #[trigger] filter_matches(fs@[i], m) == filter_matches(gs@[i], m) by {
                assert(filter_same(fs@[i], gs@[i]));
                lemma_same_filters_match_alike(fs@[i], gs@[i]);
            }
            assert forall|m: Map<Seq<char>, FieldView>| #[trigger] filter_matches(a, m) == filter_matches(b, m) by {
                assert(a->Or_0 == fs && b->Or_0 == gs);
                if filter_matches(a, m) {
                    let i = choose|i: int| 0 <= i < fs@.len() && filter_matches(#[trigger] fs@[i], m);
                    assert(filter_matches(gs@[i], m));
                    assert(b->Or_0@[i] == gs@[i]);
                } else {
                    assert forall|i: int| 0 <= i < gs@.len() implies !filter_matches(#[trigger] gs@[i], m) by {
                        assert(!filter_matches(fs@[i], m));
                    }
                }
            }
        },
        Filter::Not(x) => if let Filter::Not(y) = b {
            lemma_same_filters_match_alike(*x, *y);
            assert forall|m: Map<Seq<char>, FieldView>| #[trigger] filter_matches(a, m) == filter_matches(b, m) by {
                assert(filter_matches(a, m) == !filter_matches(*a->Not_0, m));
                assert(filter_matches(b, m) == !filter_matches(*b->Not_0, m));
                assert(filter_matches(*x, m) == filter_matches(*y, m));
            }
        },
        _ => {
            assert forall|m: Map<Seq<char>, FieldView>| #[trigger] filter_matches(a, m) == filter_matches(b, m) by {
                match a {
                    Filter::Eq(n, v) => if let Filter::Eq(k, w) = b { assert(n@ == k@ && v == w); },
                    Filter::Ne(n, v) => if let Filter::Ne(k, w) = b { assert(n@ == k@ && v == w); },
                    Filter::Lt(n, v) => if let Filter::Lt(k, w) = b { assert(n@ == k@ && v == w); },
                    Filter::Lte(n, v) => if let Filter::Lte(k, w) = b { assert(n@ == k@ && v == w); },
                    Filter::Gt(n, v) => if let Filter::Gt(k, w) = b { assert(n@ == k@ && v == w); },
                    Filter::Gte(n, v) => if let Filter::Gte(k, w) = b { assert(n@ == k@ && v == w); },
                    Filter::In(n, vs) => if let Filter::In(k, ws) = b { assert(n@ == k@ && vs@ == ws@); },
                    Filter::Contains(n, v) => if let Filter::Contains(k, w) = b { assert(n@ == k@ && v == w); },
                    Filter::Exists(n) => if let Filter::Exists(k) = b { assert(n@ == k@); },
                    _ => {},
                }
            }
        },
    }
}

/// Conjunctions of sub-filters that match alike, position by position,
/// match alike.
proof fn lemma_conjunctions_match_alike(fs: Vec<Filter>, gs: Vec<Filter>)
    requires
        fs@.len() == gs@.len(),
        forall|i: int, m: Map<Seq<char>, FieldView>| 0 <= i < fs@.len() ==> #[trigger] filter_matches(fs@[i], m) == filter_matches(gs@[i], m),
    ensures
        forall|m: Map<Seq<char>, FieldView>| #[trigger] filter_matches(Filter::And(fs), m) == filter_matches(Filter::And(gs), m),
{
    assert forall|m: Map<Seq<char>, FieldView>| #[trigger] filter_matches(Filter::And(fs), m) == filter_matches(Filter::And(gs), m) by {
        let a = Filter::And(fs);
        let b = Filter::And(gs);
        assert(filter_matches(a, m) == (forall|j: int| 0 <= j < a->And_0@.len() ==> filter_matches(#[trigger] a->And_0@[j], m)));
        assert(filter_matches(b, m) == (forall|j: int| 0 <= j < b->And_0@.len() ==> filter_matches(#[trigger] b->And_0@[j], m)));
        if filter_matches(a, m) {
            assert forall|j: int| 0 <= j < gs@.len() implies filter_matches(#[trigger] gs@[j], m) by {
                assert(a->And_0@[j] == fs@[j]);
                assert(filter_matches(fs@[j], m));
            }
        } else {
            let j = choose|j: int| 0 <= j < a->And_0@.len() && !filter_matches(#[trigger] a->And_0@[j], m);
            assert(a->And_0@[j] == fs@[j]);
            assert(!filter_matches(gs@[j], m));
            assert(b->And_0@[j] == gs@[j]);
        }
    }
}

/// Round trip through the wire: the wire form of a filter decodes without
/// error, and what it decodes to has the same shape, field names and
/// operands, and so matches exactly the payloads the filter matches.
pub proof fn lemma_filter_round_trip(f: Filter, w: pb::Filter, g: Filter)
    requires
        filter_encodes(w, f),
    ensures
        filter_decode_error(w) is None,
        filter_encodes(w, g) ==> filter_same(g, f),
        filter_encodes(w, g) ==> forall|m: Map<Seq<char>, FieldView>| #[trigger] filter_matches(g, m) == filter_matches(f, m),
{
    lemma_encoded_decodes(w, f);
    if filter_encodes(w, g) {
        lemma_encodes_unique(w, g, f);
        lemma_same_filters_match_alike(g, f);
    }
}

} // verus!
