//! The payload filter AST and its compilation into an evaluable predicate.
//!
//! Evaluation is total: a comparison against an absent field, a type
//! mismatch or an unorderable pair is `false`, never an error. Absence is
//! tested only through `Exists` (negate it for "is null").

use vstd::prelude::*;
use crate::payload::Payload;
use crate::value::{FieldValue, FieldView, Value, value_equal, value_order, lemma_value_order_range};

verus! {

/// A payload filter expression.
#[derive(Debug, PartialEq)]
pub enum Filter {
    /// The field is a scalar equal to the value (same variant: an integer
    /// field is not matched by an equal float).
    Eq(String, Value),
    /// The field is a present scalar not equal to the value.
    Ne(String, Value),
    /// The field is a scalar ordered strictly before the value.
    Lt(String, Value),
    /// The field is a scalar ordered before or equal to the value.
    Lte(String, Value),
    /// The field is a scalar ordered strictly after the value.
    Gt(String, Value),
    /// The field is a scalar ordered after or equal to the value.
    Gte(String, Value),
    /// The field is a scalar equal to one of the values.
    In(String, Vec<Value>),
    /// The field is an array holding a value equal to this one.
    Contains(String, Value),
    /// The field is present, scalar or array.
    Exists(String),
    /// Every sub-filter holds; an empty conjunction holds.
    And(Vec<Filter>),
    /// Some sub-filter holds; an empty disjunction does not.
    Or(Vec<Filter>),
    /// The sub-filter does not hold.
    Not(Box<Filter>),
}

/// The scalar a payload holds under `name`: `None` when absent or an array.
pub open spec fn scalar_at(p: Map<Seq<char>, FieldView>, name: Seq<char>) -> Option<Value> {
    if p.contains_key(name) {
        match p[name] {
            FieldView::Scalar(v) => Some(v),
            FieldView::Array(_) => None,
        }
    } else {
        None
    }
}

/// Whether the scalar under `name` orders against `value` as `expected`.
pub open spec fn ordered_is(p: Map<Seq<char>, FieldView>, name: Seq<char>, value: Value, expected: i8) -> bool {
    match scalar_at(p, name) {
        Some(s) => value_order(s, value) == Some(expected),
        None => false,
    }
}

/// Whether a sequence holds a value equal to `value`.
pub open spec fn holds_equal(values: Seq<Value>, value: Value) -> bool {
    exists|i: int| 0 <= i < values.len() && #[trigger] value_equal(values[i], value)
}

/// Whether the fields of a payload satisfy a filter.
pub open spec fn filter_matches(f: Filter, p: Map<Seq<char>, FieldView>) -> bool
    decreases f,
{
    match f {
        Filter::Eq(name, value) => match scalar_at(p, name@) {
            Some(s) => value_equal(s, value),
            None => false,
        },
        Filter::Ne(name, value) => match scalar_at(p, name@) {
            Some(s) => !value_equal(s, value),
            None => false,
        },
        Filter::Lt(name, value) => ordered_is(p, name@, value, -1i8),
        Filter::Lte(name, value) => ordered_is(p, name@, value, -1i8) || ordered_is(p, name@, value, 0i8),
        Filter::Gt(name, value) => ordered_is(p, name@, value, 1i8),
        Filter::Gte(name, value) => ordered_is(p, name@, value, 1i8) || ordered_is(p, name@, value, 0i8),
        Filter::In(name, values) => match scalar_at(p, name@) {
            Some(s) => holds_equal(values@, s),
            None => false,
        },
        Filter::Contains(name, value) => p.contains_key(name@) && match p[name@] {
            FieldView::Array(vs) => holds_equal(vs, value),
            FieldView::Scalar(_) => false,
        },
        Filter::Exists(name) => p.contains_key(name@),
        Filter::And(fs) => forall|i: int| 0 <= i < fs@.len() ==> filter_matches(#[trigger] fs@[i], p),
        Filter::Or(fs) => exists|i: int| 0 <= i < fs@.len() && filter_matches(#[trigger] fs@[i], p),
        Filter::Not(inner) => !filter_matches(*inner, p),
    }
}

/// The scalar of `payload` under `name`.
fn scalar<'a>(payload: &'a Payload, name: &str) -> (r: Option<&'a Value>)
    ensures
        match r {
            Some(v) => scalar_at(payload@, name@) == Some(*v),
            None => scalar_at(payload@, name@) is None,
        },
{
    match payload.get(name) {
        Some(FieldValue::Scalar(value)) => Some(value),
        _ => None,
    }
}

/// Whether the scalar of `payload` under `name` orders against `value` as
/// `expected`.
fn ordered_is_exec(payload: &Payload, name: &str, value: &Value, expected: i8) -> (r: bool)
    ensures
        r == ordered_is(payload@, name@, *value, expected),
{
    match scalar(payload, name) {
        Some(s) => match s.ordered(value) {
            Some(o) => {
                let got: i8 = match o {
                    std::cmp::Ordering::Less => -1,
                    std::cmp::Ordering::Equal => 0,
                    std::cmp::Ordering::Greater => 1,
                };
                proof {
                    lemma_value_order_range(*s, *value);
                }
                got == expected
            },
            None => false,
        },
        None => false,
    }
}

/// Whether `values` holds a value equal to `value`.
fn any_equal(values: &Vec<Value>, value: &Value) -> (r: bool)
    ensures
        r == holds_equal(values@, *value),
{
    let mut i: usize = 0;
    while i < values.len()
        invariant
            i <= values@.len(),
            forall|j: int| 0 <= j < i ==> !#[trigger] value_equal(values@[j], *value),
        decreases values.len() - i,
    {
        if values[i].equals(value) {
            return true;
        }
        i = i + 1;
    }
    false
}

/// Evaluates a filter against a payload.
pub fn evaluate(filter: &Filter, payload: &Payload) -> (r: bool)
    ensures
        r == filter_matches(*filter, payload@),
    decreases filter,
{
    match filter {
        Filter::Eq(name, value) => match scalar(payload, name.as_str()) {
            Some(s) => s.equals(value),
            None => false,
        },
        Filter::Ne(name, value) => match scalar(payload, name.as_str()) {
            Some(s) => !s.equals(value),
            None => false,
        },
        Filter::Lt(name, value) => ordered_is_exec(payload, name.as_str(), value, -1i8),
        Filter::Lte(name, value) => ordered_is_exec(payload, name.as_str(), value, -1i8)
            || ordered_is_exec(payload, name.as_str(), value, 0i8),
        Filter::Gt(name, value) => ordered_is_exec(payload, name.as_str(), value, 1i8),
        Filter::Gte(name, value) => ordered_is_exec(payload, name.as_str(), value, 1i8)
            || ordered_is_exec(payload, name.as_str(), value, 0i8),
        Filter::In(name, values) => match scalar(payload, name.as_str()) {
            Some(s) => {
                let mut i: usize = 0;
                while i < values.len()
                    invariant
                        i <= values@.len(),
                        *filter == Filter::In(*name, *values),
                        scalar_at(payload@, name@) == Some(*s),
                        forall|j: int| 0 <= j < i ==> !#[trigger] value_equal(values@[j], *s),
                    decreases values.len() - i,
                {
                    if values[i].equals(s) {
                        return true;
                    }
                    i = i + 1;
                }
                false
            },
            None => false,
        },
        Filter::Contains(name, value) => match payload.get(name.as_str()) {
            Some(FieldValue::Array(values)) => any_equal(values, value),
            _ => false,
        },
        Filter::Exists(name) => payload.get(name.as_str()).is_some(),
        Filter::And(filters) => {
            let mut i: usize = 0;
            while i < filters.len()
                invariant
                    i <= filters@.len(),
                    *filter == Filter::And(*filters),
                    forall|j: int| 0 <= j < i ==> filter_matches(#[trigger] filters@[j], payload@),
                decreases filters.len() - i,
            {
                proof {
                    assert(decreases_to!(*filter => filter->And_0));
                    assert(decreases_to!(*filters => filters@[i as int]));
                }
                if !evaluate(&filters[i], payload) {
                    return false;
                }
                i = i + 1;
            }
            true
        },
        Filter::Or(filters) => {
            let mut i: usize = 0;
            while i < filters.len()
                invariant
                    i <= filters@.len(),
                    *filter == Filter::Or(*filters),
                    forall|j: int| 0 <= j < i ==> !filter_matches(#[trigger] filters@[j], payload@),
                decreases filters.len() - i,
            {
                proof {
                    assert(decreases_to!(*filter => filter->Or_0));
                    assert(decreases_to!(*filters => filters@[i as int]));
                }
                if evaluate(&filters[i], payload) {
                    return true;
                }
                i = i + 1;
            }
            false
        },
        Filter::Not(inner) => !evaluate(inner, payload),
    }
}

/// A copy of a filter: every payload satisfies the copy exactly when it
/// satisfies the filter copied.
fn copy_filter(f: &Filter) -> (r: Filter)
    ensures
        forall|p: Map<Seq<char>, FieldView>| #[trigger] filter_matches(r, p) == filter_matches(*f, p),
    decreases f, 1nat,
{
    match f {
        Filter::Eq(n, v) => Filter::Eq(n.clone(), v.clone()),
        Filter::Ne(n, v) => Filter::Ne(n.clone(), v.clone()),
        Filter::Lt(n, v) => Filter::Lt(n.clone(), v.clone()),
        Filter::Lte(n, v) => Filter::Lte(n.clone(), v.clone()),
        Filter::Gt(n, v) => Filter::Gt(n.clone(), v.clone()),
        Filter::Gte(n, v) => Filter::Gte(n.clone(), v.clone()),
        Filter::In(n, vs) => {
            let c = vs.clone();
            proof {
                assert forall|i: int| 0 <= i < vs@.len() implies c@[i] == vs@[i] by {
                    assert(cloned::<Value>(vs@[i], c@[i]));
                }
                assert(c@ =~= vs@);
            }
            Filter::In(n.clone(), c)
        },
        Filter::Contains(n, v) => Filter::Contains(n.clone(), v.clone()),
        Filter::Exists(n) => Filter::Exists(n.clone()),
        Filter::And(fs) => {
            let gs = copy_all(f, fs);
            let r = Filter::And(gs);
            proof {
                assert forall|p: Map<Seq<char>, FieldView>| #[trigger] filter_matches(r, p) == filter_matches(*f, p) by {
                    if filter_matches(*f, p) {
                        assert forall|i: int| 0 <= i < gs@.len() implies filter_matches(#[trigger] gs@[i], p) by {
                            assert(filter_matches(fs@[i], p));
                        }
                    } else {
                        let i = choose|i: int| 0 <= i < fs@.len() && !filter_matches(#[trigger] fs@[i], p);
                        assert(!filter_matches(gs@[i], p));
                        assert(r->And_0@[i] == gs@[i]);
                    }
                }
            }
            r
        },
        Filter::Or(fs) => {
            let gs = copy_all(f, fs);
            let r = Filter::Or(gs);
            proof {
                assert forall|p: Map<Seq<char>, FieldView>| #[trigger] filter_matches(r, p) == filter_matches(*f, p) by {
                    assert(r->Or_0 == gs);
                    assert(filter_matches(r, p) == (exists|j: int| 0 <= j < r->Or_0@.len() && filter_matches(#[trigger] r->Or_0@[j], p)));
                    if filter_matches(*f, p) {
                        let i = choose|i: int| 0 <= i < fs@.len() && filter_matches(#[trigger] fs@[i], p);
                        assert(filter_matches(gs@[i], p));
                        assert(r->Or_0@[i] == gs@[i]);
                        assert(filter_matches(r, p));
                    } else {
                        assert forall|j: int| 0 <= j < r->Or_0@.len() implies !filter_matches(#[trigger] r->Or_0@[j], p) by {
                            assert(r->Or_0@[j] == gs@[j]);
                            assert(!filter_matches(fs@[j], p));
                        }
                        assert(!filter_matches(r, p));
                    }
                }
            }
            r
        },
        Filter::Not(inner) => {
            let c = copy_filter(inner);
            let r = Filter::Not(Box::new(c));
            proof {
                assert forall|p: Map<Seq<char>, FieldView>| #[trigger] filter_matches(r, p) == filter_matches(*f, p) by {
                    assert(filter_matches(c, p) == filter_matches(**inner, p));
                }
            }
            r
        },
    }
}

/// Copies of the sub-filters of `parent`, one for one.
fn copy_all(parent: &Filter, fs: &Vec<Filter>) -> (r: Vec<Filter>)
    requires
        *parent == Filter::And(*fs) || *parent == Filter::Or(*fs),
    ensures
        r@.len() == fs@.len(),
        forall|i: int, p: Map<Seq<char>, FieldView>| 0 <= i < fs@.len() ==> #[trigger] filter_matches(r@[i], p) == filter_matches(fs@[i], p),
    decreases parent, 0nat,
{
    let mut out: Vec<Filter> = Vec::new();
    let mut i: usize = 0;
    while i < fs.len()
        invariant
            i <= fs@.len(),
            out@.len() == i,
            *parent == Filter::And(*fs) || *parent == Filter::Or(*fs),
            forall|j: int, p: Map<Seq<char>, FieldView>| 0 <= j < i ==> #[trigger] filter_matches(out@[j], p) == filter_matches(fs@[j], p),
        decreases fs.len() - i,
    {
        proof {
            if *parent is And {
                assert(decreases_to!(*parent => parent->And_0));
            } else {
                assert(decreases_to!(*parent => parent->Or_0));
            }
            assert(decreases_to!(*fs => fs@[i as int]));
        }
        let c = copy_filter(&fs[i]);
        out.push(c);
        proof {
            assert(out@[i as int] == c);
        }
        i = i + 1;
    }
    out
}

impl Clone for Filter {
    fn clone(&self) -> (r: Filter)
        ensures
            forall|p: Map<Seq<char>, FieldView>| #[trigger] filter_matches(r, p) == filter_matches(*self, p),
    {
        copy_filter(self)
    }
}

/// A compiled filter, ready to test against payloads.
pub struct CompiledFilter {
    root: Filter,
}

impl CompiledFilter {
    /// Whether a payload with these fields satisfies the filter.
    pub closed spec fn accepts(&self, p: Map<Seq<char>, FieldView>) -> bool {
        filter_matches(self.root, p)
    }

    /// Returns whether `payload` satisfies the filter.
    pub fn matches(&self, payload: &Payload) -> (r: bool)
        ensures
            r == self.accepts(payload@),
    {
        evaluate(&self.root, payload)
    }
}

impl Filter {
    /// Compiles this filter into an evaluable form that accepts exactly the
    /// payloads this filter matches.
    pub fn compile(&self) -> (r: CompiledFilter)
        ensures
            forall|p: Map<Seq<char>, FieldView>| #[trigger] r.accepts(p) == filter_matches(*self, p),
    {
        CompiledFilter { root: copy_filter(self) }
    }
}

/// The range filters read the field's scalar against the value: `Lt` holds
/// exactly when the scalar orders strictly before the value and `Gt`
/// exactly when strictly after; `Lte` is `Lt` or an equal order, `Gte` is
/// `Gt` or an equal order. So a field that orders equal to the value
/// matches `Lte` and `Gte` and neither strict filter, `Lt` and `Gte` never
/// both hold, nor `Gt` and `Lte`, and a field that is absent, an array or
/// unorderable against the value matches none of the four.
pub proof fn law_range_filters(p: Map<Seq<char>, FieldView>, name: String, value: Value)
    ensures
        filter_matches(Filter::Lt(name, value), p) == (scalar_at(p, name@) matches Some(s) && value_order(s, value) == Some(-1i8)),
        filter_matches(Filter::Gt(name, value), p) == (scalar_at(p, name@) matches Some(s) && value_order(s, value) == Some(1i8)),
        filter_matches(Filter::Lte(name, value), p) == (filter_matches(Filter::Lt(name, value), p)
            || (scalar_at(p, name@) matches Some(s) && value_order(s, value) == Some(0i8))),
        filter_matches(Filter::Gte(name, value), p) == (filter_matches(Filter::Gt(name, value), p)
            || (scalar_at(p, name@) matches Some(s) && value_order(s, value) == Some(0i8))),
        (scalar_at(p, name@) matches Some(s) && value_order(s, value) == Some(0i8)) ==> {
            &&& !filter_matches(Filter::Lt(name, value), p)
            &&& !filter_matches(Filter::Gt(name, value), p)
            &&& filter_matches(Filter::Lte(name, value), p)
            &&& filter_matches(Filter::Gte(name, value), p)
        },
        !(filter_matches(Filter::Lt(name, value), p) && filter_matches(Filter::Gte(name, value), p)),
        !(filter_matches(Filter::Gt(name, value), p) && filter_matches(Filter::Lte(name, value), p)),
        (scalar_at(p, name@) matches Some(s) && value_order(s, value) is Some) ==>
            filter_matches(Filter::Lte(name, value), p) || filter_matches(Filter::Gt(name, value), p),
        !(scalar_at(p, name@) matches Some(s) && value_order(s, value) is Some) ==> {
            &&& !filter_matches(Filter::Lt(name, value), p)
            &&& !filter_matches(Filter::Lte(name, value), p)
            &&& !filter_matches(Filter::Gt(name, value), p)
            &&& !filter_matches(Filter::Gte(name, value), p)
        },
{
    if let Some(s) = scalar_at(p, name@) {
        lemma_value_order_range(s, value);
    }
}

} // verus!
