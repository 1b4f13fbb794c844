//! Typed scalar values and multi-valued fields carried by a payload.
//!
//! A `Float` holds the IEEE-754 binary64 bit pattern of the number; it
//! compares and equals as the number it encodes.

use vstd::prelude::*;
use std::cmp::Ordering;
use crate::float_bits::{f64_is_nan, f64_negative, lemma_int_float_order_by_sign, float_equal, float_order, floats_equal, int_float_order, order_floats, order_int_float};
use crate::text::chars_of;

verus! {

/// A single typed scalar held by a payload field.
#[derive(Debug)]
pub enum Value {
    /// UTF-8 text.
    Text(String),
    /// Signed 64-bit integer.
    Integer(i64),
    /// 64-bit floating point, as its IEEE-754 bit pattern.
    Float(u64),
    /// Boolean.
    Bool(bool),
}

/// A payload field: a single scalar, or an array of scalars (tags).
#[derive(Debug)]
pub enum FieldValue {
    /// One scalar value.
    Scalar(Value),
    /// Several scalar values.
    Array(Vec<Value>),
}

/// What a field holds, with an array taken as the sequence of its values.
pub enum FieldView {
    /// One scalar value.
    Scalar(Value),
    /// Several scalar values, in order.
    Array(Seq<Value>),
}

impl View for FieldValue {
    type V = FieldView;

    open spec fn view(&self) -> FieldView {
        match self {
            FieldValue::Scalar(v) => FieldView::Scalar(*v),
            FieldValue::Array(vs) => FieldView::Array(vs@),
        }
    }
}

impl Clone for Value {
    fn clone(&self) -> (r: Value)
        ensures
            r == *self,
    {
        match self {
            Value::Text(s) => Value::Text(s.clone()),
            Value::Integer(i) => Value::Integer(*i),
            Value::Float(b) => Value::Float(*b),
            Value::Bool(b) => Value::Bool(*b),
        }
    }
}

impl Clone for FieldValue {
    fn clone(&self) -> (r: FieldValue)
        ensures
            r@ == self@,
    {
        match self {
            FieldValue::Scalar(v) => FieldValue::Scalar(v.clone()),
            FieldValue::Array(vs) => {
                let c = vs.clone();
                proof {
                    assert forall|i: int| 0 <= i < vs@.len() implies c@[i] == vs@[i] by {
                        assert(cloned::<Value>(vs@[i], c@[i]));
                    }
                    assert(c@ =~= vs@);
                }
                FieldValue::Array(c)
            },
        }
    }
}

/// Equality of values: same variant and same content, floats compared as
/// numbers (so a NaN equals nothing, and the two zeros are equal). An
/// `Integer` never equals a `Float`.
pub open spec fn value_equal(a: Value, b: Value) -> bool {
    match (a, b) {
        (Value::Text(x), Value::Text(y)) => x@ == y@,
        (Value::Integer(x), Value::Integer(y)) => x == y,
        (Value::Float(x), Value::Float(y)) => float_equal(x, y),
        (Value::Bool(x), Value::Bool(y)) => x == y,
        _ => false,
    }
}

/// Equality of multi-valued fields, element by element.
pub open spec fn values_equal(a: Seq<Value>, b: Seq<Value>) -> bool {
    &&& a.len() == b.len()
    &&& forall|i: int| 0 <= i < a.len() ==> #[trigger] value_equal(a[i], b[i])
}

/// Equality of fields: same variant, equal contents.
pub open spec fn field_value_equal(a: FieldValue, b: FieldValue) -> bool {
    match (a, b) {
        (FieldValue::Scalar(x), FieldValue::Scalar(y)) => value_equal(x, y),
        (FieldValue::Array(x), FieldValue::Array(y)) => values_equal(x@, y@),
        _ => false,
    }
}

/// Lexicographic order of two texts by code point: -1, 0 or 1. This is
/// the byte order of their UTF-8 encodings.
pub open spec fn text_order(a: Seq<char>, b: Seq<char>) -> i8
    decreases a.len(),
{
    if a.len() == 0 && b.len() == 0 {
        0i8
    } else if a.len() == 0 {
        -1i8
    } else if b.len() == 0 {
        1i8
    } else if a[0] < b[0] {
        -1i8
    } else if a[0] > b[0] {
        1i8
    } else {
        text_order(a.drop_first(), b.drop_first())
    }
}

/// The order of two integers as -1, 0 or 1.
pub open spec fn integer_order(a: i64, b: i64) -> i8 {
    if a < b { -1i8 } else if a == b { 0i8 } else { 1i8 }
}

/// How two values order for the range filters, as -1, 0 or 1: integers
/// exactly, texts lexicographically, and a mixed integer/float pair after
/// converting the integer to binary64. `None` for any other pairing (type
/// mismatch, booleans) and whenever a NaN is involved.
pub open spec fn value_order(a: Value, b: Value) -> Option<i8> {
    match (a, b) {
        (Value::Integer(x), Value::Integer(y)) => Some(integer_order(x, y)),
        (Value::Text(x), Value::Text(y)) => Some(text_order(x@, y@)),
        (Value::Integer(x), Value::Float(y)) => int_float_order(x as int, y),
        (Value::Float(x), Value::Integer(y)) => match int_float_order(y as int, x) {
            Some(s) => Some(negate_order(s)),
            None => None,
        },
        (Value::Float(x), Value::Float(y)) => float_order(x, y),
        _ => None,
    }
}

/// The reverse of an order.
pub open spec fn negate_order(s: i8) -> i8 {
    if s < 0 { 1i8 } else if s == 0 { 0i8 } else { -1i8 }
}

/// The `Ordering` for -1, 0 or 1.
pub open spec fn to_ordering(s: i8) -> Ordering {
    if s < 0 { Ordering::Less } else if s == 0 { Ordering::Equal } else { Ordering::Greater }
}

fn ordering_of(s: i8) -> (r: Ordering)
    ensures
        r == to_ordering(s),
{
    if s < 0 { Ordering::Less } else if s == 0 { Ordering::Equal } else { Ordering::Greater }
}

/// Orders two texts lexicographically by code point.
pub fn order_texts(a: &str, b: &str) -> (r: i8)
    ensures
        r == text_order(a@, b@),
{
    let x = chars_of(a);
    let y = chars_of(b);
    let mut i: usize = 0;
    proof {
        assert(a@.skip(0) =~= a@);
        assert(b@.skip(0) =~= b@);
    }
    while i < x.len() && i < y.len() && x[i] == y[i]
        invariant
            i <= x@.len(),
            i <= y@.len(),
            x@ == a@,
            y@ == b@,
            text_order(a@, b@) == text_order(a@.skip(i as int), b@.skip(i as int)),
        decreases x.len() - i,
    {
        proof {
            assert(a@.skip(i as int).drop_first() =~= a@.skip(i + 1));
            assert(b@.skip(i as int).drop_first() =~= b@.skip(i + 1));
        }
        i = i + 1;
    }
    if i == x.len() && i == y.len() {
        0
    } else if i == x.len() {
        -1
    } else if i == y.len() {
        1
    } else if x[i] < y[i] {
        -1
    } else {
        1
    }
}

impl Value {
    /// Equality of values: same variant and same content, floats compared
    /// as numbers.
    pub fn equals(&self, other: &Value) -> (r: bool)
        ensures
            r == value_equal(*self, *other),
    {
        match (self, other) {
            (Value::Text(x), Value::Text(y)) => {
                let o = order_texts(x.as_str(), y.as_str());
                proof {
                    lemma_text_order_zero(x@, y@);
                }
                o == 0
            },
            (Value::Integer(x), Value::Integer(y)) => *x == *y,
            (Value::Float(x), Value::Float(y)) => floats_equal(*x, *y),
            (Value::Bool(x), Value::Bool(y)) => *x == *y,
            _ => false,
        }
    }

    /// Whether this is a numeric value (`Integer` or `Float`).
    pub fn is_numeric(&self) -> (r: bool)
        ensures
            r == (*self is Integer || *self is Float),
    {
        match self {
            Value::Integer(_) => true,
            Value::Float(_) => true,
            _ => false,
        }
    }

    /// Ordering for filter comparisons: integers compare exactly, mixed
    /// numeric pairs compare through binary64, texts lexicographically. Any
    /// other pairing (type mismatch, booleans, NaN) yields `None`, which
    /// callers treat as "does not match".
    pub fn ordered(&self, other: &Value) -> (r: Option<Ordering>)
        ensures
            r == (match value_order(*self, *other) {
                Some(s) => Some(to_ordering(s)),
                None => None,
            }),
    {
        let s: Option<i8> = match (self, other) {
            (Value::Integer(a), Value::Integer(b)) => Some(if *a < *b { -1i8 } else if *a == *b { 0i8 } else { 1i8 }),
            (Value::Text(a), Value::Text(b)) => Some(order_texts(a.as_str(), b.as_str())),
            (Value::Integer(a), Value::Float(b)) => order_int_float(*a, *b),
            (Value::Float(a), Value::Integer(b)) => match order_int_float(*b, *a) {
                Some(s) => Some(if s < 0 { 1i8 } else if s == 0 { 0i8 } else { -1i8 }),
                None => None,
            },
            (Value::Float(a), Value::Float(b)) => order_floats(*a, *b),
            _ => None,
        };
        match s {
            Some(s) => Some(ordering_of(s)),
            None => None,
        }
    }
}

impl FieldValue {
    /// Equality of fields: same variant, equal contents.
    pub fn equals(&self, other: &FieldValue) -> (r: bool)
        ensures
            r == field_value_equal(*self, *other),
    {
        match (self, other) {
            (FieldValue::Scalar(x), FieldValue::Scalar(y)) => x.equals(y),
            (FieldValue::Array(x), FieldValue::Array(y)) => {
                if x.len() != y.len() {
                    return false;
                }
                let mut i: usize = 0;
                while i < x.len()
                    invariant
                        i <= x@.len(),
                        x@.len() == y@.len(),
                        field_value_equal(*self, *other) == values_equal(x@, y@),
                        forall|j: int| 0 <= j < i ==> #[trigger] value_equal(x@[j], y@[j]),
                    decreases x.len() - i,
                {
                    if !x[i].equals(&y[i]) {
                        assert(!value_equal(x@[i as int], y@[i as int]));
                        assert(!values_equal(x@, y@));
                        return false;
                    }
                    i = i + 1;
                }
                true
            },
            _ => false,
        }
    }
}

impl PartialEq for Value {
    fn eq(&self, other: &Value) -> (r: bool) {
        self.equals(other)
    }
}

impl vstd::std_specs::cmp::PartialEqSpecImpl for Value {
    open spec fn obeys_eq_spec() -> bool {
        true
    }

    open spec fn eq_spec(&self, other: &Value) -> bool {
        value_equal(*self, *other)
    }
}

impl PartialEq for FieldValue {
    fn eq(&self, other: &FieldValue) -> (r: bool) {
        self.equals(other)
    }
}

impl vstd::std_specs::cmp::PartialEqSpecImpl for FieldValue {
    open spec fn obeys_eq_spec() -> bool {
        true
    }

    open spec fn eq_spec(&self, other: &FieldValue) -> bool {
        field_value_equal(*self, *other)
    }
}

/// An order between values only takes the values -1, 0 and 1.
pub proof fn lemma_value_order_range(a: Value, b: Value)
    ensures
        value_order(a, b) matches Some(s) ==> (s == -1 || s == 0 || s == 1),
{
    match (a, b) {
        (Value::Text(x), Value::Text(y)) => lemma_text_order_range(x@, y@),
        _ => {},
    }
}

/// The value order is antisymmetric: comparing `b` with `a` gives the
/// reverse of comparing `a` with `b`, and a pair that does not order does
/// not order either way round. In particular a float against an integer is
/// the reverse of that integer against that float.
pub proof fn law_value_order_antisymmetric(a: Value, b: Value)
    ensures
        value_order(b, a) == (match value_order(a, b) {
            Some(s) => Some((-s) as i8),
            None => None,
        }),
        (value_order(a, b) == Some(-1i8)) == (value_order(b, a) == Some(1i8)),
        (value_order(a, b) == Some(0i8)) == (value_order(b, a) == Some(0i8)),
        (value_order(a, b) is None) == (value_order(b, a) is None),
{
    lemma_value_order_range(a, b);
    lemma_value_order_range(b, a);
    match (a, b) {
        (Value::Text(x), Value::Text(y)) => lemma_text_order_reverse(x@, y@),
        _ => {},
    }
}

/// An integer and a float of opposite signs order by sign, whichever comes
/// first: a negative integer is below any non-NaN float without the sign
/// bit, and a positive integer above any non-NaN float with it.
pub proof fn law_mixed_order_by_sign(i: i64, b: u64)
    ensures
        !f64_is_nan(b) && i < 0 && !f64_negative(b) ==> {
            &&& value_order(Value::Integer(i), Value::Float(b)) == Some(-1i8)
            &&& value_order(Value::Float(b), Value::Integer(i)) == Some(1i8)
        },
        !f64_is_nan(b) && i > 0 && f64_negative(b) ==> {
            &&& value_order(Value::Integer(i), Value::Float(b)) == Some(1i8)
            &&& value_order(Value::Float(b), Value::Integer(i)) == Some(-1i8)
        },
{
    if !f64_is_nan(b) && ((i < 0 && !f64_negative(b)) || (i > 0 && f64_negative(b))) {
        lemma_int_float_order_by_sign(i as int, b);
    }
}

/// Integers order as numbers, and texts by their first differing
/// character, a proper prefix coming before any text that extends it.
pub proof fn law_value_order_integers_texts(x: i64, y: i64, common: Seq<char>, a: Seq<char>, b: Seq<char>, c: char, d: char)
    ensures
        (value_order(Value::Integer(x), Value::Integer(y)) == Some(-1i8)) == (x < y),
        (value_order(Value::Integer(x), Value::Integer(y)) == Some(0i8)) == (x == y),
        (value_order(Value::Integer(x), Value::Integer(y)) == Some(1i8)) == (x > y),
        c < d ==> text_order(common + seq![c] + a, common + seq![d] + b) == -1,
        b.len() > 0 ==> text_order(common, common + b) == -1,
        text_order(common, common) == 0,
{
    lemma_text_order_common(common, seq![c] + a, seq![d] + b);
    lemma_text_order_common(common, Seq::empty(), b);
    lemma_text_order_common(common, Seq::empty(), Seq::empty());
    assert(common + seq![c] + a =~= common + (seq![c] + a));
    assert(common + seq![d] + b =~= common + (seq![d] + b));
    assert(common + Seq::<char>::empty() =~= common);
    assert((seq![c] + a)[0] == c);
    assert((seq![d] + b)[0] == d);
}

/// A common prefix does not change the lexicographic order.
proof fn lemma_text_order_common(common: Seq<char>, a: Seq<char>, b: Seq<char>)
    ensures
        text_order(common + a, common + b) == text_order(a, b),
    decreases common.len(),
{
    if common.len() > 0 {
        lemma_text_order_common(common.drop_first(), a, b);
        assert((common + a).drop_first() =~= common.drop_first() + a);
        assert((common + b).drop_first() =~= common.drop_first() + b);
    } else {
        assert(common + a =~= a);
        assert(common + b =~= b);
    }
}

/// Swapping two texts reverses their lexicographic order.
pub proof fn lemma_text_order_reverse(a: Seq<char>, b: Seq<char>)
    ensures
        text_order(b, a) == -text_order(a, b),
    decreases a.len(),
{
    if a.len() > 0 && b.len() > 0 && a[0] == b[0] {
        lemma_text_order_reverse(a.drop_first(), b.drop_first());
    }
}

/// The lexicographic order only takes the values -1, 0 and 1.
pub proof fn lemma_text_order_range(a: Seq<char>, b: Seq<char>)
    ensures
        text_order(a, b) == -1 || text_order(a, b) == 0 || text_order(a, b) == 1,
    decreases a.len(),
{
    if a.len() > 0 && b.len() > 0 && a[0] == b[0] {
        lemma_text_order_range(a.drop_first(), b.drop_first());
    }
}

/// Texts order as equal exactly when they are the same text.
pub proof fn lemma_text_order_zero(a: Seq<char>, b: Seq<char>)
    ensures
        (text_order(a, b) == 0) == (a == b),
    decreases a.len(),
{
    if a.len() > 0 && b.len() > 0 && a[0] == b[0] {
        lemma_text_order_zero(a.drop_first(), b.drop_first());
        if a.drop_first() == b.drop_first() {
            assert(a =~= seq![a[0]] + a.drop_first());
            assert(b =~= seq![b[0]] + b.drop_first());
        } else {
            if a == b {
                assert(a.drop_first() == b.drop_first());
            }
        }
    } else if a.len() > 0 && b.len() > 0 {
        assert(a[0] != b[0]);
        if a == b {
            assert(a[0] == b[0]);
        }
    } else if a.len() == 0 && b.len() == 0 {
        assert(a =~= b);
    }
}

} // verus!
