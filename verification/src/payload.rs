//! A validated, schemaless-but-typed payload attached to a vector: field
//! names mapped to values, kept in ascending name order.

use vstd::prelude::*;
use crate::errors::PayloadError;
use crate::float_bits::{f64_is_finite, is_finite};
use crate::value::{FieldValue, FieldView, Value, text_order, order_texts, lemma_text_order_zero, lemma_text_order_range};

verus! {

/// The value the last pair named `name` carries, if any: the map a sequence
/// of `(name, value)` pairs builds when later pairs replace earlier ones.
pub open spec fn entry_value(pairs: Seq<(String, FieldValue)>, name: Seq<char>) -> Option<FieldValue>
    decreases pairs.len(),
{
    if pairs.len() == 0 {
        None
    } else if pairs.last().0@ == name {
        Some(pairs.last().1)
    } else {
        entry_value(pairs.drop_last(), name)
    }
}

/// The map of field name to field contents that a sequence of pairs builds,
/// later pairs replacing earlier ones.
pub open spec fn pairs_map(pairs: Seq<(String, FieldValue)>) -> Map<Seq<char>, FieldView> {
    Map::new(
        |k: Seq<char>| entry_value(pairs, k) is Some,
        |k: Seq<char>| entry_value(pairs, k).unwrap()@,
    )
}

/// Names strictly ascending by code point (hence distinct).
pub open spec fn names_ascending(pairs: Seq<(String, FieldValue)>) -> bool {
    forall|i: int, j: int| 0 <= i < j < pairs.len() ==> #[trigger] text_order(pairs[i].0@, pairs[j].0@) == -1
}

/// A scalar that is not a non-finite float.
pub open spec fn value_is_finite(v: Value) -> bool {
    match v {
        Value::Float(b) => f64_is_finite(b),
        _ => true,
    }
}

/// A field none of whose values is a non-finite float.
pub open spec fn field_is_finite(f: FieldValue) -> bool {
    match f {
        FieldValue::Scalar(v) => value_is_finite(v),
        FieldValue::Array(vs) => forall|i: int| 0 <= i < vs@.len() ==> #[trigger] value_is_finite(vs@[i]),
    }
}

/// Every field the pairs build is finite.
pub open spec fn all_fields_finite(pairs: Seq<(String, FieldValue)>) -> bool {
    forall|name: Seq<char>| #[trigger] entry_value(pairs, name) is Some ==> field_is_finite(entry_value(pairs, name).unwrap())
}

/// A map of field name to typed value. Names are kept in ascending order,
/// so iteration order is deterministic; no float in it is NaN or infinite.
#[derive(Debug, PartialEq)]
pub struct Payload {
    fields: Vec<(String, FieldValue)>,
}

impl Payload {
    /// The fields in ascending name order.
    pub closed spec fn entries(&self) -> Seq<(String, FieldValue)> {
        self.fields@
    }

    /// The value of the field `name`, if present.
    pub open spec fn field(&self, name: Seq<char>) -> Option<FieldValue> {
        entry_value(self.entries(), name)
    }

    /// The fields of the payload, by name.
    pub open spec fn field_map(&self) -> Map<Seq<char>, FieldView> {
        pairs_map(self.entries())
    }

    #[verifier::type_invariant]
    spec fn well_formed(self) -> bool {
        &&& names_ascending(self.fields@)
        &&& forall|i: int| 0 <= i < self.fields@.len() ==> #[trigger] field_is_finite(self.fields@[i].1)
    }
}

impl View for Payload {
    type V = Map<Seq<char>, FieldView>;

    open spec fn view(&self) -> Map<Seq<char>, FieldView> {
        self.field_map()
    }
}

/// Two pair sequences with the same names and the same contents, position by
/// position, give every name the same contents.
pub proof fn lemma_entry_value_views(a: Seq<(String, FieldValue)>, b: Seq<(String, FieldValue)>, name: Seq<char>)
    requires
        a.len() == b.len(),
        forall|j: int| 0 <= j < a.len() ==> #[trigger] a[j].0@ == b[j].0@ && a[j].1@ == b[j].1@,
    ensures
        (entry_value(a, name) is Some) == (entry_value(b, name) is Some),
        entry_value(a, name) is Some ==> entry_value(a, name).unwrap()@ == entry_value(b, name).unwrap()@,
    decreases a.len(),
{
    if a.len() > 0 {
        assert(a.last().0@ == b.last().0@ && a.last().1@ == b.last().1@) by {
            assert(a[a.len() - 1].0@ == b[a.len() - 1].0@);
        }
        assert forall|j: int| 0 <= j < a.drop_last().len() implies #[trigger] a.drop_last()[j].0@ == b.drop_last()[j].0@
            && a.drop_last()[j].1@ == b.drop_last()[j].1@ by {
            assert(a[j].0@ == b[j].0@);
        }
        lemma_entry_value_views(a.drop_last(), b.drop_last(), name);
    }
}

/// Fields with the same contents are finite together.
pub proof fn lemma_field_finite_view(f: FieldValue, g: FieldValue)
    requires
        f@ == g@,
    ensures
        field_is_finite(f) == field_is_finite(g),
{
    match (f, g) {
        (FieldValue::Scalar(a), FieldValue::Scalar(b)) => {
            assert(FieldView::Scalar(a) == FieldView::Scalar(b));
        },
        (FieldValue::Array(a), FieldValue::Array(b)) => {
            assert(FieldView::Array(a@) == FieldView::Array(b@));
        },
        (FieldValue::Scalar(a), FieldValue::Array(b)) => {
            assert(FieldView::Scalar(a) != FieldView::Array(b@));
        },
        (FieldValue::Array(a), FieldValue::Scalar(b)) => {
            assert(FieldView::Array(a@) != FieldView::Scalar(b));
        },
    }
}

/// The names of ascending pairs are exactly the keys of the map they build,
/// so the map has as many keys as there are pairs.
pub proof fn lemma_pairs_map_len(pairs: Seq<(String, FieldValue)>)
    requires
        names_ascending(pairs),
    ensures
        pairs_map(pairs).dom().finite(),
        pairs_map(pairs).dom().len() == pairs.len(),
{
    let names = pairs.map_values(|p: (String, FieldValue)| p.0@);
    assert forall|i: int, j: int| 0 <= i < names.len() && 0 <= j < names.len() && i != j implies names[i] != names[j] by {
        lemma_ascending_unique(pairs, i, pairs[i].0@);
        assert(pairs[j].0@ != pairs[i].0@);
    }
    assert(names.no_duplicates());
    names.unique_seq_to_set();
    assert forall|k: Seq<char>| #[trigger] pairs_map(pairs).dom().contains(k) <==> names.to_set().contains(k) by {
        if entry_value(pairs, k) is Some {
            lemma_entry_value_some(pairs, k);
            let i = choose|i: int| 0 <= i < pairs.len() && pairs[i].0@ == k && entry_value(pairs, k) == Some(pairs[i].1);
            assert(names[i] == k);
        }
        if names.to_set().contains(k) {
            assert(names.contains(k));
            let i = choose|i: int| 0 <= i < names.len() && names[i] == k;
            lemma_ascending_unique(pairs, i, k);
            lemma_entry_value_at(pairs, k, i);
        }
    }
    assert(pairs_map(pairs).dom() =~= names.to_set());
}

/// The last pair with a given name decides its value.
pub proof fn lemma_entry_value_at(pairs: Seq<(String, FieldValue)>, name: Seq<char>, i: int)
    requires
        0 <= i < pairs.len(),
        pairs[i].0@ == name,
        forall|j: int| i < j < pairs.len() ==> #[trigger] pairs[j].0@ != name,
    ensures
        entry_value(pairs, name) == Some(pairs[i].1),
    decreases pairs.len(),
{
    if i < pairs.len() - 1 {
        assert(pairs.last().0@ != name);
        lemma_entry_value_at(pairs.drop_last(), name, i);
    }
}

/// A name no pair carries has no value.
pub proof fn lemma_entry_value_absent(pairs: Seq<(String, FieldValue)>, name: Seq<char>)
    requires
        forall|j: int| 0 <= j < pairs.len() ==> #[trigger] pairs[j].0@ != name,
    ensures
        entry_value(pairs, name) is None,
    decreases pairs.len(),
{
    if pairs.len() > 0 {
        assert(pairs.last().0@ != name);
        lemma_entry_value_absent(pairs.drop_last(), name);
    }
}

/// A name with a value is carried by some pair, the last such one.
pub proof fn lemma_entry_value_some(pairs: Seq<(String, FieldValue)>, name: Seq<char>)
    requires
        entry_value(pairs, name) is Some,
    ensures
        exists|i: int| 0 <= i < pairs.len() && pairs[i].0@ == name && entry_value(pairs, name) == Some(pairs[i].1),
    decreases pairs.len(),
{
    if pairs.last().0@ == name {
        assert(pairs[pairs.len() - 1].0@ == name);
    } else {
        lemma_entry_value_some(pairs.drop_last(), name);
        let i = choose|i: int| 0 <= i < pairs.drop_last().len() && pairs.drop_last()[i].0@ == name
            && entry_value(pairs.drop_last(), name) == Some(pairs.drop_last()[i].1);
        assert(pairs[i] == pairs.drop_last()[i]);
    }
}

/// In a strictly ascending sequence, a name appears at most once.
pub proof fn lemma_ascending_unique(pairs: Seq<(String, FieldValue)>, i: int, name: Seq<char>)
    requires
        names_ascending(pairs),
        0 <= i < pairs.len(),
        pairs[i].0@ == name,
    ensures
        forall|j: int| 0 <= j < pairs.len() && j != i ==> #[trigger] pairs[j].0@ != name,
{
    assert forall|j: int| 0 <= j < pairs.len() && j != i implies #[trigger] pairs[j].0@ != name by {
        if j < i {
            assert(text_order(pairs[j].0@, pairs[i].0@) == -1);
            lemma_text_order_zero(pairs[j].0@, pairs[i].0@);
            if pairs[j].0@ == name {
                lemma_text_order_reflexive(name);
            }
        } else {
            assert(text_order(pairs[i].0@, pairs[j].0@) == -1);
            if pairs[j].0@ == name {
                lemma_text_order_reflexive(name);
            }
        }
    }
}

/// A text is equal to itself.
pub proof fn lemma_text_order_reflexive(a: Seq<char>)
    ensures
        text_order(a, a) == 0,
{
    lemma_text_order_zero(a, a);
}

/// The lexicographic order is antisymmetric.
pub proof fn lemma_text_order_antisymmetric(a: Seq<char>, b: Seq<char>)
    ensures
        text_order(a, b) == -1 <==> text_order(b, a) == 1,
    decreases a.len(),
{
    if a.len() > 0 && b.len() > 0 && a[0] == b[0] {
        lemma_text_order_antisymmetric(a.drop_first(), b.drop_first());
    }
}

/// The lexicographic order is transitive.
pub proof fn lemma_text_order_transitive(a: Seq<char>, b: Seq<char>, c: Seq<char>)
    requires
        text_order(a, b) == -1,
        text_order(b, c) == -1,
    ensures
        text_order(a, c) == -1,
    decreases a.len(),
{
    if a.len() > 0 && b.len() > 0 && c.len() > 0 && a[0] == b[0] && b[0] == c[0] {
        lemma_text_order_transitive(a.drop_first(), b.drop_first(), c.drop_first());
    }
}

impl Payload {
    /// Builds a payload from `(name, value)` pairs. Later pairs replace
    /// earlier ones with the same name. Fails with `NonFiniteValue` when a
    /// field of the result holds a NaN or infinite float.
    pub fn new(fields: Vec<(String, FieldValue)>) -> (r: Result<Payload, PayloadError>)
        ensures
            match r {
                Ok(p) => all_fields_finite(fields@)
                    && p@ == pairs_map(fields@)
                    && forall|name: Seq<char>| #[trigger] p.field(name) == entry_value(fields@, name),
                Err(e) => e == PayloadError::NonFiniteValue && !all_fields_finite(fields@),
            },
    {
        broadcast use vstd::std_specs::vec::axiom_spec_into_iter;
        let ghost input = fields@;
        let mut out: Vec<(String, FieldValue)> = Vec::new();
        proof {
            assert(input.take(0) =~= Seq::<(String, FieldValue)>::empty());
        }
        for pair in it: fields.into_iter()
            invariant
                it.seq() == input,
                names_ascending(out@),
                forall|name: Seq<char>| #[trigger] entry_value(out@, name) == entry_value(input.take(it.index() as int), name),
        {
            let ghost i = it.index();
            let ghost key = pair.0@;
            assert(pair == input[i as int]);
            proof {
                assert(input.take(i + 1).drop_last() =~= input.take(i as int));
                assert(input.take(i + 1).last() == input[i as int]);
            }
            let mut pos: usize = 0;
            let mut found: bool = false;
            loop
                invariant_except_break
                    !found,
                invariant
                    key == pair.0@,
                    pos <= out@.len(),
                    names_ascending(out@),
                    forall|j: int| 0 <= j < pos ==> #[trigger] text_order(out@[j].0@, key) == -1,
                ensures
                    pos <= out@.len(),
                    forall|j: int| 0 <= j < pos ==> #[trigger] text_order(out@[j].0@, key) == -1,
                    found ==> pos < out@.len() && text_order(out@[pos as int].0@, key) == 0,
                    !found ==> pos == out@.len() || text_order(out@[pos as int].0@, key) == 1,
                decreases out.len() - pos,
            {
                if pos == out.len() {
                    break;
                }
                let o = order_texts(out[pos].0.as_str(), pair.0.as_str());
                proof {
                    lemma_text_order_range(out@[pos as int].0@, key);
                }
                if o == 0 {
                    found = true;
                    break;
                } else if o == 1 {
                    break;
                }
                pos = pos + 1;
            }
            let ghost before = out@;
            if found {
                proof {
                    lemma_text_order_zero(before[pos as int].0@, key);
                }
                out.set(pos, pair);
                proof {
                    assert forall|a: int, b: int| 0 <= a < b < out@.len() implies #[trigger] text_order(out@[a].0@, out@[b].0@) == -1 by {
                        assert(out@[a].0@ == before[a].0@);
                        assert(out@[b].0@ == before[b].0@);
                    }
                    lemma_ascending_unique(before, pos as int, key);
                    assert forall|name: Seq<char>| #[trigger] entry_value(out@, name) == entry_value(input.take(i + 1), name) by {
                        if name == key {
                            lemma_ascending_unique(out@, pos as int, key);
                            lemma_entry_value_at(out@, name, pos as int);
                        } else {
                            if entry_value(before, name) is Some {
                                lemma_entry_value_some(before, name);
                                let k = choose|k: int| 0 <= k < before.len() && before[k].0@ == name && entry_value(before, name) == Some(before[k].1);
                                lemma_ascending_unique(before, k, name);
                                lemma_ascending_unique(out@, k, name);
                                lemma_entry_value_at(out@, name, k);
                            } else {
                                assert forall|j: int| 0 <= j < out@.len() implies #[trigger] out@[j].0@ != name by {
                                    if j != pos && out@[j].0@ == name {
                                        lemma_ascending_unique(before, j, name);
                                        lemma_entry_value_at(before, name, j);
                                    }
                                }
                                lemma_entry_value_absent(out@, name);
                            }
                        }
                    }
                }
            } else {
                out.insert(pos, pair);
                proof {
                    assert(forall|j: int| pos <= j < before.len() ==> #[trigger] text_order(key, before[j].0@) == -1) by {
                        if pos < before.len() {
                            lemma_text_order_antisymmetric(key, before[pos as int].0@);
                            assert forall|j: int| pos <= j < before.len() implies #[trigger] text_order(key, before[j].0@) == -1 by {
                                if j > pos {
                                    lemma_text_order_transitive(key, before[pos as int].0@, before[j].0@);
                                }
                            }
                        }
                    }
                    assert forall|a: int, b: int| 0 <= a < b < out@.len() implies #[trigger] text_order(out@[a].0@, out@[b].0@) == -1 by {
                        if a < pos && b > pos {
                            assert(out@[a] == before[a]);
                            assert(out@[b] == before[b - 1]);
                            lemma_text_order_transitive(before[a].0@, key, before[b - 1].0@);
                        } else if a < pos && b == pos {
                        } else if a == pos {
                            assert(out@[b] == before[b - 1]);
                        } else if b < pos {
                            assert(out@[a] == before[a]);
                            assert(out@[b] == before[b]);
                        } else {
                            assert(out@[a] == before[a - 1]);
                            assert(out@[b] == before[b - 1]);
                        }
                    }
                    assert forall|j: int| 0 <= j < before.len() implies #[trigger] before[j].0@ != key by {
                        if j < pos {
                            lemma_text_order_zero(before[j].0@, key);
                            lemma_text_order_reflexive(key);
                        } else {
                            lemma_text_order_reflexive(key);
                        }
                    }
                    assert forall|name: Seq<char>| #[trigger] entry_value(out@, name) == entry_value(input.take(i + 1), name) by {
                        if name == key {
                            lemma_ascending_unique(out@, pos as int, key);
                            lemma_entry_value_at(out@, name, pos as int);
                        } else {
                            if entry_value(before, name) is Some {
                                lemma_entry_value_some(before, name);
                                let k = choose|k: int| 0 <= k < before.len() && before[k].0@ == name && entry_value(before, name) == Some(before[k].1);
                                let k2 = if k < pos { k } else { k + 1 };
                                assert(out@[k2] == before[k]);
                                lemma_ascending_unique(out@, k2, name);
                                lemma_entry_value_at(out@, name, k2);
                            } else {
                                assert forall|j: int| 0 <= j < out@.len() implies #[trigger] out@[j].0@ != name by {
                                    if j != pos && out@[j].0@ == name {
                                        let jb = if j < pos { j } else { j - 1 };
                                        assert(out@[j] == before[jb]);
                                        lemma_ascending_unique(before, jb, name);
                                        lemma_entry_value_at(before, name, jb);
                                    }
                                }
                                lemma_entry_value_absent(out@, name);
                            }
                        }
                    }
                }
            }
        }
        proof {
            assert(input.take(input.len() as int) =~= input);
        }
        let mut k: usize = 0;
        while k < out.len()
            invariant
                input == fields@,
                k <= out@.len(),
                names_ascending(out@),
                forall|name: Seq<char>| #[trigger] entry_value(out@, name) == entry_value(input, name),
                forall|j: int| 0 <= j < k ==> #[trigger] field_is_finite(out@[j].1),
            decreases out.len() - k,
        {
            if !field_value_is_finite(&out[k].1) {
                proof {
                    let name = out@[k as int].0@;
                    lemma_ascending_unique(out@, k as int, name);
                    lemma_entry_value_at(out@, name, k as int);
                    assert(entry_value(input, name) == Some(out@[k as int].1));
                    assert(!field_is_finite(entry_value(input, name).unwrap()));
                    assert(!all_fields_finite(input));
                }
                return Err(PayloadError::NonFiniteValue);
            }
            k = k + 1;
        }
        proof {
            assert forall|name: Seq<char>| #[trigger] entry_value(input, name) is Some implies field_is_finite(entry_value(input, name).unwrap()) by {
                if entry_value(out@, name) is Some {
                    lemma_entry_value_some(out@, name);
                }
            }
            assert(pairs_map(out@) =~= pairs_map(input));
        }
        Ok(Payload { fields: out })
    }

    /// Returns the value of `name`, or `None` if absent.
    pub fn get(&self, name: &str) -> (r: Option<&FieldValue>)
        ensures
            match r {
                Some(v) => self.field(name@) == Some(*v) && self@.contains_key(name@) && self@[name@] == v@,
                None => self.field(name@) is None && !self@.contains_key(name@),
            },
    {
        proof {
            use_type_invariant(self);
        }
        let mut i: usize = 0;
        while i < self.fields.len()
            invariant
                i <= self.fields@.len(),
                names_ascending(self.fields@),
                forall|j: int| 0 <= j < i ==> #[trigger] self.fields@[j].0@ != name@,
            decreases self.fields.len() - i,
        {
            let o = order_texts(self.fields[i].0.as_str(), name);
            if o == 0 {
                proof {
                    lemma_text_order_zero(self.fields@[i as int].0@, name@);
                    lemma_ascending_unique(self.fields@, i as int, name@);
                    lemma_entry_value_at(self.fields@, name@, i as int);
                }
                return Some(&self.fields[i].1);
            }
            proof {
                lemma_text_order_zero(self.fields@[i as int].0@, name@);
            }
            i = i + 1;
        }
        proof {
            lemma_entry_value_absent(self.fields@, name@);
        }
        None
    }

    /// Number of fields.
    pub fn len(&self) -> (r: usize)
        ensures
            r == self.entries().len(),
            r == self@.len(),
            self@.dom().finite(),
    {
        proof {
            use_type_invariant(self);
            lemma_pairs_map_len(self.fields@);
        }
        self.fields.len()
    }

    /// Whether the payload has no fields.
    pub fn is_empty(&self) -> (r: bool)
        ensures
            r == (self.entries().len() == 0),
            r == (self@.len() == 0),
    {
        proof {
            use_type_invariant(self);
            lemma_pairs_map_len(self.fields@);
        }
        self.fields.len() == 0
    }

    /// All fields as `(name, value)` pairs, ascending by name.
    pub fn iter(&self) -> (r: &Vec<(String, FieldValue)>)
        ensures
            r@ == self.entries(),
            names_ascending(r@),
            forall|i: int| 0 <= i < r@.len() ==> #[trigger] field_is_finite(r@[i].1),
    {
        proof {
            use_type_invariant(self);
        }
        &self.fields
    }
}

impl Clone for Payload {
    fn clone(&self) -> (r: Payload)
        ensures
            r@ == self@,
    {
        proof {
            use_type_invariant(self);
        }
        let mut out: Vec<(String, FieldValue)> = Vec::new();
        let mut i: usize = 0;
        while i < self.fields.len()
            invariant
                i <= self.fields@.len(),
                out@.len() == i,
                forall|j: int| 0 <= j < i ==> #[trigger] out@[j].0@ == self.fields@[j].0@ && out@[j].1@ == self.fields@[j].1@,
            decreases self.fields.len() - i,
        {
            let name = self.fields[i].0.clone();
            let value = self.fields[i].1.clone();
            out.push((name, value));
            proof {
                assert(out@[i as int].0@ == self.fields@[i as int].0@);
            }
            i = i + 1;
        }
        proof {
            assert(out@.len() == self.fields@.len());
            assert(forall|j: int| 0 <= j < out@.len() ==> #[trigger] out@[j].0@ == self.fields@[j].0@ && out@[j].1@ == self.fields@[j].1@);
            assert forall|a: int, b: int| 0 <= a < b < out@.len() implies #[trigger] text_order(out@[a].0@, out@[b].0@) == -1 by {
                assert(out@[a].0@ == self.fields@[a].0@);
                assert(out@[b].0@ == self.fields@[b].0@);
                assert(text_order(self.fields@[a].0@, self.fields@[b].0@) == -1);
            }
            assert forall|j: int| 0 <= j < out@.len() implies #[trigger] field_is_finite(out@[j].1) by {
                assert(out@[j].0@ == self.fields@[j].0@);
                lemma_field_finite_view(out@[j].1, self.fields@[j].1);
            }
            assert forall|k: Seq<char>| #[trigger] pairs_map(out@).contains_key(k) == pairs_map(self.fields@).contains_key(k) by {
                lemma_entry_value_views(out@, self.fields@, k);
            }
            assert forall|k: Seq<char>| pairs_map(out@).contains_key(k) implies #[trigger] pairs_map(out@)[k] == pairs_map(self.fields@)[k] by {
                lemma_entry_value_views(out@, self.fields@, k);
            }
            assert(pairs_map(out@) =~= pairs_map(self.fields@));
        }
        Payload { fields: out }
    }
}

/// Returns whether a scalar is not a non-finite float.
pub fn value_is_finite_exec(v: &Value) -> (r: bool)
    ensures
        r == value_is_finite(*v),
{
    match v {
        Value::Float(b) => is_finite(*b),
        _ => true,
    }
}

/// Returns whether no value of a field is a non-finite float.
pub fn field_value_is_finite(f: &FieldValue) -> (r: bool)
    ensures
        r == field_is_finite(*f),
{
    match f {
        FieldValue::Scalar(v) => value_is_finite_exec(v),
        FieldValue::Array(vs) => {
            let mut i: usize = 0;
            while i < vs.len()
                invariant
                    i <= vs@.len(),
                    field_is_finite(*f) == (forall|j: int| 0 <= j < vs@.len() ==> #[trigger] value_is_finite(vs@[j])),
                    forall|j: int| 0 <= j < i ==> #[trigger] value_is_finite(vs@[j]),
                decreases vs.len() - i,
            {
                if !value_is_finite_exec(&vs[i]) {
                    assert(!value_is_finite(vs@[i as int]));
                    return false;
                }
                i = i + 1;
            }
            true
        },
    }
}

} // verus!
