//! The in-memory lexical index: per-document term frequencies, document
//! frequencies, and the running token total that BM25 scoring reads.
//!
//! Scores are computed where floats are handled, from the counts this index
//! keeps; this module keeps the counts and every rule that updates them.

use vstd::prelude::*;
use crate::analyzer::{tokenize, tokens_of};
use crate::document::Document;
use crate::errors::LexicalError;
use crate::value::{order_texts, lemma_text_order_zero};
use crate::vector_id::VectorId;

verus! {

/// What the index records of one document: its id, its distinct terms with
/// their number of occurrences, and its number of tokens.
pub struct DocView {
    /// The document's vector id, as its 128-bit value.
    pub id: u128,
    /// Each distinct term once, with its number of occurrences.
    pub terms: Seq<(Seq<char>, nat)>,
    /// The number of tokens of the document.
    pub length: nat,
}

/// Whether a document holds the term `t`.
pub open spec fn has_term(d: DocView, t: Seq<char>) -> bool {
    exists|i: int| 0 <= i < d.terms.len() && (#[trigger] d.terms[i]).0 == t
}

/// The number of documents holding the term `t`: its document frequency.
pub open spec fn docs_with(docs: Seq<DocView>, t: Seq<char>) -> nat
    decreases docs.len(),
{
    if docs.len() == 0 {
        0
    } else {
        docs_with(docs.drop_last(), t) + if has_term(docs.last(), t) { 1nat } else { 0nat }
    }
}

/// The total number of tokens of the documents.
pub open spec fn length_sum(docs: Seq<DocView>) -> nat
    decreases docs.len(),
{
    if docs.len() == 0 {
        0
    } else {
        length_sum(docs.drop_last()) + docs.last().length
    }
}

/// The number of occurrences of `t` among `tokens`.
pub open spec fn occurrences(tokens: Seq<Seq<char>>, t: Seq<char>) -> nat
    decreases tokens.len(),
{
    if tokens.len() == 0 {
        0
    } else {
        occurrences(tokens.drop_last(), t) + if tokens.last() == t { 1nat } else { 0nat }
    }
}

/// `terms` lists each distinct token once, with its number of occurrences.
pub open spec fn counts_tokens(terms: Seq<(Seq<char>, nat)>, tokens: Seq<Seq<char>>) -> bool {
    &&& forall|i: int, j: int| 0 <= i < j < terms.len() ==> (#[trigger] terms[i]).0 != (#[trigger] terms[j]).0
    &&& forall|i: int| 0 <= i < terms.len() ==> (#[trigger] terms[i]).1 == occurrences(tokens, terms[i].0)
    &&& forall|t: Seq<char>| #[trigger] occurrences(tokens, t) > 0 <==> exists|i: int| 0 <= i < terms.len() && (#[trigger] terms[i]).0 == t
}

/// The documents with the one of id `id` (if any) taken out.
pub open spec fn without_doc(docs: Seq<DocView>, id: u128) -> Seq<DocView> {
    docs.filter(|d: DocView| d.id != id)
}

/// The count listed for `t` at its first entry, if any.
pub open spec fn lookup_term(terms: Seq<(Seq<char>, nat)>, t: Seq<char>) -> Option<nat>
    decreases terms.len(),
{
    if terms.len() == 0 {
        None
    } else if terms[0].0 == t {
        Some(terms[0].1)
    } else {
        lookup_term(terms.drop_first(), t)
    }
}

/// For each query term that `d` holds, in query order (repeats included),
/// its count in `d` and the number of `docs` holding it.
pub open spec fn query_hits(d: DocView, docs: Seq<DocView>, query: Seq<Seq<char>>) -> Seq<(nat, nat)>
    decreases query.len(),
{
    if query.len() == 0 {
        Seq::empty()
    } else {
        let rest = query_hits(d, docs, query.drop_last());
        match lookup_term(d.terms, query.last()) {
            Some(f) => rest.push((f, docs_with(docs, query.last()))),
            None => rest,
        }
    }
}

/// Pairs of counts as natural numbers.
pub open spec fn hit_counts(v: Seq<(u32, usize)>) -> Seq<(nat, nat)> {
    v.map_values(|p: (u32, usize)| (p.0 as nat, p.1 as nat))
}

/// Per-document counts.
struct DocStats {
    term_frequencies: Vec<(String, u32)>,
    length: u32,
}

spec fn terms_view(v: Seq<(String, u32)>) -> Seq<(Seq<char>, nat)> {
    v.map_values(|p: (String, u32)| (p.0@, p.1 as nat))
}

spec fn doc_view(id: VectorId, s: DocStats) -> DocView {
    DocView { id: id@, terms: terms_view(s.term_frequencies@), length: s.length as nat }
}

spec fn docs_view(v: Seq<(VectorId, DocStats)>) -> Seq<DocView> {
    v.map_values(|p: (VectorId, DocStats)| doc_view(p.0, p.1))
}

/// 1 when `t` is one of the terms of `extra`, 0 otherwise.
pub open spec fn pending(extra: Seq<(Seq<char>, nat)>, t: Seq<char>) -> nat {
    if exists|i: int| 0 <= i < extra.len() && (#[trigger] extra[i]).0 == t { 1 } else { 0 }
}

/// The document-frequency entries list each term held by a document (or
/// by `extra`) once, with the number of documents holding it (plus one when
/// `extra` holds it), and no other term.
spec fn df_reflects(dfs: Seq<(String, usize)>, docs: Seq<DocView>, extra: Seq<(Seq<char>, nat)>) -> bool {
    &&& forall|a: int, b: int| 0 <= a < b < dfs.len() ==> (#[trigger] dfs[a]).0@ != (#[trigger] dfs[b]).0@
    &&& forall|a: int| 0 <= a < dfs.len() ==>
        (#[trigger] dfs[a]).1 == docs_with(docs, dfs[a].0@) + pending(extra, dfs[a].0@) && dfs[a].1 > 0
    &&& forall|t: Seq<char>| docs_with(docs, t) + pending(extra, t) > 0 ==>
        exists|a: int| 0 <= a < dfs.len() && (#[trigger] dfs[a]).0@ == t
}

/// Distinct terms.
spec fn terms_distinct(terms: Seq<(Seq<char>, nat)>) -> bool {
    forall|a: int, b: int| 0 <= a < b < terms.len() ==> (#[trigger] terms[a]).0 != (#[trigger] terms[b]).0
}

/// The consistency of the index's parts.
spec fn parts_wf(docs: Seq<(VectorId, DocStats)>, dfs: Seq<(String, usize)>, total: u64) -> bool {
    let d = docs_view(docs);
    &&& forall|i: int, j: int| 0 <= i < j < d.len() ==> (#[trigger] d[i]).id != (#[trigger] d[j]).id
    &&& forall|i: int| 0 <= i < d.len() ==> terms_distinct((#[trigger] d[i]).terms)
    &&& df_reflects(dfs, d, Seq::empty())
    &&& total == length_sum(d)
}

/// In-memory BM25 bookkeeping: per-document term frequencies, document
/// frequencies, and the running token total.
pub struct InMemoryLexicalIndex {
    docs: Vec<(VectorId, DocStats)>,
    doc_frequencies: Vec<(String, usize)>,
    total_tokens: u64,
}

/// Counting documents is additive over a push.
proof fn lemma_docs_with_push(docs: Seq<DocView>, d: DocView, t: Seq<char>)
    ensures
        docs_with(docs.push(d), t) == docs_with(docs, t) + if has_term(d, t) { 1nat } else { 0nat },
{
    assert(docs.push(d).drop_last() =~= docs);
}

/// Counting documents over a removal.
proof fn lemma_docs_with_remove(docs: Seq<DocView>, i: int, t: Seq<char>)
    requires
        0 <= i < docs.len(),
    ensures
        docs_with(docs, t) == docs_with(docs.remove(i), t) + if has_term(docs[i], t) { 1nat } else { 0nat },
    decreases docs.len(),
{
    if i < docs.len() - 1 {
        assert(docs.remove(i).drop_last() =~= docs.drop_last().remove(i));
        lemma_docs_with_remove(docs.drop_last(), i, t);
    } else {
        assert(docs.remove(i) =~= docs.drop_last());
    }
}

/// Summing lengths over a removal.
proof fn lemma_length_sum_remove(docs: Seq<DocView>, i: int)
    requires
        0 <= i < docs.len(),
    ensures
        length_sum(docs) == length_sum(docs.remove(i)) + docs[i].length,
    decreases docs.len(),
{
    if i < docs.len() - 1 {
        assert(docs.remove(i).drop_last() =~= docs.drop_last().remove(i));
        lemma_length_sum_remove(docs.drop_last(), i);
    } else {
        assert(docs.remove(i) =~= docs.drop_last());
    }
}

/// Summing lengths over a push.
proof fn lemma_length_sum_push(docs: Seq<DocView>, d: DocView)
    ensures
        length_sum(docs.push(d)) == length_sum(docs) + d.length,
{
    assert(docs.push(d).drop_last() =~= docs);
}

/// Counting occurrences over a push.
proof fn lemma_occurrences_push(tokens: Seq<Seq<char>>, x: Seq<char>, t: Seq<char>)
    ensures
        occurrences(tokens.push(x), t) == occurrences(tokens, t) + if x == t { 1nat } else { 0nat },
{
    assert(tokens.push(x).drop_last() =~= tokens);
}

/// Filtering out an id absent from the documents keeps them all.
proof fn lemma_without_absent(docs: Seq<DocView>, id: u128)
    requires
        forall|i: int| 0 <= i < docs.len() ==> (#[trigger] docs[i]).id != id,
    ensures
        without_doc(docs, id) == docs,
    decreases docs.len(),
{
    reveal(Seq::filter);
    if docs.len() > 0 {
        lemma_without_absent(docs.drop_last(), id);
        assert(docs.drop_last().push(docs.last()) =~= docs);
    } else {
        assert(without_doc(docs, id) =~= docs);
    }
}

/// Filtering out the id of the one document holding it removes that one.
proof fn lemma_without_present(docs: Seq<DocView>, id: u128, k: int)
    requires
        0 <= k < docs.len(),
        docs[k].id == id,
        forall|i: int| 0 <= i < docs.len() && i != k ==> (#[trigger] docs[i]).id != id,
    ensures
        without_doc(docs, id) == docs.remove(k),
    decreases docs.len(),
{
    reveal(Seq::filter);
    if k < docs.len() - 1 {
        lemma_without_present(docs.drop_last(), id, k);
        assert(docs.drop_last().remove(k).push(docs.last()) =~= docs.remove(k));
    } else {
        assert forall|i: int| 0 <= i < docs.drop_last().len() implies (#[trigger] docs.drop_last()[i]).id != id by {
            assert(docs.drop_last()[i] == docs[i]);
        }
        lemma_without_absent(docs.drop_last(), id);
        assert(docs.remove(k) =~= docs.drop_last());
    }
}

/// Taking a term out of the pending terms at the front.
proof fn lemma_pending_skip(terms: Seq<(Seq<char>, nat)>, j: int, t: Seq<char>)
    requires
        terms_distinct(terms),
        0 <= j < terms.len(),
    ensures
        pending(terms.skip(j), t) == pending(terms.skip(j + 1), t) + if t == terms[j].0 { 1nat } else { 0nat },
{
    if t == terms[j].0 {
        assert(terms.skip(j)[0] == terms[j]);
        if exists|i: int| 0 <= i < terms.skip(j + 1).len() && (#[trigger] terms.skip(j + 1)[i]).0 == t {
            let i = choose|i: int| 0 <= i < terms.skip(j + 1).len() && (#[trigger] terms.skip(j + 1)[i]).0 == t;
            assert(terms.skip(j + 1)[i] == terms[j + 1 + i]);
            assert(terms[j].0 == terms[j + 1 + i].0);
        }
    } else {
        if exists|i: int| 0 <= i < terms.skip(j).len() && (#[trigger] terms.skip(j)[i]).0 == t {
            let i = choose|i: int| 0 <= i < terms.skip(j).len() && (#[trigger] terms.skip(j)[i]).0 == t;
            assert(i != 0);
            assert(terms.skip(j + 1)[i - 1] == terms.skip(j)[i]);
        }
        if exists|i: int| 0 <= i < terms.skip(j + 1).len() && (#[trigger] terms.skip(j + 1)[i]).0 == t {
            let i = choose|i: int| 0 <= i < terms.skip(j + 1).len() && (#[trigger] terms.skip(j + 1)[i]).0 == t;
            assert(terms.skip(j)[i + 1] == terms.skip(j + 1)[i]);
        }
    }
}

/// Adding a term to the pending terms at the back.
proof fn lemma_pending_take(terms: Seq<(Seq<char>, nat)>, j: int, t: Seq<char>)
    requires
        terms_distinct(terms),
        0 <= j < terms.len(),
    ensures
        pending(terms.take(j + 1), t) == pending(terms.take(j), t) + if t == terms[j].0 { 1nat } else { 0nat },
{
    if t == terms[j].0 {
        assert(terms.take(j + 1)[j] == terms[j]);
        if exists|i: int| 0 <= i < terms.take(j).len() && (#[trigger] terms.take(j)[i]).0 == t {
            let i = choose|i: int| 0 <= i < terms.take(j).len() && (#[trigger] terms.take(j)[i]).0 == t;
            assert(terms.take(j)[i] == terms[i]);
            assert(terms[i].0 == terms[j].0);
        }
    } else {
        if exists|i: int| 0 <= i < terms.take(j + 1).len() && (#[trigger] terms.take(j + 1)[i]).0 == t {
            let i = choose|i: int| 0 <= i < terms.take(j + 1).len() && (#[trigger] terms.take(j + 1)[i]).0 == t;
            assert(i != j);
            assert(terms.take(j)[i] == terms.take(j + 1)[i]);
        }
        if exists|i: int| 0 <= i < terms.take(j).len() && (#[trigger] terms.take(j)[i]).0 == t {
            let i = choose|i: int| 0 <= i < terms.take(j).len() && (#[trigger] terms.take(j)[i]).0 == t;
            assert(terms.take(j + 1)[i] == terms.take(j)[i]);
        }
    }
}

/// An entry whose count goes down by one, staying positive.
proof fn lemma_df_lower(dfs: Seq<(String, usize)>, a: int, name: String, docs: Seq<DocView>,
    e: Seq<(Seq<char>, nat)>, e2: Seq<(Seq<char>, nat)>)
    requires
        df_reflects(dfs, docs, e),
        0 <= a < dfs.len(),
        name@ == dfs[a].0@,
        dfs[a].1 > 1,
        forall|t: Seq<char>| #[trigger] pending(e, t) == pending(e2, t) + if t == dfs[a].0@ { 1nat } else { 0nat },
    ensures
        df_reflects(dfs.update(a, (name, (dfs[a].1 - 1) as usize)), docs, e2),
{
    let d2 = dfs.update(a, (name, (dfs[a].1 - 1) as usize));
    assert forall|b: int| 0 <= b < d2.len() implies
        (#[trigger] d2[b]).1 == docs_with(docs, d2[b].0@) + pending(e2, d2[b].0@) && d2[b].1 > 0 by {
        assert(pending(e, dfs[b].0@) == pending(e2, dfs[b].0@) + if dfs[b].0@ == dfs[a].0@ { 1nat } else { 0nat });
        if b != a {
            assert(dfs[b].0@ != dfs[a].0@);
        }
    }
    assert forall|t: Seq<char>| docs_with(docs, t) + pending(e2, t) > 0 implies
        exists|b: int| 0 <= b < d2.len() && (#[trigger] d2[b]).0@ == t by {
        assert(pending(e, t) == pending(e2, t) + if t == dfs[a].0@ { 1nat } else { 0nat });
        let b = choose|b: int| 0 <= b < dfs.len() && (#[trigger] dfs[b]).0@ == t;
        assert(d2[b].0@ == t);
    }
}

/// An entry whose count goes from one to zero leaves.
proof fn lemma_df_drop(dfs: Seq<(String, usize)>, a: int, docs: Seq<DocView>,
    e: Seq<(Seq<char>, nat)>, e2: Seq<(Seq<char>, nat)>)
    requires
        df_reflects(dfs, docs, e),
        0 <= a < dfs.len(),
        dfs[a].1 == 1,
        forall|t: Seq<char>| #[trigger] pending(e, t) == pending(e2, t) + if t == dfs[a].0@ { 1nat } else { 0nat },
    ensures
        df_reflects(dfs.remove(a), docs, e2),
{
    let d2 = dfs.remove(a);
    assert forall|x: int, y: int| 0 <= x < y < d2.len() implies (#[trigger] d2[x]).0@ != (#[trigger] d2[y]).0@ by {
        let x0 = if x < a { x } else { x + 1 };
        let y0 = if y < a { y } else { y + 1 };
        assert(d2[x] == dfs[x0] && d2[y] == dfs[y0]);
    }
    assert forall|b: int| 0 <= b < d2.len() implies
        (#[trigger] d2[b]).1 == docs_with(docs, d2[b].0@) + pending(e2, d2[b].0@) && d2[b].1 > 0 by {
        let b0 = if b < a { b } else { b + 1 };
        assert(d2[b] == dfs[b0]);
        assert(dfs[b0].0@ != dfs[a].0@);
        assert(pending(e, dfs[b0].0@) == pending(e2, dfs[b0].0@));
    }
    assert forall|t: Seq<char>| docs_with(docs, t) + pending(e2, t) > 0 implies
        exists|b: int| 0 <= b < d2.len() && (#[trigger] d2[b]).0@ == t by {
        assert(pending(e, t) == pending(e2, t) + if t == dfs[a].0@ { 1nat } else { 0nat });
        let b0 = choose|b: int| 0 <= b < dfs.len() && (#[trigger] dfs[b]).0@ == t;
        if b0 == a {
            assert(dfs[a].1 == docs_with(docs, t) + pending(e, t));
            assert(false);
        } else if b0 < a {
            assert(d2[b0] == dfs[b0]);
        } else {
            assert(d2[b0 - 1] == dfs[b0]);
        }
    }
}

/// An entry whose count goes up by one.
proof fn lemma_df_raise(dfs: Seq<(String, usize)>, a: int, name: String, docs: Seq<DocView>,
    e: Seq<(Seq<char>, nat)>, e2: Seq<(Seq<char>, nat)>)
    requires
        df_reflects(dfs, docs, e),
        0 <= a < dfs.len(),
        name@ == dfs[a].0@,
        dfs[a].1 < usize::MAX,
        forall|t: Seq<char>| #[trigger] pending(e2, t) == pending(e, t) + if t == dfs[a].0@ { 1nat } else { 0nat },
    ensures
        df_reflects(dfs.update(a, (name, (dfs[a].1 + 1) as usize)), docs, e2),
{
    let d2 = dfs.update(a, (name, (dfs[a].1 + 1) as usize));
    assert forall|b: int| 0 <= b < d2.len() implies
        (#[trigger] d2[b]).1 == docs_with(docs, d2[b].0@) + pending(e2, d2[b].0@) && d2[b].1 > 0 by {
        assert(pending(e2, dfs[b].0@) == pending(e, dfs[b].0@) + if dfs[b].0@ == dfs[a].0@ { 1nat } else { 0nat });
        if b != a {
            assert(dfs[b].0@ != dfs[a].0@);
        }
    }
    assert forall|t: Seq<char>| docs_with(docs, t) + pending(e2, t) > 0 implies
        exists|b: int| 0 <= b < d2.len() && (#[trigger] d2[b]).0@ == t by {
        assert(pending(e2, t) == pending(e, t) + if t == dfs[a].0@ { 1nat } else { 0nat });
        if t == dfs[a].0@ {
            assert(d2[a].0@ == t);
        } else {
            let b = choose|b: int| 0 <= b < dfs.len() && (#[trigger] dfs[b]).0@ == t;
            assert(d2[b].0@ == t);
        }
    }
}

/// A new entry with count one for a term no entry has.
proof fn lemma_df_add(dfs: Seq<(String, usize)>, name: String, docs: Seq<DocView>,
    e: Seq<(Seq<char>, nat)>, e2: Seq<(Seq<char>, nat)>)
    requires
        df_reflects(dfs, docs, e),
        forall|b: int| 0 <= b < dfs.len() ==> (#[trigger] dfs[b]).0@ != name@,
        forall|t: Seq<char>| #[trigger] pending(e2, t) == pending(e, t) + if t == name@ { 1nat } else { 0nat },
    ensures
        df_reflects(dfs.push((name, 1usize)), docs, e2),
{
    let d2 = dfs.push((name, 1usize));
    assert(docs_with(docs, name@) + pending(e, name@) == 0) by {
        if docs_with(docs, name@) + pending(e, name@) > 0 {
            let b = choose|b: int| 0 <= b < dfs.len() && (#[trigger] dfs[b]).0@ == name@;
        }
    }
    assert forall|x: int, y: int| 0 <= x < y < d2.len() implies (#[trigger] d2[x]).0@ != (#[trigger] d2[y]).0@ by {
        if y == dfs.len() {
            assert(d2[x] == dfs[x]);
        } else {
            assert(d2[x] == dfs[x] && d2[y] == dfs[y]);
        }
    }
    assert forall|b: int| 0 <= b < d2.len() implies
        (#[trigger] d2[b]).1 == docs_with(docs, d2[b].0@) + pending(e2, d2[b].0@) && d2[b].1 > 0 by {
        if b < dfs.len() {
            assert(d2[b] == dfs[b]);
            assert(pending(e2, dfs[b].0@) == pending(e, dfs[b].0@) + if dfs[b].0@ == name@ { 1nat } else { 0nat });
        } else {
            assert(pending(e2, name@) == pending(e, name@) + 1);
        }
    }
    assert forall|t: Seq<char>| docs_with(docs, t) + pending(e2, t) > 0 implies
        exists|b: int| 0 <= b < d2.len() && (#[trigger] d2[b]).0@ == t by {
        assert(pending(e2, t) == pending(e, t) + if t == name@ { 1nat } else { 0nat });
        if t == name@ {
            assert(d2[dfs.len() as int].0@ == t);
        } else {
            let b = choose|b: int| 0 <= b < dfs.len() && (#[trigger] dfs[b]).0@ == t;
            assert(d2[b].0@ == t);
        }
    }
}

/// The position of the entry for `term`, if any.
fn find_entry(dfs: &Vec<(String, usize)>, term: &str) -> (r: Option<usize>)
    ensures
        match r {
            Some(a) => a < dfs@.len() && dfs@[a as int].0@ == term@,
            None => forall|a: int| 0 <= a < dfs@.len() ==> (#[trigger] dfs@[a]).0@ != term@,
        },
{
    let mut a: usize = 0;
    while a < dfs.len()
        invariant
            a <= dfs@.len(),
            forall|b: int| 0 <= b < a ==> (#[trigger] dfs@[b]).0@ != term@,
        decreases dfs.len() - a,
    {
        let o = order_texts(dfs[a].0.as_str(), term);
        proof {
            lemma_text_order_zero(dfs@[a as int].0@, term@);
        }
        if o == 0 {
            return Some(a);
        }
        a = a + 1;
    }
    None
}

/// A document count never exceeds the number of documents.
proof fn lemma_docs_with_bound(docs: Seq<DocView>, t: Seq<char>)
    ensures
        docs_with(docs, t) <= docs.len(),
    decreases docs.len(),
{
    if docs.len() > 0 {
        lemma_docs_with_bound(docs.drop_last(), t);
    }
}

/// Pending over all the terms of a document is whether it holds the term.
proof fn lemma_pending_all(d: DocView, t: Seq<char>)
    ensures
        pending(d.terms, t) == if has_term(d, t) { 1nat } else { 0nat },
{
}

/// Whether `docs` holds no document of id `id`.
spec fn id_absent(docs: Seq<DocView>, id: u128) -> bool {
    forall|i: int| 0 <= i < docs.len() ==> (#[trigger] docs[i]).id != id
}

/// Document frequencies carry over when the counts they are checked
/// against agree term by term.
proof fn lemma_df_shift(dfs: Seq<(String, usize)>, d0: Seq<DocView>, e0: Seq<(Seq<char>, nat)>,
    d1: Seq<DocView>, e1: Seq<(Seq<char>, nat)>)
    requires
        df_reflects(dfs, d0, e0),
        forall|t: Seq<char>| #[trigger] docs_with(d1, t) + pending(e1, t) == docs_with(d0, t) + pending(e0, t),
    ensures
        df_reflects(dfs, d1, e1),
{
    assert forall|a: int| 0 <= a < dfs.len() implies
        (#[trigger] dfs[a]).1 == docs_with(d1, dfs[a].0@) + pending(e1, dfs[a].0@) && dfs[a].1 > 0 by {
        assert(docs_with(d1, dfs[a].0@) + pending(e1, dfs[a].0@) == docs_with(d0, dfs[a].0@) + pending(e0, dfs[a].0@));
    }
    assert forall|t: Seq<char>| docs_with(d1, t) + pending(e1, t) > 0 implies
        exists|a: int| 0 <= a < dfs.len() && (#[trigger] dfs[a]).0@ == t by {
        assert(docs_with(d1, t) + pending(e1, t) == docs_with(d0, t) + pending(e0, t));
    }
}

/// A count of occurrences never exceeds the number of tokens.
proof fn lemma_occurrences_bound(tokens: Seq<Seq<char>>, t: Seq<char>)
    ensures
        occurrences(tokens, t) <= tokens.len(),
    decreases tokens.len(),
{
    if tokens.len() > 0 {
        lemma_occurrences_bound(tokens.drop_last(), t);
    }
}

/// Counting one more occurrence of a term already listed.
proof fn lemma_counts_bump(terms: Seq<(Seq<char>, nat)>, tokens: Seq<Seq<char>>, a: int, x: Seq<char>)
    requires
        counts_tokens(terms, tokens),
        0 <= a < terms.len(),
        terms[a].0 == x,
    ensures
        counts_tokens(terms.update(a, (x, terms[a].1 + 1)), tokens.push(x)),
{
    let t2 = terms.update(a, (x, terms[a].1 + 1));
    let k2 = tokens.push(x);
    assert forall|i: int| 0 <= i < t2.len() implies (#[trigger] t2[i]).1 == occurrences(k2, t2[i].0) by {
        lemma_occurrences_push(tokens, x, t2[i].0);
        if i != a {
            assert(terms[i].0 != terms[a].0);
        }
    }
    assert forall|t: Seq<char>| #[trigger] occurrences(k2, t) > 0 <==> exists|i: int| 0 <= i < t2.len() && (#[trigger] t2[i]).0 == t by {
        lemma_occurrences_push(tokens, x, t);
        if occurrences(k2, t) > 0 {
            if t == x {
                assert(t2[a].0 == t);
            } else {
                assert(occurrences(tokens, t) > 0);
                let i = choose|i: int| 0 <= i < terms.len() && (#[trigger] terms[i]).0 == t;
                assert(t2[i].0 == t);
            }
        }
        if exists|i: int| 0 <= i < t2.len() && (#[trigger] t2[i]).0 == t {
            let i = choose|i: int| 0 <= i < t2.len() && (#[trigger] t2[i]).0 == t;
            if i != a {
                assert(terms[i].0 == t);
                assert(terms[i].1 == occurrences(tokens, t));
                assert(terms[i].1 > 0);
            }
        }
    }
    assert forall|i: int, j: int| 0 <= i < j < t2.len() implies (#[trigger] t2[i]).0 != (#[trigger] t2[j]).0 by {
        assert(terms[i].0 != terms[j].0);
    }
}

/// Counting the first occurrence of a term not yet listed.
proof fn lemma_counts_new(terms: Seq<(Seq<char>, nat)>, tokens: Seq<Seq<char>>, x: Seq<char>)
    requires
        counts_tokens(terms, tokens),
        forall|i: int| 0 <= i < terms.len() ==> (#[trigger] terms[i]).0 != x,
    ensures
        counts_tokens(terms.push((x, 1nat)), tokens.push(x)),
{
    let t2 = terms.push((x, 1nat));
    let k2 = tokens.push(x);
    assert(occurrences(tokens, x) == 0) by {
        if occurrences(tokens, x) > 0 {
            let i = choose|i: int| 0 <= i < terms.len() && (#[trigger] terms[i]).0 == x;
        }
    }
    assert forall|i: int| 0 <= i < t2.len() implies (#[trigger] t2[i]).1 == occurrences(k2, t2[i].0) by {
        lemma_occurrences_push(tokens, x, t2[i].0);
        if i < terms.len() {
            assert(t2[i] == terms[i]);
        }
    }
    assert forall|t: Seq<char>| #[trigger] occurrences(k2, t) > 0 <==> exists|i: int| 0 <= i < t2.len() && (#[trigger] t2[i]).0 == t by {
        lemma_occurrences_push(tokens, x, t);
        if occurrences(k2, t) > 0 {
            if t == x {
                assert(t2[terms.len() as int].0 == t);
            } else {
                let i = choose|i: int| 0 <= i < terms.len() && (#[trigger] terms[i]).0 == t;
                assert(t2[i].0 == t);
            }
        }
        if exists|i: int| 0 <= i < t2.len() && (#[trigger] t2[i]).0 == t {
            let i = choose|i: int| 0 <= i < t2.len() && (#[trigger] t2[i]).0 == t;
            if i < terms.len() {
                assert(t2[i] == terms[i]);
                assert(terms[i].1 == occurrences(tokens, t));
                assert(terms[i].1 > 0);
            }
        }
    }
    assert forall|i: int, j: int| 0 <= i < j < t2.len() implies (#[trigger] t2[i]).0 != (#[trigger] t2[j]).0 by {
        if j < terms.len() {
            assert(t2[i] == terms[i] && t2[j] == terms[j]);
        } else {
            assert(t2[i] == terms[i]);
        }
    }
}

/// The position of `term` among counted terms, if any.
fn find_term(tf: &Vec<(String, u32)>, term: &str) -> (r: Option<usize>)
    ensures
        match r {
            Some(a) => a < tf@.len() && tf@[a as int].0@ == term@,
            None => forall|a: int| 0 <= a < tf@.len() ==> (#[trigger] tf@[a]).0@ != term@,
        },
{
    let mut a: usize = 0;
    while a < tf.len()
        invariant
            a <= tf@.len(),
            forall|b: int| 0 <= b < a ==> (#[trigger] tf@[b]).0@ != term@,
        decreases tf.len() - a,
    {
        let o = order_texts(tf[a].0.as_str(), term);
        proof {
            lemma_text_order_zero(tf@[a as int].0@, term@);
        }
        if o == 0 {
            return Some(a);
        }
        a = a + 1;
    }
    None
}

/// Counts the tokens: each distinct token once, with its number of
/// occurrences, in the order of first occurrence.
fn count_terms(tokens: &Vec<String>) -> (r: Vec<(String, u32)>)
    requires
        tokens@.len() <= u32::MAX,
    ensures
        counts_tokens(terms_view(r@), tokens@.map_values(|t: String| t@)),
{
    let ghost toks = tokens@.map_values(|t: String| t@);
    let mut tf: Vec<(String, u32)> = Vec::new();
    let mut k: usize = 0;
    proof {
        assert(terms_view(tf@) =~= Seq::<(Seq<char>, nat)>::empty());
        assert(toks.take(0) =~= Seq::<Seq<char>>::empty());
    }
    while k < tokens.len()
        invariant
            k <= tokens@.len(),
            tokens@.len() <= u32::MAX,
            toks == tokens@.map_values(|t: String| t@),
            counts_tokens(terms_view(tf@), toks.take(k as int)),
        decreases tokens.len() - k,
    {
        let token = &tokens[k];
        let ghost x = token@;
        let ghost before = terms_view(tf@);
        proof {
            assert(toks[k as int] == x);
            assert(toks.take(k + 1) =~= toks.take(k as int).push(x));
        }
        match find_term(&tf, token.as_str()) {
            Some(a) => {
                let c = tf[a].1;
                proof {
                    assert(before[a as int] == (x, c as nat));
                    lemma_occurrences_bound(toks.take(k as int), x);
                    lemma_counts_bump(before, toks.take(k as int), a as int, x);
                }
                let name = tf[a].0.clone();
                tf.set(a, (name, c + 1));
                proof {
                    assert(terms_view(tf@) =~= before.update(a as int, (x, before[a as int].1 + 1)));
                }
            },
            None => {
                proof {
                    assert forall|i: int| 0 <= i < before.len() implies (#[trigger] before[i]).0 != x by {
                        assert(tf@[i].0@ != x);
                    }
                    lemma_counts_new(before, toks.take(k as int), x);
                }
                tf.push((token.clone(), 1));
                proof {
                    assert(terms_view(tf@) =~= before.push((x, 1nat)));
                }
            },
        }
        k = k + 1;
    }
    proof {
        assert(toks.take(k as int) =~= toks);
    }
    tf
}

/// Takes the document of `id`, if there is one, out of the parts, with the
/// document frequencies and the token total it contributed.
fn forget_parts(docs: &mut Vec<(VectorId, DocStats)>, dfs: &mut Vec<(String, usize)>, total: &mut u64, id: VectorId)
    requires
        parts_wf(old(docs)@, old(dfs)@, *old(total)),
    ensures
        parts_wf(final(docs)@, final(dfs)@, *final(total)),
        docs_view(final(docs)@) == without_doc(docs_view(old(docs)@), id@),
        id_absent(docs_view(final(docs)@), id@),
        final(docs)@.len() <= old(docs)@.len(),
{
    let ghost d0 = docs_view(docs@);
    let mut k: usize = 0;
    while k < docs.len()
        invariant
            k <= docs@.len(),
            d0 == docs_view(docs@),
            forall|b: int| 0 <= b < k ==> (#[trigger] d0[b]).id != id@,
        ensures
            k < docs@.len() ==> d0[k as int].id == id@,
        decreases docs.len() - k,
    {
        proof {
            assert(d0[k as int] == doc_view(docs@[k as int].0, docs@[k as int].1));
        }
        if docs[k].0.as_u128() == id.as_u128() {
            break;
        }
        k = k + 1;
    }
    if k == docs.len() {
        proof {
            lemma_without_absent(d0, id@);
        }
        return;
    }
    proof {
        assert(d0[k as int].id == id@);
        lemma_without_present(d0, id@, k as int);
        lemma_length_sum_remove(d0, k as int);
    }
    let removed = docs.remove(k);
    let ghost d1 = docs_view(docs@);
    let ghost gone = d0[k as int];
    proof {
        assert(d1 =~= d0.remove(k as int));
        assert(gone == doc_view(removed.0, removed.1));
        assert forall|t: Seq<char>| #[trigger] docs_with(d1, t) + pending(gone.terms, t) == docs_with(d0, t) + pending(Seq::empty(), t) by {
            lemma_docs_with_remove(d0, k as int, t);
            lemma_pending_all(gone, t);
        }
        lemma_df_shift(dfs@, d0, Seq::empty(), d1, gone.terms);
        assert(terms_view(removed.1.term_frequencies@).skip(0) =~= gone.terms);
    }
    let tf = &removed.1.term_frequencies;
    let mut j: usize = 0;
    while j < tf.len()
        invariant
            j <= tf@.len(),
            *tf == removed.1.term_frequencies,
            terms_view(tf@) == gone.terms,
            terms_distinct(gone.terms),
            d1 == docs_view(docs@),
            df_reflects(dfs@, d1, gone.terms.skip(j as int)),
        decreases tf.len() - j,
    {
        let ghost x = tf@[j as int].0@;
        proof {
            assert(gone.terms[j as int].0 == x);
            assert forall|t: Seq<char>| #[trigger] pending(gone.terms.skip(j as int), t)
                == pending(gone.terms.skip(j + 1), t) + if t == x { 1nat } else { 0nat } by {
                lemma_pending_skip(gone.terms, j as int, t);
            }
        }
        match find_entry(dfs, tf[j].0.as_str()) {
            Some(a) => {
                let c = dfs[a].1;
                if c > 1 {
                    let name = dfs[a].0.clone();
                    proof {
                        lemma_df_lower(dfs@, a as int, name, d1, gone.terms.skip(j as int), gone.terms.skip(j + 1));
                    }
                    dfs.set(a, (name, c - 1));
                } else {
                    proof {
                        lemma_df_drop(dfs@, a as int, d1, gone.terms.skip(j as int), gone.terms.skip(j + 1));
                    }
                    dfs.remove(a);
                }
            },
            None => {
                proof {
                    assert(pending(gone.terms.skip(j as int), x) > 0);
                    assert(docs_with(d1, x) + pending(gone.terms.skip(j as int), x) > 0);
                    let a = choose|a: int| 0 <= a < dfs@.len() && (#[trigger] dfs@[a]).0@ == x;
                    assert(false);
                }
            },
        }
        j = j + 1;
    }
    proof {
        assert(gone.terms.skip(j as int) =~= Seq::<(Seq<char>, nat)>::empty());
        assert(gone.length == removed.1.length as nat);
    }
    *total = *total - removed.1.length as u64;
    proof {
        assert forall|i: int, j2: int| 0 <= i < j2 < d1.len() implies (#[trigger] d1[i]).id != (#[trigger] d1[j2]).id by {
            let i0 = if i < k { i } else { i + 1 };
            let j0 = if j2 < k { j2 } else { j2 + 1 };
            assert(d1[i] == d0[i0] && d1[j2] == d0[j0]);
        }
        assert forall|i: int| 0 <= i < d1.len() implies terms_distinct((#[trigger] d1[i]).terms) by {
            let i0 = if i < k { i } else { i + 1 };
            assert(d1[i] == d0[i0]);
        }
        assert forall|i: int| 0 <= i < d1.len() implies (#[trigger] d1[i]).id != id@ by {
            let i0 = if i < k { i } else { i + 1 };
            assert(d1[i] == d0[i0]);
            assert(d0[i0].id != d0[k as int].id);
        }
    }
}

impl InMemoryLexicalIndex {
    /// The documents, in insertion order.
    pub closed spec fn documents(&self) -> Seq<DocView> {
        docs_view(self.docs@)
    }

    #[verifier::type_invariant]
    spec fn well_formed(self) -> bool {
        parts_wf(self.docs@, self.doc_frequencies@, self.total_tokens)
    }

    /// Creates an empty index.
    pub fn new() -> (r: InMemoryLexicalIndex)
        ensures
            r.documents() == Seq::<DocView>::empty(),
    {
        let r = InMemoryLexicalIndex { docs: Vec::new(), doc_frequencies: Vec::new(), total_tokens: 0 };
        proof {
            assert(docs_view(r.docs@) =~= Seq::<DocView>::empty());
        }
        r
    }

    /// Number of indexed documents.
    pub fn len(&self) -> (r: usize)
        ensures
            r == self.documents().len(),
    {
        self.docs.len()
    }

    /// Whether the index holds no documents.
    pub fn is_empty(&self) -> (r: bool)
        ensures
            r == (self.documents().len() == 0),
    {
        self.docs.len() == 0
    }

    /// The total number of tokens of the indexed documents.
    pub fn total_tokens(&self) -> (r: u64)
        ensures
            r == length_sum(self.documents()),
    {
        proof {
            use_type_invariant(self);
        }
        self.total_tokens
    }

    /// The number of indexed documents holding `term`.
    pub fn doc_frequency(&self, term: &str) -> (r: usize)
        ensures
            r == docs_with(self.documents(), term@),
    {
        proof {
            use_type_invariant(self);
        }
        let mut a: usize = 0;
        while a < self.doc_frequencies.len()
            invariant
                a <= self.doc_frequencies@.len(),
                forall|b: int| 0 <= b < a ==> (#[trigger] self.doc_frequencies@[b]).0@ != term@,
                df_reflects(self.doc_frequencies@, self.documents(), Seq::empty()),
            decreases self.doc_frequencies.len() - a,
        {
            let o = order_texts(self.doc_frequencies[a].0.as_str(), term);
            proof {
                lemma_text_order_zero(self.doc_frequencies@[a as int].0@, term@);
            }
            if o == 0 {
                proof {
                    assert(pending(Seq::empty(), term@) == 0);
                }
                return self.doc_frequencies[a].1;
            }
            a = a + 1;
        }
        proof {
            assert(pending(Seq::empty(), term@) == 0);
        }
        0
    }

    /// The id and token count of the document at position `i`.
    pub fn document_at(&self, i: usize) -> (r: (VectorId, u32))
        requires
            i < self.documents().len(),
        ensures
            r.0@ == self.documents()[i as int].id,
            r.1 == self.documents()[i as int].length,
    {
        (self.docs[i].0, self.docs[i].1.length)
    }

    /// Whether a document of `token_count` tokens indexed under `id` keeps
    /// the counters within their types: the count fits a `u32`, the token
    /// total of the other documents plus it fits a `u64`, and there is room
    /// for one more document.
    pub fn has_room(&self, id: VectorId, token_count: usize) -> (r: bool)
        ensures
            r == (token_count <= u32::MAX
                && length_sum(without_doc(self.documents(), id@)) + token_count <= u64::MAX
                && self.documents().len() < usize::MAX),
    {
        proof {
            use_type_invariant(self);
        }
        let ghost d0 = self.documents();
        if token_count > 4294967295usize || self.docs.len() == usize::MAX {
            return false;
        }
        let mut k: usize = 0;
        while k < self.docs.len()
            invariant
                k <= self.docs@.len(),
                d0 == self.documents(),
                d0 == docs_view(self.docs@),
                forall|b: int| 0 <= b < k ==> (#[trigger] d0[b]).id != id@,
            ensures
                k < self.docs@.len() ==> d0[k as int].id == id@,
            decreases self.docs.len() - k,
        {
            proof {
                assert(d0[k as int] == doc_view(self.docs@[k as int].0, self.docs@[k as int].1));
            }
            if self.docs[k].0.as_u128() == id.as_u128() {
                break;
            }
            k = k + 1;
        }
        let others: u64 = if k < self.docs.len() {
            proof {
                lemma_without_present(d0, id@, k as int);
                lemma_length_sum_remove(d0, k as int);
                assert(d0[k as int] == doc_view(self.docs@[k as int].0, self.docs@[k as int].1));
            }
            self.total_tokens - self.docs[k].1.length as u64
        } else {
            proof {
                lemma_without_absent(d0, id@);
            }
            self.total_tokens
        };
        others <= u64::MAX - token_count as u64
    }

    /// The number of occurrences of `term` in the document at position `i`,
    /// `None` when it does not hold the term.
    pub fn term_frequency(&self, i: usize, term: &str) -> (r: Option<u32>)
        requires
            i < self.documents().len(),
        ensures
            match r {
                Some(n) => lookup_term(self.documents()[i as int].terms, term@) == Some(n as nat),
                None => lookup_term(self.documents()[i as int].terms, term@) is None,
            },
    {
        let tf = &self.docs[i].1.term_frequencies;
        let ghost terms = self.documents()[i as int].terms;
        proof {
            assert(self.documents()[i as int] == doc_view(self.docs@[i as int].0, self.docs@[i as int].1));
            assert(terms.skip(0) =~= terms);
        }
        let mut a: usize = 0;
        while a < tf.len()
            invariant
                a <= tf@.len(),
                i < self.documents().len(),
                terms == self.documents()[i as int].terms,
                terms == terms_view(tf@),
                lookup_term(terms, term@) == lookup_term(terms.skip(a as int), term@),
            decreases tf.len() - a,
        {
            let o = order_texts(tf[a].0.as_str(), term);
            proof {
                lemma_text_order_zero(tf@[a as int].0@, term@);
                assert(terms.skip(a as int)[0] == terms[a as int]);
                assert(terms[a as int] == (tf@[a as int].0@, tf@[a as int].1 as nat));
                assert(terms.skip(a as int).drop_first() =~= terms.skip(a + 1));
            }
            if o == 0 {
                return Some(tf[a].1);
            }
            a = a + 1;
        }
        None
    }

    /// For each query term the document at position `i` holds, in query
    /// order, its number of occurrences there and its document frequency:
    /// what a BM25 score of the document adds up.
    pub fn query_hits(&self, i: usize, query_terms: &Vec<String>) -> (r: Vec<(u32, usize)>)
        requires
            i < self.documents().len(),
        ensures
            hit_counts(r@) == query_hits(self.documents()[i as int], self.documents(),
                query_terms@.map_values(|t: String| t@)),
    {
        let ghost q = query_terms@.map_values(|t: String| t@);
        let mut out: Vec<(u32, usize)> = Vec::new();
        let mut k: usize = 0;
        proof {
            assert(q.take(0) =~= Seq::<Seq<char>>::empty());
        }
        while k < query_terms.len()
            invariant
                k <= query_terms@.len(),
                i < self.documents().len(),
                q == query_terms@.map_values(|t: String| t@),
                hit_counts(out@) == query_hits(self.documents()[i as int], self.documents(), q.take(k as int)),
            decreases query_terms.len() - k,
        {
            let term = query_terms[k].as_str();
            proof {
                assert(q.take(k + 1).drop_last() =~= q.take(k as int));
                assert(q.take(k + 1).last() == term@);
            }
            match self.term_frequency(i, term) {
                Some(f) => {
                    let df = self.doc_frequency(term);
                    let ghost before = hit_counts(out@);
                    out.push((f, df));
                    proof {
                        assert(hit_counts(out@) =~= before.push((f as nat, df as nat)));
                    }
                },
                None => {},
            }
            k = k + 1;
        }
        proof {
            assert(q.take(k as int) =~= q);
        }
        out
    }
}

impl InMemoryLexicalIndex {
    /// Takes the document of `id` out, if it is indexed, with the document
    /// frequencies and token total it contributed.
    fn forget(&mut self, id: VectorId)
        ensures
            final(self).documents() == without_doc(old(self).documents(), id@),
            id_absent(final(self).documents(), id@),
            final(self).documents().len() <= old(self).documents().len(),
    {
        let mut cur = InMemoryLexicalIndex::new();
        std::mem::swap(self, &mut cur);
        proof {
            use_type_invariant(&cur);
        }
        let InMemoryLexicalIndex { docs, doc_frequencies, total_tokens } = cur;
        let mut docs = docs;
        let mut dfs = doc_frequencies;
        let mut total = total_tokens;
        forget_parts(&mut docs, &mut dfs, &mut total, id);
        *self = InMemoryLexicalIndex { docs, doc_frequencies: dfs, total_tokens: total };
    }

    /// Removes the document of `id`; removing an absent id changes nothing.
    pub fn remove(&mut self, id: &VectorId) -> (r: Result<(), LexicalError>)
        ensures
            r is Ok,
            final(self).documents() == without_doc(old(self).documents(), id@),
    {
        self.forget(*id);
        Ok(())
    }

    /// Indexes `document` under `id`, replacing the document `id` had.
    pub fn insert(&mut self, id: VectorId, document: &Document) -> (r: Result<(), LexicalError>)
        requires
            tokens_of(document@).len() <= u32::MAX,
            length_sum(without_doc(old(self).documents(), id@)) + tokens_of(document@).len() <= u64::MAX,
            old(self).documents().len() < usize::MAX,
        ensures
            r is Ok,
            final(self).documents().drop_last() == without_doc(old(self).documents(), id@),
            final(self).documents().len() == without_doc(old(self).documents(), id@).len() + 1,
            final(self).documents().last().id == id@,
            final(self).documents().last().length == tokens_of(document@).len(),
            counts_tokens(final(self).documents().last().terms, tokens_of(document@)),
    {
        self.forget(id);
        let mut cur = InMemoryLexicalIndex::new();
        std::mem::swap(self, &mut cur);
        proof {
            use_type_invariant(&cur);
        }
        let InMemoryLexicalIndex { docs, doc_frequencies, total_tokens } = cur;
        let mut docs = docs;
        let mut dfs = doc_frequencies;
        let ghost d1 = docs_view(docs@);
        let tokens = tokenize(document.as_str());
        proof {
            assert(tokens@.len() == tokens_of(document@).len());
        }
        let tf = count_terms(&tokens);
        let ghost terms = terms_view(tf@);
        let length = tokens.len() as u32;
        let mut j: usize = 0;
        proof {
            assert(terms.take(0) =~= Seq::<(Seq<char>, nat)>::empty());
            assert(df_reflects(dfs@, d1, Seq::<(Seq<char>, nat)>::empty()));
        }
        while j < tf.len()
            invariant
                j <= tf@.len(),
                terms == terms_view(tf@),
                terms_distinct(terms),
                d1 == docs_view(docs@),
                d1.len() < usize::MAX,
                df_reflects(dfs@, d1, terms.take(j as int)),
            decreases tf.len() - j,
        {
            let ghost x = tf@[j as int].0@;
            proof {
                assert(terms[j as int].0 == x);
                assert forall|t: Seq<char>| #[trigger] pending(terms.take(j + 1), t)
                    == pending(terms.take(j as int), t) + if t == x { 1nat } else { 0nat } by {
                    lemma_pending_take(terms, j as int, t);
                }
            }
            match find_entry(&dfs, tf[j].0.as_str()) {
                Some(a) => {
                    let c = dfs[a].1;
                    proof {
                        assert(pending(terms.take(j as int), x) == 0) by {
                            if pending(terms.take(j as int), x) > 0 {
                                let i = choose|i: int| 0 <= i < terms.take(j as int).len() && (#[trigger] terms.take(j as int)[i]).0 == x;
                                assert(terms[i].0 == terms[j as int].0);
                            }
                        }
                        lemma_docs_with_bound(d1, x);
                    }
                    let name = dfs[a].0.clone();
                    proof {
                        lemma_df_raise(dfs@, a as int, name, d1, terms.take(j as int), terms.take(j + 1));
                    }
                    dfs.set(a, (name, c + 1));
                },
                None => {
                    let name = tf[j].0.clone();
                    proof {
                        lemma_df_add(dfs@, name, d1, terms.take(j as int), terms.take(j + 1));
                    }
                    dfs.push((name, 1));
                },
            }
            j = j + 1;
        }
        let ghost fresh = DocView { id: id@, terms: terms, length: length as nat };
        proof {
            assert(terms.take(j as int) =~= terms);
            assert forall|t: Seq<char>| #[trigger] docs_with(d1.push(fresh), t) + pending(Seq::empty(), t)
                == docs_with(d1, t) + pending(terms, t) by {
                lemma_docs_with_push(d1, fresh, t);
                lemma_pending_all(fresh, t);
            }
            lemma_df_shift(dfs@, d1, terms, d1.push(fresh), Seq::empty());
            lemma_length_sum_push(d1, fresh);
        }
        let total = total_tokens + length as u64;
        docs.push((id, DocStats { term_frequencies: tf, length }));
        proof {
            let d2 = docs_view(docs@);
            assert(d2 =~= d1.push(fresh));
            assert forall|i: int, k: int| 0 <= i < k < d2.len() implies (#[trigger] d2[i]).id != (#[trigger] d2[k]).id by {
                if k == d1.len() {
                    assert(d2[i] == d1[i]);
                } else {
                    assert(d2[i] == d1[i] && d2[k] == d1[k]);
                }
            }
            assert forall|i: int| 0 <= i < d2.len() implies terms_distinct((#[trigger] d2[i]).terms) by {
                if i < d1.len() {
                    assert(d2[i] == d1[i]);
                }
            }
        }
        *self = InMemoryLexicalIndex { docs, doc_frequencies: dfs, total_tokens: total };
        proof {
            assert(self.documents() =~= d1.push(fresh));
            assert(self.documents().drop_last() =~= d1);
        }
        Ok(())
    }
}

/// Removing an id twice leaves what removing it once left.
pub proof fn lemma_remove_idempotent(docs: Seq<DocView>, id: u128)
    ensures
        without_doc(without_doc(docs, id), id) == without_doc(docs, id),
{
    let once = without_doc(docs, id);
    assert forall|i: int| 0 <= i < once.len() implies (#[trigger] once[i]).id != id by {
        docs.lemma_filter_pred(|d: DocView| d.id != id, i);
    }
    lemma_without_absent(once, id);
}

/// Indexing a document and then removing its id leaves what removing the
/// id alone leaves: the document indexed under `fresh.id` is gone and the
/// others are untouched.
pub proof fn lemma_insert_then_remove(docs: Seq<DocView>, fresh: DocView)
    ensures
        without_doc(without_doc(docs, fresh.id).push(fresh), fresh.id) == without_doc(docs, fresh.id),
{
    let once = without_doc(docs, fresh.id);
    reveal(Seq::filter);
    assert(once.push(fresh).drop_last() =~= once);
    lemma_remove_idempotent(docs, fresh.id);
}

} // verus!
