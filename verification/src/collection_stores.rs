//! The lexical and payload halves of a collection: what an upsert or a
//! delete does to a vector's document and payload, the ids a payload filter
//! admits to a search, and the payloads attached to the hits.

use vstd::prelude::*;
use crate::analyzer::{tokenize, tokens_of};
use crate::document::Document;
use crate::errors::{LexicalError, QueryError};
use crate::filter::{Filter, filter_matches};
use crate::lexical_index::{DocView, InMemoryLexicalIndex, counts_tokens, length_sum, without_doc};
use crate::payload::Payload;
use crate::payload_store::{InMemoryPayloadStore, id_keys};
use crate::value::FieldView;
use crate::vector_id::VectorId;

verus! {

/// A collection's lexical index and payload store.
pub struct CollectionStores {
    lexical: InMemoryLexicalIndex,
    payloads: InMemoryPayloadStore,
}

/// The indexed documents after indexing `document` for `id`: the others in
/// order, then the new one, which counts the document's tokens.
pub open spec fn reindexed(old: Seq<DocView>, new: Seq<DocView>, id: u128, text: Seq<char>) -> bool {
    &&& new.len() == without_doc(old, id).len() + 1
    &&& new.drop_last() == without_doc(old, id)
    &&& new.last().id == id
    &&& new.last().length == tokens_of(text).len()
    &&& counts_tokens(new.last().terms, tokens_of(text))
}

/// The message when a document would overflow the lexical index's
/// counters.
pub open spec fn overflow_text() -> Seq<char> {
    "document token counts overflow the lexical index"@
}

/// The room indexing `text` for `id` needs: its token count fits the
/// index's counters.
pub open spec fn fits(docs: Seq<DocView>, id: u128, text: Seq<char>) -> bool {
    &&& tokens_of(text).len() <= u32::MAX
    &&& length_sum(without_doc(docs, id)) + tokens_of(text).len() <= u64::MAX
    &&& docs.len() < usize::MAX
}

impl CollectionStores {
    /// The indexed documents.
    pub closed spec fn documents(&self) -> Seq<DocView> {
        self.lexical.documents()
    }

    /// The stored payloads, by id.
    pub closed spec fn payload_map(&self) -> Map<u128, Map<Seq<char>, FieldView>> {
        self.payloads@
    }

    /// Empty stores.
    pub fn new() -> (r: CollectionStores)
        ensures
            r.documents() == Seq::<DocView>::empty(),
            r.payload_map() == Map::<u128, Map<Seq<char>, FieldView>>::empty(),
    {
        CollectionStores { lexical: InMemoryLexicalIndex::new(), payloads: InMemoryPayloadStore::new() }
    }

    /// The lexical index, for text search.
    pub fn lexical(&self) -> (r: &InMemoryLexicalIndex)
        ensures
            r.documents() == self.documents(),
    {
        &self.lexical
    }

    /// The payload store.
    pub fn payloads(&self) -> (r: &InMemoryPayloadStore)
        ensures
            r@ == self.payload_map(),
    {
        &self.payloads
    }

    /// Whether indexing `document` for `id` fits the lexical index's
    /// counters (what an upsert with that document needs).
    pub fn document_fits(&self, id: VectorId, document: &Document) -> (r: bool)
        ensures
            r == fits(self.documents(), id@, document@),
    {
        let tokens = tokenize(document.as_str());
        proof {
            assert(tokens@.len() == tokens_of(document@).len());
        }
        self.lexical.has_room(id, tokens.len())
    }

    /// The document and payload half of an upsert of `id`, refused with a
    /// lexical `Backend` error, nothing changed, when indexing the document
    /// would overflow the lexical index's counters (more tokens than a
    /// 32-bit length holds, or a token total past 64 bits).
    pub fn upsert_checked(&mut self, id: VectorId, document: Option<&Document>, payload: Option<Payload>) -> (r: Result<(), QueryError>)
        ensures
            (document matches Some(d) && !fits(old(self).documents(), id@, d@)) ==> {
                &&& r matches Err(QueryError::Lexical(LexicalError::Backend(m))) && m@ == overflow_text()
                &&& final(self).documents() == old(self).documents()
                &&& final(self).payload_map() == old(self).payload_map()
            },
            !(document matches Some(d) && !fits(old(self).documents(), id@, d@)) ==> {
                &&& r is Ok
                &&& match document {
                    Some(d) => reindexed(old(self).documents(), final(self).documents(), id@, d@),
                    None => final(self).documents() == without_doc(old(self).documents(), id@),
                }
                &&& final(self).payload_map() == match payload {
                    Some(p) => old(self).payload_map().insert(id@, p@),
                    None => old(self).payload_map().remove(id@),
                }
            },
    {
        if let Some(d) = document {
            if !self.document_fits(id, d) {
                return Err(QueryError::Lexical(LexicalError::Backend(String::from_str("document token counts overflow the lexical index"))));
            }
        }
        self.upsert(id, document, payload)
    }

    /// The document and payload half of an upsert of `id`: a document
    /// replaces the id's indexed text and no document removes it; a payload
    /// replaces the id's payload and no payload removes it.
    pub fn upsert(&mut self, id: VectorId, document: Option<&Document>, payload: Option<Payload>) -> (r: Result<(), QueryError>)
        requires
            document matches Some(d) ==> fits(old(self).documents(), id@, d@),
        ensures
            r is Ok,
            match document {
                Some(d) => reindexed(old(self).documents(), final(self).documents(), id@, d@),
                None => final(self).documents() == without_doc(old(self).documents(), id@),
            },
            final(self).payload_map() == match payload {
                Some(p) => old(self).payload_map().insert(id@, p@),
                None => old(self).payload_map().remove(id@),
            },
    {
        match document {
            Some(d) => match self.lexical.insert(id, d) {
                Ok(()) => {},
                Err(e) => return Err(QueryError::Lexical(e)),
            },
            None => match self.lexical.remove(&id) {
                Ok(()) => {},
                Err(e) => return Err(QueryError::Lexical(e)),
            },
        }
        match payload {
            Some(p) => match self.payloads.set(id, p) {
                Ok(()) => {},
                Err(e) => return Err(QueryError::Payload(e)),
            },
            None => match self.payloads.remove(&id) {
                Ok(_) => {},
                Err(e) => return Err(QueryError::Payload(e)),
            },
        }
        Ok(())
    }

    /// The document and payload half of a delete of `id`.
    pub fn delete(&mut self, id: &VectorId) -> (r: Result<(), QueryError>)
        ensures
            r is Ok,
            final(self).documents() == without_doc(old(self).documents(), id@),
            final(self).payload_map() == old(self).payload_map().remove(id@),
    {
        match self.lexical.remove(id) {
            Ok(()) => {},
            Err(e) => return Err(QueryError::Lexical(e)),
        }
        match self.payloads.remove(id) {
            Ok(_) => {},
            Err(e) => return Err(QueryError::Payload(e)),
        }
        Ok(())
    }

    /// The ids a search may return: every id when there is no filter,
    /// otherwise exactly the ids whose stored payload the filter matches,
    /// each once.
    pub fn allowed(&self, filter: &Option<Filter>) -> (r: Result<Option<Vec<VectorId>>, QueryError>)
        ensures
            match filter {
                None => r == Ok::<Option<Vec<VectorId>>, QueryError>(None),
                Some(f) => r matches Ok(Some(ids)) && id_keys(ids@).no_duplicates()
                    && forall|k: u128| #[trigger] id_keys(ids@).contains(k)
                        <==> (self.payload_map().contains_key(k) && filter_matches(*f, self.payload_map()[k])),
            },
    {
        match filter {
            None => Ok(None),
            Some(f) => {
                let compiled = f.compile();
                match self.payloads.matching_ids(&compiled) {
                    Ok(ids) => Ok(Some(ids)),
                    Err(e) => Err(QueryError::Payload(e)),
                }
            },
        }
    }

    /// Attaches to each of the first `k` hits the payload stored for its
    /// id, keeping their order and scores.
    pub fn hydrate<S: Copy>(&self, hits: &Vec<(VectorId, S)>, k: usize) -> (r: Result<Vec<(VectorId, S, Option<Payload>)>, QueryError>)
        ensures
            match r {
                Ok(out) => {
                    &&& out@.len() == if hits@.len() < k { hits@.len() } else { k as nat }
                    &&& forall|i: int| 0 <= i < out@.len() ==> {
                        &&& (#[trigger] out@[i]).0 == hits@[i].0
                        &&& out@[i].1 == hits@[i].1
                        &&& match out@[i].2 {
                            Some(p) => self.payload_map().contains_key(hits@[i].0@) && p@ == self.payload_map()[hits@[i].0@],
                            None => !self.payload_map().contains_key(hits@[i].0@),
                        }
                    }
                },
                Err(_) => false,
            },
    {
        let mut out: Vec<(VectorId, S, Option<Payload>)> = Vec::new();
        let mut i: usize = 0;
        while i < hits.len() && i < k
            invariant
                i <= hits@.len(),
                i <= k,
                out@.len() == i,
                forall|j: int| 0 <= j < i ==> {
                    &&& (#[trigger] out@[j]).0 == hits@[j].0
                    &&& out@[j].1 == hits@[j].1
                    &&& match out@[j].2 {
                        Some(p) => self.payload_map().contains_key(hits@[j].0@) && p@ == self.payload_map()[hits@[j].0@],
                        None => !self.payload_map().contains_key(hits@[j].0@),
                    }
                },
            decreases hits.len() - i,
        {
            let (id, s) = hits[i];
            let payload = match self.payloads.get(&id) {
                Ok(p) => p,
                Err(e) => return Err(QueryError::Payload(e)),
            };
            out.push((id, s, payload));
            i = i + 1;
        }
        Ok(out)
    }
}

} // verus!
