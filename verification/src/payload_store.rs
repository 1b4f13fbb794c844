//! An in-memory store of per-vector payloads, with a pre-filter scan.

use vstd::prelude::*;
use vstd::std_specs::iter::IteratorSpec;
use std::collections::HashMap;
use crate::errors::PayloadError;
use crate::filter::CompiledFilter;
use crate::payload::Payload;
use crate::value::FieldView;
use crate::vector_id::VectorId;

verus! {

broadcast use vstd::std_specs::hash::group_hash_axioms;

/// The keys, in order, of the pairs of `pairs` whose payload `filter`
/// accepts.
pub open spec fn accepted_keys(pairs: Seq<(&u128, &Payload)>, filter: CompiledFilter) -> Seq<u128>
    decreases pairs.len(),
{
    if pairs.len() == 0 {
        Seq::empty()
    } else {
        let rest = accepted_keys(pairs.drop_last(), filter);
        if filter.accepts(pairs.last().1@) {
            rest.push(*pairs.last().0)
        } else {
            rest
        }
    }
}

/// A key is accepted exactly when some pair carries it with a payload the
/// filter accepts; accepted keys come out in the order of their pairs.
proof fn lemma_accepted_keys(pairs: Seq<(&u128, &Payload)>, filter: CompiledFilter)
    ensures
        forall|k: u128| #[trigger] accepted_keys(pairs, filter).contains(k) <==>
            exists|t: int| 0 <= t < pairs.len() && *pairs[t].0 == k && filter.accepts(pairs[t].1@),
        (forall|s: int, t: int| 0 <= s < t < pairs.len() ==> *pairs[s].0 != *pairs[t].0)
            ==> accepted_keys(pairs, filter).no_duplicates(),
    decreases pairs.len(),
{
    if pairs.len() > 0 {
        let init = pairs.drop_last();
        lemma_accepted_keys(init, filter);
        let rest = accepted_keys(init, filter);
        assert forall|k: u128| #[trigger] accepted_keys(pairs, filter).contains(k) <==>
            exists|t: int| 0 <= t < pairs.len() && *pairs[t].0 == k && filter.accepts(pairs[t].1@) by {
            if accepted_keys(pairs, filter).contains(k) {
                if rest.contains(k) {
                    let t = choose|t: int| 0 <= t < init.len() && *init[t].0 == k && filter.accepts(init[t].1@);
                    assert(pairs[t] == init[t]);
                } else {
                    let j = choose|j: int| 0 <= j < accepted_keys(pairs, filter).len() && accepted_keys(pairs, filter)[j] == k;
                    assert(j == rest.len());
                    assert(pairs[pairs.len() - 1] == pairs.last());
                }
            }
            if exists|t: int| 0 <= t < pairs.len() && *pairs[t].0 == k && filter.accepts(pairs[t].1@) {
                let t = choose|t: int| 0 <= t < pairs.len() && *pairs[t].0 == k && filter.accepts(pairs[t].1@);
                if t < pairs.len() - 1 {
                    assert(init[t] == pairs[t]);
                    assert(rest.contains(k));
                    let j = choose|j: int| 0 <= j < rest.len() && rest[j] == k;
                    assert(accepted_keys(pairs, filter)[j] == k);
                } else {
                    assert(accepted_keys(pairs, filter)[rest.len() as int] == k);
                }
            }
        }
        if forall|s: int, t: int| 0 <= s < t < pairs.len() ==> *pairs[s].0 != *pairs[t].0 {
            assert(forall|s: int, t: int| 0 <= s < t < init.len() ==> *init[s].0 != *init[t].0) by {
                assert forall|s: int, t: int| 0 <= s < t < init.len() implies *init[s].0 != *init[t].0 by {
                    assert(init[s] == pairs[s] && init[t] == pairs[t]);
                }
            }
            if filter.accepts(pairs.last().1@) {
                let k = *pairs.last().0;
                if rest.contains(k) {
                    let t = choose|t: int| 0 <= t < init.len() && *init[t].0 == k && filter.accepts(init[t].1@);
                    assert(pairs[t] == init[t]);
                    assert(*pairs[t].0 != *pairs[pairs.len() - 1].0);
                }
            }
        }
    }
}

/// The 128-bit keys of a sequence of ids.
pub open spec fn id_keys(ids: Seq<VectorId>) -> Seq<u128> {
    ids.map_values(|i: VectorId| i@)
}

/// In-memory store of the payloads of vectors, keyed by vector id.
pub struct InMemoryPayloadStore {
    payloads: HashMap<u128, Payload>,
}

impl View for InMemoryPayloadStore {
    type V = Map<u128, Map<Seq<char>, FieldView>>;

    closed spec fn view(&self) -> Map<u128, Map<Seq<char>, FieldView>> {
        self.payloads@.map_values(|p: Payload| p@)
    }
}

impl InMemoryPayloadStore {
    /// Creates an empty store.
    pub fn new() -> (r: InMemoryPayloadStore)
        ensures
            r@ == Map::<u128, Map<Seq<char>, FieldView>>::empty(),
    {
        let r = InMemoryPayloadStore { payloads: HashMap::new() };
        proof {
            assert(r@ =~= Map::<u128, Map<Seq<char>, FieldView>>::empty());
        }
        r
    }

    /// Stores, or overwrites, the payload of `id`.
    pub fn set(&mut self, id: VectorId, payload: Payload) -> (r: Result<(), PayloadError>)
        ensures
            r is Ok,
            final(self)@ == old(self)@.insert(id@, payload@),
    {
        let ghost view = payload@;
        self.payloads.insert(id.as_u128(), payload);
        proof {
            assert(final(self)@ =~= old(self)@.insert(id@, view));
        }
        Ok(())
    }

    /// Returns a copy of the payload of `id`, or `None` if there is none.
    pub fn get(&self, id: &VectorId) -> (r: Result<Option<Payload>, PayloadError>)
        ensures
            match r {
                Ok(Some(p)) => self@.contains_key(id@) && p@ == self@[id@],
                Ok(None) => !self@.contains_key(id@),
                Err(_) => false,
            },
    {
        let key = id.as_u128();
        match self.payloads.get(&key) {
            Some(p) => Ok(Some(p.clone())),
            None => Ok(None),
        }
    }

    /// Removes the payload of `id`, returning whether there was one.
    pub fn remove(&mut self, id: &VectorId) -> (r: Result<bool, PayloadError>)
        ensures
            r == Ok::<bool, PayloadError>(old(self)@.contains_key(id@)),
            final(self)@ == old(self)@.remove(id@),
    {
        let key = id.as_u128();
        let removed = self.payloads.remove(&key);
        proof {
            assert(final(self)@ =~= old(self)@.remove(id@));
        }
        Ok(removed.is_some())
    }

    /// Number of stored payloads.
    pub fn len(&self) -> (r: usize)
        ensures
            r == self@.len(),
    {
        proof {
            assert(self@.dom() =~= self.payloads@.dom());
        }
        self.payloads.len()
    }

    /// Whether the store holds no payloads.
    pub fn is_empty(&self) -> (r: bool)
        ensures
            r == (self@.len() == 0),
    {
        self.len() == 0
    }

    /// The ids of every stored payload that `filter` accepts, each once.
    pub fn matching_ids(&self, filter: &CompiledFilter) -> (r: Result<Vec<VectorId>, PayloadError>)
        ensures
            match r {
                Ok(ids) => {
                    &&& id_keys(ids@).no_duplicates()
                    &&& forall|k: u128| #[trigger] id_keys(ids@).contains(k)
                        <==> (self@.contains_key(k) && filter.accepts(self@[k]))
                },
                Err(_) => false,
            },
    {
        let mut out: Vec<VectorId> = Vec::new();
        let ghost m = self.payloads@;
        let ghost pairs = vstd::std_specs::hash::spec_hash_map_iter(&self.payloads).remaining();
        let ghost mut n: int = 0;
        for pair in it: self.payloads.iter()
            invariant
                m == self.payloads@,
                pairs == vstd::std_specs::hash::spec_hash_map_iter(&self.payloads).remaining(),
                it.seq() == pairs,
                n == it.index(),
                id_keys(out@) == accepted_keys(it.seq().take(it.index()), *filter),
        {
            let (k, p) = pair;
            let ghost before = out@;
            proof {
                assert(it.seq().take(it.index() + 1).drop_last() =~= it.seq().take(it.index()));
            }
            if filter.matches(p) {
                out.push(VectorId::from_u128(*k));
                proof {
                    assert(id_keys(out@) =~= id_keys(before).push(*k));
                }
            }
            proof {
                n = n + 1;
            }
        }
        proof {
            assert(n == pairs.len());
            assert(pairs.take(pairs.len() as int) =~= pairs);
            lemma_accepted_keys(pairs, *filter);
            assert forall|s: int, t: int| 0 <= s < t < pairs.len() implies *pairs[s].0 != *pairs[t].0 by {
                assert(m.contains_key(*pairs[s].0) && m[*pairs[s].0] == *pairs[s].1);
                assert(m.contains_key(*pairs[t].0) && m[*pairs[t].0] == *pairs[t].1);
            }
            assert forall|k: u128| #[trigger] id_keys(out@).contains(k)
                <==> (self@.contains_key(k) && filter.accepts(self@[k])) by {
                if self@.contains_key(k) && filter.accepts(self@[k]) {
                    assert(pairs.contains((&k, &m[k])));
                    let t = choose|t: int| 0 <= t < pairs.len() && pairs[t] == (&k, &m[k]);
                    assert(*pairs[t].0 == k && filter.accepts(pairs[t].1@));
                }
                if id_keys(out@).contains(k) {
                    let t = choose|t: int| 0 <= t < pairs.len() && *pairs[t].0 == k && filter.accepts(pairs[t].1@);
                    assert(m.contains_key(*pairs[t].0) && m[*pairs[t].0] == *pairs[t].1);
                }
            }
        }
        Ok(out)
    }
}

} // verus!
