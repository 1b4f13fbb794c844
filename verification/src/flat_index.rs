//! The exact brute-force index: the recall oracle approximate indexes are
//! measured against.
//!
//! The index keeps the ids in insertion order; the embedding of the point
//! at each position is kept alongside by whoever computes the scores, and a
//! search ranks the scores it is handed, one per position.

use vstd::prelude::*;
use crate::dimension::Dimension;
use crate::errors::IndexError;
use crate::metric::Metric;
use crate::ranking::{f32_key, f32_order_key, is_top_k, rank_top_k};
use crate::vector_id::{VectorId, lemma_vector_id_view_injective};

verus! {

/// The ranking items of a flat search over the first `n` positions: each
/// admitted position's score key, the id's 128-bit value as tie key (equal
/// scores rank by ascending id), and the id with the score bits; a position
/// whose score is `None` is left out.
pub open spec fn flat_items(ids: Seq<VectorId>, scores: Seq<Option<u32>>, n: int) -> Seq<(i64, u128, (VectorId, u32))>
    decreases n,
{
    if n <= 0 {
        Seq::empty()
    } else {
        let prev = flat_items(ids, scores, n - 1);
        match scores[n - 1] {
            Some(b) => prev.push((f32_key(b) as i64, ids[n - 1]@, (ids[n - 1], b))),
            None => prev,
        }
    }
}

/// Each ranking item carries its score's key and its id's value as keys.
proof fn lemma_flat_items_keys(ids: Seq<VectorId>, scores: Seq<Option<u32>>, n: int)
    ensures
        forall|k: int| 0 <= k < flat_items(ids, scores, n).len() ==> {
            let x = #[trigger] flat_items(ids, scores, n)[k];
            x.0 == f32_key(x.2.1) && x.1 == x.2.0@
        },
    decreases n,
{
    if n > 0 {
        lemma_flat_items_keys(ids, scores, n - 1);
        let prev = flat_items(ids, scores, n - 1);
        assert forall|k: int| 0 <= k < flat_items(ids, scores, n).len() implies {
            let x = #[trigger] flat_items(ids, scores, n)[k];
            x.0 == f32_key(x.2.1) && x.1 == x.2.0@
        } by {
            if k < prev.len() {
                assert(flat_items(ids, scores, n)[k] == prev[k]);
            }
        }
    }
}

/// The id and score of each ranked item.
pub open spec fn ranked_hits(s: Seq<(i64, u128, (VectorId, u32))>) -> Seq<(VectorId, u32)> {
    s.map_values(|x: (i64, u128, (VectorId, u32))| x.2)
}

/// Whether some position of `ids` holds `id`.
pub open spec fn holds_id(ids: Seq<VectorId>, id: VectorId) -> bool {
    exists|i: int| 0 <= i < ids.len() && ids[i] == id
}

/// Exact index: compares a query against every stored vector.
pub struct FlatIndex {
    metric: Metric,
    dimension: Dimension,
    ids: Vec<VectorId>,
}

impl FlatIndex {
    /// The stored ids, in insertion order.
    pub closed spec fn ids(&self) -> Seq<VectorId> {
        self.ids@
    }

    /// The metric.
    pub closed spec fn metric_spec(&self) -> Metric {
        self.metric
    }

    /// The dimension.
    pub closed spec fn dimension_spec(&self) -> Dimension {
        self.dimension
    }

    /// Creates an empty index for `dimension`-sized embeddings scored by
    /// `metric`.
    pub fn new(metric: Metric, dimension: Dimension) -> (r: FlatIndex)
        ensures
            r.ids() == Seq::<VectorId>::empty(),
            r.metric_spec() == metric,
            r.dimension_spec() == dimension,
    {
        FlatIndex { metric, dimension, ids: Vec::new() }
    }

    /// The metric.
    pub fn metric(&self) -> (r: Metric)
        ensures
            r == self.metric_spec(),
    {
        self.metric
    }

    /// The dimension.
    pub fn dimension(&self) -> (r: Dimension)
        ensures
            r == self.dimension_spec(),
    {
        self.dimension
    }

    /// The number of stored vectors.
    pub fn len(&self) -> (r: usize)
        ensures
            r == self.ids().len(),
    {
        self.ids.len()
    }

    /// Whether the index is empty.
    pub fn is_empty(&self) -> (r: bool)
        ensures
            r == (self.ids().len() == 0),
    {
        self.ids.len() == 0
    }

    /// The id stored at `position`.
    pub fn id_at(&self, position: usize) -> (r: VectorId)
        requires
            position < self.ids().len(),
        ensures
            r == self.ids()[position as int],
    {
        self.ids[position]
    }

    /// The position of `id`, if it is stored.
    pub fn position_of(&self, id: VectorId) -> (r: Option<usize>)
        ensures
            match r {
                Some(p) => p < self.ids().len() && self.ids()[p as int] == id
                    && forall|j: int| 0 <= j < p ==> self.ids()[j] != id,
                None => !holds_id(self.ids(), id),
            },
    {
        let mut p: usize = 0;
        while p < self.ids.len()
            invariant
                p <= self.ids@.len(),
                forall|j: int| 0 <= j < p ==> self.ids@[j] != id,
            decreases self.ids.len() - p,
        {
            proof {
                lemma_vector_id_view_injective(self.ids@[p as int], id);
            }
            if self.ids[p].as_u128() == id.as_u128() {
                return Some(p);
            }
            p = p + 1;
        }
        None
    }

    /// Stores `id` after the others. Fails with `DimensionMismatch` when the
    /// embedding does not have the index dimension, then with `DuplicateId`
    /// when the id is already stored; nothing changes then.
    pub fn insert(&mut self, id: VectorId, dimension: Dimension) -> (r: Result<(), IndexError>)
        requires
            old(self).ids().len() < usize::MAX,
        ensures
            final(self).metric_spec() == old(self).metric_spec(),
            final(self).dimension_spec() == old(self).dimension_spec(),
            dimension@ != old(self).dimension_spec()@ ==> r == Err::<(), IndexError>(IndexError::DimensionMismatch {
                expected: old(self).dimension_spec()@ as usize,
                got: dimension@ as usize,
            }) && final(self).ids() == old(self).ids(),
            dimension@ == old(self).dimension_spec()@ && holds_id(old(self).ids(), id) ==>
                r == Err::<(), IndexError>(IndexError::DuplicateId(id)) && final(self).ids() == old(self).ids(),
            dimension@ == old(self).dimension_spec()@ && !holds_id(old(self).ids(), id) ==>
                r is Ok && final(self).ids() == old(self).ids().push(id),
    {
        if dimension.get() != self.dimension.get() {
            return Err(IndexError::DimensionMismatch { expected: self.dimension.get(), got: dimension.get() });
        }
        if self.position_of(id).is_some() {
            return Err(IndexError::DuplicateId(id));
        }
        self.ids.push(id);
        Ok(())
    }

    /// Removes `id`, returning the position it held (so the embedding kept
    /// there can go too), or `None` when it is not stored.
    pub fn remove(&mut self, id: VectorId) -> (r: Option<usize>)
        ensures
            final(self).metric_spec() == old(self).metric_spec(),
            final(self).dimension_spec() == old(self).dimension_spec(),
            match r {
                Some(p) => p < old(self).ids().len() && old(self).ids()[p as int] == id
                    && final(self).ids() == old(self).ids().remove(p as int),
                None => !holds_id(old(self).ids(), id) && final(self).ids() == old(self).ids(),
            },
    {
        match self.position_of(id) {
            Some(p) => {
                self.ids.remove(p);
                Some(p)
            },
            None => None,
        }
    }

    /// Checks a query's dimension against the index's.
    pub fn check_query(&self, dimension: Dimension) -> (r: Result<(), IndexError>)
        ensures
            dimension@ != self.dimension_spec()@ ==> r == Err::<(), IndexError>(IndexError::DimensionMismatch {
                expected: self.dimension_spec()@ as usize,
                got: dimension@ as usize,
            }),
            dimension@ == self.dimension_spec()@ ==> r is Ok,
    {
        if dimension.get() != self.dimension.get() {
            return Err(IndexError::DimensionMismatch { expected: self.dimension.get(), got: dimension.get() });
        }
        Ok(())
    }

    /// Ranks the stored points by the scores handed in (raw `f32` bits, one
    /// per position, `None` for a position the search may not return):
    /// descending in `total_cmp` order, equal scores by ascending id, cut to
    /// the first `k`.
    pub fn rank(&self, scores: &Vec<Option<u32>>, k: usize) -> (r: Vec<(VectorId, u32)>)
        requires
            scores@.len() == self.ids().len(),
        ensures
            exists|out: Seq<(i64, u128, (VectorId, u32))>|
                is_top_k(out, flat_items(self.ids(), scores@, self.ids().len() as int), k as nat)
                && r@ == ranked_hits(out),
            forall|i: int, j: int| 0 <= i < j < r@.len() ==> f32_key((#[trigger] r@[i]).1) > f32_key((#[trigger] r@[j]).1)
                || (f32_key(r@[i].1) == f32_key(r@[j].1) && r@[i].0@ <= r@[j].0@),
    {
        let mut items: Vec<(i64, u128, (VectorId, u32))> = Vec::new();
        let mut i: usize = 0;
        while i < self.ids.len()
            invariant
                i <= self.ids@.len(),
                scores@.len() == self.ids@.len(),
                items@ == flat_items(self.ids@, scores@, i as int),
            decreases self.ids.len() - i,
        {
            match scores[i] {
                Some(bits) => {
                    items.push((f32_order_key(bits), self.ids[i].as_u128(), (self.ids[i], bits)));
                },
                None => {},
            }
            i = i + 1;
        }
        let ranked = rank_top_k(items, k);
        let mut out: Vec<(VectorId, u32)> = Vec::new();
        let mut j: usize = 0;
        while j < ranked.len()
            invariant
                j <= ranked@.len(),
                out@ == ranked_hits(ranked@.take(j as int)),
            decreases ranked.len() - j,
        {
            out.push(ranked[j].2);
            proof {
                assert(ranked_hits(ranked@.take(j + 1)) =~= ranked_hits(ranked@.take(j as int)).push(ranked@[j as int].2));
            }
            j = j + 1;
        }
        proof {
            assert(ranked@.take(j as int) =~= ranked@);
            let items_all = flat_items(self.ids@, scores@, self.ids@.len() as int);
            lemma_flat_items_keys(self.ids@, scores@, self.ids@.len() as int);
            assert forall|t: int| 0 <= t < ranked@.len() implies
                (#[trigger] ranked@[t]).0 == f32_key(ranked@[t].2.1) && ranked@[t].1 == ranked@[t].2.0@ by {
                broadcast use vstd::seq_lib::group_to_multiset_ensures;
                let x = ranked@[t];
                assert(ranked@.contains(x));
                assert(ranked@.to_multiset().count(x) > 0);
                assert(items_all.to_multiset().count(x) > 0);
                assert(items_all.contains(x));
                let k = choose|k: int| 0 <= k < items_all.len() && items_all[k] == x;
                assert(items_all[k] == x);
            }
            assert forall|a: int, b: int| 0 <= a < b < out@.len() implies f32_key((#[trigger] out@[a]).1) > f32_key((#[trigger] out@[b]).1)
                || (f32_key(out@[a].1) == f32_key(out@[b].1) && out@[a].0@ <= out@[b].0@) by {
                assert(out@[a] == ranked@[a].2 && out@[b] == ranked@[b].2);
                assert(!crate::ranking::ranks_before(crate::ranking::rank_of(ranked@[b]), crate::ranking::rank_of(ranked@[a])));
            }
        }
        out
    }
}

} // verus!
