//! Query requests of a collection, and the metric rule they share.

use vstd::prelude::*;
use crate::errors::QueryError;
use crate::filter::Filter;
use crate::metric::Metric;

verus! {

/// Default Reciprocal Rank Fusion dampening constant, 60.0, as the bits of a
/// binary64 value.
pub const DEFAULT_RRF_K: u64 = 0x404E_0000_0000_0000u64;

/// Default per-channel over-fetch multiplier.
pub const DEFAULT_OVERFETCH_FACTOR: usize = 4usize;

/// A single-vector search request over an embedding of type `E`.
pub struct SearchQuery<E> {
    /// The query embedding.
    pub embedding: E,
    /// Number of neighbors to return.
    pub k: usize,
    /// Metric to score with; `None` uses the index default metric.
    pub metric: Option<Metric>,
    /// Optional payload filter; `None` considers every vector.
    pub filter: Option<Filter>,
}

/// A hybrid search request over an embedding of type `E`. At least one of
/// `vector` or `text` must be set.
pub struct HybridQuery<E> {
    /// Dense channel query; `None` runs lexical-only.
    pub vector: Option<E>,
    /// Lexical channel query; `None` runs dense-only.
    pub text: Option<String>,
    /// Number of hits to return.
    pub k: usize,
    /// Optional payload filter, pushed into both channels.
    pub filter: Option<Filter>,
    /// Dense metric; `None` uses the index default.
    pub metric: Option<Metric>,
    /// RRF dampening constant, as the bits of a binary64 value.
    pub rrf_k: u64,
    /// Per-channel over-fetch multiplier.
    pub overfetch_factor: usize,
}

/// The metric a query runs with: the requested one, or the index default,
/// refused with `UnsupportedMetric` when the index does not support it.
pub fn resolve_metric(requested: Option<Metric>, index_metric: Metric, supported: &Vec<Metric>) -> (r: Result<Metric, QueryError>)
    ensures
        ({
            let m = match requested {
                Some(m) => m,
                None => index_metric,
            };
            if supported@.contains(m) {
                r == Ok::<Metric, QueryError>(m)
            } else {
                r == Err::<Metric, QueryError>(QueryError::UnsupportedMetric(m))
            }
        }),
{
    let m = match requested {
        Some(m) => m,
        None => index_metric,
    };
    let mut i: usize = 0;
    while i < supported.len()
        invariant
            i <= supported@.len(),
            m == (match requested {
                Some(x) => x,
                None => index_metric,
            }),
            forall|j: int| 0 <= j < i ==> supported@[j] != m,
        decreases supported.len() - i,
    {
        if supported[i] == m {
            proof {
                assert(supported@[i as int] == m);
                assert(supported@.contains(m));
            }
            return Ok(m);
        }
        i = i + 1;
    }
    Err(QueryError::UnsupportedMetric(m))
}

/// How deep each channel of a hybrid query fetches: `k` times the
/// over-fetch factor, saturating.
pub open spec fn channel_depth(k: usize, overfetch_factor: usize) -> usize {
    if k * overfetch_factor > usize::MAX { usize::MAX } else { (k * overfetch_factor) as usize }
}

/// Each channel fetches the product of `k` and the over-fetch factor, held
/// at `usize::MAX` when the product does not fit: no over-fetch fetches
/// nothing, a factor of one fetches `k`, the depth is the same with the two
/// swapped, and raising the factor by one adds `k` while the product fits.
pub proof fn law_channel_depth(k: usize, overfetch_factor: usize)
    ensures
        channel_depth(k, overfetch_factor) as int == (if k as int * overfetch_factor as int <= usize::MAX as int {
            k as int * overfetch_factor as int
        } else {
            usize::MAX as int
        }),
        channel_depth(k, 0) == 0,
        channel_depth(0, overfetch_factor) == 0,
        channel_depth(k, 1) == k,
        channel_depth(k, overfetch_factor) == channel_depth(overfetch_factor, k),
        overfetch_factor < usize::MAX && k as int * (overfetch_factor as int + 1) <= usize::MAX as int ==>
            channel_depth(k, (overfetch_factor + 1) as usize) as int == channel_depth(k, overfetch_factor) as int + k as int,
{
    let kf: int = k as int * overfetch_factor as int;
    assert(kf == overfetch_factor as int * k as int) by (nonlinear_arith)
        requires kf == k as int * overfetch_factor as int;
    assert(k as int * (overfetch_factor as int + 1) == kf + k as int) by (nonlinear_arith)
        requires kf == k as int * overfetch_factor as int;
    assert(kf >= 0) by (nonlinear_arith)
        requires kf == k as int * overfetch_factor as int;
    if overfetch_factor < usize::MAX && k as int * (overfetch_factor as int + 1) <= usize::MAX as int {
        let g: usize = (overfetch_factor + 1) as usize;
        assert(k as int * g as int == kf + k as int);
        assert(kf <= usize::MAX as int);
    }
}

/// Plans a hybrid query: refuses one with neither a vector nor a text
/// (`EmptyQuery`), and otherwise gives the depth each channel fetches.
pub fn plan_hybrid(has_vector: bool, has_text: bool, k: usize, overfetch_factor: usize) -> (r: Result<usize, QueryError>)
    ensures
        !has_vector && !has_text ==> r == Err::<usize, QueryError>(QueryError::EmptyQuery),
        has_vector || has_text ==> r == Ok::<usize, QueryError>(channel_depth(k, overfetch_factor)),
{
    if !has_vector && !has_text {
        return Err(QueryError::EmptyQuery);
    }
    match k.checked_mul(overfetch_factor) {
        Some(d) => Ok(d),
        None => Ok(usize::MAX),
    }
}

} // verus!
