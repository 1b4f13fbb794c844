//! Conversions of search requests into domain queries.
//!
//! The query vector is decoded where floats are handled; the verified
//! decoders take that outcome as an argument and do the rest.

use vstd::prelude::*;
use crate::convert_enums::{OptionalMetric, optional_metric_from_pb, spec_optional_metric};
use crate::convert_filter::{filter_decode_error, filter_encodes, filter_from_pb};
use crate::errors::ConversionError;
use crate::filter::Filter;
use crate::float_bits::{float_order, order_floats};
use crate::metric::Metric;
use crate::pb;
use crate::query::{DEFAULT_OVERFETCH_FACTOR, DEFAULT_RRF_K, HybridQuery, SearchQuery};

verus! {

/// `r` is what decoding an optional wire filter gives.
pub open spec fn optional_filter_decodes_to(w: Option<pb::Filter>, r: Result<Option<Filter>, ConversionError>) -> bool {
    match w {
        None => r == Ok::<Option<Filter>, ConversionError>(None),
        Some(p) => match r {
            Ok(Some(f)) => filter_decode_error(p) is None && filter_encodes(p, f),
            Ok(None) => false,
            Err(e) => filter_decode_error(p) == Some(e),
        },
    }
}

/// Decodes an optional wire filter.
fn optional_filter_from_pb(w: Option<pb::Filter>) -> (r: Result<Option<Filter>, ConversionError>)
    ensures
        optional_filter_decodes_to(w, r),
{
    match w {
        None => Ok(None),
        Some(p) => match filter_from_pb(p) {
            Ok(f) => Ok(Some(f)),
            Err(e) => Err(e),
        },
    }
}

/// `r` is what decoding an optional wire metric number gives.
pub open spec fn optional_metric_decodes_to(raw: Option<i32>, r: Result<Option<Metric>, ConversionError>) -> bool {
    match spec_optional_metric(raw) {
        OptionalMetric::Default => r == Ok::<Option<Metric>, ConversionError>(None),
        OptionalMetric::Given(m) => r == Ok::<Option<Metric>, ConversionError>(Some(m)),
        OptionalMetric::Unknown(_) => r is Err,
    }
}

/// Decodes a search request into the collection name and a query: the
/// decoded embedding's error first, then the metric's, then the filter's.
pub fn search_query_from_pb<E>(
    collection: String,
    embedding: Result<E, ConversionError>,
    k: u32,
    metric: Option<i32>,
    filter: Option<pb::Filter>,
) -> (r: Result<(String, SearchQuery<E>), ConversionError>)
    ensures
        embedding is Err ==> r == Err::<(String, SearchQuery<E>), ConversionError>(embedding->Err_0),
        embedding is Ok ==> exists|mr: Result<Option<Metric>, ConversionError>| #[trigger] optional_metric_decodes_to(metric, mr) && match mr {
            Err(e) => r == Err::<(String, SearchQuery<E>), ConversionError>(e),
            Ok(m) => exists|fr: Result<Option<Filter>, ConversionError>| #[trigger] optional_filter_decodes_to(filter, fr) && match fr {
                Err(e) => r == Err::<(String, SearchQuery<E>), ConversionError>(e),
                Ok(f) => r matches Ok((c, q)) && c == collection && q.k == k && q.metric == m
                    && Ok::<E, ConversionError>(q.embedding) == embedding
                    && match (q.filter, f) {
                        (None, None) => true,
                        (Some(a), Some(b)) => a == b,
                        _ => false,
                    },
            },
        },
{
    let e = match embedding {
        Ok(e) => e,
        Err(err) => return Err(err),
    };
    let mr = optional_metric_from_pb(metric);
    let m = match mr {
        Ok(m) => m,
        Err(err) => {
            assert(optional_metric_decodes_to(metric, mr));
            return Err(err);
        },
    };
    let ghost mrv = mr;
    let ghost fw = filter;
    let fr = optional_filter_from_pb(filter);
    let f = match fr {
        Ok(f) => f,
        Err(err) => {
            assert(optional_metric_decodes_to(metric, mrv) && optional_filter_decodes_to(fw, fr));
            return Err(err);
        },
    };
    let ghost frv = fr;
    let q = SearchQuery { embedding: e, k: k as usize, metric: m, filter: f };
    assert(optional_metric_decodes_to(metric, mrv) && optional_filter_decodes_to(fw, frv));
    Ok((collection, q))
}

/// Whether a binary64 value, given by its bits, is `<= 0.0` (false for NaN).
pub open spec fn not_positive(bits: u64) -> bool {
    float_order(bits, 0u64) matches Some(s) && s <= 0
}

/// Decodes a hybrid search request into the collection name and a query.
/// An absent vector (empty on the wire) runs lexical-only; absent or empty
/// text runs dense-only; `rrf_k <= 0.0` takes the default 60.0 and an
/// over-fetch factor of 0 the default 4. Errors come in the order: the
/// decoded vector's, the filter's, the metric's.
pub fn hybrid_query_from_pb<E>(
    collection: String,
    vector: Option<Result<E, ConversionError>>,
    text: Option<String>,
    k: u32,
    filter: Option<pb::Filter>,
    metric: Option<i32>,
    rrf_k: u64,
    overfetch_factor: u32,
) -> (r: Result<(String, HybridQuery<E>), ConversionError>)
    ensures
        vector matches Some(Err(e)) ==> r == Err::<(String, HybridQuery<E>), ConversionError>(e),
        !(vector matches Some(Err(_))) ==> exists|fr: Result<Option<Filter>, ConversionError>| #[trigger] optional_filter_decodes_to(filter, fr) && match fr {
            Err(e) => r == Err::<(String, HybridQuery<E>), ConversionError>(e),
            Ok(f) => exists|mr: Result<Option<Metric>, ConversionError>| #[trigger] optional_metric_decodes_to(metric, mr) && match mr {
                Err(e) => r == Err::<(String, HybridQuery<E>), ConversionError>(e),
                Ok(m) => r matches Ok((c, q)) && c == collection && q.k == k && q.metric == m
                    && match (q.filter, f) {
                        (None, None) => true,
                        (Some(a), Some(b)) => a == b,
                        _ => false,
                    }
                    && match vector {
                        Some(Ok(v)) => q.vector == Some(v),
                        _ => q.vector is None,
                    }
                    && match text {
                        Some(t) => if t@.len() == 0 { q.text is None } else { q.text == Some(t) },
                        None => q.text is None,
                    }
                    && q.rrf_k == (if not_positive(rrf_k) { DEFAULT_RRF_K } else { rrf_k })
                    && q.overfetch_factor == (if overfetch_factor == 0 { DEFAULT_OVERFETCH_FACTOR } else { overfetch_factor as usize }),
            },
        },
{
    let v = match vector {
        None => None,
        Some(Ok(v)) => Some(v),
        Some(Err(err)) => return Err(err),
    };
    let t = match text {
        Some(t) => if t.as_str().is_empty() { None } else { Some(t) },
        None => None,
    };
    let ghost fw = filter;
    let fr = optional_filter_from_pb(filter);
    let f = match fr {
        Ok(f) => f,
        Err(err) => {
            assert(optional_filter_decodes_to(fw, fr));
            return Err(err);
        },
    };
    let ghost frv = fr;
    let mr = optional_metric_from_pb(metric);
    let m = match mr {
        Ok(m) => m,
        Err(err) => {
            assert(optional_filter_decodes_to(fw, frv) && optional_metric_decodes_to(metric, mr));
            return Err(err);
        },
    };
    let rrf = match order_floats(rrf_k, 0u64) {
        Some(s) => if s <= 0 { DEFAULT_RRF_K } else { rrf_k },
        None => rrf_k,
    };
    let factor: usize = if overfetch_factor == 0 { DEFAULT_OVERFETCH_FACTOR } else { overfetch_factor as usize };
    let q = HybridQuery { vector: v, text: t, k: k as usize, filter: f, metric: m, rrf_k: rrf, overfetch_factor: factor };
    assert(optional_filter_decodes_to(fw, frv) && optional_metric_decodes_to(metric, mr));
    Ok((collection, q))
}

} // verus!
