//! Conversions between wire enumerations and domain enumerations.

use vstd::prelude::*;
use crate::errors::ConversionError;
use crate::metric::Metric;
use crate::pb;
use crate::text::{append_signed_decimal, signed_decimal_text};

verus! {

/// The index algorithm to use when creating a collection.
#[derive(Debug, Clone, Copy, PartialEq, Eq, Hash, Structural)]
pub enum IndexTypeChoice {
    /// Flat brute-force index.
    Flat,
    /// Hierarchical navigable small-world graph index.
    Hnsw,
}

/// The wire value of a domain metric.
pub open spec fn spec_metric_to_pb(m: Metric) -> pb::Metric {
    match m {
        Metric::Cosine => pb::Metric::Cosine,
        Metric::DotProduct => pb::Metric::DotProduct,
        Metric::Euclidean => pb::Metric::Euclidean,
    }
}

/// The domain metric of a wire value; `None` for the unspecified sentinel.
pub open spec fn spec_metric_from_pb(m: pb::Metric) -> Option<Metric> {
    match m {
        pb::Metric::Cosine => Some(Metric::Cosine),
        pb::Metric::DotProduct => Some(Metric::DotProduct),
        pb::Metric::Euclidean => Some(Metric::Euclidean),
        pb::Metric::Unspecified => None,
    }
}

/// The wire value of an index-type choice.
pub open spec fn spec_index_type_to_pb(c: IndexTypeChoice) -> pb::IndexType {
    match c {
        IndexTypeChoice::Flat => pb::IndexType::Flat,
        IndexTypeChoice::Hnsw => pb::IndexType::Hnsw,
    }
}

/// The index-type choice of a wire value; `None` for the unspecified sentinel.
pub open spec fn spec_index_type_from_pb(t: pb::IndexType) -> Option<IndexTypeChoice> {
    match t {
        pb::IndexType::Flat => Some(IndexTypeChoice::Flat),
        pb::IndexType::Hnsw => Some(IndexTypeChoice::Hnsw),
        pb::IndexType::Unspecified => None,
    }
}

/// Converts a domain metric to its wire representation.
pub fn metric_to_pb(metric: Metric) -> (r: pb::Metric)
    ensures
        r == spec_metric_to_pb(metric),
{
    match metric {
        Metric::Cosine => pb::Metric::Cosine,
        Metric::DotProduct => pb::Metric::DotProduct,
        Metric::Euclidean => pb::Metric::Euclidean,
    }
}

/// Converts a wire metric to the domain metric; the unspecified sentinel is
/// a missing `metric` field.
pub fn metric_from_pb(metric: pb::Metric) -> (r: Result<Metric, ConversionError>)
    ensures
        match spec_metric_from_pb(metric) {
            Some(m) => r == Ok::<Metric, ConversionError>(m),
            None => r == Err::<Metric, ConversionError>(ConversionError::MissingField("metric")),
        },
{
    match metric {
        pb::Metric::Cosine => Ok(Metric::Cosine),
        pb::Metric::DotProduct => Ok(Metric::DotProduct),
        pb::Metric::Euclidean => Ok(Metric::Euclidean),
        pb::Metric::Unspecified => Err(ConversionError::MissingField("metric")),
    }
}

/// Converts an index-type choice to its wire representation.
pub fn index_type_to_pb(choice: IndexTypeChoice) -> (r: pb::IndexType)
    ensures
        r == spec_index_type_to_pb(choice),
{
    match choice {
        IndexTypeChoice::Flat => pb::IndexType::Flat,
        IndexTypeChoice::Hnsw => pb::IndexType::Hnsw,
    }
}

/// Converts a wire index type to the local choice; the unspecified sentinel
/// is a missing `index_type` field.
pub fn index_type_from_pb(index_type: pb::IndexType) -> (r: Result<IndexTypeChoice, ConversionError>)
    ensures
        match spec_index_type_from_pb(index_type) {
            Some(c) => r == Ok::<IndexTypeChoice, ConversionError>(c),
            None => r == Err::<IndexTypeChoice, ConversionError>(ConversionError::MissingField("index_type")),
        },
{
    match index_type {
        pb::IndexType::Flat => Ok(IndexTypeChoice::Flat),
        pb::IndexType::Hnsw => Ok(IndexTypeChoice::Hnsw),
        pb::IndexType::Unspecified => Err(ConversionError::MissingField("index_type")),
    }
}

/// Every domain metric survives the trip to the wire and back, and no two
/// metrics share a wire value.
pub proof fn lemma_metric_round_trip(m: Metric, n: Metric)
    ensures
        spec_metric_from_pb(spec_metric_to_pb(m)) == Some(m),
        spec_metric_to_pb(m) != pb::Metric::Unspecified,
        spec_metric_to_pb(m) == spec_metric_to_pb(n) ==> m == n,
{
}

/// Every wire metric but the sentinel survives the trip to the domain and back.
pub proof fn lemma_pb_metric_round_trip(p: pb::Metric)
    ensures
        p != pb::Metric::Unspecified ==> (spec_metric_from_pb(p) matches Some(m) && spec_metric_to_pb(m) == p),
{
}

/// Every index-type choice survives the trip to the wire and back.
pub proof fn lemma_index_type_round_trip(c: IndexTypeChoice, d: IndexTypeChoice)
    ensures
        spec_index_type_from_pb(spec_index_type_to_pb(c)) == Some(c),
        spec_index_type_to_pb(c) != pb::IndexType::Unspecified,
        spec_index_type_to_pb(c) == spec_index_type_to_pb(d) ==> c == d,
{
}

/// The outcome of decoding an optional metric number from the wire.
pub enum OptionalMetric {
    /// Absent, or the unspecified sentinel: use the index default.
    Default,
    /// A known metric.
    Given(Metric),
    /// A number the wire enumeration lacks.
    Unknown(i32),
}

/// What an optional wire metric number means.
pub open spec fn spec_optional_metric(metric: Option<i32>) -> OptionalMetric {
    match metric {
        None => OptionalMetric::Default,
        Some(raw) => if !(0 <= raw <= 3) {
            OptionalMetric::Unknown(raw)
        } else if raw == 0 {
            OptionalMetric::Default
        } else if raw == 1 {
            OptionalMetric::Given(Metric::Cosine)
        } else if raw == 2 {
            OptionalMetric::Given(Metric::DotProduct)
        } else {
            OptionalMetric::Given(Metric::Euclidean)
        },
    }
}

/// Converts an optional wire metric number into an optional domain metric.
///
/// Absent and the unspecified sentinel (0) give `Ok(None)`; a known number
/// gives its metric; any other number is a `Domain` error naming it.
pub fn optional_metric_from_pb(metric: Option<i32>) -> (r: Result<Option<Metric>, ConversionError>)
    ensures
        match spec_optional_metric(metric) {
            OptionalMetric::Default => r == Ok::<Option<Metric>, ConversionError>(None),
            OptionalMetric::Given(m) => r == Ok::<Option<Metric>, ConversionError>(Some(m)),
            OptionalMetric::Unknown(raw) => r matches Err(ConversionError::Domain(msg))
                && msg@ == "unknown metric discriminant: "@ + signed_decimal_text(raw as int),
        },
{
    match metric {
        None => Ok(None),
        Some(raw) => {
            match pb::Metric::from_i32(raw) {
                None => {
                    let mut msg = String::from_str("unknown metric discriminant: ");
                    append_signed_decimal(&mut msg, raw as i64);
                    Err(ConversionError::Domain(msg))
                },
                Some(pb_metric) => {
                    match pb_metric {
                        pb::Metric::Unspecified => Ok(None),
                        _ => match metric_from_pb(pb_metric) {
                            Ok(m) => Ok(Some(m)),
                            Err(e) => Err(e),
                        },
                    }
                },
            }
        },
    }
}

} // verus!
