//! The pure part of the typed client: collection specifications and views,
//! and their conversion to and from wire messages.

use vstd::prelude::*;
use crate::convert_enums::{IndexTypeChoice, index_type_from_pb, index_type_to_pb, metric_from_pb,
    metric_to_pb, spec_index_type_from_pb, spec_index_type_to_pb, spec_metric_from_pb, spec_metric_to_pb};
use crate::dimension::Dimension;
use crate::errors::ConversionError;
use crate::hnsw_config::HnswConfig;
use crate::metric::Metric;
use crate::pb;
use crate::text::concat;

verus! {

/// Specification used to create a collection.
#[derive(Debug, Clone, PartialEq, Eq)]
pub struct CollectionSpec {
    /// Collection name.
    pub name: String,
    /// Distance metric.
    pub metric: Metric,
    /// Vector dimension.
    pub dimension: Dimension,
    /// Backing index type.
    pub index_type: IndexTypeChoice,
    /// HNSW parameters; ignored unless `index_type` is HNSW.
    pub hnsw: Option<HnswConfig>,
}

/// A read-only view of a collection's metadata and current size.
#[derive(Debug, Clone, PartialEq, Eq)]
pub struct CollectionMetaView {
    /// Collection name.
    pub name: String,
    /// Distance metric.
    pub metric: Metric,
    /// Vector dimension.
    pub dimension: Dimension,
    /// Backing index type.
    pub index_type: IndexTypeChoice,
    /// Number of vectors currently stored.
    pub count: u64,
}

/// The error for a value that does not fit its wire field.
pub open spec fn out_of_range_error(field: Seq<char>, e: ConversionError) -> bool {
    e matches ConversionError::Domain(msg) && msg@ == field + " out of range"@
}

fn out_of_range(field: &str) -> (r: ConversionError)
    ensures
        out_of_range_error(field@, r),
{
    ConversionError::Domain(concat(field, " out of range"))
}

/// Narrows a `usize` to a `u32`, failing with `"<field> out of range"`.
pub fn narrow_u32(value: usize, field: &str) -> (r: Result<u32, ConversionError>)
    ensures
        value <= u32::MAX ==> r == Ok::<u32, ConversionError>(value as u32),
        value > u32::MAX ==> (r matches Err(e) && out_of_range_error(field@, e)),
{
    if value <= 4294967295usize {
        Ok(value as u32)
    } else {
        Err(out_of_range(field))
    }
}

/// Builds the wire creation request for a collection specification. HNSW
/// parameters go on the wire only when the specification carries them, and
/// each must fit in a `u32`.
pub fn spec_to_create_request(spec: CollectionSpec) -> (r: Result<pb::CreateCollectionRequest, ConversionError>)
    ensures
        match r {
            Ok(req) => {
                &&& req.name@ == spec.name@
                &&& req.metric == pb::metric_number(spec_metric_to_pb(spec.metric))
                &&& req.dimension == spec.dimension@
                &&& req.index_type == pb::index_type_number(spec_index_type_to_pb(spec.index_type))
                &&& match spec.hnsw {
                    None => req.hnsw_params is None,
                    Some(c) => req.hnsw_params == Some(pb::HnswParams {
                        m: c.m as u32,
                        ef_construction: c.ef_construction as u32,
                        ef_search: c.ef_search as u32,
                        seed: c.seed,
                    }) && c.m <= u32::MAX && c.ef_construction <= u32::MAX && c.ef_search <= u32::MAX,
                }
            },
            Err(e) => match spec.hnsw {
                None => false,
                Some(c) => {
                    ||| (c.m > u32::MAX && out_of_range_error("m"@, e))
                    ||| (c.m <= u32::MAX && c.ef_construction > u32::MAX && out_of_range_error("ef_construction"@, e))
                    ||| (c.m <= u32::MAX && c.ef_construction <= u32::MAX && c.ef_search > u32::MAX
                        && out_of_range_error("ef_search"@, e))
                },
            },
        },
{
    let dimension = spec.dimension.as_u32();
    let hnsw_params = match spec.hnsw {
        Some(config) => {
            let m = match narrow_u32(config.m, "m") {
                Ok(v) => v,
                Err(e) => return Err(e),
            };
            let ef_construction = match narrow_u32(config.ef_construction, "ef_construction") {
                Ok(v) => v,
                Err(e) => return Err(e),
            };
            let ef_search = match narrow_u32(config.ef_search, "ef_search") {
                Ok(v) => v,
                Err(e) => return Err(e),
            };
            Some(pb::HnswParams { m, ef_construction, ef_search, seed: config.seed })
        },
        None => None,
    };
    Ok(pb::CreateCollectionRequest {
        name: spec.name,
        metric: metric_to_pb(spec.metric).as_i32(),
        dimension,
        index_type: index_type_to_pb(spec.index_type).as_i32(),
        hnsw_params,
    })
}

/// Decodes a wire collection description into a view.
///
/// Fails with `"metric out of range"` for an unknown metric number, with a
/// missing `metric` for the sentinel, likewise for the index type, and with
/// `"dimension out of range"` for a zero dimension.
pub fn collection_info_to_view(info: pb::CollectionInfo) -> (r: Result<CollectionMetaView, ConversionError>)
    ensures
        match r {
            Ok(view) => {
                &&& 0 < info.metric <= 3
                &&& pb::Metric::from_i32_spec(info.metric) matches Some(pm)
                &&& spec_metric_from_pb(pm) == Some(view.metric)
                &&& 0 < info.index_type <= 2
                &&& pb::IndexType::from_i32_spec(info.index_type) matches Some(pt)
                &&& spec_index_type_from_pb(pt) == Some(view.index_type)
                &&& info.dimension > 0
                &&& view.dimension@ == info.dimension
                &&& view.name@ == info.name@
                &&& view.count == info.count
            },
            Err(e) => {
                &&& !(0 < info.metric <= 3 && 0 < info.index_type <= 2 && info.dimension > 0)
                &&& if !(0 <= info.metric <= 3) {
                    out_of_range_error("metric"@, e)
                } else if info.metric == 0 {
                    e matches ConversionError::MissingField(f) && f@ == "metric"@
                } else if !(0 <= info.index_type <= 2) {
                    out_of_range_error("index_type"@, e)
                } else if info.index_type == 0 {
                    e matches ConversionError::MissingField(f) && f@ == "index_type"@
                } else {
                    out_of_range_error("dimension"@, e)
                }
            },
        },
{
    proof {
        reveal_strlit("metric");
        reveal_strlit("index_type");
    }
    let pm = match pb::Metric::from_i32(info.metric) {
        Some(m) => m,
        None => return Err(out_of_range("metric")),
    };
    let metric = match metric_from_pb(pm) {
        Ok(m) => m,
        Err(e) => return Err(e),
    };
    let pt = match pb::IndexType::from_i32(info.index_type) {
        Some(t) => t,
        None => return Err(out_of_range("index_type")),
    };
    let index_type = match index_type_from_pb(pt) {
        Ok(t) => t,
        Err(e) => return Err(e),
    };
    let dimension = match Dimension::from_u32(info.dimension) {
        Ok(d) => d,
        Err(_) => return Err(out_of_range("dimension")),
    };
    Ok(CollectionMetaView { name: info.name, metric, dimension, index_type, count: info.count })
}

} // verus!
