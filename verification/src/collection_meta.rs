//! Collection metadata and the rules the server applies to collection
//! names and creation requests.

use vstd::prelude::*;
use crate::convert_enums::{IndexTypeChoice, spec_index_type_from_pb, spec_metric_from_pb,
    index_type_from_pb, metric_from_pb, index_type_to_pb, metric_to_pb,
    spec_index_type_to_pb, spec_metric_to_pb};
use crate::dimension::Dimension;
use crate::hnsw_config::{HnswConfig, default_config};
use crate::metric::Metric;
use crate::pb;
use crate::status::{RpcStatus, StatusCode, conversion_error_to_status, invalid_argument};
use crate::text::chars_of;

verus! {

/// Metadata describing a collection: metric space, dimensionality, index
/// algorithm and, for HNSW, its tuning parameters.
#[derive(Debug, Clone, PartialEq, Eq)]
pub struct CollectionMeta {
    /// Name of the collection (also its directory name on disk).
    pub name: String,
    /// Distance metric used by this collection.
    pub metric: Metric,
    /// Embedding dimensionality.
    pub dimension: Dimension,
    /// Index algorithm to use.
    pub index_type: IndexTypeChoice,
    /// HNSW tuning parameters; `None` for a flat collection.
    pub hnsw: Option<HnswConfig>,
}

/// A character allowed in a collection name: an ASCII letter or digit, `_`
/// or `-`.
pub open spec fn is_name_char(c: char) -> bool {
    ('0' <= c && c <= '9') || ('a' <= c && c <= 'z') || ('A' <= c && c <= 'Z') || c == '_' || c == '-'
}

/// A valid collection name: 1 to 64 characters, each allowed. This excludes
/// `/`, `\`, `.` and spaces, so a name never escapes its directory.
pub open spec fn spec_is_valid_name(name: Seq<char>) -> bool {
    &&& 0 < name.len() <= 64
    &&& forall|i: int| 0 <= i < name.len() ==> #[trigger] is_name_char(name[i])
}

/// Returns `true` if `name` is a valid collection name.
pub fn is_valid_name(name: &str) -> (r: bool)
    ensures
        r == spec_is_valid_name(name@),
{
    let chars = chars_of(name);
    if chars.len() == 0 || chars.len() > 64 {
        return false;
    }
    let mut i: usize = 0;
    while i < chars.len()
        invariant
            i <= chars@.len(),
            chars@ == name@,
            forall|j: int| 0 <= j < i ==> #[trigger] is_name_char(chars@[j]),
        decreases chars.len() - i,
    {
        let c = chars[i];
        if !(('0' <= c && c <= '9') || ('a' <= c && c <= 'z') || ('A' <= c && c <= 'Z') || c == '_' || c == '-') {
            assert(!is_name_char(chars@[i as int]));
            return false;
        }
        i = i + 1;
    }
    true
}

/// A zero wire field falls back to its default.
pub open spec fn nonzero_or(value: u32, default: usize) -> usize {
    if value == 0 { default } else { value as usize }
}

/// The HNSW configuration a creation request asks for: the request's
/// metric, each zero parameter replaced by its default.
pub open spec fn spec_requested_hnsw(metric: Metric, p: pb::HnswParams) -> HnswConfig {
    HnswConfig {
        metric,
        m: nonzero_or(p.m, default_config().m),
        ef_construction: nonzero_or(p.ef_construction, default_config().ef_construction),
        ef_search: nonzero_or(p.ef_search, default_config().ef_search),
        seed: if p.seed == 0 { default_config().seed } else { p.seed },
    }
}

/// Parameters that are all zero: what an absent `hnsw_params` stands for.
pub open spec fn zero_params() -> pb::HnswParams {
    pb::HnswParams { m: 0, ef_construction: 0, ef_search: 0, seed: 0 }
}

/// Decodes a creation request into collection metadata.
///
/// The metric number must be known and not the sentinel, the dimension
/// positive, and the index type known and not the sentinel; each failure is
/// `InvalidArgument`, checked in that order. For an HNSW collection, zero
/// parameters (or absent ones) take the defaults.
pub fn meta_from_create_request(req: pb::CreateCollectionRequest) -> (r: Result<CollectionMeta, RpcStatus>)
    ensures
        match r {
            Ok(meta) => {
                &&& 0 < req.metric <= 3
                &&& spec_metric_from_pb(meta_pb_metric(req.metric)) == Some(meta.metric)
                &&& req.dimension > 0
                &&& meta.dimension@ == req.dimension
                &&& 0 < req.index_type <= 2
                &&& spec_index_type_from_pb(meta_pb_index_type(req.index_type)) == Some(meta.index_type)
                &&& meta.name@ == req.name@
                &&& meta.hnsw == (if meta.index_type == IndexTypeChoice::Hnsw {
                        Some(spec_requested_hnsw(meta.metric, match req.hnsw_params {
                            Some(p) => p,
                            None => zero_params(),
                        }))
                    } else {
                        None::<HnswConfig>
                    })
            },
            Err(status) => {
                &&& status.code == StatusCode::InvalidArgument
                &&& status.message@ == if !(0 <= req.metric <= 3) {
                        "unknown metric value"@
                    } else if req.metric == 0 {
                        "missing required field: metric"@
                    } else if req.dimension == 0 {
                        "dimension must be greater than zero"@
                    } else if !(0 <= req.index_type <= 2) {
                        "unknown index_type value"@
                    } else {
                        "missing required field: index_type"@
                    }
                &&& !(0 < req.metric <= 3 && req.dimension > 0 && 0 < req.index_type <= 2)
            },
        },
{
    proof {
        reveal_strlit("unknown metric value");
        reveal_strlit("missing required field: ");
        reveal_strlit("metric");
        reveal_strlit("missing required field: metric");
        reveal_strlit("dimension must be greater than zero");
        reveal_strlit("unknown index_type value");
        reveal_strlit("index_type");
        reveal_strlit("missing required field: index_type");
    }
    let pb_metric = match pb::Metric::from_i32(req.metric) {
        Some(m) => m,
        None => return Err(invalid_argument("unknown metric value")),
    };
    let metric = match metric_from_pb(pb_metric) {
        Ok(m) => m,
        Err(e) => return Err(conversion_error_to_status(&e)),
    };
    if req.dimension == 0 {
        return Err(invalid_argument("dimension must be greater than zero"));
    }
    let dimension = match Dimension::from_u32(req.dimension) {
        Ok(d) => d,
        Err(_) => return Err(invalid_argument("dimension out of range")),
    };
    let pb_index_type = match pb::IndexType::from_i32(req.index_type) {
        Some(t) => t,
        None => return Err(invalid_argument("unknown index_type value")),
    };
    let index_type = match index_type_from_pb(pb_index_type) {
        Ok(t) => t,
        Err(e) => return Err(conversion_error_to_status(&e)),
    };
    let hnsw = match index_type {
        IndexTypeChoice::Hnsw => {
            let p = match req.hnsw_params {
                Some(p) => p,
                None => pb::HnswParams { m: 0, ef_construction: 0, ef_search: 0, seed: 0 },
            };
            let def = HnswConfig::default();
            Some(HnswConfig {
                metric,
                m: if p.m == 0 { def.m } else { p.m as usize },
                ef_construction: if p.ef_construction == 0 { def.ef_construction } else { p.ef_construction as usize },
                ef_search: if p.ef_search == 0 { def.ef_search } else { p.ef_search as usize },
                seed: if p.seed == 0 { def.seed } else { p.seed },
            })
        },
        IndexTypeChoice::Flat => None,
    };
    Ok(CollectionMeta { name: req.name, metric, dimension, index_type, hnsw })
}

/// The wire metric a known metric number denotes (the sentinel otherwise).
pub open spec fn meta_pb_metric(raw: i32) -> pb::Metric {
    if raw == 1 { pb::Metric::Cosine }
    else if raw == 2 { pb::Metric::DotProduct }
    else if raw == 3 { pb::Metric::Euclidean }
    else { pb::Metric::Unspecified }
}

/// The wire index type a known index-type number denotes (the sentinel otherwise).
pub open spec fn meta_pb_index_type(raw: i32) -> pb::IndexType {
    if raw == 1 { pb::IndexType::Flat }
    else if raw == 2 { pb::IndexType::Hnsw }
    else { pb::IndexType::Unspecified }
}

/// Describes a collection on the wire: its metadata and current count.
pub fn collection_info(meta: &CollectionMeta, count: u64) -> (r: pb::CollectionInfo)
    ensures
        r.name@ == meta.name@,
        r.metric == pb::metric_number(spec_metric_to_pb(meta.metric)),
        r.dimension == meta.dimension@,
        r.index_type == pb::index_type_number(spec_index_type_to_pb(meta.index_type)),
        r.count == count,
{
    pb::CollectionInfo {
        name: meta.name.clone(),
        metric: metric_to_pb(meta.metric).as_i32(),
        dimension: meta.dimension.as_u32(),
        index_type: index_type_to_pb(meta.index_type).as_i32(),
        count,
    }
}

} // verus!
