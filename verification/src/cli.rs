//! Command-line surface of the `eidos` client: the parsed command shapes and
//! the pure helpers that turn arguments into domain values.

use vstd::prelude::*;
use crate::convert_enums::IndexTypeChoice;
use crate::hnsw_config::{HnswConfig, DEFAULT_SEED};
use crate::metric::Metric;

verus! {

/// Top-level command-line interface for `eidos`.
#[derive(Debug, Clone, PartialEq, Eq)]
pub struct Cli {
    /// Server endpoint, for example `http://127.0.0.1:50051`.
    pub endpoint: String,
    /// The subcommand to run.
    pub command: Command,
}

/// The set of subcommands `eidos` understands.
#[derive(Debug, Clone, PartialEq, Eq)]
#[allow(inconsistent_fields)]
pub enum Command {
    /// Create a collection.
    CreateCollection {
        /// Collection name.
        name: String,
        /// Distance metric.
        metric: MetricArg,
        /// Vector dimension.
        dimension: u32,
        /// Backing index type.
        index_type: IndexTypeArg,
        /// HNSW links per node.
        m: Option<u32>,
        /// HNSW construction candidate list size.
        ef_construction: Option<u32>,
        /// HNSW query candidate list size.
        ef_search: Option<u32>,
        /// HNSW generator seed.
        seed: Option<u64>,
    },
    /// List all collections.
    List,
    /// Describe a single collection.
    Describe {
        /// Collection name.
        name: String,
    },
    /// Drop a collection.
    Drop {
        /// Collection name.
        name: String,
    },
    /// Insert or update a single point.
    Upsert {
        /// Target collection.
        collection: String,
        /// Point identifier (UUID).
        id: String,
        /// Vector components as a comma-separated list.
        vector: String,
        /// Optional document text for lexical search.
        document: Option<String>,
        /// Optional payload as a flat JSON object.
        payload: Option<String>,
    },
    /// Delete a point.
    Delete {
        /// Target collection.
        collection: String,
        /// Point identifier (UUID).
        id: String,
    },
    /// Compact a collection's vector index.
    Compact {
        /// Target collection.
        collection: String,
    },
    /// Run a dense vector search.
    Search {
        /// Target collection.
        collection: String,
        /// Query vector as a comma-separated list.
        vector: String,
        /// Number of hits to return.
        k: u32,
        /// Optional metric override.
        metric: Option<MetricArg>,
        /// Optional equality filter as `{"field":"f","eq":value}`.
        filter: Option<String>,
    },
    /// Run a hybrid (dense + lexical) search.
    SearchHybrid {
        /// Target collection.
        collection: String,
        /// Optional query vector as a comma-separated list.
        vector: Option<String>,
        /// Optional lexical query text.
        text: Option<String>,
        /// Number of hits to return.
        k: u32,
        /// Optional equality filter as `{"field":"f","eq":value}`.
        filter: Option<String>,
    },
}

/// Metric choice exposed on the command line.
#[derive(Clone, Copy, Debug, PartialEq, Eq, Structural)]
pub enum MetricArg {
    /// Cosine similarity.
    Cosine,
    /// Raw dot product.
    DotProduct,
    /// Euclidean (L2) distance.
    Euclidean,
}

/// Index-type choice exposed on the command line.
#[derive(Clone, Copy, Debug, PartialEq, Eq, Structural)]
pub enum IndexTypeArg {
    /// Flat brute-force index.
    Flat,
    /// HNSW graph index.
    Hnsw,
}

/// The metric a command-line choice names.
pub open spec fn spec_metric_of_arg(arg: MetricArg) -> Metric {
    match arg {
        MetricArg::Cosine => Metric::Cosine,
        MetricArg::DotProduct => Metric::DotProduct,
        MetricArg::Euclidean => Metric::Euclidean,
    }
}

/// The index type a command-line choice names.
pub open spec fn spec_index_type_of_arg(arg: IndexTypeArg) -> IndexTypeChoice {
    match arg {
        IndexTypeArg::Flat => IndexTypeChoice::Flat,
        IndexTypeArg::Hnsw => IndexTypeChoice::Hnsw,
    }
}

impl From<MetricArg> for Metric {
    fn from(arg: MetricArg) -> (r: Metric) {
        match arg {
            MetricArg::Cosine => Metric::Cosine,
            MetricArg::DotProduct => Metric::DotProduct,
            MetricArg::Euclidean => Metric::Euclidean,
        }
    }
}

impl vstd::std_specs::convert::FromSpecImpl<MetricArg> for Metric {
    open spec fn obeys_from_spec() -> bool {
        true
    }

    open spec fn from_spec(v: MetricArg) -> Metric {
        spec_metric_of_arg(v)
    }
}

impl From<IndexTypeArg> for IndexTypeChoice {
    fn from(arg: IndexTypeArg) -> (r: IndexTypeChoice) {
        match arg {
            IndexTypeArg::Flat => IndexTypeChoice::Flat,
            IndexTypeArg::Hnsw => IndexTypeChoice::Hnsw,
        }
    }
}

impl vstd::std_specs::convert::FromSpecImpl<IndexTypeArg> for IndexTypeChoice {
    open spec fn obeys_from_spec() -> bool {
        true
    }

    open spec fn from_spec(v: IndexTypeArg) -> IndexTypeChoice {
        spec_index_type_of_arg(v)
    }
}

/// Widens a `u32` argument to a `usize` (every supported target has a
/// `usize` at least 32 bits wide).
pub fn to_usize(value: u32) -> (r: usize)
    ensures
        r == value,
{
    value as usize
}

/// The lowercase label a metric is rendered with.
pub open spec fn spec_metric_label(metric: Metric) -> Seq<char> {
    match metric {
        Metric::Cosine => "cosine"@,
        Metric::DotProduct => "dot-product"@,
        Metric::Euclidean => "euclidean"@,
    }
}

/// Renders a metric as a lowercase string.
pub fn metric_label(metric: Metric) -> (r: &'static str)
    ensures
        r@ == spec_metric_label(metric),
{
    match metric {
        Metric::Cosine => "cosine",
        Metric::DotProduct => "dot-product",
        Metric::Euclidean => "euclidean",
    }
}

/// The lowercase label an index type is rendered with.
pub open spec fn spec_index_type_label(index_type: IndexTypeChoice) -> Seq<char> {
    match index_type {
        IndexTypeChoice::Flat => "flat"@,
        IndexTypeChoice::Hnsw => "hnsw"@,
    }
}

/// Renders an index type as a lowercase string.
pub fn index_type_label(index_type: IndexTypeChoice) -> (r: &'static str)
    ensures
        r@ == spec_index_type_label(index_type),
{
    match index_type {
        IndexTypeChoice::Flat => "flat",
        IndexTypeChoice::Hnsw => "hnsw",
    }
}

/// The value of an optional argument, or `default` when it is absent.
pub open spec fn or_default<T>(value: Option<T>, default: T) -> T {
    match value {
        Some(v) => v,
        None => default,
    }
}

/// Builds the HNSW configuration for a create request, filling unset fields
/// from the defaults (`m = 16`, `ef_construction = 200`, `ef_search = 64`,
/// the default seed).
pub fn build_hnsw(
    metric: Metric,
    m: Option<u32>,
    ef_construction: Option<u32>,
    ef_search: Option<u32>,
    seed: Option<u64>,
) -> (r: HnswConfig)
    ensures
        r.metric == metric,
        r.m == or_default(m, 16u32),
        r.ef_construction == or_default(ef_construction, 200u32),
        r.ef_search == or_default(ef_search, 64u32),
        r.seed == or_default(seed, DEFAULT_SEED),
{
    let defaults = HnswConfig::default();
    HnswConfig {
        metric,
        m: match m {
            Some(v) => to_usize(v),
            None => defaults.m,
        },
        ef_construction: match ef_construction {
            Some(v) => to_usize(v),
            None => defaults.ef_construction,
        },
        ef_search: match ef_search {
            Some(v) => to_usize(v),
            None => defaults.ef_search,
        },
        seed: match seed {
            Some(v) => v,
            None => defaults.seed,
        },
    }
}

} // verus!
