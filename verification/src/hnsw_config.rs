//! Configuration for an HNSW index.

use vstd::prelude::*;
use crate::metric::Metric;

verus! {

/// Fixed seed used by `Default`, so two indexes built with the default
/// configuration and the same insertion order produce identical graphs.
pub const DEFAULT_SEED: u64 = 0xDEAD_BEEF_CAFE_1234u64;

/// Smallest degree accepted by [`HnswConfig::new`].
pub const MIN_DEGREE: usize = 2usize;

/// Parameters controlling HNSW graph construction and search.
#[derive(Clone, Copy, Debug, PartialEq, Eq, Structural)]
pub struct HnswConfig {
    /// Metric the graph is built for. Only this metric is supported at query time.
    pub metric: Metric,
    /// Target number of bidirectional links per node (layers > 0). Default: 16.
    pub m: usize,
    /// Candidate list size at insertion time. Default: 200.
    pub ef_construction: usize,
    /// Candidate list size at query time. Default: 64.
    pub ef_search: usize,
    /// Seed for the deterministic `SplitMix64` generator.
    pub seed: u64,
}

/// Errors returned when validating an [`HnswConfig`].
#[derive(Debug, Clone, Copy, PartialEq, Eq, Structural)]
#[non_exhaustive]
pub enum HnswConfigError {
    /// `m` was below [`MIN_DEGREE`].
    DegreeTooSmall(usize),
    /// `ef_construction` was zero.
    ZeroConstructionBeam,
    /// `ef_search` was zero.
    ZeroSearchBeam,
}

/// The configuration `Default` produces.
pub open spec fn default_config() -> HnswConfig {
    HnswConfig {
        metric: Metric::Cosine,
        m: 16,
        ef_construction: 200,
        ef_search: 64,
        seed: DEFAULT_SEED,
    }
}

/// The error `HnswConfig::new` reports for the given parameters, if any.
/// Checks run in order: degree, then construction beam, then search beam.
pub open spec fn config_error(m: usize, ef_construction: usize, ef_search: usize) -> Option<HnswConfigError> {
    if m < MIN_DEGREE {
        Some(HnswConfigError::DegreeTooSmall(m))
    } else if ef_construction == 0 {
        Some(HnswConfigError::ZeroConstructionBeam)
    } else if ef_search == 0 {
        Some(HnswConfigError::ZeroSearchBeam)
    } else {
        None
    }
}

/// Whether a configuration satisfies the constructor's validation rules.
pub open spec fn config_is_valid(c: HnswConfig) -> bool {
    config_error(c.m, c.ef_construction, c.ef_search) is None
}

impl HnswConfig {
    /// Validates and builds an HNSW configuration.
    ///
    /// Fails with `DegreeTooSmall` when `m` is below [`MIN_DEGREE`], with
    /// `ZeroConstructionBeam` when `ef_construction` is zero, and with
    /// `ZeroSearchBeam` when `ef_search` is zero.
    pub fn new(
        metric: Metric,
        m: usize,
        ef_construction: usize,
        ef_search: usize,
        seed: u64,
    ) -> (r: Result<HnswConfig, HnswConfigError>)
        ensures
            match config_error(m, ef_construction, ef_search) {
                Some(e) => r == Err::<HnswConfig, HnswConfigError>(e),
                None => r == Ok::<HnswConfig, HnswConfigError>(
                    HnswConfig { metric, m, ef_construction, ef_search, seed },
                ),
            },
    {
        if m < MIN_DEGREE {
            return Err(HnswConfigError::DegreeTooSmall(m));
        }
        if ef_construction == 0 {
            return Err(HnswConfigError::ZeroConstructionBeam);
        }
        if ef_search == 0 {
            return Err(HnswConfigError::ZeroSearchBeam);
        }
        Ok(HnswConfig { metric, m, ef_construction, ef_search, seed })
    }

    /// Returns the configured metric.
    pub fn metric(&self) -> (r: Metric)
        ensures
            r == self.metric,
    {
        self.metric
    }

    /// Returns the configured degree.
    pub fn m(&self) -> (r: usize)
        ensures
            r == self.m,
    {
        self.m
    }

    /// Returns the configured construction beam width.
    pub fn ef_construction(&self) -> (r: usize)
        ensures
            r == self.ef_construction,
    {
        self.ef_construction
    }

    /// Returns the configured search beam width.
    pub fn ef_search(&self) -> (r: usize)
        ensures
            r == self.ef_search,
    {
        self.ef_search
    }

    /// Returns the configured seed.
    pub fn seed(&self) -> (r: u64)
        ensures
            r == self.seed,
    {
        self.seed
    }

    /// Maximum degree at layer 0: twice `m`, saturating at `usize::MAX`.
    pub fn m_max0(&self) -> (r: usize)
        ensures
            r == (if 2 * self.m > usize::MAX { usize::MAX as int } else { 2 * self.m }),
    {
        if self.m > usize::MAX / 2 {
            usize::MAX
        } else {
            self.m * 2
        }
    }

    /// Maximum degree at layers above 0 (equals `m`).
    pub fn m_max(&self) -> (r: usize)
        ensures
            r == self.m,
    {
        self.m
    }
}

impl Default for HnswConfig {
    /// Cosine metric, `m = 16`, `ef_construction = 200`, `ef_search = 64`,
    /// seed [`DEFAULT_SEED`].
    fn default() -> (r: HnswConfig)
        ensures
            r == default_config(),
    {
        HnswConfig {
            metric: Metric::Cosine,
            m: 16,
            ef_construction: 200,
            ef_search: 64,
            seed: DEFAULT_SEED,
        }
    }
}

/// The default configuration passes the constructor's validation.
pub proof fn lemma_default_is_valid()
    ensures
        config_is_valid(default_config()),
{
}

} // verus!
