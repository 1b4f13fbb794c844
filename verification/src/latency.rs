//! Latency percentile summary over a set of measured durations.
//!
//! Durations are carried as whole nanoseconds.

use vstd::prelude::*;
use vstd::relations::{sorted_by, total_ordering};
use vstd::seq_lib::lemma_sorted_unique;

verus! {

/// Percentile summary of a batch of measured durations, in nanoseconds.
#[derive(Clone, Copy, Debug, PartialEq, Eq, Structural)]
pub struct LatencySummary {
    /// Median latency.
    pub p50: u128,
    /// 99th percentile latency.
    pub p99: u128,
}

/// The order durations are sorted by.
pub open spec fn duration_leq() -> spec_fn(u128, u128) -> bool {
    |a: u128, b: u128| a <= b
}

/// The samples in ascending order.
pub open spec fn sorted_samples(samples: Seq<u128>) -> Seq<u128> {
    samples.sort_by(duration_leq())
}

/// Nearest-rank position (0-based) of the `percent`-th percentile among `n`
/// sorted samples: `ceil(percent * n / 100)`, clamped to `[1, n]`, minus one.
pub open spec fn nearest_rank_index(percent: nat, n: nat) -> int {
    let rank = (percent * n + 99) / 100;
    let clamped = if rank < 1 { 1 } else if rank > n { n as int } else { rank as int };
    clamped - 1
}

/// The summary `summarize` returns for the given samples.
pub open spec fn spec_summary(samples: Seq<u128>) -> LatencySummary {
    if samples.len() == 0 {
        LatencySummary { p50: 0, p99: 0 }
    } else {
        let sorted = sorted_samples(samples);
        LatencySummary {
            p50: sorted[nearest_rank_index(50, samples.len())],
            p99: sorted[nearest_rank_index(99, samples.len())],
        }
    }
}

proof fn lemma_duration_leq_total()
    ensures
        total_ordering(duration_leq()),
{
}

/// Sorts the samples ascending (insertion sort into a fresh vector).
fn sort_samples(samples: &[u128]) -> (r: Vec<u128>)
    ensures
        r@ == sorted_samples(samples@),
        r@.len() == samples@.len(),
{
    broadcast use vstd::seq_lib::group_to_multiset_ensures;
    let mut out: Vec<u128> = Vec::new();
    proof {
        assert(samples@.take(0) =~= Seq::<u128>::empty());
    }
    let mut i: usize = 0;
    while i < samples.len()
        invariant
            i <= samples@.len(),
            sorted_by(out@, duration_leq()),
            out@.to_multiset() == samples@.take(i as int).to_multiset(),
        decreases samples.len() - i,
    {
        let x = samples[i];
        let mut pos: usize = 0;
        while pos < out.len() && out[pos] <= x
            invariant
                pos <= out@.len(),
                forall|j: int| 0 <= j < pos ==> out@[j] <= x,
            decreases out.len() - pos,
        {
            pos = pos + 1;
        }
        let ghost before = out@;
        out.insert(pos, x);
        proof {
            vstd::seq_lib::to_multiset_insert(before, pos as int, x);
            assert(samples@.take(i + 1) =~= samples@.take(i as int).push(x));
            vstd::seq_lib::to_multiset_build(samples@.take(i as int), x);
            assert(out@ == before.insert(pos as int, x));
            assert forall|a: int, b: int| 0 <= a < b < out@.len() implies #[trigger] duration_leq()(out@[a], out@[b]) by {
                if pos < before.len() {
                    assert(x < before[pos as int]);
                    if b > pos {
                        assert(duration_leq()(before[pos as int], before[b - 1]) || b - 1 == pos);
                    }
                    if a > pos {
                        assert(duration_leq()(before[a - 1], before[b - 1]));
                    }
                    if a < pos && b > pos {
                        assert(duration_leq()(before[a], before[b - 1]));
                    }
                    if a < pos && b < pos {
                        assert(duration_leq()(before[a], before[b]));
                    }
                } else {
                    if b < pos {
                        assert(duration_leq()(before[a], before[b]));
                    }
                }
            }
        }
        i = i + 1;
    }
    proof {
        assert(samples@.take(samples@.len() as int) =~= samples@);
        vstd::seq_lib::to_multiset_len(out@);
        vstd::seq_lib::to_multiset_len(samples@);
        lemma_duration_leq_total();
        samples@.lemma_sort_by_ensures(duration_leq());
        lemma_sorted_unique(out@, sorted_samples(samples@), duration_leq());
    }
    out
}

/// Nearest-rank index among `n` sorted samples.
fn nearest_rank(percent: u128, n: usize) -> (r: usize)
    requires
        percent <= 100,
        n > 0,
    ensures
        r == nearest_rank_index(percent as nat, n as nat),
        r < n,
{
    assert(percent * (n as u128) <= 100 * 0xFFFF_FFFF_FFFF_FFFFu128) by (nonlinear_arith)
        requires
            percent <= 100,
            n as u128 <= 0xFFFF_FFFF_FFFF_FFFFu128;
    let rank: u128 = (percent * (n as u128) + 99) / 100;
    if rank < 1 {
        0
    } else if rank > n as u128 {
        n - 1
    } else {
        (rank as usize) - 1
    }
}

/// Computes p50 and p99 by nearest rank on a sorted copy of `samples`;
/// zero durations when `samples` is empty.
pub fn summarize(samples: &[u128]) -> (r: LatencySummary)
    ensures
        r == spec_summary(samples@),
{
    if samples.len() == 0 {
        return LatencySummary { p50: 0, p99: 0 };
    }
    let sorted = sort_samples(samples);
    let i50 = nearest_rank(50, samples.len());
    let i99 = nearest_rank(99, samples.len());
    LatencySummary { p50: sorted[i50], p99: sorted[i99] }
}

} // verus!
