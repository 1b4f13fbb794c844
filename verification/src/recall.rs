//! Recall of a candidate result set against a ground-truth oracle: the
//! count of oracle ids the candidate found.

use vstd::prelude::*;
use crate::vector_id::{VectorId, lemma_vector_id_view_injective};

verus! {

/// The number of `oracle` entries whose id occurs in `candidate`.
pub open spec fn found_count(oracle: Seq<VectorId>, candidate: Seq<VectorId>) -> nat
    decreases oracle.len(),
{
    if oracle.len() == 0 {
        0
    } else {
        found_count(oracle.drop_last(), candidate) + if candidate.contains(oracle.last()) { 1nat } else { 0nat }
    }
}

/// Counts the oracle entries that the candidate also returned; recall is
/// this count over the oracle's length (and 1 for an empty oracle).
pub fn found_in(oracle: &Vec<VectorId>, candidate: &Vec<VectorId>) -> (r: usize)
    ensures
        r == found_count(oracle@, candidate@),
{
    let mut count: usize = 0;
    let mut i: usize = 0;
    while i < oracle.len()
        invariant
            i <= oracle@.len(),
            count == found_count(oracle@.take(i as int), candidate@),
            count <= i,
        decreases oracle.len() - i,
    {
        let truth = oracle[i];
        let mut j: usize = 0;
        let mut hit = false;
        while j < candidate.len()
            invariant
                j <= candidate@.len(),
                hit == exists|t: int| 0 <= t < j && candidate@[t] == truth,
            decreases candidate.len() - j,
        {
            proof {
                lemma_vector_id_view_injective(candidate@[j as int], truth);
            }
            if candidate[j].as_u128() == truth.as_u128() {
                hit = true;
            }
            j = j + 1;
        }
        proof {
            assert(oracle@.take(i + 1).drop_last() =~= oracle@.take(i as int));
            assert(oracle@.take(i + 1).last() == truth);
            if hit {
                let t = choose|t: int| 0 <= t < j && candidate@[t] == truth;
                assert(candidate@.contains(truth));
            } else {
                assert(!candidate@.contains(truth));
            }
        }
        if hit {
            count = count + 1;
        }
        i = i + 1;
    }
    proof {
        assert(oracle@.take(i as int) =~= oracle@);
    }
    count
}

/// The found count is the number of oracle entries that occur in the
/// candidate: the length of the oracle kept to those entries. It is the
/// oracle's length exactly when every oracle entry was found, so an oracle
/// measured against itself is found whole.
pub proof fn law_found_count(oracle: Seq<VectorId>, candidate: Seq<VectorId>)
    ensures
        found_count(oracle, candidate) == oracle.filter(|x: VectorId| candidate.contains(x)).len(),
        found_count(oracle, candidate) <= oracle.len(),
        (found_count(oracle, candidate) == oracle.len()) == (forall|i: int| 0 <= i < oracle.len() ==> candidate.contains(#[trigger] oracle[i])),
        found_count(oracle, oracle) == oracle.len(),
    decreases oracle.len(),
{
    reveal_with_fuel(Seq::filter, 1);
    if oracle.len() > 0 {
        law_found_count(oracle.drop_last(), candidate);
        law_found_count(oracle.drop_last(), oracle);
        let last = oracle.last();
        let n = oracle.len() - 1;
        if found_count(oracle, candidate) == oracle.len() {
            assert(found_count(oracle.drop_last(), candidate) == oracle.drop_last().len());
            assert(candidate.contains(last));
            assert forall|i: int| 0 <= i < oracle.len() implies candidate.contains(#[trigger] oracle[i]) by {
                if i < n {
                    assert(oracle[i] == oracle.drop_last()[i]);
                }
            }
        }
        if forall|i: int| 0 <= i < oracle.len() ==> candidate.contains(#[trigger] oracle[i]) {
            assert forall|i: int| 0 <= i < oracle.drop_last().len() implies candidate.contains(#[trigger] oracle.drop_last()[i]) by {
                assert(oracle[i] == oracle.drop_last()[i]);
            }
            assert(candidate.contains(oracle[n]));
        }
        assert forall|i: int| 0 <= i < oracle.drop_last().len() implies oracle.contains(#[trigger] oracle.drop_last()[i]) by {
            assert(oracle[i] == oracle.drop_last()[i]);
        }
        assert(oracle.contains(oracle[n]));
    }
}

/// Counting over an oracle split in two is counting over each part.
pub proof fn law_found_count_split(first: Seq<VectorId>, second: Seq<VectorId>, candidate: Seq<VectorId>)
    ensures
        found_count(first + second, candidate) == found_count(first, candidate) + found_count(second, candidate),
{
    law_found_count(first + second, candidate);
    law_found_count(first, candidate);
    law_found_count(second, candidate);
    Seq::filter_distributes_over_add(first, second, |x: VectorId| candidate.contains(x));
}

} // verus!
