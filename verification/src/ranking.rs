//! Ranking of scored items: descending score, ties broken by an ascending
//! secondary key, cut to the first `k`.
//!
//! Scores are floats where they are computed; here each score stands as the
//! integer key its raw bits give under the order `total_cmp` uses, so the
//! ranking itself is integer logic.

use vstd::prelude::*;
use crate::vector_id::VectorId;

verus! {

broadcast use vstd::seq_lib::group_to_multiset_ensures;

/// The position of an `f32` (given by its raw bits) in the total order
/// `f32::total_cmp` compares by: non-negative patterns in bit order, then
/// negative patterns reversed below them.
pub open spec fn f32_key(bits: u32) -> int {
    if bits < 0x8000_0000 {
        bits as int
    } else {
        -1 - (bits - 0x8000_0000)
    }
}

/// The position of an `f64` (given by its raw bits) in the total order
/// `f64::total_cmp` compares by.
pub open spec fn f64_key(bits: u64) -> int {
    if bits < 0x8000_0000_0000_0000 {
        bits as int
    } else {
        -1 - (bits - 0x8000_0000_0000_0000)
    }
}

/// The `total_cmp` key of an `f32`, from its raw bits.
pub fn f32_order_key(bits: u32) -> (r: i64)
    ensures
        r == f32_key(bits),
{
    if bits < 0x8000_0000u32 {
        bits as i64
    } else {
        -1i64 - ((bits - 0x8000_0000u32) as i64)
    }
}

/// The `total_cmp` key of an `f64`, from its raw bits.
pub fn f64_order_key(bits: u64) -> (r: i64)
    ensures
        r == f64_key(bits),
{
    if bits < 0x8000_0000_0000_0000u64 {
        bits as i64
    } else {
        -1i64 - ((bits - 0x8000_0000_0000_0000u64) as i64)
    }
}

/// Distinct raw bits have distinct keys: the key is a faithful order.
pub proof fn lemma_f32_key_injective(a: u32, b: u32)
    ensures
        (f32_key(a) == f32_key(b)) == (a == b),
{
}

/// Distinct raw bits have distinct keys: the key is a faithful order.
pub proof fn lemma_f64_key_injective(a: u64, b: u64)
    ensures
        (f64_key(a) == f64_key(b)) == (a == b),
{
}

/// Whether an item with score key `a.0` and tie key `a.1` ranks strictly
/// before one with `b`: a greater score, or an equal score and a smaller
/// tie key.
pub open spec fn ranks_before(a: (i64, u128), b: (i64, u128)) -> bool {
    a.0 > b.0 || (a.0 == b.0 && a.1 < b.1)
}

/// The score and tie keys of a ranked item.
pub open spec fn rank_of<T>(x: (i64, u128, T)) -> (i64, u128) {
    (x.0, x.1)
}

/// No item ranks strictly before an item earlier in the sequence.
pub open spec fn is_ranked<T>(s: Seq<(i64, u128, T)>) -> bool {
    forall|i: int, j: int| 0 <= i < j < s.len() ==> !ranks_before(rank_of(#[trigger] s[j]), rank_of(#[trigger] s[i]))
}

/// `out` is a top-`k` ranking of `items`: ranked, as long as `k` allows,
/// drawn from `items`, and every item left out ranks no earlier than the
/// last one taken.
pub open spec fn is_top_k<T>(out: Seq<(i64, u128, T)>, items: Seq<(i64, u128, T)>, k: nat) -> bool {
    &&& is_ranked(out)
    &&& out.len() == if items.len() < k { items.len() } else { k }
    &&& out.to_multiset().subset_of(items.to_multiset())
    &&& forall|x: (i64, u128, T)| #[trigger] items.to_multiset().count(x) > out.to_multiset().count(x) ==>
        out.len() == k && (k > 0 ==> !ranks_before(rank_of(x), rank_of(out.last())))
}

/// The number of leading items of a ranked sequence that rank strictly
/// before `e`: where `e` goes, after every item it does not beat.
fn insertion_point<T>(out: &Vec<(i64, u128, T)>, key: i64, tie: u128) -> (p: usize)
    requires
        is_ranked(out@),
    ensures
        p <= out@.len(),
        forall|j: int| 0 <= j < p ==> ranks_before(rank_of(#[trigger] out@[j]), (key, tie)),
        forall|j: int| p <= j < out@.len() ==> !ranks_before(rank_of(#[trigger] out@[j]), (key, tie)),
{
    let mut p: usize = 0;
    while p < out.len()
        invariant
            p <= out@.len(),
            is_ranked(out@),
            forall|j: int| 0 <= j < p ==> ranks_before(rank_of(#[trigger] out@[j]), (key, tie)),
        decreases out.len() - p,
    {
        let k0 = out[p].0;
        let t0 = out[p].1;
        if !(k0 > key || (k0 == key && t0 < tie)) {
            assert forall|j: int| p <= j < out@.len() implies !ranks_before(rank_of(#[trigger] out@[j]), (key, tie)) by {
                if j > p {
                    assert(!ranks_before(rank_of(out@[j]), rank_of(out@[p as int])));
                }
            }
            return p;
        }
        p = p + 1;
    }
    p
}

/// Sorts `items` by descending score key, ties by ascending tie key, and
/// keeps the first `k`. Items with equal score and tie keys keep their
/// input order.
pub fn rank_top_k<T>(items: Vec<(i64, u128, T)>, k: usize) -> (r: Vec<(i64, u128, T)>)
    ensures
        is_top_k(r@, items@, k as nat),
{
    let ghost all = items@;
    let mut rest = items;
    let mut out: Vec<(i64, u128, T)> = Vec::new();
    proof {
        assert(all.skip(all.len() as int) =~= Seq::<(i64, u128, T)>::empty());
    }
    while rest.len() > 0
        invariant
            rest@ == all.take(rest@.len() as int),
            rest@.len() <= all.len(),
            is_top_k(out@, all.skip(rest@.len() as int), k as nat),
        decreases rest.len(),
    {
        let ghost n = rest@.len() as int;
        let ghost before = all.skip(n);
        let ghost old_out = out@;
        let e = rest.pop().unwrap();
        let ghost done = all.skip(n - 1);
        proof {
            assert(all.take(n)[n - 1] == all[n - 1]);
            assert(done =~= before.insert(0, e));
            assert(rest@ =~= all.take(n - 1));
            lemma_insert_multiset(before, 0, e);
        }
        let p = insertion_point(&out, e.0, e.1);
        let ghost key = (e.0, e.1);
        out.insert(p, e);
        proof {
            lemma_insert_multiset(old_out, p as int, e);
            lemma_ranked_insert(old_out, p as int, e);
        }
        if out.len() > k {
            let ghost full = out@;
            let dropped = out.pop().unwrap();
            proof {
                assert(full =~= out@.push(dropped));
                lemma_after_truncate(old_out, full, out@, dropped, before, done, e, k as nat, p as int);
            }
        } else {
            proof {
                lemma_after_grow(old_out, out@, before, done, e, k as nat);
            }
        }
    }
    proof {
        assert(all.skip(0) =~= all);
    }
    out
}

/// Inserting into a sequence inserts into its multiset.
proof fn lemma_insert_multiset<T>(s: Seq<T>, p: int, e: T)
    requires
        0 <= p <= s.len(),
    ensures
        s.insert(p, e).to_multiset() =~= s.to_multiset().insert(e),
{
    let t = s.insert(p, e);
    assert(t.remove(p) =~= s);
    assert(t.remove(p).to_multiset() =~= t.to_multiset().remove(t[p]));
    assert(t.to_multiset().count(e) > 0) by {
        assert(t.contains(t[p]));
    }
}

/// Inserting at the point found keeps a sequence ranked.
proof fn lemma_ranked_insert<T>(s: Seq<(i64, u128, T)>, p: int, e: (i64, u128, T))
    requires
        is_ranked(s),
        0 <= p <= s.len(),
        forall|j: int| 0 <= j < p ==> ranks_before(rank_of(#[trigger] s[j]), rank_of(e)),
        forall|j: int| p <= j < s.len() ==> !ranks_before(rank_of(#[trigger] s[j]), rank_of(e)),
    ensures
        is_ranked(s.insert(p, e)),
{
    let t = s.insert(p, e);
    assert forall|i: int, j: int| 0 <= i < j < t.len() implies !ranks_before(rank_of(#[trigger] t[j]), rank_of(#[trigger] t[i])) by {
        if i < p && j < p {
            assert(t[i] == s[i] && t[j] == s[j]);
        } else if i < p && j == p {
            assert(t[i] == s[i] && t[j] == e);
        } else if i < p {
            assert(t[i] == s[i] && t[j] == s[j - 1]);
        } else if i == p {
            assert(t[i] == e && t[j] == s[j - 1]);
        } else {
            assert(t[i] == s[i - 1] && t[j] == s[j - 1]);
        }
    }
}

/// The top-`k` property after an insertion that stayed within `k`.
proof fn lemma_after_grow<T>(old_out: Seq<(i64, u128, T)>, out: Seq<(i64, u128, T)>,
    before: Seq<(i64, u128, T)>, done: Seq<(i64, u128, T)>, e: (i64, u128, T), k: nat)
    requires
        is_top_k(old_out, before, k),
        is_ranked(out),
        out.len() == old_out.len() + 1,
        out.len() <= k,
        out.to_multiset() =~= old_out.to_multiset().insert(e),
        done.to_multiset() =~= before.to_multiset().insert(e),
        done.len() == before.len() + 1,
    ensures
        is_top_k(out, done, k),
{
    assert forall|x: (i64, u128, T)| #[trigger] done.to_multiset().count(x) > out.to_multiset().count(x) implies
        out.len() == k && (k > 0 ==> !ranks_before(rank_of(x), rank_of(out.last()))) by {
        assert(before.to_multiset().count(x) > old_out.to_multiset().count(x));
    }
    assert forall|x: (i64, u128, T)| #[trigger] out.to_multiset().count(x) <= done.to_multiset().count(x) by {
        assert(old_out.to_multiset().count(x) <= before.to_multiset().count(x));
    }
    assert(out.to_multiset().subset_of(done.to_multiset()));
}

/// The top-`k` property after an insertion that went past `k` and dropped
/// the last item.
proof fn lemma_after_truncate<T>(old_out: Seq<(i64, u128, T)>, full: Seq<(i64, u128, T)>,
    out: Seq<(i64, u128, T)>, dropped: (i64, u128, T), before: Seq<(i64, u128, T)>,
    done: Seq<(i64, u128, T)>, e: (i64, u128, T), k: nat, p: int)
    requires
        is_top_k(old_out, before, k),
        is_ranked(full),
        0 <= p <= old_out.len(),
        full == old_out.insert(p, e),
        full.len() == old_out.len() + 1,
        full.len() > k,
        full == out.push(dropped),
        full.to_multiset() =~= old_out.to_multiset().insert(e),
        done.to_multiset() =~= before.to_multiset().insert(e),
        done.len() == before.len() + 1,
    ensures
        is_top_k(out, done, k),
{
    assert(full.to_multiset() =~= out.to_multiset().insert(dropped));
    assert(old_out.len() == k);
    assert(out.len() == k);
    assert forall|x: (i64, u128, T)| #[trigger] out.to_multiset().count(x) <= done.to_multiset().count(x) by {
        assert(old_out.to_multiset().count(x) <= before.to_multiset().count(x));
        assert(full.to_multiset().count(x) == out.to_multiset().count(x) + if x == dropped { 1nat } else { 0nat });
        assert(full.to_multiset().count(x) == old_out.to_multiset().count(x) + if x == e { 1nat } else { 0nat });
        assert(done.to_multiset().count(x) == before.to_multiset().count(x) + if x == e { 1nat } else { 0nat });
    }
    assert(out.to_multiset().subset_of(done.to_multiset()));
    assert forall|i: int, j: int| 0 <= i < j < out.len() implies !ranks_before(rank_of(#[trigger] out[j]), rank_of(#[trigger] out[i])) by {
        assert(out[i] == full[i] && out[j] == full[j]);
    }
    assert forall|x: (i64, u128, T)| #[trigger] done.to_multiset().count(x) > out.to_multiset().count(x) implies
        out.len() == k && (k > 0 ==> !ranks_before(rank_of(x), rank_of(out.last()))) by {
        if k > 0 {
            assert(out.last() == full[k as int - 1]);
            assert(!ranks_before(rank_of(full[k as int]), rank_of(full[k as int - 1])));
            assert(full[k as int] == dropped);
            if x == dropped {
            } else if before.to_multiset().count(x) > old_out.to_multiset().count(x) {
                // x was already left out: it ranks no earlier than the old
                // last item, which ranks no earlier than the new last one.
                let ol = old_out.last();
                assert(!ranks_before(rank_of(x), rank_of(ol)));
                if p < k as int {
                    assert(full[k as int] == ol);
                } else {
                    assert(full[k as int - 1] == ol);
                }
            } else {
                assert(full.to_multiset().count(x) == out.to_multiset().count(x));
                assert(full.to_multiset().count(x) == old_out.to_multiset().count(x) + if x == e { 1nat } else { 0nat });
                assert(done.to_multiset().count(x) == before.to_multiset().count(x) + if x == e { 1nat } else { 0nat });
            }
        }
    }
}

/// The ranking items of scored ids: each `f64` score's key (from its raw
/// bits) and the id as tie key.
pub open spec fn scored_id_items(entries: Seq<(VectorId, u64)>) -> Seq<(i64, u128, (VectorId, u64))> {
    Seq::new(entries.len(), |i: int| (f64_key(entries[i].1) as i64, entries[i].0@, entries[i]))
}

/// The entries of ranked items.
pub open spec fn ranked_entries(s: Seq<(i64, u128, (VectorId, u64))>) -> Seq<(VectorId, u64)> {
    s.map_values(|x: (i64, u128, (VectorId, u64))| x.2)
}

/// Ranks scored ids by descending `f64` score (raw bits, `total_cmp`
/// order), ties by ascending id, and keeps the first `k`.
pub fn rank_scored_ids(entries: &Vec<(VectorId, u64)>, k: usize) -> (r: Vec<(VectorId, u64)>)
    ensures
        exists|out: Seq<(i64, u128, (VectorId, u64))>| is_top_k(out, scored_id_items(entries@), k as nat)
            && r@ == ranked_entries(out),
{
    let mut items: Vec<(i64, u128, (VectorId, u64))> = Vec::new();
    let mut i: usize = 0;
    while i < entries.len()
        invariant
            i <= entries@.len(),
            items@ == scored_id_items(entries@).take(i as int),
        decreases entries.len() - i,
    {
        let e = entries[i];
        items.push((f64_order_key(e.1), e.0.as_u128(), e));
        proof {
            assert(items@ =~= scored_id_items(entries@).take(i + 1));
        }
        i = i + 1;
    }
    proof {
        assert(items@ =~= scored_id_items(entries@));
    }
    let ranked = rank_top_k(items, k);
    let mut out: Vec<(VectorId, u64)> = Vec::new();
    let mut j: usize = 0;
    while j < ranked.len()
        invariant
            j <= ranked@.len(),
            out@ == ranked_entries(ranked@.take(j as int)),
        decreases ranked.len() - j,
    {
        out.push(ranked[j].2);
        proof {
            assert(ranked_entries(ranked@.take(j + 1)) =~= ranked_entries(ranked@.take(j as int)).push(ranked@[j as int].2));
        }
        j = j + 1;
    }
    proof {
        assert(ranked@.take(j as int) =~= ranked@);
    }
    out
}

/// `x > 0.0` for an `f64` given by its raw bits: a positive sign, not zero,
/// not NaN.
pub open spec fn f64_is_positive(bits: u64) -> bool {
    0 < bits <= 0x7FF0_0000_0000_0000
}

/// Whether an `f64`, given by its raw bits, is greater than zero.
pub fn f64_positive(bits: u64) -> (r: bool)
    ensures
        r == f64_is_positive(bits),
{
    0 < bits && bits <= 0x7FF0_0000_0000_0000u64
}

} // verus!
