//! The HNSW search procedures: greedy descent through the upper layers,
//! beam search within a layer, and the neighbor-selection heuristic.
//!
//! Similarity scores are `f32` values computed where embeddings live; a
//! procedure here receives a scoring function that gives, for a node index,
//! the raw bits of the node's score against the query. Comparisons between
//! scores are made on those bits exactly as `f32` compares them.

use vstd::prelude::*;
use vstd::set_lib::{set_int_range, lemma_int_range, lemma_len_subset};
use crate::hnsw_graph::{HnswGraph, NodeView, nodes_valid};
use crate::vector_id::{VectorId, lemma_vector_id_view_injective, vector_id_spec, lemma_vector_id_spec};
use crate::dimension::Dimension;
use crate::errors::IndexError;
use crate::hnsw_index::HnswIndex;
use crate::metric::Metric;
use crate::hnsw_index::{InsertDelta, entry_sound, lemma_live_total_zero};
use crate::hnsw_graph::live_index;
use crate::ranking::rank_top_k;
use crate::splitmix::{splitmix_advance, splitmix_output};
use crate::ranking::{f32_key, f32_order_key};

verus! {

/// Whether raw `f32` bits encode a NaN.
pub open spec fn f32_is_nan(bits: u32) -> bool {
    bits % 0x8000_0000 > 0x7F80_0000
}

/// The numeric position of a non-NaN `f32`: its total-order key with
/// negative zero folded onto positive zero.
pub open spec fn f32_value_key(bits: u32) -> int {
    if bits % 0x8000_0000 == 0 { 0 } else { f32_key(bits) }
}

/// `a > b` as `f32` compares: false when either is NaN; otherwise by value,
/// where the two zeros are equal.
pub open spec fn f32_gt(a: u32, b: u32) -> bool {
    !f32_is_nan(a) && !f32_is_nan(b) && f32_value_key(a) > f32_value_key(b)
}

/// `a > b` on two `f32` values given by their raw bits.
pub fn f32_greater(a: u32, b: u32) -> (r: bool)
    ensures
        r == f32_gt(a, b),
{
    let ma = a % 0x8000_0000u32;
    let mb = b % 0x8000_0000u32;
    if ma > 0x7F80_0000u32 || mb > 0x7F80_0000u32 {
        return false;
    }
    let ka: i64 = if ma == 0 { 0 } else { f32_order_key(a) };
    let kb: i64 = if mb == 0 { 0 } else { f32_order_key(b) };
    ka > kb
}

/// A scoring function gives one score per node index, whatever the call.
pub open spec fn deterministic<F: Fn(usize) -> u32>(f: F) -> bool {
    &&& forall|n: usize| #[trigger] f.requires((n,))
    &&& forall|n: usize, a: u32, b: u32| f.ensures((n,), a) && f.ensures((n,), b) ==> a == b
}

/// The score a scoring function gives a node.
pub open spec fn score_of<F: Fn(usize) -> u32>(f: F, n: usize) -> u32 {
    choose|s: u32| f.ensures((n,), s)
}

/// The scores a scoring function gives, as a function of the node index.
pub open spec fn score_fn<F: Fn(usize) -> u32>(f: F) -> spec_fn(usize) -> u32 {
    |n: usize| score_of(f, n)
}

/// `sf` gives every score `f` can return, and `f` can be called on every
/// node index.
pub open spec fn agrees<F: Fn(usize) -> u32>(f: F, sf: spec_fn(usize) -> u32) -> bool {
    &&& forall|n: usize| #[trigger] f.requires((n,))
    &&& forall|n: usize, s: u32| #[trigger] f.ensures((n,), s) ==> sf(n) == s
}

/// A deterministic scoring function agrees with its own scores.
pub proof fn lemma_agrees_score_fn<F: Fn(usize) -> u32>(f: F)
    requires
        deterministic(f),
    ensures
        agrees(f, score_fn(f)),
{
    assert forall|n: usize, s: u32| #[trigger] f.ensures((n,), s) implies score_fn(f)(n) == s by {
        let t = score_of(f, n);
        assert(f.ensures((n,), t));
    }
}

/// The id of a node, or the nil id (0) for an index past the end.
pub open spec fn id_or_nil(nodes: Seq<NodeView>, n: usize) -> u128 {
    if n < nodes.len() { nodes[n as int].id } else { 0 }
}

/// The adjacency list of a node at a layer; empty when either is absent.
pub open spec fn layer_neighbors(nodes: Seq<NodeView>, n: usize, layer: usize) -> Seq<usize> {
    if n < nodes.len() && layer < nodes[n as int].neighbors.len() {
        nodes[n as int].neighbors[layer as int]
    } else {
        Seq::empty()
    }
}

/// Whether node `a`, scored `sa`, is a better stop than node `b`, scored
/// `sb`, for greedy descent: a greater score, or the same score and a
/// smaller id.
pub open spec fn improves(nodes: Seq<NodeView>, sa: u32, a: usize, sb: u32, b: usize) -> bool {
    f32_gt(sa, sb) || (sa == sb && id_or_nil(nodes, a) < id_or_nil(nodes, b))
}

/// The node indices that improve on `c`.
pub open spec fn improving_set(nodes: Seq<NodeView>, f: spec_fn(usize) -> u32, c: usize) -> Set<int> {
    Set::new(|n: int| 0 <= n <= usize::MAX && improves(nodes, f(n as usize), n as usize, f(c), c))
}

/// Improving is transitive.
pub proof fn lemma_improves_transitive(nodes: Seq<NodeView>, sa: u32, a: usize, sb: u32, b: usize, sc: u32, c: usize)
    requires
        improves(nodes, sa, a, sb, b),
        improves(nodes, sb, b, sc, c),
    ensures
        improves(nodes, sa, a, sc, c),
{
}

/// Moving to an improving node strictly shrinks the improving set.
pub proof fn lemma_improving_shrinks(nodes: Seq<NodeView>, f: spec_fn(usize) -> u32, old: usize, new: usize)
    requires
        improves(nodes, f(new), new, f(old), old),
    ensures
        improving_set(nodes, f, new).finite(),
        improving_set(nodes, f, new).subset_of(improving_set(nodes, f, old)),
        improving_set(nodes, f, new).len() < improving_set(nodes, f, old).len(),
{
    let sn = improving_set(nodes, f, new);
    let so = improving_set(nodes, f, old);
    let all = set_int_range(0, usize::MAX as int + 1);
    lemma_int_range(0, usize::MAX as int + 1);
    assert(so.subset_of(all));
    lemma_len_subset(so, all);
    assert forall|n: int| sn.contains(n) implies so.contains(n) by {
        lemma_improves_transitive(nodes, f(n as usize), n as usize, f(new), new, f(old), old);
    }
    assert(so.contains(new as int));
    assert(!sn.contains(new as int));
    assert(sn.subset_of(so.remove(new as int)));
    lemma_len_subset(sn, so.remove(new as int));
}

/// Every adjacency list holds only indices of nodes of the graph.
pub open spec fn links_within(nodes: Seq<NodeView>) -> bool {
    forall|i: int, l: int, k: int| 0 <= i < nodes.len() && 0 <= l < nodes[i].neighbors.len() && 0 <= k < nodes[i].neighbors[l].len()
        ==> (#[trigger] nodes[i].neighbors[l][k]) < nodes.len()
}

/// The entry point and every link name a node of the graph.
pub open spec fn links_in_range(nodes: Seq<NodeView>, entry: Option<usize>) -> bool {
    &&& (entry matches Some(e) ==> e < nodes.len())
    &&& links_within(nodes)
}

/// One pass over the neighbors `nbrs` of a greedy descent standing at `cur`:
/// each neighbor in turn replaces the current node when it improves on it.
pub open spec fn scan_best(nodes: Seq<NodeView>, f: spec_fn(usize) -> u32, nbrs: Seq<usize>, cur: usize) -> usize
    decreases nbrs.len(),
{
    if nbrs.len() == 0 {
        cur
    } else {
        let c = scan_best(nodes, f, nbrs.drop_last(), cur);
        let nb = nbrs.last();
        if improves(nodes, f(nb), nb, f(c), c) { nb } else { c }
    }
}

/// A pass stays put or ends on one of the neighbors, which improves on the
/// start.
pub proof fn lemma_scan_best(nodes: Seq<NodeView>, f: spec_fn(usize) -> u32, nbrs: Seq<usize>, cur: usize)
    ensures
        scan_best(nodes, f, nbrs, cur) == cur || improves(nodes, f(scan_best(nodes, f, nbrs, cur)), scan_best(nodes, f, nbrs, cur), f(cur), cur),
        scan_best(nodes, f, nbrs, cur) == cur || nbrs.contains(scan_best(nodes, f, nbrs, cur)),
    decreases nbrs.len(),
{
    if nbrs.len() > 0 {
        lemma_scan_best(nodes, f, nbrs.drop_last(), cur);
        let c = scan_best(nodes, f, nbrs.drop_last(), cur);
        let nb = nbrs.last();
        if improves(nodes, f(nb), nb, f(c), c) && c != cur {
            lemma_improves_transitive(nodes, f(nb), nb, f(c), c, f(cur), cur);
        }
        if c != cur && !improves(nodes, f(nb), nb, f(c), c) {
            let j = choose|j: int| 0 <= j < nbrs.drop_last().len() && nbrs.drop_last()[j] == c;
            assert(nbrs[j] == c);
        }
        assert(nbrs[nbrs.len() - 1] == nb);
    }
}

/// Greedy descent within one layer: passes over the current node's
/// neighbors until a pass leaves it in place.
pub open spec fn settle(nodes: Seq<NodeView>, f: spec_fn(usize) -> u32, cur: usize, layer: usize) -> usize
    decreases improving_set(nodes, f, cur).len(),
{
    let next = scan_best(nodes, f, layer_neighbors(nodes, cur, layer), cur);
    if next == cur {
        cur
    } else {
        proof {
            lemma_scan_best(nodes, f, layer_neighbors(nodes, cur, layer), cur);
            lemma_improving_shrinks(nodes, f, cur, next);
        }
        settle(nodes, f, next, layer)
    }
}

/// Greedy descent from `cur` through the layers `layer` down to `to`.
pub open spec fn greedy_spec(nodes: Seq<NodeView>, f: spec_fn(usize) -> u32, cur: usize, layer: usize, to: usize) -> usize
    decreases layer,
{
    let c = settle(nodes, f, cur, layer);
    if layer <= to || layer == 0 { c } else { greedy_spec(nodes, f, c, (layer - 1) as usize, to) }
}

/// The id of a node, or the nil id past the end.
fn node_id_or_nil(graph: &HnswGraph, n: usize) -> (r: u128)
    ensures
        r == id_or_nil(graph.nodes(), n),
{
    match graph.node_id(n) {
        Some(id) => id.as_u128(),
        None => 0,
    }
}

/// Greedy descent from `entry` through layers `from_layer` down to
/// `to_layer`: at each layer, moves to any neighbor with a greater score
/// (or the same score and a smaller id) until none improves, then goes
/// down a layer. Tombstoned nodes are visited too, for connectivity.
/// Returns the node where the descent stops: none of its neighbors at
/// `to_layer` improves on it.
pub fn greedy_descent<F: Fn(usize) -> u32>(graph: &HnswGraph, score: &F, entry: usize, from_layer: usize, to_layer: usize) -> (r: usize)
    requires
        graph.wf(),
        deterministic(*score),
        to_layer <= from_layer,
    ensures
        forall|j: int| 0 <= j < layer_neighbors(graph.nodes(), r, to_layer).len() ==>
            !improves(graph.nodes(), score_of(*score, #[trigger] layer_neighbors(graph.nodes(), r, to_layer)[j]),
                layer_neighbors(graph.nodes(), r, to_layer)[j], score_of(*score, r), r),
        r == greedy_spec(graph.nodes(), score_fn(*score), entry, from_layer, to_layer),
        entry < graph.nodes().len() && links_within(graph.nodes()) ==> r < graph.nodes().len(),
{
    proof {
        lemma_agrees_score_fn(*score);
    }
    greedy_core(graph, score, Ghost(score_fn(*score)), entry, from_layer, to_layer)
}

/// Greedy descent scored by `sf`, the scores `score` returns.
fn greedy_core<F: Fn(usize) -> u32>(graph: &HnswGraph, score: &F, Ghost(sf): Ghost<spec_fn(usize) -> u32>, entry: usize, from_layer: usize,
    to_layer: usize) -> (r: usize)
    requires
        graph.wf(),
        agrees(*score, sf),
        to_layer <= from_layer,
    ensures
        forall|j: int| 0 <= j < layer_neighbors(graph.nodes(), r, to_layer).len() ==>
            !improves(graph.nodes(), sf(#[trigger] layer_neighbors(graph.nodes(), r, to_layer)[j]),
                layer_neighbors(graph.nodes(), r, to_layer)[j], sf(r), r),
        r == greedy_spec(graph.nodes(), sf, entry, from_layer, to_layer),
        entry < graph.nodes().len() && links_within(graph.nodes()) ==> r < graph.nodes().len(),
{
    let ghost nodes = graph.nodes();
    let mut current = entry;
    let mut current_score = score(current);
    let mut layer = from_layer;
    loop
        invariant
            graph.wf(),
            nodes == graph.nodes(),
            agrees(*score, sf),
            to_layer <= layer <= from_layer,
            current_score == sf(current),
            greedy_spec(nodes, sf, entry, from_layer, to_layer) == greedy_spec(nodes, sf, current, layer, to_layer),
            entry < nodes.len() && links_within(nodes) ==> current < nodes.len(),
        ensures
            forall|j: int| 0 <= j < layer_neighbors(nodes, current, to_layer).len() ==>
                !improves(nodes, sf(#[trigger] layer_neighbors(nodes, current, to_layer)[j]),
                    layer_neighbors(nodes, current, to_layer)[j], sf(current), current),
            current == greedy_spec(nodes, sf, entry, from_layer, to_layer),
            entry < nodes.len() && links_within(nodes) ==> current < nodes.len(),
        decreases layer,
    {
        let ghost layer_start = current;
        loop
            invariant
                graph.wf(),
                nodes == graph.nodes(),
                agrees(*score, sf),
                current_score == sf(current),
                settle(nodes, sf, current, layer) == settle(nodes, sf, layer_start, layer),
                entry < nodes.len() && links_within(nodes) ==> current < nodes.len(),
            ensures
                current_score == sf(current),
                forall|j: int| 0 <= j < layer_neighbors(nodes, current, layer).len() ==>
                    !improves(nodes, sf(#[trigger] layer_neighbors(nodes, current, layer)[j]),
                        layer_neighbors(nodes, current, layer)[j], sf(current), current),
                current == settle(nodes, sf, layer_start, layer),
                entry < nodes.len() && links_within(nodes) ==> current < nodes.len(),
            decreases improving_set(nodes, sf, current).len(),
        {
            let start = current;
            let nbrs = graph.neighbors(current, layer);
            proof {
                assert(nbrs@ == layer_neighbors(nodes, start, layer));
            }
            let mut improved = false;
            let mut j: usize = 0;
            proof {
                assert(nbrs@.take(0) =~= Seq::<usize>::empty());
            }
            while j < nbrs.len()
                invariant
                    j <= nbrs@.len(),
                    graph.wf(),
                    nodes == graph.nodes(),
                    agrees(*score, sf),
                    current_score == sf(current),
                    nbrs@ == layer_neighbors(nodes, start, layer),
                    current == scan_best(nodes, sf, nbrs@.take(j as int), start),
                    entry < nodes.len() && links_within(nodes) ==> current < nodes.len(),
                    !improved ==> current == start,
                    !improved ==> forall|i: int| 0 <= i < j ==>
                        !improves(nodes, sf(#[trigger] nbrs@[i]), nbrs@[i], sf(start), start),
                    improved ==> improves(nodes, sf(current), current, sf(start), start),
                decreases nbrs.len() - j,
            {
                let nb = nbrs[j];
                let s = score(nb);
                proof {
                    assert(nbrs@.take(j + 1).drop_last() =~= nbrs@.take(j as int));
                    assert(nbrs@.take(j + 1).last() == nb);
                    if entry < nodes.len() && links_within(nodes) {
                        assert(layer_neighbors(nodes, start, layer)[j as int] == nb);
                        assert(nodes[start as int].neighbors[layer as int][j as int] == nb);
                    }
                }
                let nb_id = node_id_or_nil(graph, nb);
                let cur_id = node_id_or_nil(graph, current);
                if f32_greater(s, current_score) || (s == current_score && nb_id < cur_id) {
                    proof {
                        if improved {
                            lemma_improves_transitive(nodes, s, nb, sf(current), current, sf(start), start);
                        }
                    }
                    current = nb;
                    current_score = s;
                    improved = true;
                }
                j = j + 1;
            }
            proof {
                assert(nbrs@.take(nbrs@.len() as int) =~= nbrs@);
                lemma_no_exit(sf(start));
            }
            if !improved {
                break;
            }
            proof {
                lemma_improving_shrinks(nodes, sf, start, current);
            }
        }
        if layer == to_layer {
            break;
        }
        layer = layer - 1;
    }
    current
}

/// A scored node as the searches hand it on: its score (raw `f32` bits),
/// its index and its id.
pub type Candidate = (u32, usize, VectorId);

/// Whether candidate `a` ranks strictly before `b`: a greater score in
/// `total_cmp` order, or the same score and a smaller id.
pub open spec fn cand_before(a: Candidate, b: Candidate) -> bool {
    f32_key(a.0) > f32_key(b.0) || (f32_key(a.0) == f32_key(b.0) && a.2@ < b.2@)
}

/// No candidate ranks strictly before an earlier one.
pub open spec fn cands_ranked(s: Seq<Candidate>) -> bool {
    forall|i: int, j: int| 0 <= i < j < s.len() ==> !cand_before(#[trigger] s[j], #[trigger] s[i])
}

/// No node occurs twice.
pub open spec fn cands_distinct(s: Seq<Candidate>) -> bool {
    forall|i: int, j: int| 0 <= i < j < s.len() ==> (#[trigger] s[i]).1 != (#[trigger] s[j]).1
}

/// A live, admissible node of the graph with its id and its score.
pub open spec fn is_result<G: Fn(VectorId) -> bool>(nodes: Seq<NodeView>, f: spec_fn(usize) -> u32, g: G, c: Candidate) -> bool {
    &&& c.1 < nodes.len()
    &&& !nodes[c.1 as int].tombstone
    &&& c.2@ == nodes[c.1 as int].id
    &&& c.0 == f(c.1)
    &&& g.ensures((c.2,), true)
}

/// What a beam search returns: at most `ef` candidates (one when `ef` is
/// zero), each a live admissible node with its score, no node twice, best
/// first.
pub open spec fn beam_result<G: Fn(VectorId) -> bool>(nodes: Seq<NodeView>, f: spec_fn(usize) -> u32, g: G, out: Seq<Candidate>, ef: usize) -> bool {
    &&& out.len() <= if ef == 0 { 1 } else { ef as int }
    &&& forall|i: int| 0 <= i < out.len() ==> is_result(nodes, f, g, #[trigger] out[i])
    &&& cands_distinct(out)
    &&& cands_ranked(out)
}

/// Whether candidate `a` ranks strictly before `b`.
pub fn cand_precedes(a: &Candidate, b: &Candidate) -> (r: bool)
    ensures
        r == cand_before(*a, *b),
{
    let ka = f32_order_key(a.0);
    let kb = f32_order_key(b.0);
    ka > kb || (ka == kb && a.2.as_u128() < b.2.as_u128())
}

/// Inserts `c` into a ranked sequence after every candidate ranking
/// strictly before it.
fn insert_ranked(v: &mut Vec<Candidate>, c: Candidate)
    requires
        cands_ranked(old(v)@),
    ensures
        cands_ranked(final(v)@),
        exists|p: int| 0 <= p <= old(v)@.len() && final(v)@ == old(v)@.insert(p, c),
        final(v)@ == old(v)@.insert(rank_pos(old(v)@, c), c),
{
    let mut p: usize = 0;
    while p < v.len()
        invariant
            p <= v@.len(),
            v@ == old(v)@,
            cands_ranked(v@),
            forall|j: int| 0 <= j < p ==> cand_before(#[trigger] v@[j], c),
        ensures
            p <= v@.len(),
            v@ == old(v)@,
            forall|j: int| 0 <= j < p ==> cand_before(#[trigger] v@[j], c),
            p < v@.len() ==> !cand_before(v@[p as int], c),
        decreases v.len() - p,
    {
        if !cand_precedes(&v[p], &c) {
            break;
        }
        p = p + 1;
    }
    proof {
        assert forall|j: int| p <= j < v@.len() implies !cand_before(#[trigger] v@[j], c) by {
            if j > p {
                assert(!cand_before(v@[j], v@[p as int]));
            }
        }
    }
    let ghost before = v@;
    proof {
        lemma_rank_pos(before, c, p as int);
    }
    v.insert(p, c);
    proof {
        let t = v@;
        assert forall|i: int, j: int| 0 <= i < j < t.len() implies !cand_before(#[trigger] t[j], #[trigger] t[i]) by {
            let pi = p as int;
            if i < pi && j < pi {
                assert(t[i] == before[i] && t[j] == before[j]);
            } else if i < pi && j == pi {
                assert(t[i] == before[i] && t[j] == c);
            } else if i < pi {
                assert(t[i] == before[i] && t[j] == before[j - 1]);
            } else if i == pi {
                assert(t[i] == c && t[j] == before[j - 1]);
            } else {
                assert(t[i] == before[i - 1] && t[j] == before[j - 1]);
            }
        }
        assert(v@ == before.insert(p as int, c));
    }
}

/// The number of `false` entries.
spec fn unvisited(v: Seq<bool>) -> nat
    decreases v.len(),
{
    if v.len() == 0 {
        0
    } else {
        unvisited(v.drop_last()) + if v.last() { 0nat } else { 1nat }
    }
}

/// Marking an unvisited entry lowers the count by one.
proof fn lemma_visit(v: Seq<bool>, i: int)
    requires
        0 <= i < v.len(),
        !v[i],
    ensures
        unvisited(v.update(i, true)) + 1 == unvisited(v),
    decreases v.len(),
{
    if i < v.len() - 1 {
        assert(v.update(i, true).drop_last() =~= v.drop_last().update(i, true));
        lemma_visit(v.drop_last(), i);
    } else {
        assert(v.update(i, true).drop_last() =~= v.drop_last());
    }
}

/// The raw bits of `f32::NEG_INFINITY`.
pub const NEG_INFINITY_BITS: u32 = 0xFF80_0000u32;

/// A filter gives one answer per id, whatever the call.
pub open spec fn deterministic_filter<G: Fn(VectorId) -> bool>(g: G) -> bool {
    &&& forall|id: VectorId| #[trigger] g.requires((id,))
    &&& forall|id: VectorId, a: bool, b: bool| g.ensures((id,), a) && g.ensures((id,), b) ==> a == b
}

/// Whether node `n` is live and its id passes the filter.
pub open spec fn eligible<G: Fn(VectorId) -> bool>(nodes: Seq<NodeView>, g: G, n: usize) -> bool {
    &&& n < nodes.len()
    &&& !nodes[n as int].tombstone
    &&& exists|v: VectorId| v@ == nodes[n as int].id && #[trigger] g.ensures((v,), true)
}

/// Whether some candidate of `s` is node `n`.
pub open spec fn holds_node(s: Seq<Candidate>, n: usize) -> bool {
    exists|k: int| 0 <= k < s.len() && (#[trigger] s[k]).1 == n
}

/// Whether the search from `entry` looked at node `m`: the entry itself or
/// one of its neighbors at `layer`.
pub open spec fn around_entry(nodes: Seq<NodeView>, entry: usize, layer: usize, m: usize) -> bool {
    m == entry || exists|j: int| 0 <= j < layer_neighbors(nodes, entry, layer).len()
        && #[trigger] layer_neighbors(nodes, entry, layer)[j] == m
}

/// What a beam search from `entry` with width `ef` (at least 1) promises
/// beyond the shape of its result: every eligible node among the entry and
/// its neighbors is in the result, or the result is full and that node
/// scores no higher than the worst kept one.
pub open spec fn beam_complete<G: Fn(VectorId) -> bool>(nodes: Seq<NodeView>, f: spec_fn(usize) -> u32, g: G,
    entry: usize, layer: usize, ef: usize, out: Seq<Candidate>) -> bool {
    ef > 0 ==> forall|m: usize| #[trigger] around_entry(nodes, entry, layer, m) && eligible(nodes, g, m) && !holds_node(out, m) ==>
        out.len() == ef && !f32_gt(f(m), out.last().0)
}

/// A lower or equal `total_cmp` key is never greater as a float.
proof fn lemma_key_not_greater(a: u32, b: u32)
    requires
        f32_key(a) <= f32_key(b),
    ensures
        !f32_gt(a, b),
{
}

/// Greater as a float means a greater `total_cmp` key.
proof fn lemma_greater_key(a: u32, b: u32)
    requires
        f32_gt(a, b),
    ensures
        f32_key(a) > f32_key(b),
{
}

/// Not greater than `w` stays not greater than a non-NaN `w` with a key
/// at least `w`'s.
proof fn lemma_not_greater_mono(a: u32, w: u32, w2: u32)
    requires
        !f32_gt(a, w),
        !f32_is_nan(w),
        f32_key(w) <= f32_key(w2),
    ensures
        !f32_gt(a, w2),
{
}

/// Nothing is below negative infinity, and nothing is above itself.
proof fn lemma_no_exit(s: u32)
    ensures
        !f32_gt(NEG_INFINITY_BITS, s),
        !f32_gt(s, s),
{
}

/// The state of a beam search: which nodes it has visited, the candidates
/// still to expand, and the candidates it keeps, best first.
pub struct BeamState {
    pub visited: Seq<bool>,
    pub frontier: Seq<Candidate>,
    pub kept: Seq<Candidate>,
}

/// The candidate of node `n`: its score, its index and its id (the nil id
/// past the end).
pub open spec fn node_cand(nodes: Seq<NodeView>, f: spec_fn(usize) -> u32, n: usize) -> Candidate {
    (f(n), n, vector_id_spec(id_or_nil(nodes, n)))
}

/// The ids a filter accepts.
pub open spec fn filter_fn<G: Fn(VectorId) -> bool>(g: G) -> spec_fn(VectorId) -> bool {
    |v: VectorId| g.ensures((v,), true)
}

/// Accepts every id.
pub open spec fn accept_all() -> spec_fn(VectorId) -> bool {
    |v: VectorId| true
}

/// Whether a search keeps node `n` when it meets it: not tombstoned, and its
/// id accepted.
pub open spec fn admits(nodes: Seq<NodeView>, accept: spec_fn(VectorId) -> bool, n: usize) -> bool {
    !(n < nodes.len() && nodes[n as int].tombstone) && accept(vector_id_spec(id_or_nil(nodes, n)))
}

/// The score of the worst kept candidate; negative infinity when none is
/// kept.
pub open spec fn worst_kept(kept: Seq<Candidate>) -> u32 {
    if kept.len() == 0 { NEG_INFINITY_BITS } else { kept.last().0 }
}

/// `p` is where `c` goes in a ranked list: after every candidate ranking
/// strictly before it, before the others.
pub open spec fn is_rank_pos(v: Seq<Candidate>, c: Candidate, p: int) -> bool {
    &&& 0 <= p <= v.len()
    &&& forall|j: int| 0 <= j < p ==> cand_before(#[trigger] v[j], c)
    &&& p < v.len() ==> !cand_before(v[p], c)
}

/// Where `c` goes in a ranked list.
pub open spec fn rank_pos(v: Seq<Candidate>, c: Candidate) -> int {
    choose|p: int| is_rank_pos(v, c, p)
}

/// There is one place for a candidate in a list.
pub proof fn lemma_rank_pos(v: Seq<Candidate>, c: Candidate, p: int)
    requires
        is_rank_pos(v, c, p),
    ensures
        rank_pos(v, c) == p,
{
    let q = rank_pos(v, c);
    assert(is_rank_pos(v, c, q));
    if q < p {
        assert(cand_before(v[q], c));
    } else if p < q {
        assert(cand_before(v[p], c));
    }
}

/// The kept list once `c` is taken in: inserted at its rank, the list cut
/// back to `ef` when it grew past it.
pub open spec fn keep_cand(kept: Seq<Candidate>, c: Candidate, ef: usize) -> Seq<Candidate> {
    let ins = kept.insert(rank_pos(kept, c), c);
    if ins.len() > ef { ins.take(ef as int) } else { ins }
}

/// A beam search meets neighbor `nb`: an unvisited node is marked visited,
/// queued for expansion, and kept when admitted and the list has room or it
/// scores above the worst kept candidate.
pub open spec fn beam_visit(nodes: Seq<NodeView>, f: spec_fn(usize) -> u32, accept: spec_fn(VectorId) -> bool,
    ef: usize, st: BeamState, nb: usize) -> BeamState {
    if nb < st.visited.len() && !st.visited[nb as int] {
        let c = node_cand(nodes, f, nb);
        let take = admits(nodes, accept, nb) && (st.kept.len() < ef || f32_gt(c.0, worst_kept(st.kept)));
        BeamState {
            visited: st.visited.update(nb as int, true),
            frontier: st.frontier.push(c),
            kept: if take { keep_cand(st.kept, c, ef) } else { st.kept },
        }
    } else {
        st
    }
}

/// A beam search meets the first `j` neighbors of `nbrs` in order.
pub open spec fn beam_expand(nodes: Seq<NodeView>, f: spec_fn(usize) -> u32, accept: spec_fn(VectorId) -> bool,
    ef: usize, st: BeamState, nbrs: Seq<usize>, j: int) -> BeamState
    decreases j,
{
    if j <= 0 {
        st
    } else {
        beam_visit(nodes, f, accept, ef, beam_expand(nodes, f, accept, ef, st, nbrs, j - 1), nbrs[j - 1])
    }
}

/// The position of the best of the first `q` queued candidates, the first
/// such one when several rank alike.
pub open spec fn best_upto(fr: Seq<Candidate>, q: int) -> int
    decreases q,
{
    if q <= 1 {
        0
    } else {
        let b = best_upto(fr, q - 1);
        if cand_before(fr[q - 1], fr[b]) { q - 1 } else { b }
    }
}

/// One round of a beam search: stop when nothing is queued, or when the
/// list is full and the best queued candidate scores below the worst kept
/// one; otherwise take the best queued candidate out and meet its neighbors
/// at `layer`.
pub open spec fn beam_step(nodes: Seq<NodeView>, f: spec_fn(usize) -> u32, accept: spec_fn(VectorId) -> bool,
    ef: usize, layer: usize, st: BeamState) -> Option<BeamState> {
    if st.frontier.len() == 0 {
        None
    } else {
        let b = best_upto(st.frontier, st.frontier.len() as int);
        let cand = st.frontier[b];
        if st.kept.len() >= ef && f32_gt(worst_kept(st.kept), cand.0) {
            None
        } else {
            let popped = BeamState { frontier: st.frontier.update(b, st.frontier.last()).drop_last(), ..st };
            let nbrs = layer_neighbors(nodes, cand.1, layer);
            Some(beam_expand(nodes, f, accept, ef, popped, nbrs, nbrs.len() as int))
        }
    }
}

/// At most `fuel` rounds of a beam search, or until it stops.
pub open spec fn beam_run(nodes: Seq<NodeView>, f: spec_fn(usize) -> u32, accept: spec_fn(VectorId) -> bool,
    ef: usize, layer: usize, st: BeamState, fuel: nat) -> BeamState
    decreases fuel,
{
    if fuel == 0 {
        st
    } else {
        match beam_step(nodes, f, accept, ef, layer, st) {
            None => st,
            Some(next) => beam_run(nodes, f, accept, ef, layer, next, (fuel - 1) as nat),
        }
    }
}

/// A beam search's state before its first round: the entry visited and
/// queued, and kept when admitted.
pub open spec fn beam_start(nodes: Seq<NodeView>, f: spec_fn(usize) -> u32, accept: spec_fn(VectorId) -> bool, entry: usize) -> BeamState {
    let c = node_cand(nodes, f, entry);
    BeamState {
        visited: Seq::new(nodes.len(), |i: int| i == entry),
        frontier: seq![c],
        kept: if admits(nodes, accept, entry) { seq![c] } else { Seq::empty() },
    }
}

/// The candidates a beam search from `entry` at `layer` with width `ef`
/// returns. Every round but the last takes one queued candidate out, and a
/// node is queued once, so the search stops within one round more than there
/// are nodes.
pub open spec fn beam_spec(nodes: Seq<NodeView>, f: spec_fn(usize) -> u32, accept: spec_fn(VectorId) -> bool,
    entry: usize, ef: usize, layer: usize) -> Seq<Candidate> {
    beam_run(nodes, f, accept, ef, layer, beam_start(nodes, f, accept, entry), (nodes.len() + 1) as nat).kept
}

/// A list with no entry set counts every entry as unvisited.
proof fn lemma_unvisited_none(v: Seq<bool>)
    requires
        forall|k: int| 0 <= k < v.len() ==> !v[k],
    ensures
        unvisited(v) == v.len(),
    decreases v.len(),
{
    if v.len() > 0 {
        lemma_unvisited_none(v.drop_last());
    }
}

/// Every candidate's node is marked visited.
spec fn all_visited(s: Seq<Candidate>, v: Seq<bool>) -> bool {
    forall|k: int| 0 <= k < s.len() ==> v[(#[trigger] s[k]).1 as int]
}

/// Every visited eligible node is kept, or the list is full and the node
/// scores no higher than the worst kept one.
spec fn complete_over<G: Fn(VectorId) -> bool>(nodes: Seq<NodeView>, f: spec_fn(usize) -> u32, g: G,
    v: Seq<bool>, out: Seq<Candidate>, ef: usize) -> bool {
    ef > 0 ==> forall|m: usize| m < nodes.len() && #[trigger] v[m as int] && eligible(nodes, g, m) && !holds_node(out, m) ==>
        out.len() == ef && !f32_gt(f(m), out.last().0)
}

/// Inserting a newly visited candidate keeps the kept list's shape.
proof fn lemma_insert_kept<G: Fn(VectorId) -> bool>(nodes: Seq<NodeView>, f: spec_fn(usize) -> u32, g: G,
    before: Seq<Candidate>, inserted: Seq<Candidate>, c: Candidate, p: int, v0: Seq<bool>, v1: Seq<bool>)
    requires
        0 <= p <= before.len(),
        inserted == before.insert(p, c),
        forall|k: int| 0 <= k < before.len() ==> is_result(nodes, f, g, #[trigger] before[k]),
        is_result(nodes, f, g, c),
        cands_distinct(before),
        all_visited(before, v0),
        v0.len() == nodes.len(),
        0 <= c.1 < v0.len(),
        !v0[c.1 as int],
        v1 == v0.update(c.1 as int, true),
    ensures
        forall|k: int| 0 <= k < inserted.len() ==> is_result(nodes, f, g, #[trigger] inserted[k]),
        cands_distinct(inserted),
        all_visited(inserted, v1),
        holds_node(inserted, c.1),
        forall|m: usize| #[trigger] holds_node(before, m) ==> holds_node(inserted, m),
        forall|k: int| 0 <= k < inserted.len() ==> #[trigger] inserted[k] == c || before.contains(inserted[k]),
{
    assert forall|k: int| 0 <= k < inserted.len() implies is_result(nodes, f, g, #[trigger] inserted[k]) by {
        if k < p {
            assert(inserted[k] == before[k]);
        } else if k > p {
            assert(inserted[k] == before[k - 1]);
        }
    }
    assert forall|a: int, b: int| 0 <= a < b < inserted.len() implies (#[trigger] inserted[a]).1 != (#[trigger] inserted[b]).1 by {
        if a < p && b < p {
            assert(inserted[a] == before[a] && inserted[b] == before[b]);
        } else if a < p && b == p {
            assert(inserted[a] == before[a]);
            assert(v0[before[a].1 as int]);
        } else if a < p {
            assert(inserted[a] == before[a] && inserted[b] == before[b - 1]);
        } else if a == p {
            assert(inserted[b] == before[b - 1]);
            assert(v0[before[b - 1].1 as int]);
        } else {
            assert(inserted[a] == before[a - 1] && inserted[b] == before[b - 1]);
        }
    }
    assert forall|k: int| 0 <= k < inserted.len() implies v1[(#[trigger] inserted[k]).1 as int] by {
        if k < p {
            assert(inserted[k] == before[k]);
        } else if k > p {
            assert(inserted[k] == before[k - 1]);
        }
    }
    assert(inserted[p].1 == c.1);
    assert forall|m: usize| #[trigger] holds_node(before, m) implies holds_node(inserted, m) by {
        let k = choose|k: int| 0 <= k < before.len() && (#[trigger] before[k]).1 == m;
        if k < p {
            assert(inserted[k] == before[k]);
        } else {
            assert(inserted[k + 1] == before[k]);
        }
    }
    assert forall|k: int| 0 <= k < inserted.len() implies #[trigger] inserted[k] == c || before.contains(inserted[k]) by {
        if k < p {
            assert(inserted[k] == before[k]);
        } else if k > p {
            assert(inserted[k] == before[k - 1]);
        }
    }
}

/// A prefix of a kept list keeps its shape.
proof fn lemma_prefix_kept<G: Fn(VectorId) -> bool>(nodes: Seq<NodeView>, f: spec_fn(usize) -> u32, g: G,
    inserted: Seq<Candidate>, out: Seq<Candidate>, v: Seq<bool>)
    requires
        out.len() <= inserted.len(),
        out == inserted.take(out.len() as int),
        forall|k: int| 0 <= k < inserted.len() ==> is_result(nodes, f, g, #[trigger] inserted[k]),
        cands_distinct(inserted),
        cands_ranked(inserted),
        all_visited(inserted, v),
    ensures
        forall|k: int| 0 <= k < out.len() ==> is_result(nodes, f, g, #[trigger] out[k]),
        cands_distinct(out),
        cands_ranked(out),
        all_visited(out, v),
{
    assert forall|k: int| 0 <= k < out.len() implies is_result(nodes, f, g, #[trigger] out[k]) by {
        assert(out[k] == inserted[k]);
    }
    assert forall|a: int, b: int| 0 <= a < b < out.len() implies (#[trigger] out[a]).1 != (#[trigger] out[b]).1 by {
        assert(out[a] == inserted[a] && out[b] == inserted[b]);
    }
    assert forall|a: int, b: int| 0 <= a < b < out.len() implies !cand_before(#[trigger] out[b], #[trigger] out[a]) by {
        assert(out[a] == inserted[a] && out[b] == inserted[b]);
    }
    assert forall|k: int| 0 <= k < out.len() implies v[(#[trigger] out[k]).1 as int] by {
        assert(out[k] == inserted[k]);
    }
}

/// Completeness after a newly visited node is kept while the list had room.
proof fn lemma_complete_grow<G: Fn(VectorId) -> bool>(nodes: Seq<NodeView>, f: spec_fn(usize) -> u32, g: G,
    before: Seq<Candidate>, out: Seq<Candidate>, nb: usize, v0: Seq<bool>, v1: Seq<bool>, ef: usize)
    requires
        complete_over(nodes, f, g, v0, before, ef),
        before.len() < ef,
        holds_node(out, nb),
        forall|m: usize| #[trigger] holds_node(before, m) ==> holds_node(out, m),
        v0.len() == nodes.len(),
        nb < v0.len(),
        v1 == v0.update(nb as int, true),
    ensures
        complete_over(nodes, f, g, v1, out, ef),
{
    assert forall|m: usize| m < nodes.len() && #[trigger] v1[m as int] && eligible(nodes, g, m) && !holds_node(out, m) implies
        out.len() == ef && !f32_gt(f(m), out.last().0) by {
        if m != nb {
            assert(v0[m as int]);
            if !holds_node(before, m) {
                assert(before.len() == ef);
            }
        }
    }
}

/// Completeness after a newly visited node beat the worst of a full list,
/// which then dropped its last candidate.
proof fn lemma_complete_full<G: Fn(VectorId) -> bool>(nodes: Seq<NodeView>, f: spec_fn(usize) -> u32, g: G,
    before: Seq<Candidate>, inserted: Seq<Candidate>, out: Seq<Candidate>, c: Candidate,
    v0: Seq<bool>, v1: Seq<bool>, ef: usize)
    requires
        ef > 0,
        complete_over(nodes, f, g, v0, before, ef),
        before.len() == ef,
        cands_ranked(before),
        f32_gt(c.0, before.last().0),
        inserted.len() == ef + 1,
        cands_ranked(inserted),
        forall|k: int| 0 <= k < inserted.len() ==> is_result(nodes, f, g, #[trigger] inserted[k]),
        forall|k: int| 0 <= k < inserted.len() ==> #[trigger] inserted[k] == c || before.contains(inserted[k]),
        forall|m: usize| #[trigger] holds_node(before, m) ==> holds_node(inserted, m),
        holds_node(inserted, c.1),
        out == inserted.take(ef as int),
        v0.len() == nodes.len(),
        c.1 < v0.len(),
        v1 == v0.update(c.1 as int, true),
    ensures
        complete_over(nodes, f, g, v1, out, ef),
{
    let w = before.last();
    let dropped = inserted[ef as int];
    let last = out.last();
    assert(last == inserted[ef as int - 1]);
    lemma_greater_key(c.0, w.0);
    assert(f32_key(w.0) <= f32_key(last.0)) by {
        if last != c {
            assert(before.contains(last));
            let t = choose|t: int| 0 <= t < before.len() && before[t] == last;
            if t < before.len() - 1 {
                assert(!cand_before(before[before.len() - 1], before[t]));
            }
        }
    }
    assert(!cand_before(dropped, last));
    assert forall|m: usize| m < nodes.len() && #[trigger] v1[m as int] && eligible(nodes, g, m) && !holds_node(out, m) implies
        out.len() == ef && !f32_gt(f(m), out.last().0) by {
        if m == dropped.1 {
            assert(is_result(nodes, f, g, dropped));
            lemma_key_not_greater(dropped.0, last.0);
        } else {
            if holds_node(inserted, m) {
                let k = choose|k: int| 0 <= k < inserted.len() && (#[trigger] inserted[k]).1 == m;
                assert(k < ef);
                assert(out[k] == inserted[k]);
                assert(holds_node(out, m));
            }
            assert(m != c.1);
            assert(v0[m as int]);
            assert(!holds_node(before, m));
            lemma_not_greater_mono(f(m), w.0, last.0);
        }
    }
}

/// Completeness after a newly visited node was not kept: it is not
/// eligible, or the list is full and it does not beat the worst.
proof fn lemma_complete_reject<G: Fn(VectorId) -> bool>(nodes: Seq<NodeView>, f: spec_fn(usize) -> u32, g: G,
    out: Seq<Candidate>, nb: usize, v0: Seq<bool>, v1: Seq<bool>, ef: usize)
    requires
        complete_over(nodes, f, g, v0, out, ef),
        v0.len() == nodes.len(),
        nb < v0.len(),
        v1 == v0.update(nb as int, true),
        eligible(nodes, g, nb) && ef > 0 && !holds_node(out, nb) ==> out.len() == ef && !f32_gt(f(nb), out.last().0),
    ensures
        complete_over(nodes, f, g, v1, out, ef),
{
    assert forall|m: usize| m < nodes.len() && #[trigger] v1[m as int] && eligible(nodes, g, m) && !holds_node(out, m) && ef > 0 implies
        out.len() == ef && !f32_gt(f(m), out.last().0) by {
        if m != nb {
            assert(v0[m as int]);
        }
    }
}

/// Beam search at `layer` from `entry` with a candidate list of size `ef`.
///
/// Explores every reachable node (tombstoned or not) closest-first, keeping
/// the `ef` best live nodes that `admissible` accepts; stops when the best
/// unexplored node scores below the worst kept one while the list is full.
/// Returns the kept candidates best first.
pub fn beam_search<F: Fn(usize) -> u32, G: Fn(VectorId) -> bool>(
    graph: &HnswGraph,
    score: &F,
    entry: usize,
    ef: usize,
    layer: usize,
    admissible: &G,
) -> (r: Vec<Candidate>)
    requires
        graph.wf(),
        deterministic(*score),
        deterministic_filter(*admissible),
        entry < graph.nodes().len(),
    ensures
        beam_result(graph.nodes(), score_fn(*score), *admissible, r@, ef),
        beam_complete(graph.nodes(), score_fn(*score), *admissible, entry, layer, ef, r@),
        r@ == beam_spec(graph.nodes(), score_fn(*score), filter_fn(*admissible), entry, ef, layer),
{
    proof {
        lemma_agrees_score_fn(*score);
    }
    beam_core(graph, score, entry, ef, layer, admissible, true, Ghost(score_fn(*score)))
}

/// The beam search, with the filter consulted only when `filtered` holds
/// (otherwise every live node is admitted).
fn beam_core<F: Fn(usize) -> u32, G: Fn(VectorId) -> bool>(
    graph: &HnswGraph,
    score: &F,
    entry: usize,
    ef: usize,
    layer: usize,
    admissible: &G,
    filtered: bool,
    Ghost(sf): Ghost<spec_fn(usize) -> u32>,
) -> (r: Vec<Candidate>)
    requires
        graph.wf(),
        agrees(*score, sf),
        filtered ==> deterministic_filter(*admissible),
        entry < graph.nodes().len(),
    ensures
        filtered ==> beam_result(graph.nodes(), sf, *admissible, r@, ef),
        filtered ==> beam_complete(graph.nodes(), sf, *admissible, entry, layer, ef, r@),
        forall|k: int| 0 <= k < r@.len() ==> (#[trigger] r@[k]).1 < graph.nodes().len(),
        r@ == beam_spec(graph.nodes(), sf, if filtered { filter_fn(*admissible) } else { accept_all() }, entry, ef, layer),
{
    let ghost nodes = graph.nodes();
    let ghost acc = if filtered { filter_fn(*admissible) } else { accept_all() };
    let n = graph.node_count();
    let mut visited: Vec<bool> = Vec::new();
    let mut i: usize = 0;
    while i < n
        invariant
            i <= n,
            visited@.len() == i,
            forall|k: int| 0 <= k < i ==> !visited@[k],
        decreases n - i,
    {
        visited.push(false);
        i = i + 1;
    }
    proof {
        lemma_unvisited_none(visited@);
        lemma_visit(visited@, entry as int);
    }
    let ghost v_start = visited@;
    visited.set(entry, true);
    let entry_score = score(entry);
    let entry_id = match graph.node_id(entry) {
        Some(id) => id,
        None => VectorId::nil(),
    };
    let entry_c = (entry_score, entry, entry_id);
    let mut frontier: Vec<Candidate> = Vec::new();
    frontier.push(entry_c);
    let mut result: Vec<Candidate> = Vec::new();
    let entry_ok = !graph.is_tombstone(entry) && (!filtered || admissible(entry_id));
    if entry_ok {
        result.push(entry_c);
    }
    let ghost init = beam_start(nodes, sf, acc, entry);
    let ghost fuel_all = (n + 1) as nat;
    let ghost mut pops: nat = 0;
    proof {
        lemma_vector_id_spec(entry_id, id_or_nil(nodes, entry));
        assert(entry_c == node_cand(nodes, sf, entry));
        if filtered {
            if !entry_ok && eligible(nodes, *admissible, entry) {
                let v = choose|v: VectorId| v@ == nodes[entry as int].id && #[trigger] admissible.ensures((v,), true);
                lemma_vector_id_view_injective(v, entry_id);
            }
        }
        assert(entry_ok == admits(nodes, acc, entry));
        assert(visited@ =~= init.visited);
        assert(frontier@ =~= init.frontier);
        assert(result@ =~= init.kept);
        if entry_ok {
            assert(result@[0].1 == entry);
            assert(holds_node(result@, entry));
        }
        if filtered {
            assert(complete_over(nodes, sf, *admissible, visited@, result@, ef)) by {
                assert forall|m: usize| m < nodes.len() && #[trigger] visited@[m as int] && eligible(nodes, *admissible, m) && !holds_node(result@, m) && ef > 0 implies
                    result@.len() == ef && !f32_gt(sf(m), result@.last().0) by {
                    if m != entry {
                        assert(v_start[m as int]);
                    }
                }
            }
        }
    }
    let ghost initial = result@;
    let ghost mut expanded = false;
    loop
        invariant
            graph.wf(),
            nodes == graph.nodes(),
            n == nodes.len(),
            entry < n,
            agrees(*score, sf),
            filtered ==> deterministic_filter(*admissible),
            acc == if filtered { filter_fn(*admissible) } else { accept_all() },
            visited@.len() == n,
            filtered ==> beam_result(nodes, sf, *admissible, result@, ef),
            forall|k: int| 0 <= k < result@.len() ==> (#[trigger] result@[k]).1 < n,
            cands_ranked(result@),
            all_visited(result@, visited@),
            filtered ==> complete_over(nodes, sf, *admissible, visited@, result@, ef),
            visited@[entry as int],
            entry_c.1 == entry,
            pops + frontier@.len() + unvisited(visited@) == n,
            fuel_all == (n + 1) as nat,
            beam_run(nodes, sf, acc, ef, layer, init, fuel_all)
                == beam_run(nodes, sf, acc, ef, layer, (BeamState { visited: visited@, frontier: frontier@, kept: result@ }), (fuel_all - pops) as nat),
            !expanded ==> frontier@ == seq![entry_c] && result@ == initial,
            !expanded ==> (initial.len() == 0 || initial == seq![entry_c]),
            expanded ==> forall|j: int| 0 <= j < layer_neighbors(nodes, entry, layer).len()
                && #[trigger] layer_neighbors(nodes, entry, layer)[j] < n ==> visited@[layer_neighbors(nodes, entry, layer)[j] as int],
        ensures
            filtered ==> beam_result(nodes, sf, *admissible, result@, ef),
            forall|k: int| 0 <= k < result@.len() ==> (#[trigger] result@[k]).1 < n,
            filtered ==> complete_over(nodes, sf, *admissible, visited@, result@, ef),
            visited@.len() == n,
            visited@[entry as int],
            forall|j: int| 0 <= j < layer_neighbors(nodes, entry, layer).len()
                && #[trigger] layer_neighbors(nodes, entry, layer)[j] < n ==> visited@[layer_neighbors(nodes, entry, layer)[j] as int],
            result@ == beam_run(nodes, sf, acc, ef, layer, init, fuel_all).kept,
        decreases unvisited(visited@), frontier.len(),
    {
        let ghost st = (BeamState { visited: visited@, frontier: frontier@, kept: result@ });
        let ghost fuel_before = (fuel_all - pops) as nat;
        let ghost pops_before = pops;
        if frontier.len() == 0 {
            proof {
                assert(beam_step(nodes, sf, acc, ef, layer, st) is None);
            }
            break;
        }
        proof {
            assert(pops_before < n);
            assert(fuel_before == n + 1 - pops_before);
        }
        // The best unexplored candidate.
        let mut best: usize = 0;
        let mut q: usize = 1;
        while q < frontier.len()
            invariant
                0 < frontier@.len(),
                best < frontier@.len(),
                q <= frontier@.len(),
                1 <= q,
                best == best_upto(frontier@, q as int),
                !expanded ==> frontier@ == seq![entry_c] && best == 0,
            decreases frontier.len() - q,
        {
            if cand_precedes(&frontier[q], &frontier[best]) {
                best = q;
            }
            q = q + 1;
        }
        proof {
            if !expanded {
                assert(frontier@[0] == entry_c);
                if initial.len() > 0 {
                    assert(result@[0] == entry_c);
                    assert(result@.last() == entry_c);
                }
            }
        }
        let candidate = frontier[best];
        if result.len() >= ef {
            let worst = if result.len() == 0 { NEG_INFINITY_BITS } else { result[result.len() - 1].0 };
            proof {
                lemma_no_exit(candidate.0);
            }
            if f32_greater(worst, candidate.0) {
                proof {
                    assert(worst == worst_kept(result@));
                    assert(beam_step(nodes, sf, acc, ef, layer, st) is None);
                }
                break;
            }
        }
        let ghost expanding = !expanded;
        frontier.swap_remove(best);
        let ghost popped = (BeamState { visited: visited@, frontier: frontier@, kept: result@ });
        proof {
            pops = pops + 1;
            assert(popped == BeamState { frontier: st.frontier.update(best as int, st.frontier.last()).drop_last(), ..st });
        }
        let ghost unvisited_before = unvisited(visited@);
        let ghost popped_len = frontier@.len();
        let nbrs = graph.neighbors(candidate.1, layer);
        proof {
            if expanding {
                assert(candidate.1 == entry);
            }
        }
        let mut j: usize = 0;
        while j < nbrs.len()
            invariant
                graph.wf(),
                nodes == graph.nodes(),
                n == nodes.len(),
                entry < n,
                agrees(*score, sf),
                filtered ==> deterministic_filter(*admissible),
                acc == if filtered { filter_fn(*admissible) } else { accept_all() },
                visited@.len() == n,
                j <= nbrs@.len(),
                filtered ==> beam_result(nodes, sf, *admissible, result@, ef),
                forall|k: int| 0 <= k < result@.len() ==> (#[trigger] result@[k]).1 < n,
                cands_ranked(result@),
                all_visited(result@, visited@),
                filtered ==> complete_over(nodes, sf, *admissible, visited@, result@, ef),
                visited@[entry as int],
                unvisited(visited@) <= unvisited_before,
                unvisited(visited@) == unvisited_before ==> frontier@.len() == popped_len,
                pops + frontier@.len() + unvisited(visited@) == n,
                (BeamState { visited: visited@, frontier: frontier@, kept: result@ }) == beam_expand(nodes, sf, acc, ef, popped, nbrs@, j as int),
                expanding ==> candidate.1 == entry,
                nbrs@ == layer_neighbors(nodes, candidate.1, layer),
                expanding ==> forall|t: int| 0 <= t < j && #[trigger] nbrs@[t] < n ==> visited@[nbrs@[t] as int],
                !expanding ==> forall|t: int| 0 <= t < layer_neighbors(nodes, entry, layer).len()
                    && #[trigger] layer_neighbors(nodes, entry, layer)[t] < n ==> visited@[layer_neighbors(nodes, entry, layer)[t] as int],
            decreases nbrs.len() - j,
        {
            let nb = nbrs[j];
            let ghost st0 = (BeamState { visited: visited@, frontier: frontier@, kept: result@ });
            if nb < visited.len() && !visited[nb] {
                let ghost v0 = visited@;
                proof {
                    lemma_visit(visited@, nb as int);
                }
                visited.set(nb, true);
                let ghost v1 = visited@;
                let s = score(nb);
                let nid = match graph.node_id(nb) {
                    Some(id) => id,
                    None => VectorId::nil(),
                };
                frontier.push((s, nb, nid));
                let ghost before = result@;
                let live_ok = !graph.is_tombstone(nb) && (!filtered || admissible(nid));
                proof {
                    lemma_vector_id_spec(nid, id_or_nil(nodes, nb));
                    assert((s, nb, nid) == node_cand(nodes, sf, nb));
                    assert(live_ok == admits(nodes, acc, nb));
                    if filtered && !live_ok && eligible(nodes, *admissible, nb) {
                        let v = choose|v: VectorId| v@ == nodes[nb as int].id && #[trigger] admissible.ensures((v,), true);
                        lemma_vector_id_view_injective(v, nid);
                    }
                    assert(!holds_node(before, nb)) by {
                        if holds_node(before, nb) {
                            let k = choose|k: int| 0 <= k < before.len() && (#[trigger] before[k]).1 == nb;
                            assert(v0[before[k].1 as int]);
                        }
                    }
                    assert(all_visited(before, v1)) by {
                        assert forall|k: int| 0 <= k < before.len() implies v1[(#[trigger] before[k]).1 as int] by {
                            assert(v0[before[k].1 as int]);
                        }
                    }
                }
                let full = result.len() >= ef;
                let accepted = if !live_ok {
                    false
                } else if !full {
                    true
                } else {
                    let worst = if result.len() == 0 { NEG_INFINITY_BITS } else { result[result.len() - 1].0 };
                    f32_greater(s, worst)
                };
                proof {
                    assert(accepted == (admits(nodes, acc, nb) && (before.len() < ef || f32_gt(s, worst_kept(before)))));
                }
                if accepted {
                    let c = (s, nb, nid);
                    insert_ranked(&mut result, c);
                    let ghost inserted = result@;
                    proof {
                        let p = choose|p: int| 0 <= p <= before.len() && inserted == before.insert(p, c);
                        if filtered {
                            lemma_insert_kept(nodes, sf, *admissible, before, inserted, c, p, v0, v1);
                        }
                        assert forall|k: int| 0 <= k < inserted.len() implies (#[trigger] inserted[k]).1 < n by {
                            if k < p {
                                assert(inserted[k] == before[k]);
                            } else if k > p {
                                assert(inserted[k] == before[k - 1]);
                            }
                        }
                    }
                    while result.len() > ef
                        invariant
                            result@ == inserted.take(result@.len() as int),
                            inserted.len() >= result@.len(),
                            result@.len() >= ef || result@.len() == inserted.len(),
                        decreases result.len(),
                    {
                        result.pop();
                        proof {
                            assert(result@ =~= inserted.take(result@.len() as int));
                        }
                    }
                    proof {
                        if inserted.len() > ef {
                            assert(result@ == inserted.take(ef as int));
                        } else {
                            assert(result@ =~= inserted);
                        }
                        assert(result@ == keep_cand(before, c, ef));
                        assert forall|k: int| 0 <= k < result@.len() implies (#[trigger] result@[k]).1 < n by {
                            assert(result@[k] == inserted[k]);
                        }
                        assert forall|a: int, b: int| 0 <= a < b < result@.len() implies !cand_before(#[trigger] result@[b], #[trigger] result@[a]) by {
                            assert(result@[a] == inserted[a] && result@[b] == inserted[b]);
                        }
                        if filtered {
                            lemma_prefix_kept(nodes, sf, *admissible, inserted, result@, v1);
                            assert(result@.len() <= if ef == 0 { 1 } else { ef as int });
                            if ef > 0 {
                                if !full {
                                    assert(result@ =~= inserted);
                                    lemma_complete_grow(nodes, sf, *admissible, before, result@, nb, v0, v1, ef);
                                } else {
                                    lemma_complete_full(nodes, sf, *admissible, before, inserted, result@, c, v0, v1, ef);
                                }
                            }
                        }
                    }
                } else {
                    proof {
                        if filtered {
                            lemma_complete_reject(nodes, sf, *admissible, result@, nb, v0, v1, ef);
                        }
                    }
                }
                proof {
                    assert((BeamState { visited: visited@, frontier: frontier@, kept: result@ }) == beam_visit(nodes, sf, acc, ef, st0, nb));
                }
            }
            proof {
                assert(nbrs@[j as int] == nb);
                assert((BeamState { visited: visited@, frontier: frontier@, kept: result@ }) == beam_expand(nodes, sf, acc, ef, popped, nbrs@, j + 1));
                if expanding {
                    assert forall|t: int| 0 <= t < j + 1 && #[trigger] nbrs@[t] < n implies visited@[nbrs@[t] as int] by {
                    }
                }
            }
            j = j + 1;
        }
        proof {
            expanded = true;
            let next = (BeamState { visited: visited@, frontier: frontier@, kept: result@ });
            assert(beam_step(nodes, sf, acc, ef, layer, st) == Some(next));
            assert(fuel_before > 0);
            assert(pops == pops_before + 1);
            assert(beam_run(nodes, sf, acc, ef, layer, st, fuel_before) == beam_run(nodes, sf, acc, ef, layer, next, (fuel_before - 1) as nat));
            assert((fuel_before - 1) as nat == (fuel_all - pops) as nat);
        }
    }
    proof {
        if filtered {
            assert forall|m: usize| #[trigger] around_entry(nodes, entry, layer, m) && eligible(nodes, *admissible, m) && !holds_node(result@, m) && ef > 0 implies
                result@.len() == ef && !f32_gt(sf(m), result@.last().0) by {
                if m != entry {
                    let j = choose|j: int| 0 <= j < layer_neighbors(nodes, entry, layer).len()
                        && #[trigger] layer_neighbors(nodes, entry, layer)[j] == m;
                    assert(visited@[m as int]);
                }
            }
        }
    }
    result
}

/// A pair-scoring function gives one score per ordered pair of node
/// indices, whatever the call.
pub open spec fn deterministic_pairs<P: Fn(usize, usize) -> u32>(f: P) -> bool {
    &&& forall|a: usize, b: usize| #[trigger] f.requires((a, b))
    &&& forall|a: usize, b: usize, x: u32, y: u32| f.ensures((a, b), x) && f.ensures((a, b), y) ==> x == y
}

/// The score a pair-scoring function gives the embeddings of `a` and `b`.
pub open spec fn pair_score_of<P: Fn(usize, usize) -> u32>(f: P, a: usize, b: usize) -> u32 {
    choose|s: u32| f.ensures((a, b), s)
}

/// A score returned by a deterministic pair-scoring function is its score.
proof fn lemma_pair_score_of<P: Fn(usize, usize) -> u32>(f: P, a: usize, b: usize, s: u32)
    requires
        deterministic_pairs(f),
        f.ensures((a, b), s),
    ensures
        pair_score_of(f, a, b) == s,
{
}

/// Whether candidate `c` is kept after `picked`: no picked node is closer to
/// it (scores higher against it) than the base is.
pub open spec fn diverse<P: Fn(usize, usize) -> u32>(f: P, picked: Seq<usize>, c: Candidate) -> bool {
    forall|i: int| 0 <= i < picked.len() ==> !f32_gt(pair_score_of(f, c.1, #[trigger] picked[i]), c.0)
}

/// The neighbors the selection heuristic keeps from `cands`, taken in
/// order: a candidate is kept while fewer than `m_max` are kept and it is
/// closer to the base than to every node kept before it.
pub open spec fn heuristic_picks<P: Fn(usize, usize) -> u32>(f: P, cands: Seq<Candidate>, m_max: usize) -> Seq<usize>
    decreases cands.len(),
{
    if cands.len() == 0 {
        Seq::empty()
    } else {
        let prev = heuristic_picks(f, cands.drop_last(), m_max);
        if prev.len() < m_max && diverse(f, prev, cands.last()) {
            prev.push(cands.last().1)
        } else {
            prev
        }
    }
}

/// The heuristic never keeps more than `m_max`, and keeps only candidates.
pub proof fn lemma_heuristic_picks<P: Fn(usize, usize) -> u32>(f: P, cands: Seq<Candidate>, m_max: usize)
    ensures
        heuristic_picks(f, cands, m_max).len() <= m_max,
        forall|i: int| 0 <= i < heuristic_picks(f, cands, m_max).len() ==>
            exists|j: int| 0 <= j < cands.len() && cands[j].1 == #[trigger] heuristic_picks(f, cands, m_max)[i],
    decreases cands.len(),
{
    if cands.len() > 0 {
        lemma_heuristic_picks(f, cands.drop_last(), m_max);
        let prev = heuristic_picks(f, cands.drop_last(), m_max);
        let cur = heuristic_picks(f, cands, m_max);
        assert forall|i: int| 0 <= i < cur.len() implies
            exists|j: int| 0 <= j < cands.len() && cands[j].1 == #[trigger] cur[i] by {
            if i < prev.len() {
                assert(cur[i] == prev[i]);
                let j = choose|j: int| 0 <= j < cands.drop_last().len() && cands.drop_last()[j].1 == prev[i];
                assert(cands[j] == cands.drop_last()[j]);
            } else {
                assert(cands[cands.len() - 1].1 == cur[i]);
            }
        }
    }
}

/// The heuristic decides the candidates one at a time, best first: the
/// candidate at `i` is kept exactly when fewer than `m_max` were kept
/// before it and no neighbor kept before it scores higher against it than
/// the base does; a candidate is passed over exactly when the list is full
/// or some earlier kept neighbor is closer to it than the base. What is
/// kept from a prefix of the candidates stays at the front of what is kept
/// from them all.
pub proof fn law_heuristic_steps<P: Fn(usize, usize) -> u32>(f: P, cands: Seq<Candidate>, m_max: usize, i: int)
    requires
        0 <= i < cands.len(),
    ensures
        heuristic_picks(f, cands.take(0), m_max).len() == 0,
        heuristic_picks(f, cands.take(cands.len() as int), m_max) == heuristic_picks(f, cands, m_max),
        ({
            let before = heuristic_picks(f, cands.take(i), m_max);
            let after = heuristic_picks(f, cands.take(i + 1), m_max);
            let kept = before.len() < m_max
                && forall|s: int| 0 <= s < before.len() ==> !f32_gt(#[trigger] pair_score_of(f, cands[i].1, before[s]), cands[i].0);
            &&& kept ==> after == before.push(cands[i].1)
            &&& !kept ==> after == before
            &&& !kept == (before.len() >= m_max
                || exists|s: int| 0 <= s < before.len() && f32_gt(#[trigger] pair_score_of(f, cands[i].1, before[s]), cands[i].0))
            &&& before.len() <= heuristic_picks(f, cands, m_max).len()
            &&& before == heuristic_picks(f, cands, m_max).take(before.len() as int)
        }),
{
    assert(cands.take(i + 1).drop_last() =~= cands.take(i));
    assert(cands.take(i + 1).last() == cands[i]);
    assert(cands.take(cands.len() as int) =~= cands);
    assert(cands.take(0).len() == 0);
    lemma_heuristic_prefix(f, cands, m_max, i);
}

/// What is kept from the first `i` candidates is a prefix of what is kept
/// from them all.
proof fn lemma_heuristic_prefix<P: Fn(usize, usize) -> u32>(f: P, cands: Seq<Candidate>, m_max: usize, i: int)
    requires
        0 <= i <= cands.len(),
    ensures
        heuristic_picks(f, cands.take(i), m_max).len() <= heuristic_picks(f, cands, m_max).len(),
        heuristic_picks(f, cands.take(i), m_max) == heuristic_picks(f, cands, m_max).take(heuristic_picks(f, cands.take(i), m_max).len() as int),
    decreases cands.len(),
{
    let all = heuristic_picks(f, cands, m_max);
    if i == cands.len() {
        assert(cands.take(i) =~= cands);
        assert(all.take(all.len() as int) =~= all);
    } else {
        let rest = cands.drop_last();
        lemma_heuristic_prefix(f, rest, m_max, i);
        assert(rest.take(i) =~= cands.take(i));
        let prev = heuristic_picks(f, rest, m_max);
        let part = heuristic_picks(f, cands.take(i), m_max);
        assert(all.take(part.len() as int) =~= prev.take(part.len() as int));
    }
}

/// Every kept neighbor was diverse against all those kept before it: for
/// the neighbor kept at position `p` there is a candidate carrying it such
/// that no neighbor kept earlier scores higher against it than that
/// candidate's score to the base.
pub proof fn law_heuristic_diverse<P: Fn(usize, usize) -> u32>(f: P, cands: Seq<Candidate>, m_max: usize, p: int)
    requires
        0 <= p < heuristic_picks(f, cands, m_max).len(),
    ensures
        exists|j: int| 0 <= j < cands.len() && #[trigger] cands[j].1 == heuristic_picks(f, cands, m_max)[p]
            && forall|s: int| 0 <= s < p ==>
                !f32_gt(#[trigger] pair_score_of(f, heuristic_picks(f, cands, m_max)[p], heuristic_picks(f, cands, m_max)[s]), cands[j].0),
{
    let picks = heuristic_picks(f, cands, m_max);
    let j = lemma_heuristic_kept_at(f, cands, m_max, p);
    law_heuristic_steps(f, cands, m_max, j);
    let before = heuristic_picks(f, cands.take(j), m_max);
    let after = heuristic_picks(f, cands.take(j + 1), m_max);
    lemma_heuristic_prefix(f, cands, m_max, j + 1);
    assert(after[p] == picks[p]);
    assert(after[p] == cands[j].1);
    assert forall|s: int| 0 <= s < p implies
        !f32_gt(#[trigger] pair_score_of(f, picks[p], picks[s]), cands[j].0) by {
        assert(before[s] == picks[s]);
        assert(!f32_gt(pair_score_of(f, cands[j].1, before[s]), cands[j].0));
    }
}

/// The step at which the neighbor at position `p` was kept.
proof fn lemma_heuristic_kept_at<P: Fn(usize, usize) -> u32>(f: P, cands: Seq<Candidate>, m_max: usize, p: int) -> (j: int)
    requires
        0 <= p < heuristic_picks(f, cands, m_max).len(),
    ensures
        0 <= j < cands.len(),
        heuristic_picks(f, cands.take(j), m_max).len() == p,
        heuristic_picks(f, cands.take(j + 1), m_max).len() == p + 1,
    decreases cands.len(),
{
    let rest = cands.drop_last();
    let prev = heuristic_picks(f, rest, m_max);
    if p < prev.len() {
        let j = lemma_heuristic_kept_at(f, rest, m_max, p);
        assert(rest.take(j) =~= cands.take(j));
        assert(rest.take(j + 1) =~= cands.take(j + 1));
        j
    } else {
        let j = cands.len() - 1;
        assert(cands.take(j) =~= rest);
        assert(cands.take(j + 1) =~= cands);
        j
    }
}

/// SELECT-NEIGHBORS-HEURISTIC (Malkov & Yashunin): from candidates sorted
/// best first, keeps at most `m_max`, preferring those closer to the base
/// than to any already kept neighbor. `pair` scores two nodes' embeddings
/// against each other.
pub fn select_neighbors_heuristic<P: Fn(usize, usize) -> u32>(candidates: &Vec<Candidate>, pair: &P, m_max: usize) -> (r: Vec<usize>)
    requires
        deterministic_pairs(*pair),
    ensures
        r@ == heuristic_picks(*pair, candidates@, m_max),
{
    let mut selected: Vec<usize> = Vec::new();
    let mut i: usize = 0;
    proof {
        assert(candidates@.take(0) =~= Seq::<Candidate>::empty());
    }
    while i < candidates.len()
        invariant
            i <= candidates@.len(),
            deterministic_pairs(*pair),
            selected@ == heuristic_picks(*pair, candidates@.take(i as int), m_max),
        decreases candidates.len() - i,
    {
        let c = candidates[i];
        proof {
            assert(candidates@.take(i + 1).drop_last() =~= candidates@.take(i as int));
            assert(candidates@.take(i + 1).last() == c);
        }
        if selected.len() < m_max {
            let mut keep = true;
            let mut q: usize = 0;
            while q < selected.len()
                invariant
                    q <= selected@.len(),
                    deterministic_pairs(*pair),
                    keep == forall|t: int| 0 <= t < q ==> !f32_gt(pair_score_of(*pair, c.1, #[trigger] selected@[t]), c.0),
                decreases selected.len() - q,
            {
                let s = pair(c.1, selected[q]);
                proof {
                    lemma_pair_score_of(*pair, c.1, selected@[q as int], s);
                }
                if f32_greater(s, c.0) {
                    keep = false;
                }
                q = q + 1;
            }
            if keep {
                selected.push(c.1);
            }
        }
        i = i + 1;
    }
    proof {
        assert(candidates@.take(i as int) =~= candidates@);
    }
    selected
}

/// The beam width a search of `k` results uses: the configured one, or `k`
/// when larger.
pub open spec fn search_width(ef_search: usize, k: usize) -> usize {
    if ef_search >= k { ef_search } else { k }
}

/// The level of node `n`, 0 when it does not exist.
pub open spec fn level_of_node(nodes: Seq<NodeView>, n: usize) -> usize {
    if n < nodes.len() { nodes[n as int].level as usize } else { 0 }
}

/// Where a search from the entry point `e` starts its beam at layer 0: the
/// end of the greedy descent from `e` down to layer 1, or `e` itself when it
/// lies on layer 0 only.
pub open spec fn search_start(nodes: Seq<NodeView>, f: spec_fn(usize) -> u32, e: usize) -> usize {
    if level_of_node(nodes, e) > 0 { greedy_spec(nodes, f, e, level_of_node(nodes, e), 1) } else { e }
}

/// The message when the search cannot start from a node of the graph.
pub open spec fn lost_entry_text() -> Seq<char> {
    "entry point outside the graph"@
}

impl HnswIndex {
    /// Top-`k` live nodes for a query, restricted to ids `admissible`
    /// accepts. `score` gives each node's score against the query.
    ///
    /// Fails with `DimensionMismatch` when the query does not have the index
    /// dimension, then with `UnsupportedMetric` for any metric but the
    /// configured one. An empty graph answers nothing. Otherwise descends
    /// greedily to layer 1, beam-searches layer 0 with width
    /// `max(ef_search, k)` and keeps the first `k`. A search that would
    /// start outside the graph (an entry point or link beyond the nodes,
    /// which only a damaged snapshot holds) fails with `Backend`; a graph
    /// whose entry point and links all name its nodes always answers. The
    /// answer is the first `k` candidates of the beam search from the end of
    /// the descent.
    pub fn search_filtered<F: Fn(usize) -> u32, G: Fn(VectorId) -> bool>(
        &self,
        query_dimension: Dimension,
        k: usize,
        metric: Metric,
        score: &F,
        admissible: &G,
    ) -> (r: Result<Vec<Candidate>, IndexError>)
        requires
            deterministic(*score),
            deterministic_filter(*admissible),
        ensures
            query_dimension@ != self.dimension_spec()@ ==> r == Err::<Vec<Candidate>, IndexError>(IndexError::DimensionMismatch {
                expected: self.dimension_spec()@ as usize,
                got: query_dimension@ as usize,
            }),
            query_dimension@ == self.dimension_spec()@ && metric != self.config_spec().metric ==>
                r == Err::<Vec<Candidate>, IndexError>(IndexError::UnsupportedMetric(metric)),
            query_dimension@ == self.dimension_spec()@ && metric == self.config_spec().metric ==> match r {
                Ok(v) => {
                    &&& v@.len() <= k
                    &&& (self.entry() is None ==> v@.len() == 0)
                    &&& beam_result(self.nodes(), score_fn(*score), *admissible, v@, search_width(self.config_spec().ef_search, k))
                    &&& (self.entry() matches Some(e) ==> {
                        let start = search_start(self.nodes(), score_fn(*score), e);
                        let width = search_width(self.config_spec().ef_search, k);
                        let all = beam_spec(self.nodes(), score_fn(*score), filter_fn(*admissible), start, width, 0);
                        &&& start < self.nodes().len()
                        &&& beam_result(self.nodes(), score_fn(*score), *admissible, all, width)
                        &&& beam_complete(self.nodes(), score_fn(*score), *admissible, start, 0, width, all)
                        &&& v@ == all.take(v@.len() as int)
                        &&& v@.len() == if all.len() < k { all.len() } else { k as nat }
                    })
                },
                Err(e) => e matches IndexError::Backend(msg) && msg@ == lost_entry_text() && self.entry() is Some
                    && !links_in_range(self.nodes(), self.entry()),
            },
            query_dimension@ == self.dimension_spec()@ && metric == self.config_spec().metric
                && links_in_range(self.nodes(), self.entry()) ==> r is Ok,
    {
        let graph = self.graph();
        let dim = self.dimension();
        if query_dimension.get() != dim.get() {
            return Err(IndexError::DimensionMismatch { expected: dim.get(), got: query_dimension.get() });
        }
        let config = self.config();
        if metric != config.metric {
            return Err(IndexError::UnsupportedMetric(metric));
        }
        let entry = match graph.entry_point() {
            Some(e) => e,
            None => return Ok(Vec::new()),
        };
        let n = graph.node_count();
        if entry >= n {
            return Err(IndexError::Backend(String::from_str("entry point outside the graph")));
        }
        let entry_level = graph.node_level(entry);
        let ef = if config.ef_search >= k { config.ef_search } else { k };
        let current = if entry_level > 0 {
            greedy_descent(graph, score, entry, entry_level, 1)
        } else {
            entry
        };
        if current >= n {
            return Err(IndexError::Backend(String::from_str("entry point outside the graph")));
        }
        let candidates = beam_search(graph, score, current, ef, 0, admissible);
        let mut out: Vec<Candidate> = Vec::new();
        let mut i: usize = 0;
        while i < candidates.len() && i < k
            invariant
                i <= candidates@.len(),
                i <= k,
                out@ == candidates@.take(i as int),
            decreases candidates.len() - i,
        {
            out.push(candidates[i]);
            proof {
                assert(candidates@.take(i + 1) =~= candidates@.take(i as int).push(candidates@[i as int]));
            }
            i = i + 1;
        }
        proof {
            let c = candidates@;
            let o = out@;
            assert forall|a: int| 0 <= a < o.len() implies is_result(self.nodes(), score_fn(*score), *admissible, #[trigger] o[a]) by {
                assert(o[a] == c[a]);
            }
            assert(o.len() <= c.len());
            assert(ef == search_width(self.config_spec().ef_search, k));
            assert forall|a: int, b: int| 0 <= a < b < o.len() implies (#[trigger] o[a]).1 != (#[trigger] o[b]).1 by {
                assert(o[a] == c[a] && o[b] == c[b]);
            }
            assert forall|a: int, b: int| 0 <= a < b < o.len() implies !cand_before(#[trigger] o[b], #[trigger] o[a]) by {
                assert(o[a] == c[a] && o[b] == c[b]);
            }
            assert(o.len() <= k);
            assert(o =~= c.take(o.len() as int));
            assert(beam_complete(self.nodes(), score_fn(*score), *admissible, current, 0, ef, c));
            assert(current == search_start(self.nodes(), score_fn(*score), entry));
        }
        Ok(out)
    }
}

/// Strictly ascending.
pub open spec fn ascending(s: Seq<u64>) -> bool {
    forall|i: int, j: int| 0 <= i < j < s.len() ==> s[i] < s[j]
}

/// A strictly ascending list is determined by what it holds: two with the
/// same elements are equal.
pub proof fn lemma_ascending_determined(a: Seq<u64>, b: Seq<u64>)
    requires
        ascending(a),
        ascending(b),
        forall|y: u64| a.contains(y) <==> b.contains(y),
    ensures
        a == b,
    decreases a.len(),
{
    if a.len() == 0 {
        if b.len() > 0 {
            assert(b.contains(b[0]));
        }
        assert(a =~= b);
    } else {
        assert(a.contains(a[0]));
        assert(b.len() > 0);
        assert(b.contains(b[0]));
        let j = choose|j: int| 0 <= j < b.len() && b[j] == a[0];
        let i = choose|i: int| 0 <= i < a.len() && a[i] == b[0];
        if i > 0 {
            assert(a[0] < a[i]);
        }
        if j > 0 {
            assert(b[0] < b[j]);
        }
        assert(a[0] == b[0]);
        let ra = a.drop_first();
        let rb = b.drop_first();
        assert forall|y: u64| ra.contains(y) <==> rb.contains(y) by {
            if ra.contains(y) {
                let k = choose|k: int| 0 <= k < ra.len() && ra[k] == y;
                assert(a[k + 1] == y && a[0] < a[k + 1]);
                assert(a.contains(y));
                let t = choose|t: int| 0 <= t < b.len() && b[t] == y;
                assert(t != 0);
                assert(rb[t - 1] == y);
            }
            if rb.contains(y) {
                let k = choose|k: int| 0 <= k < rb.len() && rb[k] == y;
                assert(b[k + 1] == y && b[0] < b[k + 1]);
                assert(b.contains(y));
                let t = choose|t: int| 0 <= t < a.len() && a[t] == y;
                assert(t != 0);
                assert(ra[t - 1] == y);
            }
        }
        assert forall|x: int, z: int| 0 <= x < z < ra.len() implies ra[x] < ra[z] by {
            assert(a[x + 1] < a[z + 1]);
        }
        assert forall|x: int, z: int| 0 <= x < z < rb.len() implies rb[x] < rb[z] by {
            assert(b[x + 1] < b[z + 1]);
        }
        lemma_ascending_determined(ra, rb);
        assert(a.len() == b.len());
        assert forall|x: int| 0 <= x < a.len() implies a[x] == b[x] by {
            if x > 0 {
                assert(a[x] == ra[x - 1] && b[x] == rb[x - 1]);
            }
        }
        assert(a =~= b);
    }
}

/// Adds `x` to an ascending list of node indices, keeping it ascending and
/// free of repeats.
fn insert_touched(v: &mut Vec<u64>, x: u64)
    requires
        ascending(old(v)@),
    ensures
        ascending(final(v)@),
        forall|y: u64| final(v)@.contains(y) <==> (old(v)@.contains(y) || y == x),
{
    let mut p: usize = 0;
    while p < v.len()
        invariant
            p <= v@.len(),
            v@ == old(v)@,
            ascending(v@),
            forall|j: int| 0 <= j < p ==> v@[j] < x,
        ensures
            p <= v@.len(),
            v@ == old(v)@,
            forall|j: int| 0 <= j < p ==> v@[j] < x,
            p < v@.len() ==> v@[p as int] >= x,
        decreases v.len() - p,
    {
        if v[p] >= x {
            break;
        }
        p = p + 1;
    }
    if p < v.len() && v[p] == x {
        return;
    }
    let ghost before = v@;
    v.insert(p, x);
    proof {
        let t = v@;
        assert forall|i: int, j: int| 0 <= i < j < t.len() implies t[i] < t[j] by {
            let pi = p as int;
            if i < pi && j < pi {
                assert(t[i] == before[i] && t[j] == before[j]);
            } else if i < pi && j == pi {
                assert(t[i] == before[i]);
            } else if i < pi {
                assert(t[i] == before[i] && t[j] == before[j - 1]);
            } else if i == pi {
                assert(t[j] == before[j - 1]);
            } else {
                assert(t[i] == before[i - 1] && t[j] == before[j - 1]);
            }
        }
        assert forall|y: u64| t.contains(y) <==> (before.contains(y) || y == x) by {
            if t.contains(y) {
                let q = choose|q: int| 0 <= q < t.len() && t[q] == y;
                if q < p {
                    assert(t[q] == before[q]);
                } else if q > p {
                    assert(t[q] == before[q - 1]);
                }
            }
            if before.contains(y) {
                let q = choose|q: int| 0 <= q < before.len() && before[q] == y;
                if q < p {
                    assert(t[q] == before[q]);
                } else {
                    assert(t[q + 1] == before[q]);
                }
            }
            if y == x {
                assert(t[p as int] == x);
            }
        }
    }
}

/// `p` is where `c` goes when a list is sorted stably: after every
/// candidate that `c` does not rank strictly before, before the others.
pub open spec fn is_stable_pos(v: Seq<Candidate>, c: Candidate, p: int) -> bool {
    &&& 0 <= p <= v.len()
    &&& forall|j: int| 0 <= j < p ==> !cand_before(c, #[trigger] v[j])
    &&& p < v.len() ==> cand_before(c, v[p])
}

/// Where `c` goes when a list is sorted stably.
pub open spec fn stable_pos(v: Seq<Candidate>, c: Candidate) -> int {
    choose|p: int| is_stable_pos(v, c, p)
}

/// There is one such place.
proof fn lemma_stable_pos(v: Seq<Candidate>, c: Candidate, p: int)
    requires
        is_stable_pos(v, c, p),
    ensures
        stable_pos(v, c) == p,
{
    let q = stable_pos(v, c);
    assert(is_stable_pos(v, c, q));
    if q < p {
        assert(!cand_before(c, v[q]));
    } else if p < q {
        assert(!cand_before(c, v[p]));
    }
}

/// The candidates sorted best first, stably: equal-ranking candidates keep
/// their order.
pub open spec fn stable_sorted(s: Seq<Candidate>) -> Seq<Candidate>
    decreases s.len(),
{
    if s.len() == 0 {
        Seq::empty()
    } else {
        let r = stable_sorted(s.drop_last());
        r.insert(stable_pos(r, s.last()), s.last())
    }
}

/// Sorting keeps the candidates it is given.
proof fn lemma_stable_sorted_members(s: Seq<Candidate>)
    ensures
        stable_sorted(s).len() == s.len(),
        forall|k: int| 0 <= k < stable_sorted(s).len() ==> s.contains(#[trigger] stable_sorted(s)[k]),
    decreases s.len(),
{
    if s.len() > 0 {
        let prev = s.drop_last();
        lemma_stable_sorted_members(prev);
        let r = stable_sorted(prev);
        let c = s.last();
        let p = stable_pos(r, c);
        lemma_first_after(r, c, 0);
        assert(is_stable_pos(r, c, first_after(r, c, 0)));
        assert(is_stable_pos(r, c, p));
        let t = r.insert(p, c);
        assert forall|k: int| 0 <= k < t.len() implies s.contains(#[trigger] t[k]) by {
            if k < p {
                assert(t[k] == r[k]);
                let j = choose|j: int| 0 <= j < prev.len() && prev[j] == r[k];
                assert(s[j] == prev[j]);
            } else if k > p {
                assert(t[k] == r[k - 1]);
                let j = choose|j: int| 0 <= j < prev.len() && prev[j] == r[k - 1];
                assert(s[j] == prev[j]);
            } else {
                assert(s[s.len() - 1] == c);
            }
        }
    }
}

/// The first position from `from` on whose candidate `c` ranks before, or
/// the length.
spec fn first_after(r: Seq<Candidate>, c: Candidate, from: int) -> int
    decreases r.len() - from,
{
    if from >= r.len() || from < 0 {
        r.len() as int
    } else if cand_before(c, r[from]) {
        from
    } else {
        first_after(r, c, from + 1)
    }
}

/// `first_after` from 0 is a stable place.
proof fn lemma_first_after(r: Seq<Candidate>, c: Candidate, from: int)
    requires
        0 <= from <= r.len(),
        forall|j: int| 0 <= j < from ==> !cand_before(c, #[trigger] r[j]),
    ensures
        is_stable_pos(r, c, first_after(r, c, from)),
    decreases r.len() - from,
{
    if from < r.len() && !cand_before(c, r[from]) {
        lemma_first_after(r, c, from + 1);
    }
}

/// Sorts candidates best first, stably.
fn sort_candidates(v: &Vec<Candidate>) -> (r: Vec<Candidate>)
    ensures
        r@ == stable_sorted(v@),
{
    let mut r: Vec<Candidate> = Vec::new();
    let mut i: usize = 0;
    proof {
        assert(v@.take(0) =~= Seq::<Candidate>::empty());
    }
    while i < v.len()
        invariant
            i <= v@.len(),
            r@ == stable_sorted(v@.take(i as int)),
        decreases v.len() - i,
    {
        let c = v[i];
        let mut p: usize = 0;
        while p < r.len() && !cand_precedes(&c, &r[p])
            invariant
                p <= r@.len(),
                forall|j: int| 0 <= j < p ==> !cand_before(c, #[trigger] r@[j]),
            decreases r.len() - p,
        {
            p = p + 1;
        }
        proof {
            lemma_stable_pos(r@, c, p as int);
            assert(v@.take(i + 1).drop_last() =~= v@.take(i as int));
            assert(v@.take(i + 1).last() == c);
        }
        r.insert(p, c);
        i = i + 1;
    }
    proof {
        assert(v@.take(i as int) =~= v@);
    }
    r
}

/// The candidates of a list of nodes scored against node `sel`.
pub open spec fn pair_cands<P: Fn(usize, usize) -> u32>(nodes: Seq<NodeView>, p: P, sel: usize, list: Seq<usize>) -> Seq<Candidate> {
    list.map_values(|n: usize| (pair_score_of(p, sel, n), n, vector_id_spec(id_or_nil(nodes, n))))
}

/// The adjacency list of `sel` at `layer` once `new` links to it: `new`
/// appended, and when that overflows `m_limit`, the entries scored against
/// `sel`, sorted best first and passed through the selection heuristic.
pub open spec fn relink_spec<P: Fn(usize, usize) -> u32>(nodes: Seq<NodeView>, p: P, sel: usize, new: usize, layer: usize, m_limit: usize) -> Seq<usize> {
    let list = layer_neighbors(nodes, sel, layer).push(new);
    if list.len() <= m_limit {
        list
    } else {
        heuristic_picks(p, stable_sorted(pair_cands(nodes, p, sel, list)), m_limit)
    }
}

/// The adjacency list of `sel` with `new` appended, pruned back to
/// `m_limit` when it grew past it: the entries are scored against `sel`,
/// ranked best first and passed through the selection heuristic.
fn relink<P: Fn(usize, usize) -> u32>(graph: &HnswGraph, sel: usize, new: usize, layer: usize, pair: &P, m_limit: usize) -> (r: Vec<usize>)
    requires
        graph.wf(),
        deterministic_pairs(*pair),
    ensures
        r@ == relink_spec(graph.nodes(), *pair, sel, new, layer, m_limit),
        r@.len() <= m_limit || r@.len() == layer_neighbors(graph.nodes(), sel, layer).len() + 1,
        layer_neighbors(graph.nodes(), sel, layer).len() + 1 <= m_limit ==> r@ == layer_neighbors(graph.nodes(), sel, layer).push(new),
        layer_neighbors(graph.nodes(), sel, layer).len() + 1 > m_limit ==> r@.len() <= m_limit,
        forall|k: int| 0 <= k < r@.len() ==> #[trigger] r@[k] == new || layer_neighbors(graph.nodes(), sel, layer).contains(r@[k]),
{
    let ghost nodes = graph.nodes();
    let mut list = vstd::slice::slice_to_vec(graph.neighbors(sel, layer));
    let ghost old_list = list@;
    list.push(new);
    proof {
        assert forall|k: int| 0 <= k < list@.len() implies #[trigger] list@[k] == new || old_list.contains(list@[k]) by {
            if k < old_list.len() {
                assert(old_list[k] == list@[k]);
            }
        }
    }
    if list.len() <= m_limit {
        return list;
    }
    let mut items: Vec<Candidate> = Vec::new();
    let mut i: usize = 0;
    while i < list.len()
        invariant
            i <= list@.len(),
            graph.wf(),
            nodes == graph.nodes(),
            deterministic_pairs(*pair),
            items@ == pair_cands(nodes, *pair, sel, list@.take(i as int)),
        decreases list.len() - i,
    {
        let node = list[i];
        let s = pair(sel, node);
        let id = match graph.node_id(node) {
            Some(v) => v,
            None => VectorId::nil(),
        };
        proof {
            lemma_pair_score_of(*pair, sel, node, s);
            lemma_vector_id_spec(id, id_or_nil(nodes, node));
            assert(list@.take(i + 1) =~= list@.take(i as int).push(node));
        }
        items.push((s, node, id));
        proof {
            assert(items@ =~= pair_cands(nodes, *pair, sel, list@.take(i + 1)));
        }
        i = i + 1;
    }
    proof {
        assert(list@.take(i as int) =~= list@);
    }
    let cands = sort_candidates(&items);
    let picked = select_neighbors_heuristic(&cands, pair, m_limit);
    proof {
        lemma_heuristic_picks(*pair, cands@, m_limit);
        lemma_stable_sorted_members(items@);
        assert forall|k: int| 0 <= k < picked@.len() implies #[trigger] picked@[k] == new || old_list.contains(picked@[k]) by {
            let j = choose|j: int| 0 <= j < cands@.len() && cands@[j].1 == picked@[k];
            assert(items@.contains(cands@[j]));
            let t = choose|t: int| 0 <= t < items@.len() && items@[t] == cands@[j];
            assert(items@[t].1 == list@[t]);
        }
    }
    picked
}

/// The degree bound at layer 0: twice `m`, saturating.
pub open spec fn layer0_degree(m: usize) -> usize {
    if 2 * m > usize::MAX { usize::MAX } else { (2 * m) as usize }
}

/// Every adjacency list at layer 0 holds at most `m_max0` entries, and at
/// the other layers at most `m_max`.
pub open spec fn degrees_within(nodes: Seq<NodeView>, m_max0: usize, m_max: usize) -> bool {
    forall|i: int, l: int| 0 <= i < nodes.len() && 0 <= l < nodes[i].neighbors.len() ==>
        (#[trigger] nodes[i].neighbors[l]).len() <= if l == 0 { m_max0 as int } else { m_max as int }
}

/// Every adjacency list of node `i` is within the layer's degree bound.
pub open spec fn node_degrees_within(nodes: Seq<NodeView>, i: int, m_max0: usize, m_max: usize) -> bool {
    forall|l: int| 0 <= l < nodes[i].neighbors.len() ==>
        (#[trigger] nodes[i].neighbors[l]).len() <= if l == 0 { m_max0 as int } else { m_max as int }
}

/// The level the entry point has, 0 when there is none or it is outside.
pub open spec fn entry_level_spec(nodes: Seq<NodeView>, entry: Option<usize>) -> nat {
    match entry {
        Some(e) => if e < nodes.len() { nodes[e as int].level } else { 0 },
        None => 0,
    }
}

/// The nodes with the adjacency list of `node` at `layer` replaced by
/// `list`; unchanged when the node or the layer does not exist.
pub open spec fn set_list(nodes: Seq<NodeView>, node: usize, layer: usize, list: Seq<usize>) -> Seq<NodeView> {
    if node < nodes.len() && layer < nodes[node as int].neighbors.len() {
        nodes.update(node as int, NodeView { neighbors: nodes[node as int].neighbors.update(layer as int, list), ..nodes[node as int] })
    } else {
        nodes
    }
}

/// Replacing a list by one of in-range indices keeps every link in range.
proof fn lemma_set_list_within(nodes: Seq<NodeView>, node: usize, layer: usize, list: Seq<usize>)
    requires
        links_within(nodes),
        forall|k: int| 0 <= k < list.len() ==> #[trigger] list[k] < nodes.len(),
    ensures
        links_within(set_list(nodes, node, layer, list)),
        set_list(nodes, node, layer, list).len() == nodes.len(),
{
    let t = set_list(nodes, node, layer, list);
    assert forall|i: int, l: int, k: int| 0 <= i < t.len() && 0 <= l < t[i].neighbors.len() && 0 <= k < t[i].neighbors[l].len()
        implies (#[trigger] t[i].neighbors[l][k]) < t.len() by {
        if node < nodes.len() && layer < nodes[node as int].neighbors.len() && i == node && l == layer {
            assert(t[i].neighbors[l] == list);
        } else if node < nodes.len() && layer < nodes[node as int].neighbors.len() && i == node {
            assert(t[i].neighbors[l] == nodes[i].neighbors[l]);
        } else {
            assert(t[i] == nodes[i]);
        }
    }
}

/// The back links at `layer` from the first `q` selected neighbors `sels`
/// to the new node `new`, made in order.
pub open spec fn back_links<P: Fn(usize, usize) -> u32>(nodes: Seq<NodeView>, p: P, sels: Seq<usize>, q: int, new: usize,
    layer: usize, m_limit: usize) -> Seq<NodeView>
    decreases q,
{
    if q <= 0 {
        nodes
    } else {
        let prev = back_links(nodes, p, sels, q - 1, new, layer, m_limit);
        let sel = sels[q - 1];
        set_list(prev, sel, layer, relink_spec(prev, p, sel, new, layer, m_limit))
    }
}

/// Whether one of the first `q` indices of `list`, widened to 64 bits, is
/// `y`.
pub open spec fn picked_upto(list: Seq<usize>, q: int, y: u64) -> bool {
    exists|t: int| 0 <= t < q && #[trigger] list[t] as u64 == y
}

/// The node indices of a list, widened to 64 bits, as a set.
pub open spec fn index_set(list: Seq<usize>) -> Set<u64> {
    list.map_values(|x: usize| x as u64).to_set()
}

/// Linking the new node `new` at layers `layer` down to 0, the search at
/// each layer starting from `cur`: a beam search of width `ef_c` that
/// admits every live node, the selection heuristic over its result as the
/// new node's list, the back links from each selected neighbor, and the
/// best candidate found as the next layer's start. Gives the nodes after
/// the linking and the set of selected neighbors over all these layers.
pub open spec fn link_layers<P: Fn(usize, usize) -> u32>(nodes: Seq<NodeView>, f: spec_fn(usize) -> u32, p: P, new: usize,
    cur: usize, layer: usize, ef_c: usize, m0: usize, m1: usize) -> (Seq<NodeView>, Set<u64>)
    decreases layer,
{
    let m_limit = if layer == 0 { m0 } else { m1 };
    let cands = if cur < nodes.len() { beam_spec(nodes, f, accept_all(), cur, ef_c, layer) } else { Seq::<Candidate>::empty() };
    let sel = heuristic_picks(p, cands, m_limit);
    let linked = back_links(set_list(nodes, new, layer, sel), p, sel, sel.len() as int, new, layer, m_limit);
    let next = if cands.len() > 0 { cands[0].1 } else { cur };
    if layer == 0 {
        (linked, index_set(sel))
    } else {
        let rest = link_layers(linked, f, p, new, next, (layer - 1) as usize, ef_c, m0, m1);
        (rest.0, index_set(sel).union(rest.1))
    }
}

/// The record of a node just added at `level`, with empty lists.
pub open spec fn fresh_node(id: u128, level: nat) -> NodeView {
    NodeView { id, level, tombstone: false, neighbors: Seq::new(level + 1, |l: int| Seq::<usize>::empty()) }
}

/// Where the linking of a node of level `level` starts, the entry point
/// being `e`: the end of the greedy descent from `e` down to the layer above
/// `level` when the entry lies higher, `e` itself otherwise.
pub open spec fn link_start(nodes: Seq<NodeView>, f: spec_fn(usize) -> u32, e: usize, level: usize) -> usize {
    if level_of_node(nodes, e) > level { greedy_spec(nodes, f, e, level_of_node(nodes, e), (level + 1) as usize) } else { e }
}

/// The nodes and the selected neighbors after linking a new node of level
/// `level`, held at index `new` of `nodes`, from the entry point `e`.
pub open spec fn link_from<P: Fn(usize, usize) -> u32>(nodes: Seq<NodeView>, f: spec_fn(usize) -> u32, p: P, new: usize,
    e: usize, level: usize, ef_c: usize, m0: usize, m1: usize) -> (Seq<NodeView>, Set<u64>) {
    let top = if level < level_of_node(nodes, e) { level } else { level_of_node(nodes, e) };
    link_layers(nodes, f, p, new, link_start(nodes, f, e, level), top, ef_c, m0, m1)
}

/// The graph and the touched list an insertion of a node with id `id` and
/// level `level` leaves, from the nodes `old_nodes` and the entry point
/// `entry`: the node appended, then, when there was an entry point, linked
/// from it; the touched list holds the new node and every selected
/// neighbor, ascending.
pub open spec fn insert_outcome<P: Fn(usize, usize) -> u32>(old_nodes: Seq<NodeView>, entry: Option<usize>,
    id: u128, level: nat, f: spec_fn(usize) -> u32, p: P, ef_c: usize, m0: usize, m1: usize, nodes: Seq<NodeView>, touched: Seq<u64>) -> bool {
    let new = old_nodes.len();
    let fresh = old_nodes.push(fresh_node(id, level));
    &&& ascending(touched)
    &&& match entry {
        None => nodes == fresh && touched == seq![new as u64],
        Some(e) => {
            let linked = link_from(fresh, f, p, new as usize, e, level as usize, ef_c, m0, m1);
            &&& nodes == linked.0
            &&& forall|y: u64| #[trigger] touched.contains(y) <==> (y == new as u64 || linked.1.contains(y))
        },
    }
}

/// Insertion is deterministic: from the same nodes and entry point, the
/// same id, level and scoring functions give the same graph and the same
/// touched list.
pub proof fn lemma_insert_outcome_unique<P: Fn(usize, usize) -> u32>(old_nodes: Seq<NodeView>,
    entry: Option<usize>, id: u128, level: nat, f: spec_fn(usize) -> u32, p: P, ef_c: usize, m0: usize, m1: usize,
    nodes_a: Seq<NodeView>, touched_a: Seq<u64>, nodes_b: Seq<NodeView>, touched_b: Seq<u64>)
    requires
        insert_outcome(old_nodes, entry, id, level, f, p, ef_c, m0, m1, nodes_a, touched_a),
        insert_outcome(old_nodes, entry, id, level, f, p, ef_c, m0, m1, nodes_b, touched_b),
    ensures
        nodes_a == nodes_b,
        touched_a == touched_b,
{
    if entry is Some {
        assert forall|y: u64| touched_a.contains(y) <==> touched_b.contains(y) by {}
        lemma_ascending_determined(touched_a, touched_b);
    }
}

/// What an insertion of `id` with an embedding of `dimension` promises,
/// from the index `before` to the index `after` with the result `r`, when
/// `level_of` maps the generator's draw to a level, `sf` gives the scores
/// against the new embedding and `pair` the scores of two nodes' embeddings.
pub open spec fn insert_post<L: Fn(u64) -> usize, P: Fn(usize, usize) -> u32>(before: HnswIndex, after: HnswIndex, id: VectorId,
    dimension: Dimension, level_of: L, sf: spec_fn(usize) -> u32, pair: P, r: Result<InsertDelta, IndexError>) -> bool {
    &&& (after.config_spec() == before.config_spec())
    &&& (after.dimension_spec() == before.dimension_spec())
    &&& (dimension@ != before.dimension_spec()@ ==> {
            &&& r == Err::<InsertDelta, IndexError>(IndexError::DimensionMismatch {
                expected: before.dimension_spec()@ as usize,
                got: dimension@ as usize,
            })
            &&& after.nodes() == before.nodes()
            &&& after.entry() == before.entry()
            &&& after.rng_state() == before.rng_state()
        })
    &&& (dimension@ == before.dimension_spec()@ && live_index(before.nodes(), id@) is Some ==> {
            &&& r == Err::<InsertDelta, IndexError>(IndexError::DuplicateId(id))
            &&& after.nodes() == before.nodes()
            &&& after.entry() == before.entry()
            &&& after.rng_state() == before.rng_state()
        })
    &&& (r is Ok ==> dimension@ == before.dimension_spec()@ && live_index(before.nodes(), id@) is None)
    &&& (dimension@ == before.dimension_spec()@ && live_index(before.nodes(), id@) is None ==> match before.dimension_hint() {
            Some(d) => d@ != dimension@ ==> r == Err::<InsertDelta, IndexError>(IndexError::DimensionMismatch {
                expected: d@ as usize,
                got: dimension@ as usize,
            }) && after.nodes() == before.nodes() && after.entry() == before.entry()
                && after.rng_state() == splitmix_advance(before.rng_state()),
            None => true,
        } && (before.dimension_hint() matches Some(d) && d@ != dimension@ || r is Ok))
    &&& (match r {
            Ok(delta) => {
                let old_nodes = before.nodes();
                let nodes = after.nodes();
                let new = old_nodes.len();
                &&& after.rng_state() == splitmix_advance(before.rng_state())
                &&& delta.new_node_idx == new
                &&& nodes.len() == new + 1
                &&& nodes[new as int].id == id@
                &&& !nodes[new as int].tombstone
                &&& nodes[new as int].level < usize::MAX
                &&& level_of.ensures((splitmix_output(after.rng_state()),), nodes[new as int].level as usize)
                &&& forall|i: int| 0 <= i < new ==> (#[trigger] nodes[i]).id == old_nodes[i].id
                    && nodes[i].level == old_nodes[i].level && nodes[i].tombstone == old_nodes[i].tombstone
                &&& ascending(delta.touched_nodes@)
                &&& delta.touched_nodes@.contains(new as u64)
                &&& forall|i: int| 0 <= i < new && !delta.touched_nodes@.contains(i as u64) ==> #[trigger] nodes[i] == old_nodes[i]
                &&& delta.entry_changed == (before.entry() is None
                    || nodes[new as int].level > entry_level_spec(nodes, before.entry()))
                &&& after.entry() == if delta.entry_changed { Some(new as usize) } else { before.entry() }
                &&& degrees_within(old_nodes, layer0_degree(before.config_spec().m), before.config_spec().m)
                    ==> degrees_within(nodes, layer0_degree(before.config_spec().m), before.config_spec().m)
                &&& node_degrees_within(nodes, new as int, layer0_degree(before.config_spec().m), before.config_spec().m)
                &&& forall|t: int| 0 <= t < delta.touched_nodes@.len() ==> #[trigger] delta.touched_nodes@[t] <= new
                &&& links_in_range(old_nodes, before.entry()) ==> links_in_range(nodes, after.entry())
                &&& entry_sound(old_nodes, before.entry()) ==> entry_sound(nodes, after.entry())
                &&& after.dimension_hint() matches Some(d) && d@ == dimension@
                &&& insert_outcome(old_nodes, before.entry(), id@, nodes[new as int].level, sf, pair,
                    before.config_spec().ef_construction, layer0_degree(before.config_spec().m), before.config_spec().m,
                    nodes, delta.touched_nodes@)
            },
            Err(_) => true,
        })
}

/// Two indexes in the same state answer an insertion alike: with the same
/// nodes, entry point, generator state, configuration and dimensions, the
/// same insertion (same id, dimension, level function, scores) succeeds or
/// fails alike, with the same error, the same delta, and the same nodes,
/// entry point and generator state after it. A restored snapshot is in the
/// state of the index it was taken of, so it inserts as that index does.
pub proof fn lemma_insert_alike<L: Fn(u64) -> usize, P: Fn(usize, usize) -> u32>(a: HnswIndex, a2: HnswIndex, b: HnswIndex,
    b2: HnswIndex, id: VectorId, dimension: Dimension, level_of: L, sf: spec_fn(usize) -> u32, pair: P,
    ra: Result<InsertDelta, IndexError>, rb: Result<InsertDelta, IndexError>)
    requires
        a.nodes() == b.nodes(),
        a.entry() == b.entry(),
        a.rng_state() == b.rng_state(),
        a.config_spec() == b.config_spec(),
        a.dimension_spec() == b.dimension_spec(),
        a.dimension_hint() == b.dimension_hint(),
        forall|d: u64, x: usize, y: usize| level_of.ensures((d,), x) && level_of.ensures((d,), y) ==> x == y,
        insert_post(a, a2, id, dimension, level_of, sf, pair, ra),
        insert_post(b, b2, id, dimension, level_of, sf, pair, rb),
    ensures
        ra is Ok <==> rb is Ok,
        ra is Err ==> ra == rb,
        a2.nodes() == b2.nodes(),
        a2.entry() == b2.entry(),
        a2.rng_state() == b2.rng_state(),
        ra is Ok ==> ra->Ok_0.new_node_idx == rb->Ok_0.new_node_idx && ra->Ok_0.touched_nodes@ == rb->Ok_0.touched_nodes@
            && ra->Ok_0.entry_changed == rb->Ok_0.entry_changed,
{
    if ra is Ok && rb is Ok {
        let da = ra->Ok_0;
        let db = rb->Ok_0;
        let new = a.nodes().len();
        let d = splitmix_output(a2.rng_state());
        assert(level_of.ensures((d,), a2.nodes()[new as int].level as usize));
        assert(level_of.ensures((d,), b2.nodes()[new as int].level as usize));
        assert(a2.nodes()[new as int].level == b2.nodes()[new as int].level);
        lemma_insert_outcome_unique(a.nodes(), a.entry(), id@, a2.nodes()[new as int].level, sf, pair,
            a.config_spec().ef_construction, layer0_degree(a.config_spec().m), a.config_spec().m,
            a2.nodes(), da.touched_nodes@, b2.nodes(), db.touched_nodes@);
    }
}

impl HnswIndex {
    /// Inserts `id` and reports which node records changed.
    ///
    /// Fails with `DimensionMismatch` when the embedding does not have the
    /// index dimension, then with `DuplicateId` when the id has a live
    /// node; nothing changes then. Otherwise draws the node's level
    /// (`level_of` maps the generator's draw to a level), appends the node,
    /// and links it: a greedy descent to the layer below the node's level,
    /// then at each layer from the lower of the two levels down to 0 a beam
    /// search of width `ef_construction`, the selection heuristic over its
    /// result, and the back links from each selected neighbor, pruned to
    /// the layer's degree when they overflow. The node becomes the entry
    /// point when there was none or its level is above the entry's.
    ///
    /// `score` gives a node's score against the new embedding (the node
    /// must already be stored where it looks at index `nodes().len()`),
    /// `pair` the score of two nodes' embeddings.
    pub fn insert_tracked<L: Fn(u64) -> usize, F: Fn(usize) -> u32, P: Fn(usize, usize) -> u32>(
        &mut self,
        id: VectorId,
        dimension: Dimension,
        level_of: &L,
        score: &F,
        pair: &P,
    ) -> (r: Result<InsertDelta, IndexError>)
        requires
            forall|d: u64| #[trigger] level_of.requires((d,)),
            forall|d: u64, l: usize| level_of.ensures((d,), l) ==> l < usize::MAX,
            deterministic(*score),
            deterministic_pairs(*pair),
            old(self).nodes().len() < usize::MAX,
        ensures
            insert_post(*old(self), *final(self), id, dimension, *level_of, score_fn(*score), *pair, r),
    {
        proof {
            lemma_agrees_score_fn(*score);
        }
        self.insert_core(id, dimension, level_of, score, Ghost(score_fn(*score)), pair)
    }

    /// The insertion, scored by `sf`, the scores `score` returns.
    fn insert_core<L: Fn(u64) -> usize, F: Fn(usize) -> u32, P: Fn(usize, usize) -> u32>(
        &mut self,
        id: VectorId,
        dimension: Dimension,
        level_of: &L,
        score: &F,
        Ghost(sf): Ghost<spec_fn(usize) -> u32>,
        pair: &P,
    ) -> (r: Result<InsertDelta, IndexError>)
        requires
            forall|d: u64| #[trigger] level_of.requires((d,)),
            forall|d: u64, l: usize| level_of.ensures((d,), l) ==> l < usize::MAX,
            agrees(*score, sf),
            deterministic_pairs(*pair),
            old(self).nodes().len() < usize::MAX,
        ensures
            insert_post(*old(self), *final(self), id, dimension, *level_of, sf, *pair, r),
    {
        if dimension.get() != self.dimension().get() {
            return Err(IndexError::DimensionMismatch { expected: self.dimension().get(), got: dimension.get() });
        }
        if self.graph().id_to_node(id).is_some() {
            return Err(IndexError::DuplicateId(id));
        }
        let entry_before = self.graph().entry_point();
        let ghost old_nodes = self.nodes();
        let ghost old_entry = self.entry();
        let ghost m0 = layer0_degree(self.config_spec().m);
        let ghost m1 = self.config_spec().m;
        let draw = self.next_random();
        let level = level_of(draw);
        let new_node = match self.add_node(id, dimension, level) {
            Ok(n) => n,
            Err(e) => return Err(e),
        };
        let ghost nodes1 = self.nodes();
        let ghost rng1 = self.rng_state();
        let ghost hint1 = self.dimension_hint();
        proof {
            assert(nodes1 == old_nodes.push(fresh_node(id@, level as nat)));
            assert(nodes1[new_node as int].level == level);
            if links_within(old_nodes) {
                assert forall|i: int, l: int, k: int| 0 <= i < nodes1.len() && 0 <= l < nodes1[i].neighbors.len() && 0 <= k < nodes1[i].neighbors[l].len()
                    implies (#[trigger] nodes1[i].neighbors[l][k]) < nodes1.len() by {
                    if i < old_nodes.len() {
                        assert(nodes1[i] == old_nodes[i]);
                    }
                }
            }
        }
        proof {
            assert forall|i: int, l: int| 0 <= i < nodes1.len() && 0 <= l < nodes1[i].neighbors.len() && degrees_within(old_nodes, m0, m1) implies
                (#[trigger] nodes1[i].neighbors[l]).len() <= if l == 0 { m0 as int } else { m1 as int } by {
                if i < old_nodes.len() {
                    assert(nodes1[i] == old_nodes[i]);
                }
            }
        }
        proof {
            assert forall|l: int| 0 <= l < nodes1[new_node as int].neighbors.len() implies
                (#[trigger] nodes1[new_node as int].neighbors[l]).len() <= if l == 0 { m0 as int } else { m1 as int } by {
            }
        }
        let mut touched: Vec<u64> = Vec::new();
        touched.push(new_node as u64);
        proof {
            assert(touched@ == seq![new_node as u64]);
            assert(touched@[0] == new_node as u64);
        }
        let entry = match entry_before {
            None => {
                self.set_entry_point(Some(new_node));
                proof {
                    lemma_live_total_zero(old_nodes);
                    let fin = self.nodes();
                    if entry_sound(old_nodes, old_entry) {
                        assert forall|i: int| 0 <= i < fin.len() && !(#[trigger] fin[i]).tombstone implies fin[i].level <= fin[new_node as int].level by {
                            if i < old_nodes.len() {
                                assert(nodes1[i] == old_nodes[i]);
                                assert(old_nodes[i].tombstone);
                            }
                        }
                    }
                }
                return Ok(InsertDelta { new_node_idx: new_node as u64, touched_nodes: touched, entry_changed: true });
            },
            Some(e) => e,
        };
        let entry_level = self.graph().node_level(entry);
        let config = self.config();
        let m_max0 = config.m_max0();
        let m_max = config.m_max();
        let ef_c = config.ef_construction;
        let mut current = entry;
        if entry_level > level {
            current = greedy_core(self.graph(), score, Ghost(sf), entry, entry_level, level + 1);
        }
        let ghost target = link_from(nodes1, sf, *pair, new_node, entry, level, ef_c, m0, m1);
        let ghost mut done: Set<u64> = Set::empty();
        let ghost mut finished = false;
        proof {
            assert(entry_level == level_of_node(nodes1, entry));
            assert(current == link_start(nodes1, sf, entry, level));
        }
        let all = |v: VectorId| -> (b: bool)
            ensures
                b,
            { true };
        let mut layer = if level < entry_level { level } else { entry_level };
        loop
            invariant_except_break
                !finished,
            invariant
                agrees(*score, sf),
                deterministic_pairs(*pair),
                ef_c == config.ef_construction,
                !finished ==> target.0 == link_layers(self.nodes(), sf, *pair, new_node, current, layer, ef_c, m0, m1).0,
                !finished ==> forall|y: u64| #[trigger] target.1.contains(y) <==> (done.contains(y)
                    || link_layers(self.nodes(), sf, *pair, new_node, current, layer, ef_c, m0, m1).1.contains(y)),
                finished ==> self.nodes() == target.0 && forall|y: u64| #[trigger] target.1.contains(y) <==> done.contains(y),
                forall|y: u64| #[trigger] touched@.contains(y) <==> (y == new_node as u64 || done.contains(y)),
                forall|y: u64| touched@.contains(y) ==> y <= new_node as u64,
                links_within(old_nodes) ==> links_within(self.nodes()),
                forall|v: VectorId| #[trigger] all.requires((v,)),
                forall|v: VectorId, b: bool| all.ensures((v,), b) ==> b,
                self.config_spec() == config,
                m_max0 == m0,
                m_max == m1,
                m1 == config.m,
                self.rng_state() == rng1,
                self.dimension_hint() == hint1,
                self.entry() == old_entry,
                self.dimension_spec() == old(self).dimension_spec(),
                new_node == old_nodes.len(),
                self.nodes().len() == nodes1.len(),
                nodes1.len() == old_nodes.len() + 1,
                forall|i: int| 0 <= i < nodes1.len() ==> (#[trigger] self.nodes()[i]).id == nodes1[i].id
                    && self.nodes()[i].level == nodes1[i].level && self.nodes()[i].tombstone == nodes1[i].tombstone,
                forall|i: int| 0 <= i < old_nodes.len() && !touched@.contains(i as u64) ==> #[trigger] self.nodes()[i] == old_nodes[i],
                ascending(touched@),
                touched@.contains(new_node as u64),
                degrees_within(old_nodes, m0, m1) ==> degrees_within(self.nodes(), m0, m1),
                node_degrees_within(self.nodes(), new_node as int, m0, m1),
            ensures
                finished,
            decreases layer,
        {
            let m_limit = if layer == 0 { m_max0 } else { m_max };
            let ghost layer_nodes = self.nodes();
            let ghost done_before = done;
            let n = self.graph().node_count();
            let candidates = if current < n {
                beam_core(self.graph(), score, current, ef_c, layer, &all, false, Ghost(sf))
            } else {
                Vec::new()
            };
            let selected = select_neighbors_heuristic(&candidates, pair, m_limit);
            proof {
                lemma_heuristic_picks(*pair, candidates@, m_limit);
                assert(candidates@ == if current < layer_nodes.len() {
                    beam_spec(layer_nodes, sf, accept_all(), current, ef_c, layer)
                } else {
                    Seq::<Candidate>::empty()
                });
                assert forall|k: int| 0 <= k < selected@.len() implies #[trigger] selected@[k] < layer_nodes.len() by {
                    let j = choose|j: int| 0 <= j < candidates@.len() && candidates@[j].1 == selected@[k];
                }
            }
            let chosen = vstd::slice::slice_to_vec(selected.as_slice());
            let ghost before_new = self.nodes();
            self.set_neighbors(new_node, layer, selected);
            let ghost start_links = self.nodes();
            proof {
                assert(start_links == set_list(layer_nodes, new_node, layer, chosen@));
                if links_within(old_nodes) {
                    lemma_set_list_within(layer_nodes, new_node, layer, chosen@);
                }
                assert(self.nodes() == back_links(start_links, *pair, chosen@, 0, new_node, layer, m_limit));
            }
            proof {
                let now = self.nodes();
                assert forall|i: int| 0 <= i < nodes1.len() implies (#[trigger] now[i]).id == nodes1[i].id
                    && now[i].level == nodes1[i].level && now[i].tombstone == nodes1[i].tombstone by {
                    assert(before_new[i].id == nodes1[i].id);
                }
                assert forall|i: int| 0 <= i < old_nodes.len() && !touched@.contains(i as u64) implies #[trigger] now[i] == old_nodes[i] by {
                    assert(before_new[i] == old_nodes[i]);
                }
                if degrees_within(old_nodes, m0, m1) {
                    assert forall|i: int, l: int| 0 <= i < now.len() && 0 <= l < now[i].neighbors.len() implies
                        (#[trigger] now[i].neighbors[l]).len() <= if l == 0 { m0 as int } else { m1 as int } by {
                        if i != new_node as int || l != layer as int {
                            assert(now[i].neighbors[l] == before_new[i].neighbors[l]);
                        }
                    }
                }
                assert forall|l: int| 0 <= l < now[new_node as int].neighbors.len() implies
                    (#[trigger] now[new_node as int].neighbors[l]).len() <= if l == 0 { m0 as int } else { m1 as int } by {
                    if l != layer as int {
                        assert(now[new_node as int].neighbors[l] == before_new[new_node as int].neighbors[l]);
                    }
                }
            }
            let mut q: usize = 0;
            while q < chosen.len()
                invariant
                    q <= chosen@.len(),
                    deterministic_pairs(*pair),
                    self.config_spec() == config,
                    self.rng_state() == rng1,
                    self.dimension_hint() == hint1,
                    self.entry() == old_entry,
                    self.dimension_spec() == old(self).dimension_spec(),
                    m_limit == if layer == 0 { m0 } else { m1 },
                    new_node == old_nodes.len(),
                    nodes1.len() == old_nodes.len() + 1,
                    self.nodes().len() == nodes1.len(),
                    forall|i: int| 0 <= i < nodes1.len() ==> (#[trigger] self.nodes()[i]).id == nodes1[i].id
                        && self.nodes()[i].level == nodes1[i].level && self.nodes()[i].tombstone == nodes1[i].tombstone,
                    forall|i: int| 0 <= i < old_nodes.len() && !touched@.contains(i as u64) ==> #[trigger] self.nodes()[i] == old_nodes[i],
                    ascending(touched@),
                    touched@.contains(new_node as u64),
                    degrees_within(old_nodes, m0, m1) ==> degrees_within(self.nodes(), m0, m1),
                    node_degrees_within(self.nodes(), new_node as int, m0, m1),
                    self.nodes() == back_links(start_links, *pair, chosen@, q as int, new_node, layer, m_limit),
                    forall|y: u64| touched@.contains(y) <==> (y == new_node as u64 || done_before.contains(y)
                        || picked_upto(chosen@, q as int, y)),
                    forall|y: u64| touched@.contains(y) ==> y <= new_node as u64,
                    forall|k: int| 0 <= k < chosen@.len() ==> #[trigger] chosen@[k] < nodes1.len(),
                    links_within(old_nodes) ==> links_within(self.nodes()),
                decreases chosen.len() - q,
            {
                let sel = chosen[q];
                let ghost touched_before = touched@;
                proof {
                    assert(forall|y: u64| touched_before.contains(y) <==> (y == new_node as u64 || done_before.contains(y)
                        || picked_upto(chosen@, q as int, y)));
                }
                insert_touched(&mut touched, sel as u64);
                let list = relink(self.graph(), sel, new_node, layer, pair, m_limit);
                let ghost before = self.nodes();
                let ghost list_view = list@;
                self.set_neighbors(sel, layer, list);
                proof {
                    let now = self.nodes();
                    assert(now == set_list(before, sel, layer, list_view));
                    assert(chosen@[q as int] == sel);
                    assert(now == back_links(start_links, *pair, chosen@, q + 1, new_node, layer, m_limit));
                    assert forall|y: u64| touched@.contains(y) <==> (y == new_node as u64 || done_before.contains(y)
                        || picked_upto(chosen@, q + 1, y)) by {
                        if picked_upto(chosen@, q + 1, y) {
                            let t = choose|t: int| 0 <= t < q + 1 && #[trigger] chosen@[t] as u64 == y;
                            if t < q {
                                assert(picked_upto(chosen@, q as int, y));
                            } else {
                                assert(y == sel as u64);
                            }
                        }
                        if picked_upto(chosen@, q as int, y) {
                            let t = choose|t: int| 0 <= t < q && #[trigger] chosen@[t] as u64 == y;
                            assert(picked_upto(chosen@, q + 1, y));
                        }
                        if y == sel as u64 {
                            assert(chosen@[q as int] as u64 == y);
                            assert(picked_upto(chosen@, q + 1, y));
                        }
                        assert(touched@.contains(y) <==> (touched_before.contains(y) || y == sel as u64));
                        assert(touched_before.contains(y) <==> (y == new_node as u64 || done_before.contains(y)
                            || picked_upto(chosen@, q as int, y)));
                        assert(picked_upto(chosen@, q + 1, y) <==> (picked_upto(chosen@, q as int, y) || y == sel as u64));
                    }
                    if links_within(old_nodes) {
                        assert forall|k: int| 0 <= k < list_view.len() implies #[trigger] list_view[k] < before.len() by {
                            if list_view[k] != new_node {
                                let t = choose|t: int| 0 <= t < layer_neighbors(before, sel, layer).len() && layer_neighbors(before, sel, layer)[t] == list_view[k];
                                assert(before[sel as int].neighbors[layer as int][t] == list_view[k]);
                            }
                        }
                        lemma_set_list_within(before, sel, layer, list_view);
                    }
                    assert forall|i: int| 0 <= i < nodes1.len() implies (#[trigger] now[i]).id == nodes1[i].id
                        && now[i].level == nodes1[i].level && now[i].tombstone == nodes1[i].tombstone by {
                        assert(before[i].id == nodes1[i].id);
                    }
                    assert forall|i: int| 0 <= i < old_nodes.len() && !touched@.contains(i as u64) implies #[trigger] now[i] == old_nodes[i] by {
                        assert(!touched_before.contains(i as u64));
                        assert(before[i] == old_nodes[i]);
                        assert(i as u64 != sel as u64);
                    }
                    if degrees_within(old_nodes, m0, m1) {
                        assert forall|i: int, l: int| 0 <= i < now.len() && 0 <= l < now[i].neighbors.len() implies
                            (#[trigger] now[i].neighbors[l]).len() <= if l == 0 { m0 as int } else { m1 as int } by {
                            if i != sel as int || l != layer as int {
                                assert(now[i].neighbors[l] == before[i].neighbors[l]);
                            }
                        }
                    }
                    assert forall|l: int| 0 <= l < now[new_node as int].neighbors.len() implies
                        (#[trigger] now[new_node as int].neighbors[l]).len() <= if l == 0 { m0 as int } else { m1 as int } by {
                        if sel != new_node || l != layer as int {
                            assert(now[new_node as int].neighbors[l] == before[new_node as int].neighbors[l]);
                        }
                    }
                    assert(touched@.contains(new_node as u64));
                }
                q = q + 1;
            }
            let ghost layer_current = current;
            if candidates.len() > 0 {
                current = candidates[0].1;
            }
            proof {
                let picked = index_set(chosen@);
                assert forall|y: u64| picked.contains(y) <==> picked_upto(chosen@, chosen@.len() as int, y) by {
                    let mapped = chosen@.map_values(|x: usize| x as u64);
                    if picked.contains(y) {
                        assert(mapped.contains(y));
                        let t = choose|t: int| 0 <= t < mapped.len() && mapped[t] == y;
                        assert(chosen@[t] as u64 == y);
                    }
                    if picked_upto(chosen@, chosen@.len() as int, y) {
                        let t = choose|t: int| 0 <= t < chosen@.len() && #[trigger] chosen@[t] as u64 == y;
                        assert(mapped[t] == y);
                    }
                }
                let done_old = done;
                done = done.union(picked);
                let here = link_layers(layer_nodes, sf, *pair, new_node, layer_current, layer, ef_c, m0, m1);
                let cands_spec = if layer_current < layer_nodes.len() {
                    beam_spec(layer_nodes, sf, accept_all(), layer_current, ef_c, layer)
                } else {
                    Seq::<Candidate>::empty()
                };
                assert(cands_spec == candidates@);
                assert(heuristic_picks(*pair, cands_spec, m_limit) == chosen@);
                assert(self.nodes() == back_links(start_links, *pair, chosen@, chosen@.len() as int, new_node, layer, m_limit));
                assert(current == if cands_spec.len() > 0 { cands_spec[0].1 } else { layer_current });
                if layer == 0 {
                    assert(here == (self.nodes(), picked));
                    assert(target.0 == self.nodes());
                    assert forall|y: u64| target.1.contains(y) <==> done.contains(y) by {
                        assert(target.1.contains(y) <==> (done_old.contains(y) || here.1.contains(y)));
                    }
                    finished = true;
                } else {
                    let rest = link_layers(self.nodes(), sf, *pair, new_node, current, (layer - 1) as usize, ef_c, m0, m1);
                    assert(here == (rest.0, picked.union(rest.1)));
                    assert(target.0 == rest.0);
                    assert forall|y: u64| target.1.contains(y) <==> (done.contains(y) || rest.1.contains(y)) by {
                        assert(target.1.contains(y) <==> (done_old.contains(y) || here.1.contains(y)));
                    }
                }
                assert forall|y: u64| touched@.contains(y) <==> (y == new_node as u64 || done.contains(y)) by {
                }
            }
            if layer == 0 {
                break;
            }
            layer = layer - 1;
        }
        let entry_changed = level > entry_level;
        if entry_changed {
            self.set_entry_point(Some(new_node));
        }
        proof {
            assert(self.nodes()[new_node as int].level == level);
            let fin = self.nodes();
            if entry_sound(old_nodes, old_entry) {
                assert(old_nodes[entry as int] == nodes1[entry as int]);
                assert forall|i: int| 0 <= i < fin.len() && !(#[trigger] fin[i]).tombstone implies fin[i].level <= fin[self.entry().unwrap() as int].level by {
                    if i < old_nodes.len() {
                        assert(nodes1[i] == old_nodes[i]);
                    }
                }
            }
            assert forall|t: int| 0 <= t < touched@.len() implies #[trigger] touched@[t] <= new_node as u64 by {
                assert(touched@.contains(touched@[t]));
            }
            assert forall|y: u64| #[trigger] touched@.contains(y) <==> (y == new_node as u64 || target.1.contains(y)) by {
                assert(touched@.contains(y) <==> (y == new_node as u64 || done.contains(y)));
            }
        }
        Ok(InsertDelta { new_node_idx: new_node as u64, touched_nodes: touched, entry_changed })
    }
}

/// The level `level_of` gives a draw.
pub open spec fn level_spec<L: Fn(u64) -> usize>(level_of: L, d: u64) -> usize {
    choose|l: usize| level_of.ensures((d,), l)
}

/// A pair-scoring function's scores against node `q`, as a function of the
/// other node.
pub open spec fn row_fn<P: Fn(usize, usize) -> u32>(f: P, q: usize) -> spec_fn(usize) -> u32 {
    |n: usize| pair_score_of(f, q, n)
}

/// The ids of the live nodes, in node-index order.
pub open spec fn live_ids(nodes: Seq<NodeView>) -> Seq<u128>
    decreases nodes.len(),
{
    if nodes.len() == 0 {
        Seq::empty()
    } else {
        let prev = live_ids(nodes.drop_last());
        if nodes.last().tombstone { prev } else { prev.push(nodes.last().id) }
    }
}

/// Each listed id is the id of a live node, no id is listed twice, and
/// there are no more ids than nodes.
pub proof fn lemma_live_ids(nodes: Seq<NodeView>)
    requires
        nodes_valid(nodes),
    ensures
        live_ids(nodes).len() <= nodes.len(),
        forall|t: int| 0 <= t < live_ids(nodes).len() ==> exists|j: int| 0 <= j < nodes.len() && !nodes[j].tombstone
            && nodes[j].id == #[trigger] live_ids(nodes)[t],
        forall|a: int, b: int| 0 <= a < b < live_ids(nodes).len() ==> live_ids(nodes)[a] != live_ids(nodes)[b],
    decreases nodes.len(),
{
    if nodes.len() > 0 {
        let prev_nodes = nodes.drop_last();
        assert forall|i: int| 0 <= i < prev_nodes.len() implies #[trigger] prev_nodes[i] == nodes[i] by {}
        assert(nodes_valid(prev_nodes)) by {
            assert forall|i: int| 0 <= i < prev_nodes.len() implies (#[trigger] prev_nodes[i]).neighbors.len() == prev_nodes[i].level + 1 by {
                assert(prev_nodes[i] == nodes[i]);
            }
            assert forall|i: int, j: int| 0 <= j < i < prev_nodes.len() && #[trigger] prev_nodes[i].id == #[trigger] prev_nodes[j].id implies prev_nodes[j].tombstone by {
                assert(prev_nodes[i] == nodes[i] && prev_nodes[j] == nodes[j]);
            }
        }
        lemma_live_ids(prev_nodes);
        let prev = live_ids(prev_nodes);
        let cur = live_ids(nodes);
        let last = nodes.len() - 1;
        assert forall|t: int| 0 <= t < cur.len() implies exists|j: int| 0 <= j < nodes.len() && !nodes[j].tombstone
            && nodes[j].id == #[trigger] cur[t] by {
            if t < prev.len() {
                assert(cur[t] == prev[t]);
                let j = choose|j: int| 0 <= j < prev_nodes.len() && !prev_nodes[j].tombstone && prev_nodes[j].id == prev[t];
                assert(nodes[j] == prev_nodes[j]);
            } else {
                assert(!nodes[last].tombstone && nodes[last].id == cur[t]);
            }
        }
        if !nodes.last().tombstone {
            assert forall|a: int, b: int| 0 <= a < b < cur.len() implies cur[a] != cur[b] by {
                if b == cur.len() - 1 {
                    assert(cur[a] == prev[a]);
                    let j = choose|j: int| 0 <= j < prev_nodes.len() && !prev_nodes[j].tombstone && prev_nodes[j].id == #[trigger] prev[a];
                    assert(nodes[j] == prev_nodes[j]);
                    if nodes[last].id == nodes[j].id {
                        assert(nodes[j].tombstone);
                    }
                } else {
                    assert(cur[a] == prev[a] && cur[b] == prev[b]);
                }
            }
        }
    }
}

/// A graph's state: its nodes, its entry point and its generator state.
pub struct GraphState {
    pub nodes: Seq<NodeView>,
    pub entry: Option<usize>,
    pub rng: u64,
}

/// The state an empty graph whose generator starts at `seed` reaches when
/// the first `k` ids of `ids` are inserted in order: the level of each is
/// drawn from the generator through `level_of`, the `i`-th is scored by
/// row `i` of `score` (against node `i`, which it becomes), and `pair`
/// scores two nodes.
pub open spec fn rebuild<L: Fn(u64) -> usize, F: Fn(usize, usize) -> u32, P: Fn(usize, usize) -> u32>(ids: Seq<u128>,
    level_of: L, score: F, pair: P, seed: u64, ef_c: usize, m0: usize, m1: usize, k: nat) -> GraphState
    decreases k,
{
    if k == 0 {
        GraphState { nodes: Seq::empty(), entry: None, rng: seed }
    } else {
        let prev = rebuild(ids, level_of, score, pair, seed, ef_c, m0, m1, (k - 1) as nat);
        let rng = splitmix_advance(prev.rng);
        let level = level_spec(level_of, splitmix_output(rng));
        let new = prev.nodes.len();
        let fresh = prev.nodes.push(fresh_node(ids[k - 1], level as nat));
        match prev.entry {
            None => GraphState { nodes: fresh, entry: Some(new as usize), rng },
            Some(e) => GraphState {
                nodes: link_from(fresh, row_fn(score, (k - 1) as usize), pair, new as usize, e, level, ef_c, m0, m1).0,
                entry: if level > level_of_node(fresh, e) { Some(new as usize) } else { prev.entry },
                rng,
            },
        }
    }
}

/// Two node sequences hold the same nodes up to their adjacency lists: the
/// same length, and at each index the same id, level and flag.
pub open spec fn same_records(a: Seq<NodeView>, b: Seq<NodeView>) -> bool {
    &&& a.len() == b.len()
    &&& forall|i: int| 0 <= i < a.len() ==> #[trigger] a[i].id == b[i].id && a[i].level == b[i].level && a[i].tombstone == b[i].tombstone
}

/// Replacing an adjacency list keeps the records.
proof fn lemma_set_list_records(nodes: Seq<NodeView>, node: usize, layer: usize, list: Seq<usize>)
    ensures
        same_records(nodes, set_list(nodes, node, layer, list)),
{
    let t = set_list(nodes, node, layer, list);
    assert forall|i: int| 0 <= i < nodes.len() implies #[trigger] nodes[i].id == t[i].id && nodes[i].level == t[i].level
        && nodes[i].tombstone == t[i].tombstone by {
    }
}

/// Back links keep the records.
proof fn lemma_back_links_records<P: Fn(usize, usize) -> u32>(nodes: Seq<NodeView>, p: P, sels: Seq<usize>, q: int, new: usize,
    layer: usize, m_limit: usize)
    ensures
        same_records(nodes, back_links(nodes, p, sels, q, new, layer, m_limit)),
    decreases q,
{
    if q > 0 {
        let prev = back_links(nodes, p, sels, q - 1, new, layer, m_limit);
        lemma_back_links_records(nodes, p, sels, q - 1, new, layer, m_limit);
        let sel = sels[q - 1];
        lemma_set_list_records(prev, sel, layer, relink_spec(prev, p, sel, new, layer, m_limit));
        let t = back_links(nodes, p, sels, q, new, layer, m_limit);
        assert forall|i: int| 0 <= i < nodes.len() implies #[trigger] nodes[i].id == t[i].id && nodes[i].level == t[i].level
            && nodes[i].tombstone == t[i].tombstone by {
            assert(nodes[i].id == prev[i].id);
        }
    }
}

/// Linking a node keeps the records.
proof fn lemma_link_layers_records<P: Fn(usize, usize) -> u32>(nodes: Seq<NodeView>, f: spec_fn(usize) -> u32, p: P, new: usize,
    cur: usize, layer: usize, ef_c: usize, m0: usize, m1: usize)
    ensures
        same_records(nodes, link_layers(nodes, f, p, new, cur, layer, ef_c, m0, m1).0),
    decreases layer,
{
    let m_limit = if layer == 0 { m0 } else { m1 };
    let cands = if cur < nodes.len() { beam_spec(nodes, f, accept_all(), cur, ef_c, layer) } else { Seq::<Candidate>::empty() };
    let sel = heuristic_picks(p, cands, m_limit);
    let first = set_list(nodes, new, layer, sel);
    lemma_set_list_records(nodes, new, layer, sel);
    let linked = back_links(first, p, sel, sel.len() as int, new, layer, m_limit);
    lemma_back_links_records(first, p, sel, sel.len() as int, new, layer, m_limit);
    let next = if cands.len() > 0 { cands[0].1 } else { cur };
    let t = link_layers(nodes, f, p, new, cur, layer, ef_c, m0, m1).0;
    if layer != 0 {
        lemma_link_layers_records(linked, f, p, new, next, (layer - 1) as usize, ef_c, m0, m1);
        assert(t == link_layers(linked, f, p, new, next, (layer - 1) as usize, ef_c, m0, m1).0);
    } else {
        assert(t == linked);
    }
    assert(t.len() == nodes.len());
    assert forall|i: int| 0 <= i < nodes.len() implies #[trigger] nodes[i].id == t[i].id && nodes[i].level == t[i].level
        && nodes[i].tombstone == t[i].tombstone by {
        assert(nodes[i].id == first[i].id);
        assert(first[i].id == linked[i].id);
        assert(linked[i].id == t[i].id);
    }
    assert(same_records(nodes, t));
}

/// A rebuild from `k` ids holds `k` live nodes, the `i`-th with the `i`-th
/// id.
pub proof fn lemma_rebuild_records<L: Fn(u64) -> usize, F: Fn(usize, usize) -> u32, P: Fn(usize, usize) -> u32>(ids: Seq<u128>,
    level_of: L, score: F, pair: P, seed: u64, ef_c: usize, m0: usize, m1: usize, k: nat)
    requires
        k <= ids.len(),
    ensures
        rebuild(ids, level_of, score, pair, seed, ef_c, m0, m1, k).nodes.len() == k,
        forall|i: int| 0 <= i < k ==> (#[trigger] rebuild(ids, level_of, score, pair, seed, ef_c, m0, m1, k).nodes[i]).id == ids[i]
            && !rebuild(ids, level_of, score, pair, seed, ef_c, m0, m1, k).nodes[i].tombstone,
    decreases k,
{
    if k > 0 {
        lemma_rebuild_records(ids, level_of, score, pair, seed, ef_c, m0, m1, (k - 1) as nat);
        let prev = rebuild(ids, level_of, score, pair, seed, ef_c, m0, m1, (k - 1) as nat);
        let rng = splitmix_advance(prev.rng);
        let level = level_spec(level_of, splitmix_output(rng));
        let new = prev.nodes.len();
        let fresh = prev.nodes.push(fresh_node(ids[k - 1], level as nat));
        let cur = rebuild(ids, level_of, score, pair, seed, ef_c, m0, m1, k);
        match prev.entry {
            None => {},
            Some(e) => {
                lemma_link_layers_records(fresh, row_fn(score, (k - 1) as usize), pair, new as usize,
                    link_start(fresh, row_fn(score, (k - 1) as usize), e, level),
                    if level < level_of_node(fresh, e) { level } else { level_of_node(fresh, e) }, ef_c, m0, m1);
            },
        }
        assert forall|i: int| 0 <= i < k implies (#[trigger] cur.nodes[i]).id == ids[i] && !cur.nodes[i].tombstone by {
            assert(fresh[i].id == cur.nodes[i].id && fresh[i].tombstone == cur.nodes[i].tombstone);
            if i < k - 1 {
                assert(fresh[i] == prev.nodes[i]);
            }
        }
    }
}

/// With no node tombstoned, the live ids are all the ids, in order.
proof fn lemma_live_ids_all(nodes: Seq<NodeView>)
    requires
        forall|i: int| 0 <= i < nodes.len() ==> !(#[trigger] nodes[i]).tombstone,
    ensures
        live_ids(nodes).len() == nodes.len(),
        forall|i: int| 0 <= i < nodes.len() ==> #[trigger] live_ids(nodes)[i] == nodes[i].id,
    decreases nodes.len(),
{
    if nodes.len() > 0 {
        let prev = nodes.drop_last();
        assert forall|i: int| 0 <= i < prev.len() implies !(#[trigger] prev[i]).tombstone by {
            assert(prev[i] == nodes[i]);
        }
        lemma_live_ids_all(prev);
        assert(!nodes[nodes.len() - 1].tombstone);
        assert forall|i: int| 0 <= i < nodes.len() implies #[trigger] live_ids(nodes)[i] == nodes[i].id by {
            if i < prev.len() {
                assert(prev[i] == nodes[i]);
            }
        }
    }
}

/// Compaction is idempotent: the graph rebuilt from a list of ids has those
/// ids as its live ids, in order, so rebuilding it again with the same
/// level and score functions gives the same state. In particular a graph
/// that is the rebuild of the ids it was built from, as one built by
/// insertions alone is, does not change when compacted.
pub proof fn lemma_compact_fixed_point<L: Fn(u64) -> usize, F: Fn(usize, usize) -> u32, P: Fn(usize, usize) -> u32>(ids: Seq<u128>,
    level_of: L, score: F, pair: P, seed: u64, ef_c: usize, m0: usize, m1: usize)
    ensures
        live_ids(rebuild(ids, level_of, score, pair, seed, ef_c, m0, m1, ids.len()).nodes) == ids,
        rebuild(live_ids(rebuild(ids, level_of, score, pair, seed, ef_c, m0, m1, ids.len()).nodes), level_of, score, pair,
            seed, ef_c, m0, m1, ids.len()) == rebuild(ids, level_of, score, pair, seed, ef_c, m0, m1, ids.len()),
{
    let nodes = rebuild(ids, level_of, score, pair, seed, ef_c, m0, m1, ids.len()).nodes;
    lemma_rebuild_records(ids, level_of, score, pair, seed, ef_c, m0, m1, ids.len());
    lemma_live_ids_all(nodes);
    assert(live_ids(nodes) =~= ids);
}

impl HnswIndex {
    /// The ids of the live nodes, in node-index order.
    fn live_id_list(&self) -> (r: Vec<VectorId>)
        ensures
            r@.len() == live_ids(self.nodes()).len(),
            forall|t: int| 0 <= t < r@.len() ==> (#[trigger] r@[t])@ == live_ids(self.nodes())[t],
    {
        let graph = self.graph();
        let ghost nodes = graph.nodes();
        let n = graph.node_count();
        let mut out: Vec<VectorId> = Vec::new();
        let mut i: usize = 0;
        proof {
            assert(nodes.take(0) =~= Seq::<NodeView>::empty());
        }
        while i < n
            invariant
                n == nodes.len(),
                nodes == graph.nodes(),
                i <= n,
                out@.len() == live_ids(nodes.take(i as int)).len(),
                forall|t: int| 0 <= t < out@.len() ==> (#[trigger] out@[t])@ == live_ids(nodes.take(i as int))[t],
            decreases n - i,
        {
            proof {
                assert(nodes.take(i + 1).drop_last() =~= nodes.take(i as int));
                assert(nodes.take(i + 1).last() == nodes[i as int]);
            }
            if !graph.is_tombstone(i) {
                match graph.node_id(i) {
                    Some(id) => {
                        out.push(id);
                    },
                    None => {},
                }
            }
            i = i + 1;
        }
        proof {
            assert(nodes.take(n as int) =~= nodes);
        }
        out
    }

    /// Rebuilds the graph from its live nodes: the graph is emptied and the
    /// generator reseeded, then the live nodes are inserted again in
    /// node-index order, the `k`-th becoming node `k`. `score(k, n)` gives
    /// the score of node `n` of the rebuilt graph against the `k`-th live
    /// node's embedding, `pair` the score of two nodes of the rebuilt graph,
    /// `level_of` maps a draw to a level. The rebuilt state is the one an
    /// empty index reaches by inserting the live nodes in that order, and
    /// the rebuild always succeeds.
    pub fn compact<L: Fn(u64) -> usize, F: Fn(usize, usize) -> u32, P: Fn(usize, usize) -> u32>(
        &mut self,
        level_of: &L,
        score: &F,
        pair: &P,
    ) -> (r: Result<(), IndexError>)
        requires
            forall|d: u64| #[trigger] level_of.requires((d,)),
            forall|d: u64, l: usize| level_of.ensures((d,), l) ==> l < usize::MAX,
            forall|d: u64, a: usize, b: usize| level_of.ensures((d,), a) && level_of.ensures((d,), b) ==> a == b,
            deterministic_pairs(*score),
            deterministic_pairs(*pair),
        ensures
            r is Ok,
            entry_sound(final(self).nodes(), final(self).entry()),
            links_in_range(final(self).nodes(), final(self).entry()),
            final(self).config_spec() == old(self).config_spec(),
            final(self).dimension_spec() == old(self).dimension_spec(),
            (GraphState { nodes: final(self).nodes(), entry: final(self).entry(), rng: final(self).rng_state() })
                == rebuild(live_ids(old(self).nodes()), *level_of, *score, *pair, old(self).config_spec().seed,
                    old(self).config_spec().ef_construction, layer0_degree(old(self).config_spec().m), old(self).config_spec().m,
                    live_ids(old(self).nodes()).len()),
    {
        let ghost lids = live_ids(self.nodes());
        let ghost cfg = self.config_spec();
        let ghost m0 = layer0_degree(cfg.m);
        let graph = self.graph();
        proof {
            graph.lemma_wf();
            lemma_live_ids(self.nodes());
        }
        let total = graph.node_count();
        let ids = self.live_id_list();
        let count = ids.len();
        self.reset(count);
        let dimension = self.dimension();
        let mut k: usize = 0;
        while k < count
            invariant
                count == lids.len(),
                count <= total,
                k <= count,
                ids@.len() == count,
                forall|t: int| 0 <= t < count ==> (#[trigger] ids@[t])@ == lids[t],
                forall|a: int, b: int| 0 <= a < b < lids.len() ==> lids[a] != lids[b],
                forall|d: u64| #[trigger] level_of.requires((d,)),
                forall|d: u64, l: usize| level_of.ensures((d,), l) ==> l < usize::MAX,
                forall|d: u64, a: usize, b: usize| level_of.ensures((d,), a) && level_of.ensures((d,), b) ==> a == b,
                deterministic_pairs(*score),
                deterministic_pairs(*pair),
                self.config_spec() == cfg,
                self.dimension_spec() == old(self).dimension_spec(),
                dimension == old(self).dimension_spec(),
                m0 == layer0_degree(cfg.m),
                self.nodes().len() == k,
                forall|i: int| 0 <= i < k ==> (#[trigger] self.nodes()[i]).id == lids[i] && !self.nodes()[i].tombstone
                    && self.nodes()[i].level < usize::MAX,
                k == 0 ==> self.dimension_hint() is None,
                k > 0 ==> (self.dimension_hint() matches Some(d) && d@ == dimension@),
                entry_sound(self.nodes(), self.entry()),
                links_in_range(self.nodes(), self.entry()),
                (GraphState { nodes: self.nodes(), entry: self.entry(), rng: self.rng_state() })
                    == rebuild(lids, *level_of, *score, *pair, cfg.seed, cfg.ef_construction, m0, cfg.m, k as nat),
            decreases count - k,
        {
            let id = ids[k];
            let q = k;
            let by_query = move |n: usize| -> (s: u32)
                requires
                    score.requires((q, n)),
                ensures
                    score.ensures((q, n), s),
            {
                score(q, n)
            };
            proof {
                assert forall|n: usize| #[trigger] by_query.requires((n,)) by {
                    assert(score.requires((q, n)));
                }
                assert forall|n: usize, s: u32| #[trigger] by_query.ensures((n,), s) implies row_fn(*score, q)(n) == s by {
                    assert(score.ensures((q, n), s));
                    lemma_pair_score_of(*score, q, n, s);
                }
                assert(agrees(by_query, row_fn(*score, q)));
                assert forall|i: int| 0 <= i < self.nodes().len() implies !(!self.nodes()[i].tombstone && self.nodes()[i].id == id@) by {
                    assert(self.nodes()[i].id == lids[i]);
                    assert(lids[i] != lids[k as int]);
                }
            }
            let ghost before = *self;
            let result = self.insert_core(id, dimension, level_of, &by_query, Ghost(row_fn(*score, q)), pair);
            proof {
                assert(insert_post(before, *self, id, dimension, *level_of, row_fn(*score, q), *pair, result));
            }
            match result {
                Ok(_) => {},
                Err(e) => {
                    return Err(e);
                },
            }
            proof {
                let nodes = self.nodes();
                let new = before.nodes().len();
                let level = nodes[new as int].level;
                let d = splitmix_output(self.rng_state());
                assert(level_of.ensures((d,), level as usize));
                let ls = level_spec(*level_of, d);
                assert(level_of.ensures((d,), ls));
                assert(ls == level as usize);
                let prev = rebuild(lids, *level_of, *score, *pair, cfg.seed, cfg.ef_construction, m0, cfg.m, k as nat);
                let fresh = before.nodes().push(fresh_node(lids[k as int], ls as nat));
                assert(fresh_node(id@, level) == fresh_node(lids[k as int], ls as nat));
                assert forall|i: int| 0 <= i < k + 1 implies (#[trigger] nodes[i]).id == lids[i] && !nodes[i].tombstone
                    && nodes[i].level < usize::MAX by {
                    if i < k {
                        assert(before.nodes()[i].id == lids[i]);
                    }
                }
                match before.entry() {
                    None => {},
                    Some(e) => {
                        assert(entry_level_spec(nodes, Some(e)) == level_of_node(fresh, e) as nat) by {
                            if e < new {
                                assert(nodes[e as int].level == before.nodes()[e as int].level);
                                assert(fresh[e as int] == before.nodes()[e as int]);
                            }
                        }
                    },
                }
                assert((GraphState { nodes: self.nodes(), entry: self.entry(), rng: self.rng_state() })
                    == rebuild(lids, *level_of, *score, *pair, cfg.seed, cfg.ef_construction, m0, cfg.m, (k + 1) as nat));
            }
            k = k + 1;
        }
        Ok(())
    }
}

} // verus!
