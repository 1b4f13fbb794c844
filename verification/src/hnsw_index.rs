//! The HNSW index's graph state: construction, soft deletion with entry
//! re-election, and exact snapshots of the graph for persistence.
//!
//! Distances are computed where the embeddings are kept, by the code that
//! inserts and searches; this module holds the graph, the configuration and
//! the seeded generator, and every rule that does not depend on a score.

use vstd::prelude::*;
use crate::dimension::Dimension;
use crate::errors::IndexError;
use crate::hnsw_config::HnswConfig;
use crate::hnsw_graph::{HnswGraph, NodeView, live_index, live_total, nodes_valid, lemma_live_index};
use crate::hnsw_search::{links_in_range, links_within};
use crate::metric::Metric;
use crate::splitmix::{SplitMix64, splitmix_advance, splitmix_output};
use crate::text::{append_decimal, decimal_text};
use crate::vector_id::VectorId;

verus! {

/// The big-endian bytes of a 128-bit UUID value.
pub open spec fn id_bytes_spec(bits: u128) -> Seq<u8> {
    seq![
        (bits >> 120u128) as u8, (bits >> 112u128) as u8, (bits >> 104u128) as u8, (bits >> 96u128) as u8,
        (bits >> 88u128) as u8, (bits >> 80u128) as u8, (bits >> 72u128) as u8, (bits >> 64u128) as u8,
        (bits >> 56u128) as u8, (bits >> 48u128) as u8, (bits >> 40u128) as u8, (bits >> 32u128) as u8,
        (bits >> 24u128) as u8, (bits >> 16u128) as u8, (bits >> 8u128) as u8, bits as u8,
    ]
}

/// The 128-bit value of big-endian UUID bytes.
pub open spec fn bits_of_bytes(b: Seq<u8>) -> u128 {
    ((b[0] as u128) << 120u128) | ((b[1] as u128) << 112u128) | ((b[2] as u128) << 104u128) | ((b[3] as u128) << 96u128)
        | ((b[4] as u128) << 88u128) | ((b[5] as u128) << 80u128) | ((b[6] as u128) << 72u128) | ((b[7] as u128) << 64u128)
        | ((b[8] as u128) << 56u128) | ((b[9] as u128) << 48u128) | ((b[10] as u128) << 40u128) | ((b[11] as u128) << 32u128)
        | ((b[12] as u128) << 24u128) | ((b[13] as u128) << 16u128) | ((b[14] as u128) << 8u128) | (b[15] as u128)
}

/// Reading the bytes of a value back gives the value.
pub proof fn lemma_id_bytes_round_trip(bits: u128)
    ensures
        bits_of_bytes(id_bytes_spec(bits)) == bits,
{
    assert(((((bits >> 120u128) as u8) as u128) << 120u128) | ((((bits >> 112u128) as u8) as u128) << 112u128)
        | ((((bits >> 104u128) as u8) as u128) << 104u128) | ((((bits >> 96u128) as u8) as u128) << 96u128)
        | ((((bits >> 88u128) as u8) as u128) << 88u128) | ((((bits >> 80u128) as u8) as u128) << 80u128)
        | ((((bits >> 72u128) as u8) as u128) << 72u128) | ((((bits >> 64u128) as u8) as u128) << 64u128)
        | ((((bits >> 56u128) as u8) as u128) << 56u128) | ((((bits >> 48u128) as u8) as u128) << 48u128)
        | ((((bits >> 40u128) as u8) as u128) << 40u128) | ((((bits >> 32u128) as u8) as u128) << 32u128)
        | ((((bits >> 24u128) as u8) as u128) << 24u128) | ((((bits >> 16u128) as u8) as u128) << 16u128)
        | ((((bits >> 8u128) as u8) as u128) << 8u128) | ((bits as u8) as u128) == bits) by (bit_vector);
}

/// The big-endian bytes of an identifier, as `uuid` lays them out.
pub fn id_bytes(id: VectorId) -> (r: [u8; 16])
    ensures
        r@ == id_bytes_spec(id@),
{
    let bits = id.as_u128();
    let r: [u8; 16] = [
        (bits >> 120u128) as u8, (bits >> 112u128) as u8, (bits >> 104u128) as u8, (bits >> 96u128) as u8,
        (bits >> 88u128) as u8, (bits >> 80u128) as u8, (bits >> 72u128) as u8, (bits >> 64u128) as u8,
        (bits >> 56u128) as u8, (bits >> 48u128) as u8, (bits >> 40u128) as u8, (bits >> 32u128) as u8,
        (bits >> 24u128) as u8, (bits >> 16u128) as u8, (bits >> 8u128) as u8, bits as u8,
    ];
    proof {
        assert(r@ =~= id_bytes_spec(bits));
    }
    r
}

/// The identifier whose big-endian UUID bytes these are.
pub fn id_from_bytes(b: &[u8; 16]) -> (r: VectorId)
    ensures
        r@ == bits_of_bytes(b@),
{
    let bits: u128 = ((b[0] as u128) << 120u128) | ((b[1] as u128) << 112u128) | ((b[2] as u128) << 104u128)
        | ((b[3] as u128) << 96u128) | ((b[4] as u128) << 88u128) | ((b[5] as u128) << 80u128)
        | ((b[6] as u128) << 72u128) | ((b[7] as u128) << 64u128) | ((b[8] as u128) << 56u128)
        | ((b[9] as u128) << 48u128) | ((b[10] as u128) << 40u128) | ((b[11] as u128) << 32u128)
        | ((b[12] as u128) << 24u128) | ((b[13] as u128) << 16u128) | ((b[14] as u128) << 8u128) | (b[15] as u128);
    VectorId::from_u128(bits)
}

/// The persisted record of one node: its id bytes, level, tombstone flag and
/// adjacency lists (one per layer, `level + 1` of them). Embeddings are kept
/// elsewhere, by node index.
#[derive(Clone, Debug, PartialEq, Eq)]
pub struct SnapshotNode {
    /// Public identifier, as the 16 big-endian bytes of its UUID.
    pub id_bytes: [u8; 16],
    /// Highest layer the node takes part in.
    pub level: u32,
    /// Soft-delete flag.
    pub tombstone: bool,
    /// Adjacency lists per layer: `neighbors_per_layer[l]` lists the node
    /// indices the node links to at layer `l`.
    pub neighbors_per_layer: Vec<Vec<u64>>,
}

/// A complete snapshot of the graph state, the unit of persistence.
#[derive(Clone, Debug, PartialEq, Eq)]
pub struct GraphSnapshot {
    /// Node records in node-index order.
    pub nodes: Vec<SnapshotNode>,
    /// Entry-point node index (`None` when the graph is empty).
    pub entry_point: Option<u64>,
    /// Level of the entry-point node (0 when there is none).
    pub entry_level: u32,
    /// Generator state at snapshot time, so restoring draws nothing.
    pub rng_state: u64,
    /// Number of live nodes.
    pub live_count: u64,
}

/// The rows an insertion changed.
pub struct InsertDelta {
    /// Node index of the new node.
    pub new_node_idx: u64,
    /// Every node index whose record changed, the new one included, ascending.
    pub touched_nodes: Vec<u64>,
    /// Whether the entry point changed.
    pub entry_changed: bool,
}

/// The rows a removal changed.
pub struct RemoveDelta {
    /// Node indices whose record changed (the tombstoned node).
    pub touched_nodes: Vec<u64>,
    /// Whether the entry point changed (the removed node was the entry).
    pub entry_changed: bool,
}

/// A level as the 32-bit field of a node record, saturated.
pub open spec fn record_level(level: nat) -> u32 {
    if level <= u32::MAX { level as u32 } else { u32::MAX }
}

/// Adjacency lists with node indices widened to 64 bits.
pub open spec fn lists_to_u64(lists: Seq<Seq<usize>>) -> Seq<Seq<u64>> {
    lists.map_values(|l: Seq<usize>| l.map_values(|n: usize| n as u64))
}

/// The sequences of a list of vectors.
pub open spec fn vecs_view(v: Seq<Vec<u64>>) -> Seq<Seq<u64>> {
    v.map_values(|l: Vec<u64>| l@)
}

/// `r` is the persisted record of the node `n`.
pub open spec fn record_encodes(r: SnapshotNode, n: NodeView) -> bool {
    &&& r.id_bytes@ == id_bytes_spec(n.id)
    &&& r.level == record_level(n.level)
    &&& r.tombstone == n.tombstone
    &&& vecs_view(r.neighbors_per_layer@) == lists_to_u64(n.neighbors)
}

/// The level of a node, 0 for an index out of range.
pub open spec fn level_at(nodes: Seq<NodeView>, i: int) -> nat {
    if 0 <= i < nodes.len() { nodes[i].level } else { 0 }
}

/// The level of the entry point as recorded in the state row: 0 without an
/// entry point, and 0 when it does not fit in 32 bits.
pub open spec fn entry_level_of(nodes: Seq<NodeView>, entry: Option<usize>) -> u32 {
    match entry {
        None => 0,
        Some(ep) => if level_at(nodes, ep as int) <= u32::MAX { level_at(nodes, ep as int) as u32 } else { 0 },
    }
}

/// The node a deletion elects as the new entry point: the live node of
/// highest level, the last such one in index order when several tie.
pub open spec fn elected_entry(nodes: Seq<NodeView>) -> Option<usize>
    decreases nodes.len(),
{
    if nodes.len() == 0 {
        None
    } else {
        let prev = elected_entry(nodes.drop_last());
        let i = (nodes.len() - 1) as usize;
        if nodes.last().tombstone {
            prev
        } else {
            match prev {
                None => Some(i),
                Some(p) => if nodes.last().level >= nodes[p as int].level { Some(i) } else { prev },
            }
        }
    }
}

/// The entry point of a graph built by insertions and deletions: none
/// exactly when no node is live, otherwise a live node whose level no live
/// node exceeds.
pub open spec fn entry_sound(nodes: Seq<NodeView>, entry: Option<usize>) -> bool {
    match entry {
        None => live_total(nodes) == 0,
        Some(e) => {
            &&& e < nodes.len()
            &&& !nodes[e as int].tombstone
            &&& forall|i: int| 0 <= i < nodes.len() && !(#[trigger] nodes[i]).tombstone ==> nodes[i].level <= nodes[e as int].level
        },
    }
}

/// No live node means every node is tombstoned.
pub proof fn lemma_live_total_zero(nodes: Seq<NodeView>)
    ensures
        live_total(nodes) == 0 <==> forall|i: int| 0 <= i < nodes.len() ==> (#[trigger] nodes[i]).tombstone,
    decreases nodes.len(),
{
    if nodes.len() > 0 {
        lemma_live_total_zero(nodes.drop_last());
        if live_total(nodes) == 0 {
            assert forall|i: int| 0 <= i < nodes.len() implies (#[trigger] nodes[i]).tombstone by {
                if i < nodes.len() - 1 {
                    assert(nodes.drop_last()[i] == nodes[i]);
                }
            }
        }
        if forall|i: int| 0 <= i < nodes.len() ==> (#[trigger] nodes[i]).tombstone {
            assert forall|i: int| 0 <= i < nodes.drop_last().len() implies (#[trigger] nodes.drop_last()[i]).tombstone by {
                assert(nodes.drop_last()[i] == nodes[i]);
            }
            assert(nodes[nodes.len() - 1].tombstone);
        }
    }
}

/// The elected entry is none exactly when no node is live, otherwise a
/// live node of the highest level among live nodes.
pub proof fn lemma_elected_entry(nodes: Seq<NodeView>)
    requires
        nodes.len() <= usize::MAX,
    ensures
        entry_sound(nodes, elected_entry(nodes)),
    decreases nodes.len(),
{
    lemma_live_total_zero(nodes);
    if nodes.len() > 0 {
        let prev = nodes.drop_last();
        lemma_elected_entry(prev);
        lemma_live_total_zero(prev);
        let last = (nodes.len() - 1) as int;
        assert forall|i: int| 0 <= i < prev.len() implies #[trigger] prev[i] == nodes[i] by {}
        match elected_entry(nodes) {
            None => {
                assert(nodes.last().tombstone);
                assert(elected_entry(prev) is None);
                assert forall|i: int| 0 <= i < nodes.len() implies (#[trigger] nodes[i]).tombstone by {
                    if i < last {
                        assert(prev[i].tombstone);
                    }
                }
            },
            Some(e) => {
                let pe = elected_entry(prev);
                if e as int == last {
                    assert(!nodes[last].tombstone);
                    match pe {
                        Some(p) => {
                            assert(nodes[last].level >= nodes[p as int].level);
                            assert forall|i: int| 0 <= i < nodes.len() && !(#[trigger] nodes[i]).tombstone implies nodes[i].level <= nodes[e as int].level by {
                                if i < last {
                                    assert(!prev[i].tombstone);
                                    assert(prev[i].level <= prev[p as int].level);
                                }
                            }
                        },
                        None => {
                            assert forall|i: int| 0 <= i < nodes.len() && !(#[trigger] nodes[i]).tombstone implies nodes[i].level <= nodes[e as int].level by {
                                if i < last {
                                    assert(prev[i].tombstone);
                                }
                            }
                        },
                    }
                } else {
                    assert(pe == Some(e));
                    assert(e < prev.len() && !prev[e as int].tombstone);
                    assert forall|i: int| 0 <= i < nodes.len() && !(#[trigger] nodes[i]).tombstone implies nodes[i].level <= nodes[e as int].level by {
                        if i < last {
                            assert(!prev[i].tombstone);
                            assert(prev[i].level <= prev[e as int].level);
                        }
                    }
                }
                assert(!nodes[e as int].tombstone);
            },
        }
    }
}

/// Deleting a live node keeps the entry point sound: the entry point stays
/// when another node goes, and the deletion of the entry point elects the
/// live node of highest level, or none when no node is left live.
pub proof fn lemma_remove_keeps_entry_sound(nodes: Seq<NodeView>, entry: Option<usize>, node: int)
    requires
        entry_sound(nodes, entry),
        nodes.len() <= usize::MAX,
        0 <= node < nodes.len(),
        !nodes[node].tombstone,
    ensures
        entry_sound(nodes.update(node, NodeView { tombstone: true, ..nodes[node] }),
            if entry == Some(node as usize) { elected_entry(nodes.update(node, NodeView { tombstone: true, ..nodes[node] })) } else { entry }),
{
    let after = nodes.update(node, NodeView { tombstone: true, ..nodes[node] });
    lemma_elected_entry(after);
    lemma_live_total_zero(nodes);
    if entry != Some(node as usize) {
        match entry {
            None => {},
            Some(e) => {
                assert(after[e as int] == nodes[e as int]);
                assert forall|i: int| 0 <= i < after.len() && !(#[trigger] after[i]).tombstone implies after[i].level <= after[e as int].level by {
                    assert(after[i] == nodes[i]);
                }
            },
        }
    }
}

/// `s` is a snapshot of a graph with these nodes, entry point and generator
/// state.
pub open spec fn snapshot_encodes(s: GraphSnapshot, nodes: Seq<NodeView>, entry: Option<usize>, rng: u64) -> bool {
    &&& s.nodes@.len() == nodes.len()
    &&& forall|i: int| 0 <= i < nodes.len() ==> record_encodes(#[trigger] s.nodes@[i], nodes[i])
    &&& s.entry_point == match entry {
        Some(e) => Some(e as u64),
        None => None,
    }
    &&& s.entry_level == entry_level_of(nodes, entry)
    &&& s.rng_state == rng
    &&& s.live_count == live_total(nodes) as u64
}

/// Why restoring a node of a snapshot fails, the nodes before it restored.
pub enum RestoreFault {
    /// No embedding is stored for the node.
    MissingEmbedding,
    /// The stored embedding is invalid.
    Embedding(IndexError),
    /// The embedding's dimension differs from the first node's:
    /// `(expected, got)`.
    DimensionMismatch(usize, usize),
    /// A live node restored before it has the same id.
    Duplicate(u128),
    /// A neighbor index does not fit in a `usize`.
    NeighborOverflow,
}

/// The node a snapshot record restores to: its id, level and flag, and one
/// adjacency list per layer up to its level, taken from the record where it
/// has one and empty where it has none.
pub open spec fn restored_node(r: SnapshotNode) -> NodeView {
    NodeView {
        id: bits_of_bytes(r.id_bytes@),
        level: r.level as nat,
        tombstone: r.tombstone,
        neighbors: Seq::new(r.level as nat + 1, |l: int| if l < r.neighbors_per_layer@.len() {
            r.neighbors_per_layer@[l]@.map_values(|n: u64| n as usize)
        } else {
            Seq::<usize>::empty()
        }),
    }
}

/// The nodes a sequence of snapshot records restores to.
pub open spec fn restored_nodes(records: Seq<SnapshotNode>) -> Seq<NodeView> {
    records.map_values(|r: SnapshotNode| restored_node(r))
}

/// Whether some adjacency list of a record holds an index above `usize::MAX`.
pub open spec fn neighbor_overflows(r: SnapshotNode) -> bool {
    exists|l: int, k: int| 0 <= l < r.neighbors_per_layer@.len() && 0 <= k < r.neighbors_per_layer@[l]@.len()
        && #[trigger] r.neighbors_per_layer@[l]@[k] > usize::MAX
}

/// The fault restoring record `i` meets once the records before it are
/// restored, if any. `dims` holds, per node, the outcome of reading its
/// embedding: absent, invalid, or valid with its dimension.
pub open spec fn restore_fault(records: Seq<SnapshotNode>, dims: Seq<Option<Result<Dimension, IndexError>>>, i: int) -> Option<RestoreFault> {
    match dims[i] {
        None => Some(RestoreFault::MissingEmbedding),
        Some(Err(e)) => Some(RestoreFault::Embedding(e)),
        Some(Ok(d)) => if i > 0 && (dims[0] matches Some(Ok(d0)) && d0@ != d@) {
            Some(RestoreFault::DimensionMismatch(dims[0]->Some_0->Ok_0@ as usize, d@ as usize))
        } else if exists|j: int| 0 <= j < i && !records[j].tombstone && bits_of_bytes(#[trigger] records[j].id_bytes@) == bits_of_bytes(records[i].id_bytes@) {
            Some(RestoreFault::Duplicate(bits_of_bytes(records[i].id_bytes@)))
        } else if neighbor_overflows(records[i]) {
            Some(RestoreFault::NeighborOverflow)
        } else {
            None
        },
    }
}

/// No record before `n` meets a fault.
pub open spec fn restores_upto(records: Seq<SnapshotNode>, dims: Seq<Option<Result<Dimension, IndexError>>>, n: int) -> bool {
    forall|i: int| 0 <= i < n ==> #[trigger] restore_fault(records, dims, i) is None
}

/// `e` is the error restoring node `i` with fault `f` gives.
pub open spec fn fault_error(f: RestoreFault, i: int, e: IndexError) -> bool {
    match f {
        RestoreFault::MissingEmbedding => e matches IndexError::Backend(m) && m@ == "missing embedding for node "@ + decimal_text(i as nat),
        RestoreFault::Embedding(x) => e == x,
        RestoreFault::DimensionMismatch(expected, got) => e == IndexError::DimensionMismatch { expected, got },
        RestoreFault::Duplicate(bits) => e matches IndexError::DuplicateId(v) && v@ == bits,
        RestoreFault::NeighborOverflow => e matches IndexError::Backend(m) && m@ == "neighbor index overflow"@,
    }
}

/// Adjacency lists of a record's node with the record's lists for layers
/// below `upto` in place and empty lists elsewhere.
pub open spec fn partial_neighbors(r: SnapshotNode, upto: int) -> Seq<Seq<usize>> {
    Seq::new(r.level as nat + 1, |l: int| if l < upto && l < r.neighbors_per_layer@.len() {
        r.neighbors_per_layer@[l]@.map_values(|n: u64| n as usize)
    } else {
        Seq::<usize>::empty()
    })
}

/// Narrows a list of 64-bit node indices to `usize`; `None` when one does
/// not fit.
fn narrow_indices(list: &Vec<u64>) -> (r: Option<Vec<usize>>)
    ensures
        match r {
            Some(v) => v@ == list@.map_values(|x: u64| x as usize) && forall|q: int| 0 <= q < list@.len() ==> #[trigger] list@[q] <= usize::MAX,
            None => exists|q: int| 0 <= q < list@.len() && #[trigger] list@[q] > usize::MAX,
        },
{
    let mut conv: Vec<usize> = Vec::new();
    let mut k: usize = 0;
    while k < list.len()
        invariant
            k <= list@.len(),
            conv@ == list@.take(k as int).map_values(|x: u64| x as usize),
            forall|q: int| 0 <= q < k ==> #[trigger] list@[q] <= usize::MAX,
        decreases list.len() - k,
    {
        let x = list[k];
        if x > usize::MAX as u64 {
            return None;
        }
        conv.push(x as usize);
        proof {
            assert(list@.take(k + 1).map_values(|x: u64| x as usize) =~= list@.take(k as int).map_values(|x: u64| x as usize).push(x as usize));
        }
        k = k + 1;
    }
    proof {
        assert(list@.take(list@.len() as int) =~= list@);
    }
    Some(conv)
}

/// A record restores to the node it was taken of, when the node's level
/// fits the record's 32-bit field.
proof fn lemma_record_restores(r: SnapshotNode, n: NodeView)
    requires
        record_encodes(r, n),
        n.neighbors.len() == n.level + 1,
        n.level <= u32::MAX,
    ensures
        restored_node(r) == n,
        !neighbor_overflows(r),
{
    lemma_id_bytes_round_trip(n.id);
    let npl = r.neighbors_per_layer@;
    assert(vecs_view(npl).len() == npl.len());
    assert forall|l: int| 0 <= l < n.level + 1 implies #[trigger] restored_node(r).neighbors[l] == n.neighbors[l] by {
        assert(vecs_view(npl)[l] == npl[l]@);
        assert(lists_to_u64(n.neighbors)[l] == n.neighbors[l].map_values(|x: usize| x as u64));
        assert(npl[l]@.map_values(|x: u64| x as usize) =~= n.neighbors[l]);
    }
    assert(restored_node(r).neighbors =~= n.neighbors);
    assert forall|l: int, k: int| 0 <= l < npl.len() && 0 <= k < npl[l]@.len() implies !(#[trigger] npl[l]@[k] > usize::MAX) by {
        assert(vecs_view(npl)[l] == npl[l]@);
        assert(lists_to_u64(n.neighbors)[l] == n.neighbors[l].map_values(|x: usize| x as u64));
        assert(npl[l]@[k] == n.neighbors[l][k] as u64);
    }
}

/// Restoring a snapshot gives back the graph it was taken of: every node
/// restores without fault to the same record (id, level, flag, adjacency
/// lists), the entry point and the generator state come back unchanged, when
/// every node's embedding is read back with one dimension and every level
/// fits the record's 32-bit field.
pub proof fn lemma_snapshot_restore_round_trip(
    nodes: Seq<NodeView>,
    entry: Option<usize>,
    rng: u64,
    s: GraphSnapshot,
    dims: Seq<Option<Result<Dimension, IndexError>>>,
    d: Dimension,
)
    requires
        nodes_valid(nodes),
        forall|i: int| 0 <= i < nodes.len() ==> (#[trigger] nodes[i]).level <= u32::MAX,
        snapshot_encodes(s, nodes, entry, rng),
        dims.len() == nodes.len(),
        forall|i: int| 0 <= i < dims.len() ==> #[trigger] dims[i] == Some(Ok::<Dimension, IndexError>(d)),
    ensures
        restores_upto(s.nodes@, dims, s.nodes@.len() as int),
        s.entry_point matches Some(ep) ==> ep <= usize::MAX,
        restored_nodes(s.nodes@) == nodes,
        match s.entry_point {
            Some(ep) => Some(ep as usize),
            None => None::<usize>,
        } == entry,
        s.rng_state == rng,
{
    let records = s.nodes@;
    assert forall|i: int| 0 <= i < records.len() implies #[trigger] restored_nodes(records)[i] == nodes[i] && !neighbor_overflows(records[i]) by {
        assert(record_encodes(records[i], nodes[i]));
        lemma_record_restores(records[i], nodes[i]);
    }
    assert(restored_nodes(records) =~= nodes);
    assert forall|i: int| 0 <= i < records.len() implies #[trigger] restore_fault(records, dims, i) is None by {
        assert(restored_nodes(records)[i] == nodes[i]);
        assert(!neighbor_overflows(records[i]));
        assert(dims[i] == Some(Ok::<Dimension, IndexError>(d)));
        assert(dims[0] == Some(Ok::<Dimension, IndexError>(d)));
        assert forall|j: int| 0 <= j < i implies !(!records[j].tombstone
            && bits_of_bytes(#[trigger] records[j].id_bytes@) == bits_of_bytes(records[i].id_bytes@)) by {
            assert(restored_nodes(records)[j] == nodes[j]);
            assert(record_encodes(records[j], nodes[j]));
            if bits_of_bytes(records[j].id_bytes@) == bits_of_bytes(records[i].id_bytes@) {
                assert(nodes[i].id == nodes[j].id);
            }
        }
    }
}

/// A copy of an index error.
fn copy_index_error(e: &IndexError) -> (r: IndexError)
    ensures
        r == *e,
{
    match e {
        IndexError::DimensionMismatch { expected, got } => IndexError::DimensionMismatch { expected: *expected, got: *got },
        IndexError::DuplicateId(id) => IndexError::DuplicateId(*id),
        IndexError::EmptyEmbedding => IndexError::EmptyEmbedding,
        IndexError::NonFiniteComponent => IndexError::NonFiniteComponent,
        IndexError::UnsupportedMetric(m) => IndexError::UnsupportedMetric(*m),
        IndexError::Backend(msg) => IndexError::Backend(msg.clone()),
    }
}

/// The in-memory HNSW index's graph state.
pub struct HnswIndex {
    config: HnswConfig,
    dimension: Dimension,
    graph: HnswGraph,
    rng: SplitMix64,
}

impl HnswIndex {
    #[verifier::type_invariant]
    spec fn well_formed(self) -> bool {
        self.graph.wf()
    }

    /// The node records, in node-index order.
    pub closed spec fn nodes(&self) -> Seq<NodeView> {
        self.graph.nodes()
    }

    /// The entry point.
    pub closed spec fn entry(&self) -> Option<usize> {
        self.graph.entry()
    }

    /// The generator state.
    pub closed spec fn rng_state(&self) -> u64 {
        self.rng@
    }

    /// The configuration.
    pub closed spec fn config_spec(&self) -> HnswConfig {
        self.config
    }

    /// The dimension of the index.
    pub closed spec fn dimension_spec(&self) -> Dimension {
        self.dimension
    }

    /// The dimension of the stored embeddings, if there are any.
    pub closed spec fn dimension_hint(&self) -> Option<Dimension> {
        self.graph.dimension_hint()
    }

    /// Creates an empty index; the generator starts at the configured seed.
    pub fn new(config: HnswConfig, dimension: Dimension) -> (r: HnswIndex)
        ensures
            r.nodes() == Seq::<NodeView>::empty(),
            r.entry() is None,
            entry_sound(r.nodes(), r.entry()),
            links_in_range(r.nodes(), r.entry()),
            r.rng_state() == config.seed,
            r.config_spec() == config,
            r.dimension_spec() == dimension,
            r.dimension_hint() is None,
    {
        HnswIndex { config, dimension, graph: HnswGraph::new(), rng: SplitMix64::new(config.seed) }
    }

    /// Creates an empty index with room for `capacity` nodes.
    pub fn with_capacity(config: HnswConfig, dimension: Dimension, capacity: usize) -> (r: HnswIndex)
        ensures
            r.nodes() == Seq::<NodeView>::empty(),
            r.entry() is None,
            r.rng_state() == config.seed,
            r.config_spec() == config,
            r.dimension_spec() == dimension,
            r.dimension_hint() is None,
    {
        HnswIndex { config, dimension, graph: HnswGraph::with_capacity(capacity), rng: SplitMix64::new(config.seed) }
    }

    /// The graph, for reading.
    pub fn graph(&self) -> (r: &HnswGraph)
        ensures
            r.wf(),
            r.nodes() == self.nodes(),
            r.entry() == self.entry(),
            r.dimension_hint() == self.dimension_hint(),
    {
        proof {
            use_type_invariant(self);
        }
        &self.graph
    }

    /// The configuration.
    pub fn config(&self) -> (r: HnswConfig)
        ensures
            r == self.config_spec(),
    {
        self.config
    }

    /// The metric the graph is built for, the only one it answers.
    pub fn metric(&self) -> (r: Metric)
        ensures
            r == self.config_spec().metric,
    {
        self.config.metric
    }

    /// The metrics the index answers: the configured one alone.
    pub fn supported_metrics(&self) -> (r: Vec<Metric>)
        ensures
            r@ == seq![self.config_spec().metric],
    {
        let mut v: Vec<Metric> = Vec::new();
        v.push(self.config.metric);
        proof {
            assert(v@ =~= seq![self.config_spec().metric]);
        }
        v
    }

    /// The dimension of the index.
    pub fn dimension(&self) -> (r: Dimension)
        ensures
            r == self.dimension_spec(),
    {
        self.dimension
    }

    /// The number of live vectors.
    pub fn len(&self) -> (r: usize)
        ensures
            r == live_total(self.nodes()),
    {
        proof {
            use_type_invariant(self);
        }
        self.graph.live_count()
    }

    /// Whether the index holds no live vector.
    pub fn is_empty(&self) -> (r: bool)
        ensures
            r == (live_total(self.nodes()) == 0),
    {
        self.len() == 0
    }

    /// Empties the graph and reseeds the generator from the configuration,
    /// as a rebuild from scratch starts.
    pub fn reset(&mut self, capacity: usize)
        ensures
            final(self).nodes() == Seq::<NodeView>::empty(),
            final(self).entry() is None,
            entry_sound(final(self).nodes(), final(self).entry()),
            links_in_range(final(self).nodes(), final(self).entry()),
            final(self).dimension_hint() is None,
            final(self).rng_state() == old(self).config_spec().seed,
            final(self).config_spec() == old(self).config_spec(),
            final(self).dimension_spec() == old(self).dimension_spec(),
    {
        let config = self.config;
        let dimension = self.dimension;
        *self = HnswIndex { config, dimension, graph: HnswGraph::with_capacity(capacity), rng: SplitMix64::new(config.seed) };
    }

    /// Draws the next value of the seeded generator (used to sample the
    /// level of a new node).
    pub fn next_random(&mut self) -> (r: u64)
        ensures
            final(self).rng_state() == splitmix_advance(old(self).rng_state()),
            r == splitmix_output(final(self).rng_state()),
            final(self).nodes() == old(self).nodes(),
            final(self).entry() == old(self).entry(),
            final(self).dimension_hint() == old(self).dimension_hint(),
            final(self).config_spec() == old(self).config_spec(),
            final(self).dimension_spec() == old(self).dimension_spec(),
    {
        proof {
            use_type_invariant(&*self);
        }
        let mut rng = SplitMix64::new(0);
        std::mem::swap(&mut rng, &mut self.rng);
        let r = rng.next_u64();
        self.rng = rng;
        r
    }

    /// Checks an insertion before anything changes: `DimensionMismatch`
    /// when the embedding does not have the index dimension, then
    /// `DuplicateId` when the id already has a live node.
    pub fn check_insert(&self, id: VectorId, dimension: Dimension) -> (r: Result<(), IndexError>)
        ensures
            dimension@ != self.dimension_spec()@ ==> r == Err::<(), IndexError>(IndexError::DimensionMismatch {
                expected: self.dimension_spec()@ as usize,
                got: dimension@ as usize,
            }),
            dimension@ == self.dimension_spec()@ && live_index(self.nodes(), id@) is Some ==> r == Err::<(), IndexError>(IndexError::DuplicateId(id)),
            dimension@ == self.dimension_spec()@ && live_index(self.nodes(), id@) is None ==> r is Ok,
    {
        proof {
            use_type_invariant(self);
        }
        if dimension.get() != self.dimension.get() {
            return Err(IndexError::DimensionMismatch { expected: self.dimension.get(), got: dimension.get() });
        }
        match self.graph.id_to_node(id) {
            Some(_) => Err(IndexError::DuplicateId(id)),
            None => Ok(()),
        }
    }

    /// Adds a live node (see `HnswGraph::add_node`).
    pub fn add_node(&mut self, id: VectorId, dimension: Dimension, level: usize) -> (r: Result<usize, IndexError>)
        requires
            level < usize::MAX,
            old(self).nodes().len() < usize::MAX,
        ensures
            final(self).entry() == old(self).entry(),
            final(self).rng_state() == old(self).rng_state(),
            final(self).config_spec() == old(self).config_spec(),
            final(self).dimension_spec() == old(self).dimension_spec(),
            match old(self).dimension_hint() {
                Some(d) if d@ != dimension@ => r == Err::<usize, IndexError>(IndexError::DimensionMismatch { expected: d@ as usize, got: dimension@ as usize })
                    && final(self).nodes() == old(self).nodes() && final(self).dimension_hint() == old(self).dimension_hint(),
                _ => if live_index(old(self).nodes(), id@) is Some {
                    r == Err::<usize, IndexError>(IndexError::DuplicateId(id)) && final(self).nodes() == old(self).nodes()
                        && final(self).dimension_hint() == old(self).dimension_hint()
                } else {
                    &&& r == Ok::<usize, IndexError>(old(self).nodes().len() as usize)
                    &&& final(self).nodes() == old(self).nodes().push(NodeView {
                        id: id@,
                        level: level as nat,
                        tombstone: false,
                        neighbors: Seq::new(level as nat + 1, |l: int| Seq::<usize>::empty()),
                    })
                    &&& final(self).dimension_hint() == Some(match old(self).dimension_hint() {
                        Some(d) => d,
                        None => dimension,
                    })
                },
            },
    {
        proof {
            use_type_invariant(&*self);
        }
        let mut g = HnswGraph::new();
        std::mem::swap(&mut g, &mut self.graph);
        let r = g.add_node(id, dimension, level);
        self.graph = g;
        r
    }

    /// Replaces an adjacency list (see `HnswGraph::set_neighbors`).
    pub fn set_neighbors(&mut self, node: usize, layer: usize, neighbors: Vec<usize>)
        ensures
            final(self).entry() == old(self).entry(),
            final(self).rng_state() == old(self).rng_state(),
            final(self).config_spec() == old(self).config_spec(),
            final(self).dimension_spec() == old(self).dimension_spec(),
            final(self).dimension_hint() == old(self).dimension_hint(),
            if node < old(self).nodes().len() && layer < old(self).nodes()[node as int].neighbors.len() {
                final(self).nodes() == old(self).nodes().update(node as int, NodeView {
                    neighbors: old(self).nodes()[node as int].neighbors.update(layer as int, neighbors@),
                    ..old(self).nodes()[node as int]
                })
            } else {
                final(self).nodes() == old(self).nodes()
            },
    {
        proof {
            use_type_invariant(&*self);
        }
        let mut g = HnswGraph::new();
        std::mem::swap(&mut g, &mut self.graph);
        g.set_neighbors(node, layer, neighbors);
        self.graph = g;
    }

    /// Sets the entry point.
    pub fn set_entry_point(&mut self, node: Option<usize>)
        ensures
            final(self).entry() == node,
            final(self).nodes() == old(self).nodes(),
            final(self).rng_state() == old(self).rng_state(),
            final(self).config_spec() == old(self).config_spec(),
            final(self).dimension_spec() == old(self).dimension_spec(),
            final(self).dimension_hint() == old(self).dimension_hint(),
    {
        proof {
            use_type_invariant(&*self);
        }
        let mut g = HnswGraph::new();
        std::mem::swap(&mut g, &mut self.graph);
        g.set_entry_point(node);
        self.graph = g;
    }

    /// The persisted record of the node at `node_idx`; `None` when there is
    /// no such node.
    pub fn node_snapshot(&self, node_idx: u64) -> (r: Option<SnapshotNode>)
        ensures
            match r {
                Some(rec) => node_idx < self.nodes().len() && record_encodes(rec, self.nodes()[node_idx as int]),
                None => node_idx >= self.nodes().len(),
            },
    {
        proof {
            use_type_invariant(self);
            self.graph.lemma_wf();
        }
        let count = self.graph.node_count();
        if node_idx >= count as u64 {
            return None;
        }
        let idx = node_idx as usize;
        let level = self.graph.node_level(idx);
        let ghost nb = self.nodes()[idx as int].neighbors;
        let mut lists: Vec<Vec<u64>> = Vec::new();
        let mut layer: usize = 0;
        while layer <= level
            invariant
                level < usize::MAX,
                level == self.nodes()[idx as int].level,
                nb == self.nodes()[idx as int].neighbors,
                nb.len() == level + 1,
                idx < self.nodes().len(),
                self.graph.wf(),
                self.graph.nodes() == self.nodes(),
                layer <= level + 1,
                vecs_view(lists@) == lists_to_u64(nb).take(layer as int),
            decreases level + 1 - layer,
        {
            let ns = self.graph.neighbors(idx, layer);
            let mut out: Vec<u64> = Vec::new();
            let mut j: usize = 0;
            while j < ns.len()
                invariant
                    j <= ns@.len(),
                    out@ == ns@.take(j as int).map_values(|n: usize| n as u64),
                decreases ns.len() - j,
            {
                out.push(ns[j] as u64);
                proof {
                    assert(ns@.take(j + 1).map_values(|n: usize| n as u64) =~= ns@.take(j as int).map_values(|n: usize| n as u64).push(ns@[j as int] as u64));
                }
                j = j + 1;
            }
            proof {
                assert(ns@.take(ns@.len() as int) =~= ns@);
                assert(ns@ == nb[layer as int]);
            }
            let ghost before = lists@;
            lists.push(out);
            proof {
                assert(vecs_view(lists@) =~= vecs_view(before).push(out@));
                assert(lists_to_u64(nb).take(layer + 1) =~= lists_to_u64(nb).take(layer as int).push(lists_to_u64(nb)[layer as int]));
            }
            layer = layer + 1;
        }
        proof {
            assert(lists_to_u64(nb).take(nb.len() as int) =~= lists_to_u64(nb));
        }
        let id_bytes = match self.graph.node_id(idx) {
            Some(id) => id_bytes(id),
            None => [0u8; 16],
        };
        let level32: u32 = if level <= 4294967295usize { level as u32 } else { 4294967295u32 };
        Some(SnapshotNode { id_bytes, level: level32, tombstone: self.graph.is_tombstone(idx), neighbors_per_layer: lists })
    }

    /// The state row: `(entry_point, entry_level, rng_state, node_count)`.
    pub fn state_meta(&self) -> (r: (Option<u64>, u32, u64, u64))
        ensures
            r.0 == match self.entry() {
                Some(e) => Some(e as u64),
                None => None::<u64>,
            },
            r.1 == entry_level_of(self.nodes(), self.entry()),
            r.2 == self.rng_state(),
            r.3 == self.nodes().len() as u64,
    {
        proof {
            use_type_invariant(self);
            self.graph.lemma_wf();
        }
        let entry = self.graph.entry_point();
        let entry_point: Option<u64> = match entry {
            Some(e) => Some(e as u64),
            None => None,
        };
        let entry_level: u32 = match entry {
            Some(e) => {
                let l = self.graph.node_level(e);
                if l <= 4294967295usize { l as u32 } else { 0u32 }
            },
            None => 0u32,
        };
        (entry_point, entry_level, self.rng.state(), self.graph.node_count() as u64)
    }

    /// A complete snapshot of the graph state.
    pub fn snapshot(&self) -> (r: GraphSnapshot)
        ensures
            snapshot_encodes(r, self.nodes(), self.entry(), self.rng_state()),
    {
        proof {
            use_type_invariant(self);
            self.graph.lemma_wf();
        }
        let count = self.graph.node_count();
        let mut records: Vec<SnapshotNode> = Vec::new();
        let mut live: usize = 0;
        let mut i: usize = 0;
        while i < count
            invariant
                count == self.nodes().len(),
                i <= count,
                records@.len() == i,
                forall|j: int| 0 <= j < i ==> record_encodes(#[trigger] records@[j], self.nodes()[j]),
                live == live_total(self.nodes().take(i as int)),
                live <= i,
            decreases count - i,
        {
            proof {
                assert(self.nodes().take(i + 1).drop_last() =~= self.nodes().take(i as int));
            }
            match self.node_snapshot(i as u64) {
                Some(rec) => {
                    if !rec.tombstone {
                        live = live + 1;
                    }
                    records.push(rec);
                },
                None => {},
            }
            i = i + 1;
        }
        proof {
            assert(self.nodes().take(count as int) =~= self.nodes());
        }
        let (entry_point, entry_level, rng_state, _count) = self.state_meta();
        GraphSnapshot { nodes: records, entry_point, entry_level, rng_state, live_count: live as u64 }
    }

    /// Rebuilds an index from a snapshot exactly: no re-insertion, no draw
    /// from the generator, which resumes at the recorded state. `embeddings`
    /// holds, per node index, the outcome of reading its embedding. Nodes are
    /// restored in order and the first one that cannot be restored decides
    /// the error: a missing embedding (`Backend` naming the node), an
    /// invalid one (its error), a dimension that differs from the first
    /// node's (`DimensionMismatch`), an id that a live node restored before
    /// it has (`DuplicateId`), a neighbor index beyond `usize` (`Backend`);
    /// then an entry point beyond `usize` (`Backend`).
    pub fn from_snapshot(
        config: HnswConfig,
        dimension: Dimension,
        snapshot: &GraphSnapshot,
        embeddings: &Vec<Option<Result<Dimension, IndexError>>>,
    ) -> (r: Result<HnswIndex, IndexError>)
        requires
            embeddings@.len() == snapshot.nodes@.len(),
            snapshot.nodes@.len() < usize::MAX,
            forall|i: int| 0 <= i < snapshot.nodes@.len() ==> (#[trigger] snapshot.nodes@[i]).level < usize::MAX,
        ensures
            match r {
                Ok(index) => {
                    &&& restores_upto(snapshot.nodes@, embeddings@, snapshot.nodes@.len() as int)
                    &&& (snapshot.entry_point matches Some(ep) ==> ep <= usize::MAX)
                    &&& index.nodes() == restored_nodes(snapshot.nodes@)
                    &&& index.entry() == match snapshot.entry_point {
                        Some(ep) => Some(ep as usize),
                        None => None::<usize>,
                    }
                    &&& index.rng_state() == snapshot.rng_state
                    &&& index.config_spec() == config
                    &&& index.dimension_spec() == dimension
                    &&& (snapshot.nodes@.len() == 0 ==> index.dimension_hint() is None)
                    &&& (snapshot.nodes@.len() > 0 ==> (embeddings@[0] matches Some(Ok(d0)) && index.dimension_hint() == Some(d0)))
                },
                Err(e) => {
                    ||| exists|i: int| 0 <= i < snapshot.nodes@.len() && restores_upto(snapshot.nodes@, embeddings@, i)
                        && #[trigger] restore_fault(snapshot.nodes@, embeddings@, i) is Some
                        && fault_error(restore_fault(snapshot.nodes@, embeddings@, i).unwrap(), i, e)
                    ||| restores_upto(snapshot.nodes@, embeddings@, snapshot.nodes@.len() as int)
                        && (snapshot.entry_point matches Some(ep) && ep > usize::MAX)
                        && (e matches IndexError::Backend(m) && m@ == "entry_point overflow"@)
                },
            },
    {
        let n = snapshot.nodes.len();
        let ghost records = snapshot.nodes@;
        let ghost dims = embeddings@;
        let mut g = HnswGraph::with_capacity(n);
        proof {
            assert(restored_nodes(records.take(0)) =~= Seq::<NodeView>::empty());
        }
        let mut idx: usize = 0;
        while idx < n
            invariant
                n == records.len(),
                records == snapshot.nodes@,
                dims == embeddings@,
                idx <= n,
                dims.len() == n,
                n < usize::MAX,
                forall|i: int| 0 <= i < records.len() ==> (#[trigger] records[i]).level < usize::MAX,
                g.wf(),
                g.entry() is None,
                g.nodes() == restored_nodes(records.take(idx as int)),
                restores_upto(records, dims, idx as int),
                idx > 0 ==> (dims[0] matches Some(Ok(d0)) && g.dimension_hint() == Some(d0)),
                idx == 0 ==> g.dimension_hint() is None,
            decreases n - idx,
        {
            let rec = &snapshot.nodes[idx];
            let d = match &embeddings[idx] {
                None => {
                    let mut m = String::from_str("missing embedding for node ");
                    append_decimal(&mut m, idx as u64);
                    let e = IndexError::Backend(m);
                    proof {
                        assert(fault_error(restore_fault(records, dims, idx as int).unwrap(), idx as int, e));
                    }
                    return Err(e);
                },
                Some(Err(x)) => {
                    let e = copy_index_error(x);
                    proof {
                        assert(fault_error(restore_fault(records, dims, idx as int).unwrap(), idx as int, e));
                    }
                    return Err(e);
                },
                Some(Ok(d)) => *d,
            };
            let id = id_from_bytes(&rec.id_bytes);
            let level = rec.level as usize;
            proof {
                assert(records.take(idx as int).len() == idx);
                assert forall|j: int| 0 <= j < idx implies (#[trigger] g.nodes()[j]).id == bits_of_bytes(records[j].id_bytes@)
                    && g.nodes()[j].tombstone == records[j].tombstone by {
                    assert(records.take(idx as int)[j] == records[j]);
                }
                if live_index(g.nodes(), id@) is Some {
                    let j = choose|j: int| 0 <= j < g.nodes().len() && !g.nodes()[j].tombstone && g.nodes()[j].id == id@;
                    assert(!records[j].tombstone && bits_of_bytes(records[j].id_bytes@) == bits_of_bytes(records[idx as int].id_bytes@));
                } else {
                    assert forall|j: int| 0 <= j < idx implies !(!records[j].tombstone
                        && bits_of_bytes(#[trigger] records[j].id_bytes@) == bits_of_bytes(records[idx as int].id_bytes@)) by {
                        assert(g.nodes()[j].id == bits_of_bytes(records[j].id_bytes@));
                    }
                }
            }
            let ghost before = g.nodes();
            match g.add_node(id, d, level) {
                Ok(_) => {},
                Err(e) => {
                    proof {
                        assert(fault_error(restore_fault(records, dims, idx as int).unwrap(), idx as int, e));
                    }
                    return Err(e);
                },
            }
            if rec.tombstone {
                g.tombstone(idx);
            }
            let npl = &rec.neighbors_per_layer;
            let ghost base = NodeView { id: id@, level: level as nat, tombstone: rec.tombstone, neighbors: partial_neighbors(*rec, 0) };
            let ghost hint = g.dimension_hint();
            proof {
                assert(partial_neighbors(*rec, 0) =~= Seq::new(level as nat + 1, |l: int| Seq::<usize>::empty()));
                assert(restore_fault(records, dims, idx as int) == if neighbor_overflows(records[idx as int]) {
                    Some(RestoreFault::NeighborOverflow)
                } else {
                    None::<RestoreFault>
                });
            }
            let mut layer: usize = 0;
            while layer < npl.len()
                invariant
                    npl@ == rec.neighbors_per_layer@,
                    layer <= npl@.len(),
                    idx < n,
                    n == records.len(),
                    records == snapshot.nodes@,
                    dims == embeddings@,
                    *rec == records[idx as int],
                    level == rec.level,
                    level < usize::MAX,
                    g.wf(),
                    g.entry() is None,
                    g.dimension_hint() == hint,
                    g.nodes() == before.push(NodeView { neighbors: partial_neighbors(*rec, layer as int), ..base }),
                    before.len() == idx,
                    restores_upto(records, dims, idx as int),
                    restore_fault(records, dims, idx as int) == if neighbor_overflows(records[idx as int]) {
                        Some(RestoreFault::NeighborOverflow)
                    } else {
                        None::<RestoreFault>
                    },
                    forall|l: int, k: int| 0 <= l < layer && 0 <= k < npl@[l]@.len() ==> #[trigger] npl@[l]@[k] <= usize::MAX,
                decreases npl.len() - layer,
            {
                let conv = match narrow_indices(&npl[layer]) {
                    Some(v) => v,
                    None => {
                        let e = IndexError::Backend(String::from_str("neighbor index overflow"));
                        proof {
                            reveal_strlit("neighbor index overflow");
                            let q = choose|q: int| 0 <= q < npl@[layer as int]@.len() && #[trigger] npl@[layer as int]@[q] > usize::MAX;
                            assert(records[idx as int].neighbors_per_layer@[layer as int]@[q] > usize::MAX);
                            assert(neighbor_overflows(records[idx as int]));
                            assert(fault_error(restore_fault(records, dims, idx as int).unwrap(), idx as int, e));
                        }
                        return Err(e);
                    },
                };
                let ghost cur = g.nodes();
                g.set_neighbors(idx, layer, conv);
                proof {
                    let nv = NodeView { neighbors: partial_neighbors(*rec, layer + 1), ..base };
                    if layer < level + 1 {
                        assert(cur[idx as int].neighbors.update(layer as int, conv@) =~= partial_neighbors(*rec, layer + 1));
                        assert(g.nodes() =~= before.push(nv));
                    } else {
                        assert(partial_neighbors(*rec, layer + 1) =~= partial_neighbors(*rec, layer as int));
                    }
                }
                layer = layer + 1;
            }
            proof {
                assert(partial_neighbors(*rec, npl@.len() as int) =~= restored_node(*rec).neighbors);
                assert(records.take(idx + 1) =~= records.take(idx as int).push(records[idx as int]));
                assert(restored_nodes(records.take(idx + 1)) =~= restored_nodes(records.take(idx as int)).push(restored_node(records[idx as int])));
                assert(!neighbor_overflows(records[idx as int]));
                assert(restore_fault(records, dims, idx as int) is None);
                assert forall|i: int| 0 <= i < idx + 1 implies #[trigger] restore_fault(records, dims, i) is None by {
                    if i < idx {
                        assert(restore_fault(records, dims, i) is None);
                    }
                }
            }
            idx = idx + 1;
        }
        proof {
            assert(records.take(n as int) =~= records);
        }
        let entry = match snapshot.entry_point {
            Some(ep) => {
                if ep > usize::MAX as u64 {
                    let e = IndexError::Backend(String::from_str("entry_point overflow"));
                    proof {
                        reveal_strlit("entry_point overflow");
                    }
                    return Err(e);
                }
                Some(ep as usize)
            },
            None => None,
        };
        g.set_entry_point(entry);
        Ok(HnswIndex { config, dimension, graph: g, rng: SplitMix64::from_state(snapshot.rng_state) })
    }

    /// Tombstones the live node of `id` and reports the changed rows;
    /// `None` when the id has no live node. When the node was the entry
    /// point, the live node of highest level (the last such one) becomes
    /// the entry point, or none when no live node is left.
    pub fn remove_tracked(&mut self, id: VectorId) -> (r: Result<Option<RemoveDelta>, IndexError>)
        ensures
            final(self).rng_state() == old(self).rng_state(),
            final(self).config_spec() == old(self).config_spec(),
            final(self).dimension_spec() == old(self).dimension_spec(),
            final(self).dimension_hint() == old(self).dimension_hint(),
            match live_index(old(self).nodes(), id@) {
                None => r matches Ok(None) && final(self).nodes() == old(self).nodes() && final(self).entry() == old(self).entry(),
                Some(node) => {
                    let nodes = old(self).nodes().update(node as int, NodeView { tombstone: true, ..old(self).nodes()[node as int] });
                    &&& final(self).nodes() == nodes
                    &&& (entry_sound(old(self).nodes(), old(self).entry()) ==> entry_sound(final(self).nodes(), final(self).entry()))
                    &&& (links_in_range(old(self).nodes(), old(self).entry()) ==> links_in_range(final(self).nodes(), final(self).entry()))
                    &&& final(self).entry() == if old(self).entry() == Some(node) { elected_entry(nodes) } else { old(self).entry() }
                    &&& r matches Ok(Some(delta)) && delta.touched_nodes@ == seq![node as u64]
                        && delta.entry_changed == (old(self).entry() == Some(node))
                },
            },
    {
        proof {
            use_type_invariant(&*self);
            self.graph.lemma_wf();
        }
        let node = match self.graph.id_to_node(id) {
            Some(n) => n,
            None => return Ok(None),
        };
        let was_entry = match self.graph.entry_point() {
            Some(e) => e == node,
            None => false,
        };
        let mut g = HnswGraph::new();
        std::mem::swap(&mut g, &mut self.graph);
        let became = g.tombstone(node);
        if !became {
            self.graph = g;
            return Ok(None);
        }
        let mut entry_changed = false;
        if was_entry {
            let new_entry = elect_entry(&g);
            g.set_entry_point(new_entry);
            entry_changed = true;
        }
        self.graph = g;
        let mut touched: Vec<u64> = Vec::new();
        touched.push(node as u64);
        proof {
            assert(touched@ =~= seq![node as u64]);
            let before = old(self).nodes();
            let after = self.nodes();
            lemma_live_index(before, node as int);
            if entry_sound(before, old(self).entry()) {
                lemma_remove_keeps_entry_sound(before, old(self).entry(), node as int);
            }
            lemma_elected_entry(after);
            if links_in_range(before, old(self).entry()) {
                assert forall|i: int, l: int, k: int| 0 <= i < after.len() && 0 <= l < after[i].neighbors.len() && 0 <= k < after[i].neighbors[l].len()
                    implies (#[trigger] after[i].neighbors[l][k]) < after.len() by {
                    assert(after[i].neighbors == before[i].neighbors);
                }
            }
        }
        Ok(Some(RemoveDelta { touched_nodes: touched, entry_changed }))
    }
}

/// The live node of highest level, the last such one in index order.
fn elect_entry(graph: &HnswGraph) -> (r: Option<usize>)
    requires
        graph.wf(),
    ensures
        r == elected_entry(graph.nodes()),
{
    let n = graph.node_count();
    let mut best: Option<usize> = None;
    let mut i: usize = 0;
    while i < n
        invariant
            n == graph.nodes().len(),
            i <= n,
            best == elected_entry(graph.nodes().take(i as int)),
            best matches Some(b) ==> b < i,
        decreases n - i,
    {
        proof {
            assert(graph.nodes().take(i + 1).drop_last() =~= graph.nodes().take(i as int));
            assert(graph.nodes().take(i + 1).last() == graph.nodes()[i as int]);
        }
        if !graph.is_tombstone(i) {
            match best {
                None => {
                    best = Some(i);
                },
                Some(b) => {
                    proof {
                        assert(graph.nodes().take(i + 1)[b as int] == graph.nodes()[b as int]);
                    }
                    if graph.node_level(i) >= graph.node_level(b) {
                        best = Some(i);
                    }
                },
            }
        }
        i = i + 1;
    }
    proof {
        assert(graph.nodes().take(n as int) =~= graph.nodes());
    }
    best
}

} // verus!
