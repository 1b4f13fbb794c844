//! The structure of an HNSW graph: nodes, their layers and adjacency lists,
//! soft deletion, the live-id map and the entry point.
//!
//! Nodes are identified by a dense internal index distinct from the public
//! `VectorId`. The live map always points an id at its LIVE node. A
//! tombstoned node keeps its index and adjacency lists, so it stays
//! navigable until the graph is rebuilt. Embeddings are kept alongside, by
//! node index, by the code that scores them.

use vstd::prelude::*;
use std::collections::HashMap;
use crate::dimension::Dimension;
use crate::errors::IndexError;
use crate::vector_id::VectorId;

verus! {

broadcast use vstd::std_specs::hash::group_hash_axioms;

/// What the graph records of a node.
pub struct NodeView {
    /// The node's public id, as its 128-bit value.
    pub id: u128,
    /// The highest layer the node takes part in.
    pub level: nat,
    /// Whether the node is soft-deleted.
    pub tombstone: bool,
    /// The adjacency list of each layer, layer 0 first.
    pub neighbors: Seq<Seq<usize>>,
}

/// The number of nodes that are not tombstoned.
pub open spec fn live_total(nodes: Seq<NodeView>) -> nat
    decreases nodes.len(),
{
    if nodes.len() == 0 {
        0
    } else {
        live_total(nodes.drop_last()) + if nodes.last().tombstone { 0nat } else { 1nat }
    }
}

/// The index of the live node holding `id`, if any.
pub open spec fn live_index(nodes: Seq<NodeView>, id: u128) -> Option<usize> {
    if exists|i: int| 0 <= i < nodes.len() && !nodes[i].tombstone && nodes[i].id == id {
        Some((choose|i: int| 0 <= i < nodes.len() && !nodes[i].tombstone && nodes[i].id == id) as usize)
    } else {
        None
    }
}

/// Node records as a graph keeps them: each node has one adjacency list per
/// layer up to its level, and a node that shares its id with a later node is
/// tombstoned (an id is reinserted only once its node is deleted), so no two
/// live nodes share an id.
pub open spec fn nodes_valid(nodes: Seq<NodeView>) -> bool {
    &&& forall|i: int| 0 <= i < nodes.len() ==> (#[trigger] nodes[i]).neighbors.len() == nodes[i].level + 1
    &&& forall|i: int, j: int| 0 <= j < i < nodes.len() && #[trigger] nodes[i].id == #[trigger] nodes[j].id ==> nodes[j].tombstone
}

/// One node of the graph.
struct GraphNode {
    id: VectorId,
    neighbors: Vec<Vec<usize>>,
    level: usize,
    tombstone: bool,
}

/// The adjacency lists of a node, as sequences.
spec fn lists_view(lists: Seq<Vec<usize>>) -> Seq<Seq<usize>> {
    lists.map_values(|l: Vec<usize>| l@)
}

impl GraphNode {
    spec fn node_view(&self) -> NodeView {
        NodeView { id: self.id@, level: self.level as nat, tombstone: self.tombstone, neighbors: lists_view(self.neighbors@) }
    }
}

/// The views of a sequence of nodes.
spec fn nodes_view(nodes: Seq<GraphNode>) -> Seq<NodeView> {
    nodes.map_values(|n: GraphNode| n.node_view())
}

/// The graph: all nodes, the map from live id to node, and the entry point.
pub struct HnswGraph {
    nodes: Vec<GraphNode>,
    live: HashMap<u128, usize>,
    entry_point: Option<usize>,
    live_count: usize,
    dimension: Option<Dimension>,
}

/// A tombstone flag changed at one index changes the live total by one.
proof fn lemma_live_total_tombstone(nodes: Seq<NodeView>, i: int, n: NodeView)
    requires
        0 <= i < nodes.len(),
        !nodes[i].tombstone,
        n.tombstone,
    ensures
        live_total(nodes.update(i, n)) + 1 == live_total(nodes),
    decreases nodes.len(),
{
    if i < nodes.len() - 1 {
        assert(nodes.update(i, n).drop_last() =~= nodes.drop_last().update(i, n));
        lemma_live_total_tombstone(nodes.drop_last(), i, n);
    } else {
        assert(nodes.update(i, n).drop_last() =~= nodes.drop_last());
    }
}

/// Changing a node without changing its tombstone flag keeps the live total.
proof fn lemma_live_total_same_flag(nodes: Seq<NodeView>, i: int, n: NodeView)
    requires
        0 <= i < nodes.len(),
        nodes[i].tombstone == n.tombstone,
    ensures
        live_total(nodes.update(i, n)) == live_total(nodes),
    decreases nodes.len(),
{
    if i < nodes.len() - 1 {
        assert(nodes.update(i, n).drop_last() =~= nodes.drop_last().update(i, n));
        lemma_live_total_same_flag(nodes.drop_last(), i, n);
    } else {
        assert(nodes.update(i, n).drop_last() =~= nodes.drop_last());
    }
}

/// The live total never exceeds the number of nodes.
proof fn lemma_live_total_bound(nodes: Seq<NodeView>)
    ensures
        live_total(nodes) <= nodes.len(),
    decreases nodes.len(),
{
    if nodes.len() > 0 {
        lemma_live_total_bound(nodes.drop_last());
    }
}

/// In valid records, the live node holding an id is the one `live_index`
/// names.
pub proof fn lemma_live_index(nodes: Seq<NodeView>, i: int)
    requires
        nodes_valid(nodes),
        0 <= i < nodes.len(),
        !nodes[i].tombstone,
    ensures
        live_index(nodes, nodes[i].id) == Some(i as usize),
{
    let id = nodes[i].id;
    let j = choose|j: int| 0 <= j < nodes.len() && !nodes[j].tombstone && nodes[j].id == id;
    if j < i {
        assert(nodes[i].id == nodes[j].id);
    } else if i < j {
        assert(nodes[j].id == nodes[i].id);
    }
}

impl HnswGraph {
    /// The node records, in node-index order.
    pub closed spec fn nodes(&self) -> Seq<NodeView> {
        nodes_view(self.nodes@)
    }

    /// The entry point.
    pub closed spec fn entry(&self) -> Option<usize> {
        self.entry_point
    }

    /// The dimension of the first node's embedding, which every node has.
    pub closed spec fn dimension_hint(&self) -> Option<Dimension> {
        self.dimension
    }

    /// The graph's internal consistency: valid node records, a live map
    /// that points each live id at its node, a live count that counts them,
    /// and a dimension exactly when there are nodes.
    pub closed spec fn wf(&self) -> bool {
        &&& nodes_valid(self.nodes())
        &&& forall|i: int| 0 <= i < self.nodes@.len() ==> (#[trigger] self.nodes@[i]).neighbors@.len() == self.nodes@[i].level + 1
        &&& (self.dimension is Some) == (self.nodes@.len() > 0)
        &&& self.live_count == live_total(self.nodes())
        &&& forall|k: u128| #[trigger] self.live@.contains_key(k) ==> {
            &&& self.live@[k] < self.nodes@.len()
            &&& !self.nodes@[self.live@[k] as int].tombstone
            &&& self.nodes@[self.live@[k] as int].id@ == k
        }
        &&& forall|i: int| 0 <= i < self.nodes@.len() && !(#[trigger] self.nodes@[i]).tombstone ==> {
            &&& self.live@.contains_key(self.nodes@[i].id@)
            &&& self.live@[self.nodes@[i].id@] == i
        }
    }

    /// What a well-formed graph guarantees about its records.
    pub proof fn lemma_wf(&self)
        requires
            self.wf(),
        ensures
            nodes_valid(self.nodes()),
            (self.dimension_hint() is Some) == (self.nodes().len() > 0),
            self.nodes().len() <= usize::MAX,
            forall|i: int| 0 <= i < self.nodes().len() ==> (#[trigger] self.nodes()[i]).level < usize::MAX,
    {
        assert(self.nodes@.len() == self.nodes.len());
        assert forall|i: int| 0 <= i < self.nodes().len() implies (#[trigger] self.nodes()[i]).level < usize::MAX by {
            assert(self.nodes()[i] == self.nodes@[i].node_view());
            assert(self.nodes@[i].neighbors@.len() == self.nodes@[i].neighbors.len());
        }
    }

    /// Creates an empty graph.
    pub fn new() -> (r: HnswGraph)
        ensures
            r.wf(),
            r.nodes() == Seq::<NodeView>::empty(),
            r.entry() is None,
            r.dimension_hint() is None,
    {
        let r = HnswGraph { nodes: Vec::new(), live: HashMap::new(), entry_point: None, live_count: 0, dimension: None };
        proof {
            assert(r.nodes() =~= Seq::<NodeView>::empty());
        }
        r
    }

    /// Creates an empty graph with room for `capacity` nodes.
    pub fn with_capacity(capacity: usize) -> (r: HnswGraph)
        ensures
            r.wf(),
            r.nodes() == Seq::<NodeView>::empty(),
            r.entry() is None,
            r.dimension_hint() is None,
    {
        let r = HnswGraph {
            nodes: Vec::with_capacity(capacity),
            live: HashMap::with_capacity(capacity),
            entry_point: None,
            live_count: 0,
            dimension: None,
        };
        proof {
            assert(r.nodes() =~= Seq::<NodeView>::empty());
        }
        r
    }

    /// Adds a new live node of the given level for an embedding of the given
    /// dimension, with empty adjacency lists, and returns its index. Fails
    /// with `DimensionMismatch` when the graph has nodes of another
    /// dimension, then with `DuplicateId` when `id` already has a live node.
    /// Reinserting a tombstoned id succeeds with a new node.
    pub fn add_node(&mut self, id: VectorId, dimension: Dimension, level: usize) -> (r: Result<usize, IndexError>)
        requires
            old(self).wf(),
            level < usize::MAX,
            old(self).nodes().len() < usize::MAX,
        ensures
            final(self).wf(),
            final(self).entry() == old(self).entry(),
            match old(self).dimension_hint() {
                Some(d) if d@ != dimension@ => r == Err::<usize, IndexError>(IndexError::DimensionMismatch { expected: d@ as usize, got: dimension@ as usize })
                    && final(self).nodes() == old(self).nodes() && final(self).dimension_hint() == old(self).dimension_hint(),
                _ => if live_index(old(self).nodes(), id@) is Some {
                    r == Err::<usize, IndexError>(IndexError::DuplicateId(id)) && final(self).nodes() == old(self).nodes()
                        && final(self).dimension_hint() == old(self).dimension_hint()
                } else {
                    &&& r == Ok::<usize, IndexError>(old(self).nodes().len() as usize)
                    &&& final(self).nodes() == old(self).nodes().push(NodeView {
                        id: id@,
                        level: level as nat,
                        tombstone: false,
                        neighbors: Seq::new(level as nat + 1, |l: int| Seq::<usize>::empty()),
                    })
                    &&& final(self).dimension_hint() == Some(match old(self).dimension_hint() {
                        Some(d) => d,
                        None => dimension,
                    })
                },
            },
    {
        if let Some(hint) = self.dimension {
            if hint.get() != dimension.get() {
                return Err(IndexError::DimensionMismatch { expected: hint.get(), got: dimension.get() });
            }
        }
        let key = id.as_u128();
        if self.live.contains_key(&key) {
            proof {
                let i = self.live@[key] as int;
                assert(self.nodes()[i] == self.nodes@[i].node_view());
                assert(0 <= i < self.nodes().len() && !self.nodes()[i].tombstone && self.nodes()[i].id == id@);
            }
            return Err(IndexError::DuplicateId(id));
        }
        proof {
            assert forall|i: int| 0 <= i < self.nodes().len() implies !(!self.nodes()[i].tombstone && self.nodes()[i].id == id@) by {
                assert(self.nodes()[i] == self.nodes@[i].node_view());
                if !self.nodes@[i].tombstone {
                    assert(self.live@.contains_key(self.nodes@[i].id@));
                }
            }
        }
        let idx = self.nodes.len();
        let mut lists: Vec<Vec<usize>> = Vec::new();
        let mut l: usize = 0;
        while l <= level
            invariant
                l <= level + 1,
                level < usize::MAX,
                lists@.len() == l,
                forall|j: int| 0 <= j < l ==> (#[trigger] lists@[j])@ == Seq::<usize>::empty(),
            decreases level + 1 - l,
        {
            lists.push(Vec::new());
            l = l + 1;
        }
        let ghost old_nodes = self.nodes();
        let ghost old_raw = self.nodes@;
        let node = GraphNode { id, neighbors: lists, level, tombstone: false };
        self.nodes.push(node);
        self.live.insert(key, idx);
        if self.dimension.is_none() {
            self.dimension = Some(dimension);
        }
        proof {
            lemma_live_total_bound(old_nodes);
            assert(lists_view(lists@) =~= Seq::new(level as nat + 1, |l: int| Seq::<usize>::empty()));
            assert(self.nodes() =~= old_nodes.push(node.node_view()));
            assert(self.nodes().drop_last() =~= old_nodes);
        }
        self.live_count = self.live_count + 1;
        proof {
            assert forall|i: int| 0 <= i < self.nodes@.len() && !(#[trigger] self.nodes@[i]).tombstone implies
                self.live@.contains_key(self.nodes@[i].id@) && self.live@[self.nodes@[i].id@] == i by {
                if i < idx {
                    assert(self.nodes@[i] == old_raw[i]);
                }
            }
            assert forall|i: int, j: int| 0 <= j < i < self.nodes().len() && #[trigger] self.nodes()[i].id == #[trigger] self.nodes()[j].id
                implies self.nodes()[j].tombstone by {
                assert(self.nodes()[j] == old_nodes[j]);
                if i < idx {
                    assert(self.nodes()[i] == old_nodes[i]);
                    assert(old_nodes[i].id == old_nodes[j].id);
                } else {
                    assert(!(!old_nodes[j].tombstone && old_nodes[j].id == id@));
                }
            }
            assert forall|i: int| 0 <= i < self.nodes().len() implies (#[trigger] self.nodes()[i]).neighbors.len() == self.nodes()[i].level + 1 by {
                if i < idx {
                    assert(self.nodes()[i] == old_nodes[i]);
                }
            }
        }
        Ok(idx)
    }

    /// Replaces the adjacency list of `node` at `layer`; does nothing when
    /// the node or the layer does not exist.
    pub fn set_neighbors(&mut self, node: usize, layer: usize, neighbors: Vec<usize>)
        requires
            old(self).wf(),
        ensures
            final(self).wf(),
            final(self).entry() == old(self).entry(),
            final(self).dimension_hint() == old(self).dimension_hint(),
            if node < old(self).nodes().len() && layer < old(self).nodes()[node as int].neighbors.len() {
                final(self).nodes() == old(self).nodes().update(node as int, NodeView {
                    neighbors: old(self).nodes()[node as int].neighbors.update(layer as int, neighbors@),
                    ..old(self).nodes()[node as int]
                })
            } else {
                final(self).nodes() == old(self).nodes()
            },
    {
        if node < self.nodes.len() && layer < self.nodes[node].neighbors.len() {
            let ghost old_nodes = self.nodes();
            let ghost old_raw = self.nodes@;
            let ghost view = neighbors@;
            let mut n = self.nodes.remove(node);
            n.neighbors.set(layer, neighbors);
            self.nodes.insert(node, n);
            proof {
                assert(self.nodes@ =~= old_raw.update(node as int, n));
                let nv = NodeView {
                    neighbors: old_nodes[node as int].neighbors.update(layer as int, view),
                    ..old_nodes[node as int]
                };
                assert(lists_view(n.neighbors@) =~= old_nodes[node as int].neighbors.update(layer as int, view));
                assert(self.nodes() =~= old_nodes.update(node as int, nv));
                lemma_live_total_same_flag(old_nodes, node as int, nv);
                assert forall|i: int| 0 <= i < self.nodes@.len() && !(#[trigger] self.nodes@[i]).tombstone implies
                    self.live@.contains_key(self.nodes@[i].id@) && self.live@[self.nodes@[i].id@] == i by {
                    if i != node {
                        assert(self.nodes@[i] == old_raw[i]);
                    }
                }
                assert forall|i: int| 0 <= i < self.nodes@.len() implies (#[trigger] self.nodes@[i]).neighbors@.len() == self.nodes@[i].level + 1 by {
                    if i != node {
                        assert(self.nodes@[i] == old_raw[i]);
                    }
                }
                assert forall|i: int, j: int| 0 <= j < i < self.nodes().len() && #[trigger] self.nodes()[i].id == #[trigger] self.nodes()[j].id
                    implies self.nodes()[j].tombstone by {
                    assert(self.nodes()[i].id == old_nodes[i].id && self.nodes()[i].tombstone == old_nodes[i].tombstone);
                    assert(self.nodes()[j].id == old_nodes[j].id && self.nodes()[j].tombstone == old_nodes[j].tombstone);
                    assert(old_nodes[i].id == old_nodes[j].id);
                }
            }
        }
    }

    /// The adjacency list of `node` at `layer`; empty when the node or the
    /// layer does not exist.
    pub fn neighbors(&self, node: usize, layer: usize) -> (r: &[usize])
        requires
            self.wf(),
        ensures
            r@ == if node < self.nodes().len() && layer < self.nodes()[node as int].neighbors.len() {
                self.nodes()[node as int].neighbors[layer as int]
            } else {
                Seq::<usize>::empty()
            },
    {
        if node < self.nodes.len() && layer < self.nodes[node].neighbors.len() {
            proof {
                assert(self.nodes()[node as int] == self.nodes@[node as int].node_view());
                assert(lists_view(self.nodes@[node as int].neighbors@)[layer as int] == self.nodes@[node as int].neighbors@[layer as int]@);
            }
            self.nodes[node].neighbors[layer].as_slice()
        } else {
            &[]
        }
    }

    /// Whether `node` exists and is tombstoned.
    pub fn is_tombstone(&self, node: usize) -> (r: bool)
        ensures
            r == (node < self.nodes().len() && self.nodes()[node as int].tombstone),
    {
        if node < self.nodes.len() {
            proof {
                assert(self.nodes()[node as int] == self.nodes@[node as int].node_view());
            }
            self.nodes[node].tombstone
        } else {
            false
        }
    }

    /// Tombstones `node` and removes it from the live map. Returns `true` if
    /// the node was live, `false` if it was already tombstoned or absent.
    pub fn tombstone(&mut self, node: usize) -> (r: bool)
        requires
            old(self).wf(),
        ensures
            final(self).wf(),
            final(self).entry() == old(self).entry(),
            final(self).dimension_hint() == old(self).dimension_hint(),
            r == (node < old(self).nodes().len() && !old(self).nodes()[node as int].tombstone),
            r ==> final(self).nodes() == old(self).nodes().update(node as int, NodeView { tombstone: true, ..old(self).nodes()[node as int] }),
            !r ==> final(self).nodes() == old(self).nodes(),
    {
        if node >= self.nodes.len() {
            return false;
        }
        proof {
            assert(self.nodes()[node as int] == self.nodes@[node as int].node_view());
        }
        if self.nodes[node].tombstone {
            return false;
        }
        let ghost old_nodes = self.nodes();
        let ghost old_raw = self.nodes@;
        let mut n = self.nodes.remove(node);
        n.tombstone = true;
        let key = n.id.as_u128();
        self.nodes.insert(node, n);
        self.live.remove(&key);
        proof {
            assert(self.nodes@ =~= old_raw.update(node as int, n));
            let nv = NodeView { tombstone: true, ..old_nodes[node as int] };
            assert(n.node_view() == nv);
            assert(self.nodes() =~= old_nodes.update(node as int, nv));
            lemma_live_total_tombstone(old_nodes, node as int, nv);
            lemma_live_total_bound(old_nodes);
        }
        self.live_count = self.live_count - 1;
        proof {
            assert forall|i: int| 0 <= i < self.nodes@.len() && !(#[trigger] self.nodes@[i]).tombstone implies
                self.live@.contains_key(self.nodes@[i].id@) && self.live@[self.nodes@[i].id@] == i by {
                assert(i != node);
                assert(self.nodes@[i] == old_raw[i]);
                assert(old_nodes[i] == old_raw[i].node_view());
                assert(old_nodes[node as int] == old_raw[node as int].node_view());
                if self.nodes@[i].id@ == key {
                    assert(old_nodes[i].id == old_nodes[node as int].id);
                }
            }
            assert forall|k: u128| #[trigger] self.live@.contains_key(k) implies {
                &&& self.live@[k] < self.nodes@.len()
                &&& !self.nodes@[self.live@[k] as int].tombstone
                &&& self.nodes@[self.live@[k] as int].id@ == k
            } by {
                assert(old_raw.len() == self.nodes@.len());
                let i = self.live@[k] as int;
                if i == node {
                    assert(old_raw[node as int].id@ == key);
                } else {
                    assert(self.nodes@[i] == old_raw[i]);
                }
            }
            assert forall|i: int| 0 <= i < self.nodes@.len() implies (#[trigger] self.nodes@[i]).neighbors@.len() == self.nodes@[i].level + 1 by {
                if i != node {
                    assert(self.nodes@[i] == old_raw[i]);
                }
            }
            assert forall|i: int, j: int| 0 <= j < i < self.nodes().len() && #[trigger] self.nodes()[i].id == #[trigger] self.nodes()[j].id
                implies self.nodes()[j].tombstone by {
                assert(self.nodes()[i].id == old_nodes[i].id);
                assert(self.nodes()[j].id == old_nodes[j].id);
                assert(old_nodes[i].id == old_nodes[j].id);
                if j != node {
                    assert(self.nodes()[j].tombstone == old_nodes[j].tombstone);
                }
            }
        }
        true
    }

    /// The level of `node`, or 0 when it does not exist.
    pub fn node_level(&self, node: usize) -> (r: usize)
        ensures
            r == if node < self.nodes().len() { self.nodes()[node as int].level } else { 0 },
    {
        if node < self.nodes.len() {
            proof {
                assert(self.nodes()[node as int] == self.nodes@[node as int].node_view());
            }
            self.nodes[node].level
        } else {
            0
        }
    }

    /// The id of `node`, if it exists.
    pub fn node_id(&self, node: usize) -> (r: Option<VectorId>)
        ensures
            match r {
                Some(id) => node < self.nodes().len() && id@ == self.nodes()[node as int].id,
                None => node >= self.nodes().len(),
            },
    {
        if node < self.nodes.len() {
            proof {
                assert(self.nodes()[node as int] == self.nodes@[node as int].node_view());
            }
            Some(self.nodes[node].id)
        } else {
            None
        }
    }

    /// The current entry point.
    pub fn entry_point(&self) -> (r: Option<usize>)
        ensures
            r == self.entry(),
    {
        self.entry_point
    }

    /// Sets the entry point.
    pub fn set_entry_point(&mut self, node: Option<usize>)
        requires
            old(self).wf(),
        ensures
            final(self).wf(),
            final(self).entry() == node,
            final(self).nodes() == old(self).nodes(),
            final(self).dimension_hint() == old(self).dimension_hint(),
    {
        self.entry_point = node;
    }

    /// Total number of nodes, live and tombstoned.
    pub fn node_count(&self) -> (r: usize)
        ensures
            r == self.nodes().len(),
    {
        self.nodes.len()
    }

    /// Number of live nodes.
    pub fn live_count(&self) -> (r: usize)
        requires
            self.wf(),
        ensures
            r == live_total(self.nodes()),
    {
        self.live_count
    }

    /// The dimension of the embeddings of the graph's nodes, if it has any.
    pub fn dimension(&self) -> (r: Option<Dimension>)
        ensures
            r == self.dimension_hint(),
    {
        self.dimension
    }

    /// The index of the live node of `id`, if any.
    pub fn id_to_node(&self, id: VectorId) -> (r: Option<usize>)
        requires
            self.wf(),
        ensures
            r == live_index(self.nodes(), id@),
    {
        let key = id.as_u128();
        match self.live.get(&key) {
            Some(i) => {
                proof {
                    let j = *i as int;
                    assert(self.nodes()[j] == self.nodes@[j].node_view());
                    lemma_live_index(self.nodes(), j);
                }
                Some(*i)
            },
            None => {
                proof {
                    assert forall|i: int| 0 <= i < self.nodes().len() implies !(!self.nodes()[i].tombstone && self.nodes()[i].id == id@) by {
                        assert(self.nodes()[i] == self.nodes@[i].node_view());
                        if !self.nodes@[i].tombstone {
                            assert(self.live@.contains_key(self.nodes@[i].id@));
                        }
                    }
                }
                None
            },
        }
    }

    /// The live nodes, in node-index order, as `(index, id, level)`.
    pub fn live_nodes(&self) -> (r: Vec<(usize, VectorId, usize)>)
        ensures
            forall|j: int| 0 <= j < r@.len() ==> {
                let (i, id, level) = #[trigger] r@[j];
                &&& i < self.nodes().len()
                &&& !self.nodes()[i as int].tombstone
                &&& id@ == self.nodes()[i as int].id
                &&& level == self.nodes()[i as int].level
            },
            forall|a: int, b: int| 0 <= a < b < r@.len() ==> r@[a].0 < r@[b].0,
            forall|i: int| 0 <= i < self.nodes().len() && !self.nodes()[i].tombstone ==>
                exists|j: int| 0 <= j < r@.len() && (#[trigger] r@[j]).0 == i,
    {
        let mut out: Vec<(usize, VectorId, usize)> = Vec::new();
        let mut i: usize = 0;
        while i < self.nodes.len()
            invariant
                i <= self.nodes@.len(),
                forall|j: int| 0 <= j < out@.len() ==> {
                    let (x, id, level) = #[trigger] out@[j];
                    &&& x < i
                    &&& !self.nodes()[x as int].tombstone
                    &&& id@ == self.nodes()[x as int].id
                    &&& level == self.nodes()[x as int].level
                },
                forall|a: int, b: int| 0 <= a < b < out@.len() ==> out@[a].0 < out@[b].0,
                forall|x: int| 0 <= x < i && !self.nodes()[x].tombstone ==>
                    exists|j: int| 0 <= j < out@.len() && (#[trigger] out@[j]).0 == x,
            decreases self.nodes.len() - i,
        {
            proof {
                assert(self.nodes()[i as int] == self.nodes@[i as int].node_view());
            }
            if !self.nodes[i].tombstone {
                let ghost before = out@;
                out.push((i, self.nodes[i].id, self.nodes[i].level));
                proof {
                    assert forall|x: int| 0 <= x < i + 1 && !self.nodes()[x].tombstone implies
                        exists|j: int| 0 <= j < out@.len() && (#[trigger] out@[j]).0 == x by {
                        if x < i {
                            let j = choose|j: int| 0 <= j < before.len() && (#[trigger] before[j]).0 == x;
                            assert(out@[j] == before[j]);
                        } else {
                            assert(out@[out@.len() - 1].0 == x);
                        }
                    }
                }
            }
            i = i + 1;
        }
        out
    }
}

} // verus!
