use eidosdb::dimension::Dimension;
use eidosdb::errors::IndexError;
use eidosdb::hnsw_config::{HnswConfig, HnswConfigError, DEFAULT_SEED};
use eidosdb::hnsw_graph::HnswGraph;
use eidosdb::hnsw_index::{id_bytes, id_from_bytes, HnswIndex};
use eidosdb::metric::Metric;
use eidosdb::splitmix::SplitMix64;
use eidosdb::vector_id::VectorId;

fn dim(n: usize) -> Dimension {
    Dimension::new(n).expect("valid dimension")
}

#[test]
fn defaults_are_sane() {
    let cfg = HnswConfig::default();
    assert_eq!(cfg.m, 16);
    assert_eq!(cfg.ef_construction, 200);
    assert_eq!(cfg.ef_search, 64);
    assert_eq!(cfg.seed, DEFAULT_SEED);
    assert_eq!(cfg.metric, Metric::Cosine);
}

#[test]
fn m_max0_is_twice_m() {
    let cfg = HnswConfig { m: 16, ..HnswConfig::default() };
    assert_eq!(cfg.m_max0(), 32);
    assert_eq!(cfg.m_max(), 16);
}

#[test]
fn m_max0_saturates() {
    let cfg = HnswConfig { m: usize::MAX, ..HnswConfig::default() };
    assert_eq!(cfg.m_max0(), usize::MAX);
}

#[test]
fn new_rejects_zero_degree() {
    assert_eq!(
        HnswConfig::new(Metric::Cosine, 0, 200, 64, DEFAULT_SEED),
        Err(HnswConfigError::DegreeTooSmall(0))
    );
}

#[test]
fn new_rejects_degree_one() {
    assert_eq!(
        HnswConfig::new(Metric::Cosine, 1, 200, 64, DEFAULT_SEED),
        Err(HnswConfigError::DegreeTooSmall(1))
    );
}

#[test]
fn new_rejects_zero_construction_beam() {
    assert_eq!(
        HnswConfig::new(Metric::Cosine, 16, 0, 64, DEFAULT_SEED),
        Err(HnswConfigError::ZeroConstructionBeam)
    );
}

#[test]
fn new_rejects_zero_search_beam() {
    assert_eq!(
        HnswConfig::new(Metric::Cosine, 16, 200, 0, DEFAULT_SEED),
        Err(HnswConfigError::ZeroSearchBeam)
    );
}

#[test]
fn new_accepts_minimum_degree_and_exposes_it_via_accessors() {
    let cfg = HnswConfig::new(Metric::Cosine, 2, 200, 64, DEFAULT_SEED).expect("m = 2 is valid");
    assert_eq!(cfg.metric(), Metric::Cosine);
    assert_eq!(cfg.m(), 2);
    assert_eq!(cfg.ef_construction(), 200);
    assert_eq!(cfg.ef_search(), 64);
    assert_eq!(cfg.seed(), DEFAULT_SEED);
}

#[test]
fn next_u64_matches_independent_reference_seed_zero() {
    let mut rng = SplitMix64::new(0);
    assert_eq!(rng.next_u64(), 16_294_208_416_658_607_535_u64);
    assert_eq!(rng.next_u64(), 7_960_286_522_194_355_700_u64);
    assert_eq!(rng.next_u64(), 487_617_019_471_545_679_u64);
    assert_eq!(rng.next_u64(), 17_909_611_376_780_542_444_u64);
    assert_eq!(rng.next_u64(), 1_961_750_202_426_094_747_u64);
}

#[test]
fn next_u64_matches_independent_reference_seed_42() {
    let mut rng = SplitMix64::new(42);
    assert_eq!(rng.next_u64(), 13_679_457_532_755_275_413_u64);
    assert_eq!(rng.next_u64(), 2_949_826_092_126_892_291_u64);
    assert_eq!(rng.next_u64(), 5_139_283_748_462_763_858_u64);
    assert_eq!(rng.next_u64(), 6_349_198_060_258_255_764_u64);
    assert_eq!(rng.next_u64(), 701_532_786_141_963_250_u64);
}

#[test]
fn determinism_same_seed_same_sequence() {
    let mut rng_a = SplitMix64::new(0xDEAD_BEEF);
    let mut rng_b = SplitMix64::new(0xDEAD_BEEF);
    for _ in 0..20 {
        assert_eq!(rng_a.next_u64(), rng_b.next_u64());
    }
}

#[test]
fn restored_generator_continues_the_sequence() {
    let mut rng = SplitMix64::new(7);
    rng.next_u64();
    let mut restored = SplitMix64::from_state(rng.state());
    assert_eq!(rng.next_u64(), restored.next_u64());
}

#[test]
fn new_graph_is_empty() {
    let g = HnswGraph::new();
    assert_eq!(g.node_count(), 0);
    assert_eq!(g.live_count(), 0);
    assert!(g.entry_point().is_none());
}

#[test]
fn add_node_returns_sequential_indices() {
    let mut g = HnswGraph::new();
    let a = VectorId::new();
    let b = VectorId::new();
    let i0 = g.add_node(a, dim(2), 0).expect("a");
    let i1 = g.add_node(b, dim(2), 1).expect("b");
    assert_eq!(i0, 0);
    assert_eq!(i1, 1);
    assert_eq!(g.node_count(), 2);
    assert_eq!(g.live_count(), 2);
}

#[test]
fn add_node_rejects_duplicate_live_id() {
    let mut g = HnswGraph::new();
    let id = VectorId::new();
    g.add_node(id, dim(2), 0).expect("first");
    assert_eq!(g.add_node(id, dim(2), 0), Err(IndexError::DuplicateId(id)));
}

#[test]
fn add_node_rejects_a_dimension_other_than_the_first() {
    let mut g = HnswGraph::new();
    g.add_node(VectorId::new(), dim(2), 0).expect("first");
    assert_eq!(
        g.add_node(VectorId::new(), dim(3), 0),
        Err(IndexError::DimensionMismatch { expected: 2, got: 3 })
    );
    assert_eq!(g.node_count(), 1);
}

#[test]
fn tombstone_removes_from_live_map() {
    let mut g = HnswGraph::new();
    let id = VectorId::new();
    let idx = g.add_node(id, dim(2), 0).expect("add");
    assert!(g.tombstone(idx));
    assert!(g.is_tombstone(idx));
    assert_eq!(g.live_count(), 0);
    assert!(g.id_to_node(id).is_none());
    assert!(!g.tombstone(idx));
    assert!(!g.tombstone(99));
}

#[test]
fn reinsert_after_tombstone_creates_new_live_node() {
    let mut g = HnswGraph::new();
    let id = VectorId::new();
    let idx0 = g.add_node(id, dim(2), 0).expect("first");
    g.tombstone(idx0);
    let idx1 = g.add_node(id, dim(2), 1).expect("reinsert");
    assert_ne!(idx0, idx1);
    assert_eq!(g.live_count(), 1);
    assert_eq!(g.id_to_node(id), Some(idx1));
    assert!(g.is_tombstone(idx0));
}

#[test]
fn neighbors_set_and_get() {
    let mut g = HnswGraph::new();
    let a = g.add_node(VectorId::new(), dim(2), 1).expect("a");
    let b = g.add_node(VectorId::new(), dim(2), 0).expect("b");
    g.set_neighbors(a, 0, vec![b]);
    assert_eq!(g.neighbors(a, 0), &[b]);
    assert_eq!(g.neighbors(a, 1), &[] as &[usize]);
    g.set_neighbors(a, 5, vec![b]);
    assert_eq!(g.neighbors(a, 5), &[] as &[usize]);
    assert_eq!(g.neighbors(42, 0), &[] as &[usize]);
}

#[test]
fn node_level_reflects_construction() {
    let mut g = HnswGraph::new();
    let idx = g.add_node(VectorId::new(), dim(2), 3).expect("add");
    assert_eq!(g.node_level(idx), 3);
    assert_eq!(g.node_level(idx + 1), 0);
}

#[test]
fn live_nodes_lists_only_live_nodes_in_order() {
    let mut g = HnswGraph::new();
    let a = VectorId::new();
    let b = VectorId::new();
    let c = VectorId::new();
    g.add_node(a, dim(2), 0).expect("a");
    let ib = g.add_node(b, dim(2), 2).expect("b");
    g.add_node(c, dim(2), 1).expect("c");
    g.tombstone(ib);
    assert_eq!(g.live_nodes(), vec![(0, a, 0), (2, c, 1)]);
}

fn config() -> HnswConfig {
    HnswConfig { metric: Metric::Cosine, m: 4, ef_construction: 20, ef_search: 20, ..HnswConfig::default() }
}

#[test]
fn index_new_index_is_empty() {
    let index = HnswIndex::new(config(), dim(2));
    assert!(index.is_empty());
    assert_eq!(index.len(), 0);
    assert_eq!(index.metric(), Metric::Cosine);
    assert_eq!(index.dimension(), dim(2));
    assert_eq!(index.supported_metrics(), vec![Metric::Cosine]);
}

#[test]
fn check_insert_rejects_dimension_mismatch_then_duplicates() {
    let mut index = HnswIndex::new(config(), dim(3));
    assert_eq!(
        index.check_insert(VectorId::new(), dim(2)),
        Err(IndexError::DimensionMismatch { expected: 3, got: 2 })
    );
    let id = VectorId::new();
    index.add_node(id, dim(3), 0).expect("add");
    assert_eq!(index.check_insert(id, dim(3)), Err(IndexError::DuplicateId(id)));
    assert_eq!(index.check_insert(VectorId::new(), dim(3)), Ok(()));
}

#[test]
fn remove_tracked_reports_and_reelects_the_highest_level() {
    let mut index = HnswIndex::new(config(), dim(2));
    let a = VectorId::new();
    let b = VectorId::new();
    let c = VectorId::new();
    index.add_node(a, dim(2), 1).expect("a");
    index.add_node(b, dim(2), 2).expect("b");
    index.add_node(c, dim(2), 1).expect("c");
    index.set_entry_point(Some(1));
    let delta = index.remove_tracked(b).expect("ok").expect("live");
    assert_eq!(delta.touched_nodes, vec![1]);
    assert!(delta.entry_changed);
    assert_eq!(index.graph().entry_point(), Some(2));
    assert_eq!(index.len(), 2);
    assert!(index.remove_tracked(b).expect("ok").is_none());
    let delta = index.remove_tracked(a).expect("ok").expect("live");
    assert!(!delta.entry_changed);
    assert_eq!(index.graph().entry_point(), Some(2));
    let delta = index.remove_tracked(c).expect("ok").expect("live");
    assert!(delta.entry_changed);
    assert_eq!(index.graph().entry_point(), None);
}

#[test]
fn uuid_bytes_are_big_endian_and_round_trip() {
    let id = VectorId::from_u128(0x0102_0304_0506_0708_090a_0b0c_0d0e_0f10);
    let bytes = id_bytes(id);
    assert_eq!(bytes, [1, 2, 3, 4, 5, 6, 7, 8, 9, 10, 11, 12, 13, 14, 15, 16]);
    assert_eq!(id_from_bytes(&bytes), id);
}

fn sample_index() -> (HnswIndex, VectorId, VectorId) {
    let mut index = HnswIndex::new(config(), dim(2));
    let a = VectorId::new();
    let b = VectorId::new();
    index.next_random();
    index.add_node(a, dim(2), 1).expect("a");
    index.add_node(b, dim(2), 0).expect("b");
    index.set_neighbors(0, 0, vec![1]);
    index.set_neighbors(0, 1, vec![]);
    index.set_neighbors(1, 0, vec![0]);
    index.set_entry_point(Some(0));
    (index, a, b)
}

#[test]
fn node_snapshot_and_state_meta_describe_the_graph() {
    let (index, a, _) = sample_index();
    let node = index.node_snapshot(0).expect("node 0");
    assert_eq!(node.id_bytes, id_bytes(a));
    assert_eq!(node.level, 1);
    assert!(!node.tombstone);
    assert_eq!(node.neighbors_per_layer, vec![vec![1u64], vec![]]);
    assert!(index.node_snapshot(2).is_none());
    let mut rng = SplitMix64::new(config().seed);
    rng.next_u64();
    assert_eq!(index.state_meta(), (Some(0), 1, rng.state(), 2));
}

#[test]
fn snapshot_then_restore_is_exact() {
    let (mut index, _, b) = sample_index();
    index.remove_tracked(b).expect("ok");
    let snapshot = index.snapshot();
    assert_eq!(snapshot.live_count, 1);
    assert_eq!(snapshot.nodes.len(), 2);
    let dims = vec![Some(Ok(dim(2))), Some(Ok(dim(2)))];
    let restored = HnswIndex::from_snapshot(config(), dim(2), &snapshot, &dims).expect("restore");
    assert_eq!(restored.snapshot(), snapshot);
    assert_eq!(restored.len(), 1);
}

#[test]
fn restore_reports_the_first_faulty_node() {
    let (index, _, _) = sample_index();
    let snapshot = index.snapshot();
    let missing = vec![Some(Ok(dim(2))), None];
    match HnswIndex::from_snapshot(config(), dim(2), &snapshot, &missing) {
        Err(e) => assert_eq!(e, IndexError::Backend("missing embedding for node 1".to_string())),
        Ok(_) => panic!("a missing embedding must fail"),
    }
    let invalid = vec![Some(Err(IndexError::EmptyEmbedding)), None];
    match HnswIndex::from_snapshot(config(), dim(2), &snapshot, &invalid) {
        Err(e) => assert_eq!(e, IndexError::EmptyEmbedding),
        Ok(_) => panic!("an invalid embedding must fail"),
    }
    let mismatched = vec![Some(Ok(dim(2))), Some(Ok(dim(3)))];
    match HnswIndex::from_snapshot(config(), dim(2), &snapshot, &mismatched) {
        Err(e) => assert_eq!(e, IndexError::DimensionMismatch { expected: 2, got: 3 }),
        Ok(_) => panic!("a dimension mismatch must fail"),
    }
    let mut duplicated = snapshot.clone();
    duplicated.nodes[1].id_bytes = duplicated.nodes[0].id_bytes;
    let dims = vec![Some(Ok(dim(2))), Some(Ok(dim(2)))];
    match HnswIndex::from_snapshot(config(), dim(2), &duplicated, &dims) {
        Err(IndexError::DuplicateId(id)) => assert_eq!(id_bytes(id), snapshot.nodes[0].id_bytes),
        _ => panic!("a duplicate live id must fail"),
    }
}
