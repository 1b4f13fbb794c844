use eidosdb::dimension::Dimension;
use eidosdb::errors::IndexError;
use eidosdb::flat_index::FlatIndex;
use eidosdb::hnsw_config::HnswConfig;
use eidosdb::hnsw_index::{HnswIndex, InsertDelta};
use eidosdb::hnsw_graph::HnswGraph;
use eidosdb::hnsw_search::{beam_search, f32_greater, greedy_descent, select_neighbors_heuristic};
use eidosdb::metric::Metric;
use eidosdb::ranking::{f32_order_key, f64_order_key, f64_positive, rank_scored_ids, rank_top_k};
use eidosdb::vector_id::VectorId;

fn dot(a: &[f32], b: &[f32]) -> f32 {
    a.iter().zip(b).map(|(x, y)| x * y).sum()
}

fn score(metric: Metric, a: &[f32], b: &[f32]) -> f32 {
    match metric {
        Metric::Cosine => {
            let na = dot(a, a).sqrt();
            let nb = dot(b, b).sqrt();
            if na == 0.0 || nb == 0.0 {
                0.0
            } else {
                dot(a, b) / (na * nb)
            }
        }
        Metric::DotProduct => dot(a, b),
        Metric::Euclidean => {
            -a.iter().zip(b).map(|(x, y)| (x - y) * (x - y)).sum::<f32>().sqrt()
        }
    }
}

fn level_for(draw: u64, m: usize) -> usize {
    let u = (draw.wrapping_add(1)) as f64 / (u64::MAX as f64 + 1.0);
    let m_l = 1.0 / (m as f64).ln();
    (-u.ln() * m_l).floor() as usize
}

struct Hnsw {
    index: HnswIndex,
    embeddings: Vec<Vec<f32>>,
}

impl Hnsw {
    fn new(config: HnswConfig, dimension: usize) -> Hnsw {
        Hnsw { index: HnswIndex::new(config, Dimension::new(dimension).expect("dimension")), embeddings: Vec::new() }
    }

    fn insert(&mut self, id: VectorId, values: &[f32]) -> Result<(), IndexError> {
        self.insert_delta(id, values).map(|_| ())
    }

    fn insert_delta(&mut self, id: VectorId, values: &[f32]) -> Result<InsertDelta, IndexError> {
        let dimension = Dimension::new(values.len()).expect("non-empty");
        self.embeddings.push(values.to_vec());
        let metric = self.index.metric();
        let m = self.index.config().m;
        let Hnsw { index, embeddings } = self;
        let stored = |n: usize| -> &[f32] { embeddings.get(n).map(|e| e.as_slice()).unwrap_or(&[]) };
        let query = values.to_vec();
        let by_query = |n: usize| score(metric, &query, stored(n)).to_bits();
        let pair = |a: usize, b: usize| score(metric, stored(a), stored(b)).to_bits();
        let level_of = |draw: u64| level_for(draw, m);
        match index.insert_tracked(id, dimension, &level_of, &by_query, &pair) {
            Ok(delta) => Ok(delta),
            Err(e) => {
                embeddings.pop();
                Err(e)
            }
        }
    }

    fn search_with(&self, values: &[f32], k: usize, metric: Metric) -> Result<Vec<(VectorId, f32)>, IndexError> {
        let dimension = Dimension::new(values.len()).expect("non-empty");
        let stored = |n: usize| -> &[f32] { self.embeddings.get(n).map(|e| e.as_slice()).unwrap_or(&[]) };
        let by_query = |n: usize| score(self.index.metric(), values, stored(n)).to_bits();
        let hits = self.index.search_filtered(dimension, k, metric, &by_query, &|_id: VectorId| true)?;
        Ok(hits.into_iter().map(|(bits, _, id)| (id, f32::from_bits(bits))).collect())
    }

    fn search(&self, values: &[f32], k: usize) -> Result<Vec<(VectorId, f32)>, IndexError> {
        self.search_with(values, k, self.index.metric())
    }

    fn remove(&mut self, id: VectorId) -> Result<bool, IndexError> {
        self.index.remove_tracked(id).map(|d| d.is_some())
    }

    fn compact(&mut self) -> Result<(), IndexError> {
        let live: Vec<Vec<f32>> =
            self.index.graph().live_nodes().into_iter().map(|(idx, _, _)| self.embeddings[idx].clone()).collect();
        let metric = self.index.metric();
        let m = self.index.config().m;
        let stored = |n: usize| -> &[f32] { live.get(n).map(|e| e.as_slice()).unwrap_or(&[]) };
        let by_row = |k: usize, n: usize| score(metric, stored(k), stored(n)).to_bits();
        let pair = |a: usize, b: usize| score(metric, stored(a), stored(b)).to_bits();
        let level_of = |draw: u64| level_for(draw, m);
        self.index.compact(&level_of, &by_row, &pair)?;
        self.embeddings = live;
        Ok(())
    }
}

struct Flat {
    index: FlatIndex,
    embeddings: Vec<Vec<f32>>,
}

impl Flat {
    fn new(metric: Metric, dimension: usize) -> Flat {
        Flat { index: FlatIndex::new(metric, Dimension::new(dimension).expect("dimension")), embeddings: Vec::new() }
    }

    fn insert(&mut self, id: VectorId, values: &[f32]) -> Result<(), IndexError> {
        self.index.insert(id, Dimension::new(values.len()).expect("non-empty"))?;
        self.embeddings.push(values.to_vec());
        Ok(())
    }

    fn remove(&mut self, id: VectorId) -> Result<bool, IndexError> {
        match self.index.remove(id) {
            Some(p) => {
                self.embeddings.remove(p);
                Ok(true)
            }
            None => Ok(false),
        }
    }

    fn search(&self, values: &[f32], k: usize) -> Result<Vec<(VectorId, f32)>, IndexError> {
        self.index.check_query(Dimension::new(values.len()).expect("non-empty"))?;
        let bits: Vec<Option<u32>> =
            self.embeddings.iter().map(|e| Some(score(self.index.metric(), values, e).to_bits())).collect();
        Ok(self.index.rank(&bits, k).into_iter().map(|(id, b)| (id, f32::from_bits(b))).collect())
    }
}

fn config() -> HnswConfig {
    HnswConfig { metric: Metric::Cosine, m: 4, ef_construction: 20, ef_search: 20, ..HnswConfig::default() }
}

#[test]
fn flat_new_index_is_empty() {
    let index = Flat::new(Metric::Cosine, 2);
    assert!(index.index.is_empty());
    assert_eq!(index.index.len(), 0);
}

#[test]
fn flat_insert_rejects_dimension_mismatch() {
    let mut index = Flat::new(Metric::Cosine, 3);
    assert_eq!(
        index.insert(VectorId::new(), &[1.0, 0.0]),
        Err(IndexError::DimensionMismatch { expected: 3, got: 2 })
    );
}

#[test]
fn insert_rejects_duplicate_id() {
    let mut index = Flat::new(Metric::Cosine, 2);
    let id = VectorId::new();
    index.insert(id, &[1.0, 0.0]).expect("first insert");
    assert_eq!(index.insert(id, &[0.0, 1.0]), Err(IndexError::DuplicateId(id)));
}

#[test]
fn remove_reports_presence() {
    let mut index = Flat::new(Metric::Cosine, 2);
    let id = VectorId::new();
    index.insert(id, &[1.0, 0.0]).expect("insert");
    assert_eq!(index.remove(id), Ok(true));
    assert_eq!(index.remove(id), Ok(false));
    assert!(index.index.is_empty());
}

#[test]
fn search_rejects_dimension_mismatch() {
    let index = Flat::new(Metric::Cosine, 3);
    assert_eq!(index.search(&[1.0, 0.0], 1), Err(IndexError::DimensionMismatch { expected: 3, got: 2 }));
}

#[test]
fn search_returns_closest_first() {
    let mut index = Flat::new(Metric::Cosine, 2);
    let near = VectorId::new();
    let far = VectorId::new();
    index.insert(near, &[1.0, 0.0]).expect("insert near");
    index.insert(far, &[-1.0, 0.0]).expect("insert far");
    let results = index.search(&[1.0, 0.0], 2).expect("search");
    assert_eq!(results.len(), 2);
    assert_eq!(results[0].0, near);
    assert_eq!(results[1].0, far);
}

#[test]
fn search_truncates_to_k() {
    let mut index = Flat::new(Metric::Euclidean, 1);
    for value in [0.0_f32, 1.0, 2.0, 3.0] {
        index.insert(VectorId::new(), &[value]).expect("insert");
    }
    let results = index.search(&[0.0], 2).expect("search");
    assert_eq!(results.len(), 2);
}

#[test]
fn a_vector_is_its_own_nearest_neighbor() {
    let mut index = Flat::new(Metric::Euclidean, 3);
    let target = VectorId::new();
    index.insert(target, &[0.5, 0.5, 0.5]).expect("insert target");
    for _ in 0..10 {
        index.insert(VectorId::new(), &[1.0, 1.0, 1.0]).expect("insert noise");
    }
    let results = index.search(&[0.5, 0.5, 0.5], 1).expect("search");
    assert_eq!(results[0].0, target);
}

#[test]
fn flat_equal_scores_rank_by_ascending_id() {
    let mut index = Flat::new(Metric::DotProduct, 1);
    let ids: Vec<VectorId> = (0..3).map(|i| VectorId::from_u128(10 - i)).collect();
    for id in &ids {
        index.insert(*id, &[1.0]).expect("insert");
    }
    let results = index.search(&[2.0], 3).expect("search");
    let order: Vec<VectorId> = results.iter().map(|r| r.0).collect();
    assert_eq!(order, vec![VectorId::from_u128(8), VectorId::from_u128(9), VectorId::from_u128(10)]);
}

#[test]
fn index_insert_rejects_dimension_mismatch() {
    let mut index = Hnsw::new(config(), 3);
    assert_eq!(
        index.insert(VectorId::new(), &[1.0, 0.0]),
        Err(IndexError::DimensionMismatch { expected: 3, got: 2 })
    );
}

#[test]
fn insert_rejects_duplicate_live_id() {
    let mut index = Hnsw::new(config(), 2);
    let id = VectorId::new();
    index.insert(id, &[1.0, 0.0]).expect("first");
    assert_eq!(index.insert(id, &[0.0, 1.0]), Err(IndexError::DuplicateId(id)));
}

#[test]
fn search_unsupported_metric_is_rejected() {
    let mut index = Hnsw::new(config(), 2);
    index.insert(VectorId::new(), &[1.0, 0.0]).expect("insert");
    assert_eq!(
        index.search_with(&[1.0, 0.0], 1, Metric::Euclidean),
        Err(IndexError::UnsupportedMetric(Metric::Euclidean))
    );
}

#[test]
fn supported_metrics_contains_only_config_metric() {
    let index = Hnsw::new(config(), 2);
    assert_eq!(index.index.supported_metrics(), vec![Metric::Cosine]);
}

#[test]
fn search_empty_index_returns_empty() {
    let index = Hnsw::new(config(), 2);
    let results = index.search(&[1.0, 0.0], 10).expect("search");
    assert!(results.is_empty());
}

#[test]
fn single_insert_is_its_own_nearest_neighbor() {
    let mut index = Hnsw::new(config(), 2);
    let id = VectorId::new();
    index.insert(id, &[1.0, 0.0]).expect("insert");
    let results = index.search(&[1.0, 0.0], 1).expect("search");
    assert_eq!(results.len(), 1);
    assert_eq!(results[0].0, id);
}

#[test]
fn nearest_neighbor_matches_flat_oracle_small_corpus() {
    let cfg = HnswConfig { metric: Metric::Cosine, m: 4, ef_construction: 40, ef_search: 40, seed: 0 };
    let mut hnsw = Hnsw::new(cfg, 2);
    let mut flat = Flat::new(Metric::Cosine, 2);
    let points: Vec<(VectorId, Vec<f32>)> = (0..20)
        .map(|i| {
            let angle = (i as f32) * std::f32::consts::PI / 10.0;
            (VectorId::new(), vec![angle.cos(), angle.sin()])
        })
        .collect();
    for (id, e) in &points {
        hnsw.insert(*id, e).expect("hnsw insert");
        flat.insert(*id, e).expect("flat insert");
    }
    let hnsw_results = hnsw.search(&[1.0, 0.0], 3).expect("hnsw search");
    let flat_results = flat.search(&[1.0, 0.0], 3).expect("flat search");
    assert_eq!(hnsw_results[0].0, flat_results[0].0);
}

#[test]
fn remove_returns_true_for_live_id_false_otherwise() {
    let mut index = Hnsw::new(config(), 2);
    let id = VectorId::new();
    index.insert(id, &[1.0, 0.0]).expect("insert");
    assert_eq!(index.remove(id), Ok(true));
    assert_eq!(index.index.len(), 0);
    assert_eq!(index.remove(id), Ok(false));
}

#[test]
fn tombstone_not_returned_in_search() {
    let mut index = Hnsw::new(config(), 2);
    let keep = VectorId::new();
    let drop = VectorId::new();
    index.insert(keep, &[1.0, 0.0]).expect("keep");
    index.insert(drop, &[1.0, 0.0]).expect("drop");
    index.remove(drop).expect("remove");
    let results = index.search(&[1.0, 0.0], 10).expect("search");
    assert!(results.iter().all(|r| r.0 != drop));
}

#[test]
fn len_excludes_tombstones() {
    let mut index = Hnsw::new(config(), 2);
    let id = VectorId::new();
    index.insert(id, &[1.0, 0.0]).expect("insert");
    assert_eq!(index.index.len(), 1);
    index.remove(id).expect("remove");
    assert_eq!(index.index.len(), 0);
}

#[test]
fn reinsert_tombstoned_id_succeeds() {
    let mut index = Hnsw::new(config(), 2);
    let id = VectorId::new();
    index.insert(id, &[1.0, 0.0]).expect("first");
    index.remove(id).expect("remove");
    index.insert(id, &[0.5, 0.5]).expect("reinsert");
    assert_eq!(index.index.len(), 1);
    let results = index.search(&[0.5, 0.5], 1).expect("search");
    assert_eq!(results[0].0, id);
}

#[test]
fn compact_preserves_live_results() {
    let cfg = HnswConfig { m: 4, ef_construction: 40, ef_search: 40, ..HnswConfig::default() };
    let mut index = Hnsw::new(cfg, 2);
    let keep = VectorId::new();
    let drop = VectorId::new();
    index.insert(keep, &[1.0, 0.0]).expect("keep");
    index.insert(drop, &[0.0, 1.0]).expect("drop");
    index.remove(drop).expect("remove");
    index.compact().expect("compact");
    assert_eq!(index.index.len(), 1);
    let results = index.search(&[1.0, 0.0], 10).expect("search");
    assert_eq!(results.len(), 1);
    assert_eq!(results[0].0, keep);
}

#[test]
fn ties_broken_by_ascending_id() {
    let cfg = HnswConfig { m: 4, ef_construction: 40, ef_search: 40, ..HnswConfig::default() };
    let mut index = Hnsw::new(cfg, 2);
    let mut flat = Flat::new(Metric::Cosine, 2);
    let first = VectorId::new();
    let second = VectorId::new();
    for id in [first, second] {
        index.insert(id, &[1.0, 0.0]).expect("insert");
        flat.insert(id, &[1.0, 0.0]).expect("flat insert");
    }
    let h = index.search(&[1.0, 0.0], 2).expect("hnsw");
    let f = flat.search(&[1.0, 0.0], 2).expect("flat");
    assert_eq!(h[0].0, f[0].0);
    assert_eq!(h[1].0, f[1].0);
}

#[test]
fn flat_ties_rank_by_ascending_id_whatever_the_insertion_order() {
    let mut flat = Flat::new(Metric::Cosine, 2);
    let lo = VectorId::from_u128(1);
    let hi = VectorId::from_u128(2);
    flat.insert(hi, &[1.0, 0.0]).expect("hi");
    flat.insert(lo, &[1.0, 0.0]).expect("lo");
    let f = flat.search(&[1.0, 0.0], 2).expect("flat");
    assert_eq!(f[0].0, lo);
    assert_eq!(f[1].0, hi);
    let mut index = Hnsw::new(config(), 2);
    index.insert(hi, &[1.0, 0.0]).expect("hi");
    index.insert(lo, &[1.0, 0.0]).expect("lo");
    let h = index.search(&[1.0, 0.0], 2).expect("hnsw");
    assert_eq!(h[0].0, f[0].0);
    assert_eq!(h[1].0, f[1].0);
}

#[test]
fn select_neighbors_heuristic_prefers_directional_diversity() {
    let base = [1.0_f32, 0.0, 0.0];
    let embeddings: Vec<Vec<f32>> = vec![vec![0.9, 0.436, 0.0], vec![0.85, 0.527, 0.0], vec![0.0, 0.0, 1.0]];
    let (na, nb, nc) = (0usize, 1usize, 2usize);
    let (id_a, id_b, id_c) = (VectorId::new(), VectorId::new(), VectorId::new());
    let metric = Metric::Cosine;
    let mut candidates = vec![
        (score(metric, &base, &embeddings[na]).to_bits(), na, id_a),
        (score(metric, &base, &embeddings[nb]).to_bits(), nb, id_b),
        (score(metric, &base, &embeddings[nc]).to_bits(), nc, id_c),
    ];
    candidates.sort_by(|a, b| f32::from_bits(b.0).total_cmp(&f32::from_bits(a.0)).then_with(|| a.2.cmp(&b.2)));
    let pair = |a: usize, b: usize| score(metric, &embeddings[a], &embeddings[b]).to_bits();
    let selected = select_neighbors_heuristic(&candidates, &pair, 2);
    assert!(selected.contains(&na), "A (closest) must be selected");
    assert!(selected.contains(&nc), "C (diverse direction) must be selected");
    assert!(!selected.contains(&nb), "B (redundant with A) must be rejected");
}

#[test]
fn float_keys_follow_total_cmp() {
    let values = [f32::NEG_INFINITY, -1.5, -0.0, 0.0, 1e-30, 2.0, f32::INFINITY];
    for pair in values.windows(2) {
        assert!(f32_order_key(pair[0].to_bits()) < f32_order_key(pair[1].to_bits()));
    }
    let doubles = [f64::NEG_INFINITY, -3.0, -0.0, 0.0, 0.25, f64::INFINITY];
    for pair in doubles.windows(2) {
        assert!(f64_order_key(pair[0].to_bits()) < f64_order_key(pair[1].to_bits()));
    }
    assert_eq!(f32_order_key(0.0f32.to_bits()), 0);
    assert_eq!(f32_order_key((-0.0f32).to_bits()), -1);
}

#[test]
fn float_greater_matches_the_float_operator() {
    let values = [f32::NEG_INFINITY, -2.0, -0.0, 0.0, 0.5, 3.0, f32::INFINITY, f32::NAN];
    for a in values {
        for b in values {
            assert_eq!(f32_greater(a.to_bits(), b.to_bits()), a > b, "{a} > {b}");
        }
    }
    for x in [0.0f64, -0.0, 1.0, -1.0, f64::NAN, f64::INFINITY, f64::MIN_POSITIVE] {
        assert_eq!(f64_positive(x.to_bits()), x > 0.0, "{x}");
    }
}

#[test]
fn rank_top_k_orders_by_score_then_tie_key() {
    let items = vec![(5i64, 3u128, 'a'), (9, 7, 'b'), (5, 1, 'c'), (-2, 0, 'd'), (9, 2, 'e')];
    let ranked = rank_top_k(items.clone(), 3);
    let labels: Vec<char> = ranked.iter().map(|x| x.2).collect();
    assert_eq!(labels, vec!['e', 'b', 'c']);
    assert!(rank_top_k(items.clone(), 0).is_empty());
    assert_eq!(rank_top_k(items, 10).len(), 5);
}

#[test]
fn rank_scored_ids_breaks_ties_by_ascending_id() {
    let a = VectorId::from_u128(1);
    let b = VectorId::from_u128(2);
    let c = VectorId::from_u128(3);
    let entries = vec![(c, 0.5f64.to_bits()), (b, 0.75f64.to_bits()), (a, 0.5f64.to_bits())];
    let ranked = rank_scored_ids(&entries, 10);
    let order: Vec<VectorId> = ranked.iter().map(|e| e.0).collect();
    assert_eq!(order, vec![b, a, c]);
    assert_eq!(rank_scored_ids(&entries, 1).len(), 1);
}

#[test]
fn flat_rank_skips_positions_without_a_score() {
    let mut index = FlatIndex::new(Metric::DotProduct, Dimension::new(1).expect("dimension"));
    let ids: Vec<VectorId> = (1..=3).map(VectorId::from_u128).collect();
    for id in &ids {
        index.insert(*id, Dimension::new(1).expect("dimension")).expect("insert");
    }
    let scores = vec![Some(1.0f32.to_bits()), None, Some(3.0f32.to_bits())];
    let ranked = index.rank(&scores, 5);
    assert_eq!(ranked, vec![(ids[2], 3.0f32.to_bits()), (ids[0], 1.0f32.to_bits())]);
}

fn chain_graph(len: usize) -> HnswGraph {
    let mut g = HnswGraph::new();
    for i in 0..len {
        g.add_node(VectorId::from_u128(100 + i as u128), Dimension::new(1).expect("dimension"), 0).expect("add");
    }
    for i in 0..len {
        let mut links = Vec::new();
        if i > 0 {
            links.push(i - 1);
        }
        if i + 1 < len {
            links.push(i + 1);
        }
        g.set_neighbors(i, 0, links);
    }
    g
}

#[test]
fn greedy_descent_climbs_to_a_local_best() {
    let g = chain_graph(5);
    let scores = [0.1f32, 0.2, 0.9, 0.3, 0.8];
    let by_query = |n: usize| scores.get(n).copied().unwrap_or(f32::NEG_INFINITY).to_bits();
    assert_eq!(greedy_descent(&g, &by_query, 0, 0, 0), 2);
    assert_eq!(greedy_descent(&g, &by_query, 4, 0, 0), 4);
}

#[test]
fn beam_search_keeps_the_best_reachable_live_nodes() {
    let mut g = chain_graph(5);
    g.tombstone(3);
    let scores = [0.1f32, 0.2, 0.9, 0.95, 0.8];
    let by_query = |n: usize| scores.get(n).copied().unwrap_or(f32::NEG_INFINITY).to_bits();
    let all = |_id: VectorId| true;
    let hits = beam_search(&g, &by_query, 0, 2, 0, &all);
    let nodes: Vec<usize> = hits.iter().map(|c| c.1).collect();
    assert_eq!(nodes, vec![2, 4]);
    let only_low = |id: VectorId| id.as_u128() < 102;
    let hits = beam_search(&g, &by_query, 0, 5, 0, &only_low);
    let nodes: Vec<usize> = hits.iter().map(|c| c.1).collect();
    assert_eq!(nodes, vec![1, 0]);
}

#[test]
fn insertion_keeps_degrees_within_bounds_and_reports_rows() {
    let cfg = HnswConfig { metric: Metric::Euclidean, m: 2, ef_construction: 8, ef_search: 8, seed: 7 };
    let mut index = Hnsw::new(cfg, 2);
    for i in 0..40 {
        let x = (i % 7) as f32;
        let y = (i / 7) as f32;
        index.insert(VectorId::from_u128(i + 1), &[x, y]).expect("insert");
    }
    let graph = index.index.graph();
    for node in 0..graph.node_count() {
        for layer in 0..=graph.node_level(node) {
            let bound = if layer == 0 { 4 } else { 2 };
            assert!(graph.neighbors(node, layer).len() <= bound, "node {node} layer {layer}");
        }
    }
    assert_eq!(index.index.len(), 40);
    let results = index.search(&[3.0, 2.0], 1).expect("search");
    assert_eq!(results[0].0, VectorId::from_u128(3 + 2 * 7 + 1));
}

#[test]
fn insert_tracked_reports_the_new_node_first_in_an_empty_index() {
    let mut index = HnswIndex::new(config(), Dimension::new(2).expect("dimension"));
    let by_query = |_n: usize| 1.0f32.to_bits();
    let pair = |_a: usize, _b: usize| 1.0f32.to_bits();
    let level_of = |_d: u64| 0usize;
    let delta = index
        .insert_tracked(VectorId::from_u128(5), Dimension::new(2).expect("dimension"), &level_of, &by_query, &pair)
        .expect("insert");
    assert_eq!(delta.new_node_idx, 0);
    assert_eq!(delta.touched_nodes, vec![0]);
    assert!(delta.entry_changed);
    assert_eq!(index.graph().entry_point(), Some(0));
}

#[test]
fn same_seed_and_order_build_the_same_graph() {
    let cfg = HnswConfig { metric: Metric::Cosine, m: 3, ef_construction: 10, ef_search: 10, seed: 99 };
    let points: Vec<(VectorId, Vec<f32>)> = (0..25)
        .map(|i| {
            let angle = (i as f32) * 0.7;
            (VectorId::from_u128(1000 + i), vec![angle.cos(), angle.sin(), (i % 3) as f32])
        })
        .collect();
    let mut a = Hnsw::new(cfg, 3);
    let mut b = Hnsw::new(cfg, 3);
    for (id, e) in &points {
        a.insert(*id, e).expect("a");
        b.insert(*id, e).expect("b");
    }
    assert_eq!(a.index.snapshot(), b.index.snapshot());
}

fn seeded_config() -> HnswConfig {
    HnswConfig { metric: Metric::Cosine, m: 16, ef_construction: 200, ef_search: 64, seed: 0 }
}

#[test]
fn insert_reports_the_touched_nodes_and_the_new_entry() {
    let mut index = Hnsw::new(seeded_config(), 2);
    let first = index.insert_delta(VectorId::from_u128(1), &[1.0, 0.0]).expect("first");
    assert_eq!(first.new_node_idx, 0);
    assert_eq!(first.touched_nodes, vec![0]);
    assert!(first.entry_changed);
    index.insert_delta(VectorId::from_u128(2), &[0.0, 1.0]).expect("second");
    let third = index.insert_delta(VectorId::from_u128(3), &[1.0, 1.0]).expect("third");
    assert_eq!(third.new_node_idx, 2);
    assert_eq!(third.touched_nodes, vec![0, 1, 2]);
    assert!(third.entry_changed);
    let meta = index.index.state_meta();
    assert_eq!(meta.0, Some(2));
    assert_eq!(meta.1, 1);
    assert_eq!(index.index.len(), 3);
}

#[test]
fn touched_nodes_ascend_and_never_pass_the_new_node() {
    let mut index = Hnsw::new(config(), 3);
    for i in 0..40u128 {
        let x = (i as f32 * 0.37).sin();
        let y = (i as f32 * 0.11).cos();
        let delta = index.insert_delta(VectorId::from_u128(i + 1), &[x, y, 0.5]).expect("insert");
        assert_eq!(delta.new_node_idx, i as u64);
        assert!(delta.touched_nodes.windows(2).all(|w| w[0] < w[1]));
        assert!(delta.touched_nodes.iter().all(|&t| t <= delta.new_node_idx));
        assert!(delta.touched_nodes.contains(&delta.new_node_idx));
    }
}

#[test]
fn same_seed_same_insertion_order_builds_the_same_graph() {
    let mut a = Hnsw::new(config(), 2);
    let mut b = Hnsw::new(config(), 2);
    for i in 0..30u128 {
        let p = [(i as f32 * 0.7).sin(), (i as f32 * 0.3).cos()];
        let da = a.insert_delta(VectorId::from_u128(i + 10), &p).expect("a");
        let db = b.insert_delta(VectorId::from_u128(i + 10), &p).expect("b");
        assert_eq!(da.touched_nodes, db.touched_nodes);
        assert_eq!(da.entry_changed, db.entry_changed);
    }
    assert_eq!(a.index.snapshot(), b.index.snapshot());
}

#[test]
fn a_restored_index_inserts_exactly_as_its_source() {
    let mut source = Hnsw::new(config(), 2);
    for i in 0..25u128 {
        let p = [(i as f32 * 0.5).cos(), (i as f32 * 0.9).sin()];
        source.insert(VectorId::from_u128(i + 1), &p).expect("insert");
    }
    source.remove(VectorId::from_u128(3)).expect("remove");
    let snapshot = source.index.snapshot();
    let dims: Vec<Option<Result<Dimension, IndexError>>> =
        (0..snapshot.nodes.len()).map(|_| Some(Ok(Dimension::new(2).expect("dimension")))).collect();
    let restored_index = HnswIndex::from_snapshot(config(), Dimension::new(2).expect("dimension"), &snapshot, &dims).expect("restore");
    let mut restored = Hnsw { index: restored_index, embeddings: source.embeddings.clone() };
    assert_eq!(restored.index.snapshot(), snapshot);
    let p = [0.3, -0.8];
    let ds = source.insert_delta(VectorId::from_u128(100), &p).expect("source");
    let dr = restored.insert_delta(VectorId::from_u128(100), &p).expect("restored");
    assert_eq!(ds.new_node_idx, dr.new_node_idx);
    assert_eq!(ds.touched_nodes, dr.touched_nodes);
    assert_eq!(ds.entry_changed, dr.entry_changed);
    assert_eq!(source.index.snapshot(), restored.index.snapshot());
}

#[test]
fn search_on_a_graph_built_by_inserts_always_succeeds() {
    let mut index = Hnsw::new(config(), 2);
    for i in 0..20u128 {
        index.insert(VectorId::from_u128(i + 1), &[(i as f32).sin(), (i as f32).cos()]).expect("insert");
    }
    index.remove(VectorId::from_u128(5)).expect("remove");
    let hits = index.search(&[1.0, 0.0], 5).expect("search");
    assert_eq!(hits.len(), 5);
    assert!(hits.iter().all(|(id, _)| *id != VectorId::from_u128(5)));
}

#[test]
fn compaction_equals_a_fresh_build_of_the_live_points() {
    let mut index = Hnsw::new(config(), 2);
    let mut points = Vec::new();
    for i in 0..30u128 {
        let p = vec![(i as f32 * 0.4).sin(), (i as f32 * 0.6).cos()];
        index.insert(VectorId::from_u128(i + 1), &p).expect("insert");
        points.push((VectorId::from_u128(i + 1), p));
    }
    for i in [2u128, 7, 8, 20] {
        assert!(index.remove(VectorId::from_u128(i + 1)).expect("remove"));
    }
    index.compact().expect("compact");
    let mut fresh = Hnsw::new(config(), 2);
    for (i, (id, p)) in points.iter().enumerate() {
        if ![2usize, 7, 8, 20].contains(&i) {
            fresh.insert(*id, p).expect("fresh insert");
        }
    }
    assert_eq!(index.index.snapshot(), fresh.index.snapshot());
    assert_eq!(index.index.len(), 26);
}

#[test]
fn compaction_is_idempotent_and_leaves_an_untouched_index_alone() {
    let mut index = Hnsw::new(config(), 2);
    for i in 0..25u128 {
        index.insert(VectorId::from_u128(i + 1), &[(i as f32 * 0.9).sin(), (i as f32 * 0.2).cos()]).expect("insert");
    }
    let before = index.index.snapshot();
    index.compact().expect("compact untouched");
    assert_eq!(index.index.snapshot(), before);
    index.remove(VectorId::from_u128(4)).expect("remove");
    index.compact().expect("compact");
    let once = index.index.snapshot();
    index.compact().expect("compact again");
    assert_eq!(index.index.snapshot(), once);
}
