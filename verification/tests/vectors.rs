//! Exact and graph indexes: inserting, searching, deleting, recall.

use std::collections::{HashMap, HashSet};

use quorvec::distance::{is_below, rank_of, Metric, NOT_A_NUMBER};
use quorvec::graph::{greedy_search_layer, search_layer, Node};
use quorvec::hnsw::{level_for, HnswIndex, HnswParams, SplitMix64, Violation, DEFAULT_SEED, UNIT};
use quorvec::index::{BruteForceIndex, IndexError, VectorIndex};

type Kernel = fn(Metric, &[u32], &[u32]) -> u32;

fn kernel(m: Metric, a: &[u32], b: &[u32]) -> u32 {
    let mut dot = 0.0f32;
    let mut na = 0.0f32;
    let mut nb = 0.0f32;
    let mut sq = 0.0f32;
    for (x, y) in a.iter().zip(b.iter()) {
        let x = f32::from_bits(*x);
        let y = f32::from_bits(*y);
        match m {
            Metric::L2 => {
                let d = x - y;
                sq += d * d;
            }
            Metric::Cosine => {
                dot += x * y;
                na += x * x;
                nb += y * y;
            }
        }
    }
    match m {
        Metric::L2 => sq.to_bits(),
        Metric::Cosine => {
            let denom = na.sqrt() * nb.sqrt();
            if denom == 0.0 {
                1.0f32.to_bits()
            } else {
                (1.0 - dot / denom).to_bits()
            }
        }
    }
}

const KERNEL: Kernel = kernel;

fn bits(v: &[f32]) -> Vec<u32> {
    v.iter().map(|x| x.to_bits()).collect()
}

fn ids(r: &[(u64, u32)]) -> Vec<u64> {
    r.iter().map(|(id, _)| *id).collect()
}

fn deterministic_vecs(n: usize, dim: usize, seed: u64) -> Vec<Vec<u32>> {
    let mut rng = SplitMix64::new(seed);
    (0..n)
        .map(|_| {
            (0..dim)
                .map(|_| {
                    let unit = rng.next_unit() as f64 / UNIT as f64;
                    ((unit as f32) * 2.0 - 1.0).to_bits()
                })
                .collect()
        })
        .collect()
}

#[test]
fn insert_search_delete_roundtrip() {
    let mut idx = BruteForceIndex::new(3, Metric::L2, KERNEL);
    idx.insert(1, &bits(&[0.0, 0.0, 0.0])).unwrap();
    idx.insert(2, &bits(&[1.0, 0.0, 0.0])).unwrap();
    idx.insert(3, &bits(&[5.0, 5.0, 5.0])).unwrap();
    assert_eq!(idx.len(), 3);

    let res = idx.search(&bits(&[0.0, 0.0, 0.0]), 2, 64).unwrap();
    assert_eq!(res.len(), 2);
    assert_eq!(res[0].0, 1);
    assert_eq!(res[1].0, 2);

    assert!(idx.delete(1));
    assert!(!idx.delete(1));
    assert_eq!(idx.len(), 2);

    let res = idx.search(&bits(&[0.0, 0.0, 0.0]), 2, 64).unwrap();
    assert_eq!(res[0].0, 2);
    assert!(res.iter().all(|(id, _)| *id != 1));
}

#[test]
fn replace_existing_id() {
    let mut idx = BruteForceIndex::new(2, Metric::L2, KERNEL);
    idx.insert(7, &bits(&[0.0, 0.0])).unwrap();
    idx.insert(7, &bits(&[9.0, 9.0])).unwrap();
    assert_eq!(idx.len(), 1);
    let res = idx.search(&bits(&[9.0, 9.0]), 1, 64).unwrap();
    assert_eq!(res[0].0, 7);
    assert!(f32::from_bits(res[0].1).abs() < 1e-6);
}

#[test]
fn dim_mismatch_errors() {
    let mut idx = BruteForceIndex::new(3, Metric::L2, KERNEL);
    assert_eq!(
        idx.insert(1, &bits(&[0.0, 0.0])),
        Err(IndexError::DimMismatch { expected: 3, got: 2 })
    );
    assert_eq!(
        idx.search(&bits(&[0.0, 0.0]), 1, 64).unwrap_err(),
        IndexError::DimMismatch { expected: 3, got: 2 }
    );
}

#[test]
fn free_slot_reuse() {
    let mut idx = BruteForceIndex::new(2, Metric::L2, KERNEL);
    idx.insert(1, &bits(&[1.0, 1.0])).unwrap();
    idx.insert(2, &bits(&[2.0, 2.0])).unwrap();
    idx.delete(1);
    idx.insert(3, &bits(&[3.0, 3.0])).unwrap();
    assert_eq!(idx.len(), 2);
    let res = idx.search(&bits(&[3.0, 3.0]), 2, 64).unwrap();
    assert_eq!(res[0].0, 3);
}

#[test]
fn basic_insert_search() {
    let mut idx = HnswIndex::new(3, Metric::L2, KERNEL);
    idx.insert(1, &bits(&[0.0, 0.0, 0.0])).unwrap();
    idx.insert(2, &bits(&[1.0, 0.0, 0.0])).unwrap();
    idx.insert(3, &bits(&[9.0, 9.0, 9.0])).unwrap();
    assert_eq!(idx.len(), 3);

    let res = idx.search(&bits(&[0.0, 0.0, 0.0]), 2, 64).unwrap();
    assert_eq!(res[0].0, 1);
    assert_eq!(res[1].0, 2);
}

#[test]
fn delete_skips_in_results_and_get() {
    let mut idx = HnswIndex::new(2, Metric::L2, KERNEL);
    for i in 0..20u64 {
        idx.insert(i, &bits(&[i as f32, 0.0])).unwrap();
    }
    assert!(idx.delete(0));
    assert!(!idx.delete(0));
    assert_eq!(idx.len(), 19);

    let res = idx.search(&bits(&[0.0, 0.0]), 5, 64).unwrap();
    assert!(res.iter().all(|(id, _)| *id != 0), "tombstone returned");
    assert!(idx.get_vector(0).is_none());
}

#[test]
fn replace_revives_and_overwrites() {
    let mut idx = HnswIndex::new(2, Metric::L2, KERNEL);
    idx.insert(5, &bits(&[0.0, 0.0])).unwrap();
    idx.delete(5);
    assert_eq!(idx.len(), 0);
    idx.insert(5, &bits(&[3.0, 4.0])).unwrap();
    assert_eq!(idx.len(), 1);
    assert_eq!(idx.get_vector(5).unwrap(), bits(&[3.0, 4.0]));
}

#[test]
fn recall_vs_bruteforce_small() {
    let dim = 16;
    let n = 2000;
    let vecs = deterministic_vecs(n, dim, 0xABCDEF);

    let mut hnsw = HnswIndex::new(dim, Metric::L2, KERNEL);
    let mut oracle = BruteForceIndex::new(dim, Metric::L2, KERNEL);
    for (i, v) in vecs.iter().enumerate() {
        hnsw.insert(i as u64, v).unwrap();
        oracle.insert(i as u64, v).unwrap();
    }

    let queries = deterministic_vecs(50, dim, 0x123456);
    let mut hits = 0usize;
    let mut total = 0usize;
    for q in &queries {
        let h = ids(&hnsw.search(q, 10, 64).unwrap());
        let o = ids(&oracle.search(q, 10, 64).unwrap());
        for id in &h {
            if o.contains(id) {
                hits += 1;
            }
        }
        total += o.len();
    }
    let recall = hits as f64 / total as f64;
    assert!(recall >= 0.95, "unit recall@10 = {recall} (< 0.95)");
}

struct Rng(u64);

impl Rng {
    fn next_u64(&mut self) -> u64 {
        self.0 = self.0.wrapping_add(0x9E37_79B9_7F4A_7C15);
        let mut z = self.0;
        z = (z ^ (z >> 30)).wrapping_mul(0xBF58_476D_1CE4_E5B9);
        z = (z ^ (z >> 27)).wrapping_mul(0x94D0_49BB_1331_11EB);
        z ^ (z >> 31)
    }
    fn unit(&mut self) -> f32 {
        ((self.next_u64() >> 11) as f32) / ((1u64 << 53) as f32)
    }
    fn uniform_vec(&mut self, dim: usize) -> Vec<f32> {
        (0..dim).map(|_| self.unit() * 2.0 - 1.0).collect()
    }
    fn gauss(&mut self) -> f32 {
        let u1 = self.unit().max(1e-7);
        let u2 = self.unit();
        (-2.0 * u1.ln()).sqrt() * (std::f32::consts::TAU * u2).cos()
    }
    fn clustered(&mut self, dim: usize, centers: &[Vec<f32>]) -> Vec<u32> {
        let ci = (self.next_u64() as usize) % centers.len();
        (0..dim)
            .map(|d| (centers[ci][d] + self.gauss() * 0.35).to_bits())
            .collect()
    }
}

const DIM: usize = 128;
const N: usize = 10_000;
const QUERIES: usize = 100;
const K: usize = 10;
const EF_SEARCH: usize = 64;
const CLUSTERS: usize = 50;

fn build() -> (HnswIndex<Kernel>, BruteForceIndex<Kernel>, Vec<Vec<u32>>) {
    let mut center_rng = Rng(0xCE07_0000_0000_0001);
    let centers: Vec<Vec<f32>> = (0..CLUSTERS).map(|_| center_rng.uniform_vec(DIM)).collect();

    let mut data_rng = Rng(0x9111_2222_3333_4444);
    let mut hnsw = HnswIndex::new(DIM, Metric::L2, KERNEL);
    let mut oracle = BruteForceIndex::new(DIM, Metric::L2, KERNEL);
    for i in 0..N {
        let v = data_rng.clustered(DIM, &centers);
        hnsw.insert(i as u64, &v).unwrap();
        oracle.insert(i as u64, &v).unwrap();
    }
    let mut q_rng = Rng(0xAAAA_BBBB_CCCC_DDDD);
    let queries: Vec<Vec<u32>> = (0..QUERIES)
        .map(|_| q_rng.clustered(DIM, &centers))
        .collect();
    (hnsw, oracle, queries)
}

#[test]
fn recall_at_10_meets_threshold() {
    let (hnsw, oracle, queries) = build();
    assert_eq!(hnsw.len(), N);

    let mut hits = 0usize;
    let mut total = 0usize;
    for q in &queries {
        let h = ids(&hnsw.search(q, K, EF_SEARCH).unwrap());
        let o = ids(&oracle.search(q, K, EF_SEARCH).unwrap());
        for id in &h {
            if o.contains(id) {
                hits += 1;
            }
        }
        total += o.len();
    }
    let recall = hits as f64 / total as f64;
    assert!(
        recall >= 0.95,
        "recall@10 = {recall:.4} is below the 0.95 acceptance threshold"
    );
}

type Image = (
    (usize, u8, usize, usize, usize),
    Vec<(u64, Vec<u32>, Vec<Vec<u32>>)>,
    HashMap<u64, u32>,
    Vec<bool>,
    usize,
    Option<u32>,
    u64,
);

fn image_of(idx: &HnswIndex<Kernel>) -> Image {
    let metric = match idx.metric {
        Metric::L2 => 0u8,
        Metric::Cosine => 1u8,
    };
    (
        (idx.dim, metric, idx.params.m, idx.params.m0, idx.params.ef_construction),
        idx.nodes
            .iter()
            .map(|n| (n.id, n.vector.clone(), n.neighbors.clone()))
            .collect(),
        idx.id_to_node.clone(),
        idx.deleted.clone(),
        idx.live,
        idx.entry_point,
        idx.rng.state,
    )
}

fn index_of(image: Image) -> HnswIndex<Kernel> {
    let ((dim, metric, m, m0, ef_construction), nodes, id_to_node, deleted, live, entry_point, state) =
        image;
    HnswIndex {
        dim,
        metric: if metric == 0 { Metric::L2 } else { Metric::Cosine },
        params: HnswParams { m, m0, ef_construction },
        nodes: nodes
            .into_iter()
            .map(|(id, vector, neighbors)| Node { id, vector, neighbors })
            .collect(),
        id_to_node,
        deleted,
        live,
        entry_point,
        rng: SplitMix64 { state },
        kernel: KERNEL,
    }
}

#[test]
fn serialization_roundtrip_bit_identical_results() {
    let (hnsw, _oracle, queries) = build();

    let bytes = bincode::serialize(&image_of(&hnsw)).expect("serialize");
    let image: Image = bincode::deserialize(&bytes).expect("deserialize");
    let restored = index_of(image);
    assert!(restored.is_well_formed());

    assert_eq!(restored.len(), hnsw.len());
    assert_eq!(restored.total_nodes(), hnsw.total_nodes());

    for q in &queries {
        let a = hnsw.search(q, K, EF_SEARCH).unwrap();
        let b = restored.search(q, K, EF_SEARCH).unwrap();
        assert_eq!(a.len(), b.len(), "result length differs after roundtrip");
        for (x, y) in a.iter().zip(b.iter()) {
            assert_eq!(x.0, y.0, "id differs after roundtrip");
            assert_eq!(x.1, y.1, "score bits differ after roundtrip");
        }
    }
}

#[test]
fn invariants_hold_under_random_ops() {
    let dim = 8;
    let mut rng = Rng(77);
    for _case in 0..16 {
        let mut idx = HnswIndex::new(dim, Metric::L2, KERNEL);
        let mut live: HashSet<u64> = HashSet::new();
        let count = 1 + (rng.next_u64() % 200) as usize;
        for _ in 0..count {
            let id = rng.next_u64() % 64;
            if rng.next_u64() % 4 < 3 {
                let v: Vec<u32> = (0..dim).map(|_| (rng.unit() * 20.0 - 10.0).to_bits()).collect();
                idx.insert(id, &v).unwrap();
                live.insert(id);
            } else {
                assert_eq!(idx.delete(id), live.remove(&id));
            }
            assert_eq!(idx.validate_invariants(), Ok(()));
        }
        assert!(idx.is_well_formed());
        assert_eq!(idx.len(), live.len());
        assert_eq!(idx.is_empty(), live.is_empty());

        let res = idx.search(&bits(&[0.0; 8]), 10, 64).unwrap();
        assert!(res.len() <= 10);
        for (id, _score) in &res {
            assert!(live.contains(id), "search returned non-live id {}", id);
        }
        for id in 0u64..64 {
            assert_eq!(idx.get_vector(id).is_some(), live.contains(&id));
        }
    }
}

#[test]
fn broad_search_agrees_with_the_exact_index() {
    let dim = 4;
    let vecs = deterministic_vecs(300, dim, 9);
    let mut hnsw = HnswIndex::new(dim, Metric::Cosine, KERNEL);
    let mut oracle = BruteForceIndex::new(dim, Metric::Cosine, KERNEL);
    for (i, v) in vecs.iter().enumerate() {
        hnsw.insert(i as u64, v).unwrap();
        oracle.insert(i as u64, v).unwrap();
    }
    for q in deterministic_vecs(10, dim, 10) {
        let h = hnsw.search(&q, 5, 400).unwrap();
        let o = oracle.search(&q, 5, 0).unwrap();
        let scores = |r: &[(u64, u32)]| r.iter().map(|(_, s)| *s).collect::<Vec<u32>>();
        assert_eq!(scores(&h), scores(&o));
    }
}

#[test]
fn equal_scores_come_in_id_order() {
    let mut idx = BruteForceIndex::new(1, Metric::L2, KERNEL);
    for id in [9u64, 4, 7, 1] {
        idx.insert(id, &bits(&[1.0])).unwrap();
    }
    assert_eq!(ids(&idx.search(&bits(&[0.0]), 3, 0).unwrap()), vec![1, 4, 7]);
    assert_eq!(idx.dim(), 1);
    assert_eq!(idx.metric(), Metric::L2);
    assert!(!idx.is_empty());
}

#[test]
fn graph_index_refuses_other_dimensions() {
    let mut idx = HnswIndex::new(3, Metric::L2, KERNEL);
    assert_eq!(
        idx.insert(1, &bits(&[0.0])),
        Err(IndexError::DimMismatch { expected: 3, got: 1 })
    );
    assert_eq!(
        idx.search(&bits(&[0.0, 1.0]), 1, 1),
        Err(IndexError::DimMismatch { expected: 3, got: 2 })
    );
    assert_eq!(idx.search(&bits(&[0.0, 1.0, 2.0]), 1, 1), Ok(vec![]));
    assert_eq!(idx.total_nodes(), 0);
}

#[test]
fn ranks_follow_the_numbers() {
    let ordered = [f32::NEG_INFINITY, -3.5, -1.0, 0.0, 1e-30, 2.0, f32::INFINITY];
    for w in ordered.windows(2) {
        assert!(rank_of(w[0].to_bits()) < rank_of(w[1].to_bits()));
    }
    assert_eq!(rank_of((-0.0f32).to_bits()), rank_of(0.0f32.to_bits()));
    let nan = rank_of(f32::NAN.to_bits());
    assert_eq!(nan, NOT_A_NUMBER);
    assert_eq!(rank_of((-f32::NAN).to_bits()), NOT_A_NUMBER);
    for x in ordered {
        let r = rank_of(x.to_bits());
        assert!(!is_below(nan, r) && !is_below(r, nan));
        assert!(!is_below(r, r));
    }
    assert!(is_below(rank_of(1.0f32.to_bits()), rank_of(2.0f32.to_bits())));
    assert!(!is_below(nan, nan));
}

/// Three nodes of one component on one layer, each linked to the others.
fn three_nodes(a: f32, b: f32, c: f32) -> Vec<Node> {
    let node = |id: u64, x: f32, links: &[u32]| Node {
        id,
        vector: bits(&[x]),
        neighbors: vec![links.to_vec()],
    };
    vec![node(10, a, &[1, 2]), node(11, b, &[0, 2]), node(12, c, &[0, 1])]
}

#[test]
fn a_distance_that_is_not_a_number_is_never_less() {
    let nodes = three_nodes(f32::NAN, 5.0, 1.0);
    let q = bits(&[0.0]);
    assert_eq!(greedy_search_layer(&KERNEL, Metric::L2, &nodes, &q, 0, 0), 0);
    assert_eq!(greedy_search_layer(&KERNEL, Metric::L2, &nodes, &q, 1, 0), 2);
    // Neither node is nearer than node 0, so by index it comes first and stays.
    let found = search_layer(&KERNEL, Metric::L2, &nodes, &q, 0, 2, 0);
    let kept: HashSet<u32> = found.iter().map(|f| f.1).collect();
    assert_eq!(kept, HashSet::from([0, 2]));
    // As node 2 it comes last: it is given up for nothing, and nothing else gets in.
    let nodes = three_nodes(5.0, 1.0, f32::NAN);
    let found = search_layer(&KERNEL, Metric::L2, &nodes, &q, 2, 2, 0);
    let kept: HashSet<u32> = found.iter().map(|f| f.1).collect();
    assert_eq!(kept, HashSet::from([0, 2]));

    let mut exact = BruteForceIndex::new(1, Metric::L2, KERNEL);
    exact.insert(4, &bits(&[2.0])).unwrap();
    exact.insert(2, &bits(&[f32::NAN])).unwrap();
    exact.insert(3, &bits(&[1.0])).unwrap();
    assert_eq!(ids(&exact.search(&q, 1, 0).unwrap()), vec![2]);
    assert_eq!(ids(&exact.search(&q, 5, 0).unwrap()), vec![2, 3, 4]);
}

#[test]
fn levels_are_logarithms() {
    assert_eq!(level_for(UNIT, 16), 0);
    assert_eq!(level_for(UNIT / 16 + 1, 16), 0);
    assert_eq!(level_for(UNIT / 16, 16), 1);
    assert_eq!(level_for(UNIT / 256, 16), 2);
    assert_eq!(level_for(1, 16), 13);
    let mut rng = SplitMix64::new(DEFAULT_SEED);
    for _ in 0..1000 {
        let u = rng.next_unit();
        let expected = (-(u as f64 / UNIT as f64).ln() / 16f64.ln()).floor() as usize;
        assert_eq!(level_for(u, 16), expected);
    }
}

#[test]
fn split_mix_yields_its_known_numbers() {
    let mut rng = SplitMix64::new(0);
    assert_eq!(rng.next_u64(), 0xE220_A839_7B1D_CDAF);
    assert_eq!(rng.next_u64(), 0x6E78_9E6A_A1B9_65F4);
}

#[test]
fn violations_are_reported() {
    let build = || {
        let mut idx = HnswIndex::new(1, Metric::L2, KERNEL);
        for i in 0..5u64 {
            idx.insert(i, &bits(&[i as f32])).unwrap();
        }
        idx
    };
    let mut idx = build();
    idx.entry_point = Some(9);
    assert_eq!(
        idx.validate_invariants(),
        Err(Violation::EntryOutOfRange { entry: 9, nodes: 5 })
    );
    assert!(!idx.is_well_formed());
    idx.entry_point = None;
    assert_eq!(idx.validate_invariants(), Err(Violation::EntryMissing));
    let mut idx = build();
    idx.id_to_node.remove(&2);
    assert_eq!(
        idx.validate_invariants(),
        Err(Violation::IdMismatch { node: 2, id: 2 })
    );
    let mut idx = build();
    idx.nodes[1].neighbors[0] = vec![0; 33];
    assert_eq!(
        idx.validate_invariants(),
        Err(Violation::Degree { node: 1, layer: 0, degree: 33, bound: 32 })
    );
    idx.nodes[1].neighbors[0] = vec![70];
    assert_eq!(
        idx.validate_invariants(),
        Err(Violation::Dangling { node: 1, layer: 0, neighbor: 70 })
    );
    idx.nodes[1].neighbors[0] = vec![1];
    assert_eq!(
        idx.validate_invariants(),
        Err(Violation::SelfLoop { node: 1, layer: 0 })
    );
    idx.nodes[1].neighbors[0] = vec![0, 1, 70];
    idx.nodes[0].neighbors[0] = vec![70];
    assert_eq!(
        idx.validate_invariants().unwrap_err().message(),
        "node 0 layer 0 has dangling neighbor 70"
    );
    assert_eq!(
        Violation::Degree { node: 1, layer: 2, degree: 33, bound: 32 }.message(),
        "node 1 layer 2 degree 33 exceeds m_max 32"
    );
    assert_eq!(
        Violation::EntryOutOfRange { entry: 9, nodes: 5 }.message(),
        "entry_point 9 out of range (5 nodes)"
    );
    assert_eq!(Violation::EntryMissing.message(), "entry_point is None but nodes exist");
    assert_eq!(
        Violation::IdMismatch { node: 2, id: 7 }.message(),
        "id_to_node inconsistent for node 2 (id 7)"
    );
    assert_eq!(
        Violation::SelfLoop { node: 1, layer: 0 }.message(),
        "node 1 layer 0 is its own neighbor"
    );
    assert_eq!(
        Violation::LiveCount { live: 4, counted: 5 }.message(),
        "live count 4 != non-tombstoned nodes 5"
    );
    let mut idx = build();
    idx.live = 4;
    assert_eq!(
        idx.validate_invariants(),
        Err(Violation::LiveCount { live: 4, counted: 5 })
    );
}

#[test]
fn degree_stats_cover_layer_zero() {
    let mut idx = HnswIndex::new(1, Metric::L2, KERNEL);
    assert_eq!(idx.layer0_degree_stats(), (0, 0, 0));
    for i in 0..3u64 {
        idx.insert(i, &bits(&[i as f32])).unwrap();
    }
    let degrees: Vec<usize> = idx.nodes.iter().map(|n| n.neighbors[0].len()).collect();
    let sum: usize = degrees.iter().sum();
    assert_eq!(
        idx.layer0_degree_stats(),
        (*degrees.iter().min().unwrap(), *degrees.iter().max().unwrap(), sum as u128)
    );
    assert!(sum > 0);
}
