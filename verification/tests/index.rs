use vcal_core::math::measure;
use vcal_core::{Hnsw, HnswBuilder, Metric, SerGraph, SerIndex, SerNode, VcalError};

#[derive(Clone, Copy)]
struct Cosine;

impl Metric for Cosine {
    fn distance(&self, a: &[u32], b: &[u32]) -> u32 {
        let (mut dot, mut na, mut nb) = (0.0_f32, 0.0_f32, 0.0_f32);
        for i in 0..a.len() {
            let x = f32::from_bits(a[i]);
            let y = f32::from_bits(b[i]);
            dot += x * y;
            na += x * x;
            nb += y * y;
        }
        if na == 0.0 || nb == 0.0 {
            return 1.0_f32.to_bits();
        }
        let denom = (na.sqrt() * nb.sqrt()).max(1e-12);
        let cos = (dot / denom).max(-1.0).min(1.0);
        (1.0 - cos).to_bits()
    }
}

#[derive(Clone, Copy)]
struct Dot;

impl Metric for Dot {
    fn distance(&self, a: &[u32], b: &[u32]) -> u32 {
        let mut dot = 0.0_f32;
        for i in 0..a.len() {
            dot += f32::from_bits(a[i]) * f32::from_bits(b[i]);
        }
        (1.0 - dot).to_bits()
    }
}

/// Squared Euclidean distance: separates parallel vectors of different length.
#[derive(Clone, Copy)]
struct Euclid;

impl Metric for Euclid {
    fn distance(&self, a: &[u32], b: &[u32]) -> u32 {
        let mut sum = 0.0_f32;
        for i in 0..a.len() {
            let d = f32::from_bits(a[i]) - f32::from_bits(b[i]);
            sum += d * d;
        }
        sum.to_bits()
    }
}

fn bits(v: &[f32]) -> Vec<u32> {
    v.iter().map(|x| x.to_bits()).collect()
}

fn dist(hit: (u64, u32)) -> f32 {
    f32::from_bits(hit.1)
}

fn unit(dims: usize, axis: usize) -> Vec<u32> {
    let mut v = vec![0.0_f32; dims];
    v[axis] = 1.0;
    bits(&v)
}

fn ids(hits: &[(u64, u32)]) -> Vec<u64> {
    let mut out: Vec<u64> = hits.iter().map(|h| h.0).collect();
    out.sort();
    out
}

#[test]
fn smoke_insert_search() {
    let mut h = HnswBuilder::new(Cosine).dims(16).build();
    h.insert(bits(&[1.0; 16]), 1).unwrap();
    let res = h.search(&bits(&[1.0; 16]), 1).unwrap();
    assert_eq!(res[0].0, 1);
}

#[test]
fn snapshot_roundtrip() {
    let mut h = HnswBuilder::new(Cosine).dims(8).build();
    h.insert(bits(&[0.5; 8]), 7).unwrap();
    let snap = h.to_snapshot();
    let mut h2 = Hnsw::from_snapshot(snap, Cosine).unwrap();
    assert_eq!(h2.search(&bits(&[0.5; 8]), 1).unwrap()[0].0, 7);
}

#[test]
fn search_with_ef_compiles_and_runs() {
    let mut h = HnswBuilder::new(Cosine).dims(8).ef_search(8).build();
    h.insert(bits(&[1.0; 8]), 1).unwrap();
    let hits = h.search_with_ef(&bits(&[1.0; 8]), 1, 32).unwrap();
    assert_eq!(hits[0].0, 1);
}

#[test]
fn search_k_zero_returns_empty() {
    let mut h = HnswBuilder::new(Cosine).dims(4).build();
    h.insert(bits(&[1.0; 4]), 1).unwrap();
    let hits = h.search_with_ef(&bits(&[1.0; 4]), 0, 8).unwrap();
    assert!(hits.is_empty());
}

#[test]
fn orthogonal_axes_find_their_own() {
    let mut h = HnswBuilder::new(Cosine).dims(4).build();
    for axis in 0..4 {
        h.insert(unit(4, axis), axis as u64 + 1).unwrap();
    }
    let hits = h.search(&unit(4, 0), 1).unwrap();
    assert_eq!(hits.len(), 1);
    assert_eq!(hits[0].0, 1);
    assert!(dist(hits[0]).abs() < 1e-6);
}

#[test]
fn single_vector_is_its_own_neighbour() {
    let mut h = HnswBuilder::new(Cosine).dims(16).build();
    h.insert(bits(&[1.0; 16]), 1).unwrap();
    let hits = h.search(&bits(&[1.0; 16]), 1).unwrap();
    assert_eq!(hits[0].0, 1);
    assert!(dist(hits[0]).abs() < 1e-6);
}

#[test]
fn deleted_vector_is_not_found() {
    let mut h = HnswBuilder::new(Cosine).dims(4).build();
    for i in 1..=100u64 {
        h.insert(bits(&[i as f32; 4]), i).unwrap();
    }
    assert!(h.delete(50));
    assert!(!h.contains(50));
    assert_eq!(h.len(), 99);
    let hits = h.search(&bits(&[50.0; 4]), 3).unwrap();
    assert!(!hits.is_empty());
    assert!(hits.iter().all(|hit| hit.0 != 50));
}

#[test]
fn lru_eviction_keeps_capacity_and_accounts_bytes() {
    let mut h = HnswBuilder::new(Euclid).dims(8).build();
    for i in 0..10u64 {
        h.insert_at(bits(&[i as f32; 8]), i, 0, 100 + i).unwrap();
    }
    assert!(h.total_bytes() > 0);
    assert_eq!(h.total_bytes(), h.graph().recount_bytes());
    let (evicted, zero) = h.evict_lru_until(Some(5), None);
    assert_eq!((evicted, zero), (5, 0));
    assert_eq!(h.len(), 5);
    assert_eq!(h.total_bytes(), h.graph().recount_bytes());
    // The five oldest are gone, the five youngest remain.
    for i in 0..5u64 {
        assert!(!h.contains(i));
    }
    for i in 5..10u64 {
        assert!(h.contains(i));
    }
}

#[test]
fn lru_eviction_within_capacity_changes_nothing() {
    let mut h = HnswBuilder::new(Euclid).dims(2).build();
    h.insert(bits(&[1.0, 2.0]), 1).unwrap();
    h.insert(bits(&[2.0, 1.0]), 2).unwrap();
    let bytes = h.total_bytes();
    assert_eq!(h.evict_lru_until(Some(2), None), (0, 0));
    assert_eq!(h.evict_lru_until(None, Some(bytes)), (0, 0));
    assert_eq!(h.evict_lru_until(None, None), (0, 0));
    assert_eq!(h.len(), 2);
    assert_eq!(h.total_bytes(), bytes);
}

#[test]
fn lru_eviction_by_bytes_stops_when_under_the_cap() {
    let mut h = HnswBuilder::new(Euclid).dims(4).build();
    for i in 0..6u64 {
        h.insert_at(bits(&[i as f32; 4]), i, 0, 10 + i).unwrap();
    }
    let cap = h.total_bytes() / 2;
    let (evicted, _) = h.evict_lru_until(None, Some(cap));
    assert!(evicted >= 1);
    assert!(h.total_bytes() <= cap);
    assert_eq!(h.len(), 6 - evicted);
    assert!(!h.contains(0));
    assert_eq!(h.total_bytes(), h.graph().recount_bytes());
}

#[test]
fn lru_eviction_can_empty_the_index() {
    let mut h = HnswBuilder::new(Euclid).dims(2).build();
    h.insert(bits(&[1.0, 2.0]), 1).unwrap();
    h.insert(bits(&[2.0, 1.0]), 2).unwrap();
    assert_eq!(h.evict_lru_until(Some(0), None), (2, 0));
    assert_eq!(h.len(), 0);
    assert_eq!(h.total_bytes(), 0);
    assert!(h.search(&bits(&[1.0, 2.0]), 1).unwrap().is_empty());
}

#[test]
fn snapshot_keeps_vectors_links_and_parameters() {
    let mut h = HnswBuilder::new(Euclid).dims(2).m(4).ef_search(9).ef_construction(11).build();
    h.insert_at(bits(&[0.0, 0.0]), 10, 0, 5).unwrap();
    h.insert_at(bits(&[1.0, 0.0]), 20, 0, 6).unwrap();
    h.insert_at(bits(&[0.0, 1.0]), 30, 0, 7).unwrap();
    assert!(h.delete(20));
    let snap = h.to_snapshot();
    assert_eq!((snap.dims, snap.m, snap.ef, snap.efc), (2, 4, 9, Some(11)));
    assert_eq!(snap.graph.nodes.len(), 2);
    assert_eq!(snap.graph.nodes[0].ext_id, 10);
    assert_eq!(snap.graph.nodes[0].vec, bits(&[0.0, 0.0]));
    assert_eq!(snap.graph.nodes[0].last_hit, Some(5));
    assert_eq!(snap.graph.nodes[1].ext_id, 30);
    assert_eq!(snap.graph.nodes[1].last_hit, Some(7));
    // The links are written in the dense numbering of the snapshot.
    assert_eq!(snap.graph.nodes[0].links, vec![vec![1usize]]);
    assert_eq!(snap.graph.nodes[1].links, vec![vec![0usize]]);
    let mut h2 = Hnsw::from_snapshot(snap, Euclid).unwrap();
    assert_eq!(h2.params_full(), (4, 9, 11));
    assert_eq!(h2.dims(), 2);
    assert_eq!(h2.len(), 2);
    let hits = h2.search(&bits(&[0.0, 0.9]), 2).unwrap();
    assert_eq!(hits.iter().map(|x| x.0).collect::<Vec<u64>>(), vec![30, 10]);
}

#[test]
fn snapshot_round_trip_keeps_the_index() {
    let mut h = HnswBuilder::new(Euclid).dims(2).m(3).build();
    for i in 0..30u64 {
        h.insert_at(bits(&[(i % 6) as f32, (i / 6) as f32]), 100 + i, (i % 3) as usize, 1000 + i).unwrap();
    }
    for i in [3u64, 4, 11, 29] {
        assert!(h.delete(100 + i));
    }
    let snap = h.to_snapshot();
    let mut h2 = Hnsw::from_snapshot_at(snap, Euclid, 5).unwrap();
    assert_eq!(h2.len(), h.len());
    assert_eq!(h2.params_full(), h.params_full());
    assert_eq!(h2.dims(), h.dims());
    for i in 0..30u64 {
        assert_eq!(h2.contains(100 + i), h.contains(100 + i));
    }
    let again = h2.to_snapshot();
    let first = h.to_snapshot();
    assert_eq!(again.graph.nodes.len(), first.graph.nodes.len());
    for (a, b) in again.graph.nodes.iter().zip(first.graph.nodes.iter()) {
        assert_eq!(a.ext_id, b.ext_id);
        assert_eq!(a.vec, b.vec);
        assert_eq!(a.last_hit, b.last_hit);
        assert_eq!(a.links.len(), b.links.len());
        for (x, y) in a.links.iter().zip(b.links.iter()) {
            let mut y = y.clone();
            y.sort();
            assert_eq!(x, &y);
        }
    }
    assert_eq!(h2.total_bytes(), h2.graph().recount_bytes());
}

#[test]
fn a_builder_written_by_hand_is_clamped_too() {
    let b = HnswBuilder { dims: Some(2), m: 0, ef_construction: 0, ef_search: 0, metric: Dot };
    let h = b.build();
    assert_eq!(h.params_full(), (2, 1, 1));
}

#[test]
fn empty_index_and_wrong_dimension_are_errors() {
    let mut h = HnswBuilder::new(Cosine).dims(8).build();
    assert!(matches!(h.search(&bits(&[1.0; 8]), 1), Err(VcalError::EmptyIndex)));
    // The empty index is reported before the dimension is looked at.
    assert!(matches!(h.search(&bits(&[1.0; 4]), 1), Err(VcalError::EmptyIndex)));
    match h.insert(bits(&[1.0; 4]), 1) {
        Err(VcalError::DimensionMismatch { expected, found }) => {
            assert_eq!((expected, found), (8, 4));
        }
        _ => panic!("a vector of the wrong dimension was accepted"),
    }
    assert_eq!(h.len(), 0);
    h.insert(bits(&[1.0; 8]), 1).unwrap();
    match h.search(&bits(&[1.0; 3]), 1) {
        Err(VcalError::DimensionMismatch { expected, found }) => {
            assert_eq!((expected, found), (8, 3));
        }
        _ => panic!("a query of the wrong dimension was accepted"),
    }
}

#[test]
fn search_on_an_emptied_index_is_empty_not_an_error() {
    let mut h = HnswBuilder::new(Cosine).dims(2).build();
    h.insert(bits(&[1.0, 0.0]), 1).unwrap();
    assert!(h.delete(1));
    assert!(h.search(&bits(&[1.0, 0.0]), 1).unwrap().is_empty());
}

#[test]
fn error_messages() {
    let e = VcalError::DimensionMismatch { expected: 8, found: 4 };
    assert_eq!(e.message(), "dimension mismatch: expected 8, got 4");
    assert_eq!(VcalError::EmptyIndex.message(), "index is empty");
    assert_eq!(VcalError::Serialize("boom".to_string()).message(), "serialization error: boom");
}

#[test]
fn insert_then_delete_restores_the_index() {
    let mut h = HnswBuilder::new(Euclid).dims(2).build();
    h.insert(bits(&[1.0, 1.0]), 1).unwrap();
    h.insert(bits(&[2.0, 2.0]), 2).unwrap();
    let len = h.len();
    h.insert(bits(&[3.0, 3.0]), 9).unwrap();
    assert!(h.contains(9));
    assert!(h.delete(9));
    assert!(!h.contains(9));
    assert_eq!(h.len(), len);
    assert!(!h.delete(9));
    assert_eq!(h.len(), len);
    assert_eq!(h.total_bytes(), h.graph().recount_bytes());
}

#[test]
fn reinsert_replaces_the_vector() {
    let mut h = HnswBuilder::new(Euclid).dims(2).build();
    h.insert(bits(&[0.0, 0.0]), 1).unwrap();
    h.insert(bits(&[10.0, 10.0]), 2).unwrap();
    h.insert(bits(&[5.0, 5.0]), 1).unwrap();
    assert_eq!(h.len(), 2);
    let snap = h.to_snapshot();
    let mine: Vec<&SerNode> = snap.graph.nodes.iter().filter(|n| n.ext_id == 1).collect();
    assert_eq!(mine.len(), 1);
    assert_eq!(mine[0].vec, bits(&[5.0, 5.0]));
    let hits = h.search(&bits(&[5.0, 5.0]), 1).unwrap();
    assert_eq!(hits[0].0, 1);
    assert_eq!(dist(hits[0]), 0.0);
    let hits = h.search(&bits(&[0.0, 0.0]), 2).unwrap();
    assert_eq!(hits.iter().map(|x| x.0).collect::<Vec<u64>>(), vec![1, 2]);
    assert_eq!(dist(hits[0]), 50.0);
}

#[test]
fn wide_search_returns_every_vector() {
    let mut h = HnswBuilder::new(Euclid).dims(2).build();
    let n = 40u64;
    for i in 0..n {
        h.insert(bits(&[(i % 8) as f32, (i / 8) as f32]), i).unwrap();
    }
    let hits = h.search_with_ef(&bits(&[3.0, 2.0]), n as usize, n as usize).unwrap();
    assert_eq!(ids(&hits), (0..n).collect::<Vec<u64>>());
    // Closest first, with the exact distances.
    assert_eq!(hits[0].0, 19);
    assert_eq!(dist(hits[0]), 0.0);
    for w in hits.windows(2) {
        assert!(dist(w[0]) <= dist(w[1]));
    }
}

#[test]
fn cosine_of_a_vector_with_itself_is_zero() {
    for v in [vec![1.0_f32, 2.0, 3.0], vec![-0.5, 0.25, 4.0], vec![1e-3, 1e3, -7.0]] {
        let d = f32::from_bits(measure(&Cosine, &bits(&v), &bits(&v)));
        assert!(d.abs() < 1e-6);
    }
    let zero = f32::from_bits(measure(&Cosine, &bits(&[0.0, 0.0]), &bits(&[1.0, 0.0])));
    assert_eq!(zero, 1.0);
    let dot = f32::from_bits(measure(&Dot, &bits(&[0.5, 0.5]), &bits(&[1.0, 1.0])));
    assert_eq!(dot, 0.0);
}

#[test]
fn touched_vector_survives_the_sweep() {
    let mut h = HnswBuilder::new(Euclid).dims(2).build();
    h.insert_at(bits(&[1.0, 1.0]), 1, 0, 100).unwrap();
    h.insert_at(bits(&[2.0, 2.0]), 2, 0, 100).unwrap();
    h.touch_many(&[1], 500);
    assert_eq!(h.evict_ttl_at(0, 500), (1, 0));
    assert!(h.contains(1));
    assert!(!h.contains(2));
}

#[test]
fn ttl_sweep_evicts_exactly_the_expired() {
    let mut h = HnswBuilder::new(Euclid).dims(2).build();
    h.insert_at(bits(&[1.0, 1.0]), 1, 0, 100).unwrap();
    h.insert_at(bits(&[2.0, 2.0]), 2, 1, 150).unwrap();
    h.insert_at(bits(&[3.0, 3.0]), 3, 0, 200).unwrap();
    h.insert_at(bits(&[4.0, 4.0]), 4, 0, 900).unwrap();
    // At 260 with a time to live of 100: 100 is expired (160 > 100), 150 is
    // expired (110 > 100), 200 is not (60), and 900 lies in the future.
    assert_eq!(h.evict_ttl_at(100, 260), (2, 0));
    assert!(!h.contains(1));
    assert!(!h.contains(2));
    assert!(h.contains(3));
    assert!(h.contains(4));
    // An age equal to the time to live is not expired.
    assert_eq!(h.evict_ttl_at(60, 260), (0, 0));
    assert_eq!(h.evict_ttl_at(59, 260), (1, 0));
    assert_eq!(h.len(), 1);
    assert_eq!(h.total_bytes(), h.graph().recount_bytes());
    let hits = h.search(&bits(&[1.0, 1.0]), 4).unwrap();
    assert_eq!(ids(&hits), vec![4]);
}

#[test]
fn search_stamps_its_hits() {
    let mut h = HnswBuilder::new(Euclid).dims(2).build();
    h.insert_at(bits(&[0.0, 0.0]), 1, 0, 10).unwrap();
    h.insert_at(bits(&[9.0, 9.0]), 2, 0, 10).unwrap();
    let hits = h.search_with_ef_at(&bits(&[0.0, 0.0]), 1, 4, 1000).unwrap();
    assert_eq!(hits[0].0, 1);
    // Only the hit was stamped: the other vector is the older one now.
    assert_eq!(h.evict_lru_until(Some(1), None), (1, 0));
    assert!(h.contains(1));
    assert!(!h.contains(2));
}

#[test]
fn builder_clamps_and_defaults() {
    let h = HnswBuilder::new(Cosine).dims(3).build();
    assert_eq!(h.params_full(), (16, 128, 200));
    assert_eq!(h.params(), (16, 128));
    assert_eq!(h.dims(), 3);
    assert_eq!(h.stats(), (0, 0));
    let h = HnswBuilder::new(Cosine).dims(3).m(1).ef_search(0).ef_construction(0).build();
    assert_eq!(h.params_full(), (2, 1, 1));
    let h = HnswBuilder::new(Cosine).m(7).metric(Dot).ef_search(5).build();
    assert_eq!(h.params_full(), (7, 5, 200));
    assert_eq!(h.dims(), 0);
}

#[test]
fn setters_clamp_to_one() {
    let mut h = HnswBuilder::new(Cosine).dims(3).build();
    h.set_ef(0);
    h.set_ef_construction(0);
    assert_eq!(h.params_full(), (16, 1, 1));
    h.set_ef(40);
    h.set_ef_construction(50);
    assert_eq!(h.params_full(), (16, 40, 50));
}

#[test]
fn snapshot_with_a_wrong_vector_is_rejected() {
    let snap = SerIndex {
        dims: 2,
        m: 16,
        ef: 8,
        efc: None,
        graph: SerGraph {
            nodes: vec![
                SerNode { ext_id: 1, vec: bits(&[1.0, 2.0]), links: vec![vec![]], last_hit: None },
                SerNode { ext_id: 2, vec: bits(&[1.0, 2.0, 3.0]), links: vec![vec![]], last_hit: None },
                SerNode { ext_id: 3, vec: bits(&[1.0]), links: vec![vec![]], last_hit: None },
            ],
        },
    };
    match Hnsw::from_snapshot(snap, Cosine) {
        Err(VcalError::DimensionMismatch { expected, found }) => assert_eq!((expected, found), (2, 3)),
        _ => panic!("a snapshot with a vector of the wrong dimension was accepted"),
    }
}

#[test]
fn loading_repairs_links_and_clamps_parameters() {
    let snap = SerIndex {
        dims: 2,
        m: 0,
        ef: 0,
        efc: None,
        graph: SerGraph {
            nodes: vec![
                // Links to itself, out of range, and twice to node 1.
                SerNode {
                    ext_id: 1,
                    vec: bits(&[0.0, 0.0]),
                    links: vec![vec![3, 0, 7, 1, 1, 2]],
                    last_hit: Some(3),
                },
                // No layer at all.
                SerNode { ext_id: 2, vec: bits(&[1.0, 0.0]), links: vec![], last_hit: None },
                // Shadowed by the next node, which carries the same id.
                SerNode { ext_id: 3, vec: bits(&[5.0, 5.0]), links: vec![vec![0]], last_hit: Some(4) },
                SerNode { ext_id: 3, vec: bits(&[0.0, 1.0]), links: vec![vec![2, 0]], last_hit: Some(5) },
            ],
        },
    };
    let (mut h, counts) = Hnsw::restore_at(snap, Euclid, 77).unwrap();
    // Dropped: from node 0 the links to itself, out of range, the second to
    // node 1 and the one to the shadowed node 2; all of node 2; from node 3
    // the link to node 2. Node 1 had no layer.
    assert_eq!(counts, (6, 1));
    assert_eq!(h.params_full(), (2, 1, 1));
    assert_eq!(h.len(), 3);
    assert_eq!(h.total_bytes(), h.graph().recount_bytes());
    let out = h.to_snapshot();
    assert_eq!(out.graph.nodes.len(), 3);
    // Node 3 of the snapshot is node 2 of the dense numbering.
    assert_eq!(out.graph.nodes[0].links, vec![vec![1usize, 2]]);
    assert_eq!(out.graph.nodes[1].links, vec![Vec::<usize>::new()]);
    assert_eq!(out.graph.nodes[1].last_hit, Some(77));
    assert_eq!(out.graph.nodes[2].ext_id, 3);
    assert_eq!(out.graph.nodes[2].vec, bits(&[0.0, 1.0]));
    // The link to the shadowed node is gone, the one to node 0 stays.
    assert_eq!(out.graph.nodes[2].links, vec![vec![0usize]]);
    let hits = h.search(&bits(&[0.0, 1.0]), 3).unwrap();
    assert_eq!(hits[0].0, 3);
    assert_eq!(dist(hits[0]), 0.0);
}

#[test]
fn missing_construction_beam_falls_back_on_the_search_beam() {
    let snap = SerIndex { dims: 2, m: 5, ef: 9, efc: None, graph: SerGraph { nodes: vec![] } };
    let h = Hnsw::from_snapshot(snap, Cosine).unwrap();
    assert_eq!(h.params_full(), (5, 9, 9));
    let snap = SerIndex { dims: 2, m: 5, ef: 9, efc: Some(3), graph: SerGraph { nodes: vec![] } };
    let mut h = Hnsw::from_snapshot(snap, Cosine).unwrap();
    assert_eq!(h.params_full(), (5, 9, 3));
    assert!(matches!(h.search(&bits(&[0.0, 0.0]), 1), Err(VcalError::EmptyIndex)));
}

#[test]
fn neighbours_are_linked_both_ways() {
    let mut h = HnswBuilder::new(Euclid).dims(1).m(2).build();
    h.insert_at(bits(&[0.0]), 1, 0, 1).unwrap();
    h.insert_at(bits(&[1.0]), 2, 0, 1).unwrap();
    h.insert_at(bits(&[5.0]), 3, 0, 1).unwrap();
    let snap = h.to_snapshot();
    let links: Vec<Vec<usize>> = snap.graph.nodes.iter().map(|n| n.links[0].clone()).collect();
    // 5.0 is closer to 1.0 than to 0.0, and closer to 1.0 than 0.0 is to it:
    // the heuristic links it to node 1 only.
    assert_eq!(links, vec![vec![1], vec![0, 2], vec![1]]);
    // 32 bytes for the four links, 12 for the three components.
    assert_eq!(h.total_bytes(), 4 * 8 + 3 * 4);
}

#[test]
fn a_node_on_upper_layers_is_found() {
    let mut h = HnswBuilder::new(Euclid).dims(1).build();
    h.insert_at(bits(&[0.0]), 1, 2, 1).unwrap();
    h.insert_at(bits(&[1.0]), 2, 5, 1).unwrap();
    h.insert_at(bits(&[2.0]), 3, 1, 1).unwrap();
    h.insert_at(bits(&[3.0]), 4, 0, 1).unwrap();
    let snap = h.to_snapshot();
    let layers: Vec<usize> = snap.graph.nodes.iter().map(|n| n.links.len()).collect();
    assert_eq!(layers, vec![3, 6, 2, 1]);
    let hits = h.search(&bits(&[2.2]), 4).unwrap();
    assert_eq!(hits.iter().map(|x| x.0).collect::<Vec<u64>>(), vec![3, 4, 2, 1]);
    assert!(h.delete(4));
    let hits = h.search(&bits(&[2.2]), 4).unwrap();
    assert_eq!(hits.iter().map(|x| x.0).collect::<Vec<u64>>(), vec![3, 2, 1]);
    assert_eq!(h.total_bytes(), h.graph().recount_bytes());
}

#[test]
fn deleting_a_bridge_cuts_off_what_lay_behind_it() {
    // On a line the heuristic links each point to its nearest neighbour
    // only, so the points form a chain 1 - 2 - 3 - 4 with entry point 1.
    let mut h = HnswBuilder::new(Euclid).dims(1).build();
    for i in 0..4u64 {
        h.insert_at(bits(&[i as f32]), i + 1, 0, 1).unwrap();
    }
    let hits = h.search(&bits(&[0.9]), 4).unwrap();
    assert_eq!(hits.iter().map(|x| x.0).collect::<Vec<u64>>(), vec![2, 1, 3, 4]);
    assert!(h.delete(2));
    // A search returns what it can reach from the entry point.
    let hits = h.search(&bits(&[0.9]), 4).unwrap();
    assert_eq!(hits.iter().map(|x| x.0).collect::<Vec<u64>>(), vec![1]);
    assert_eq!(h.len(), 3);
    // Deleting the entry point moves it to a node of the rest.
    assert!(h.delete(1));
    let hits = h.search(&bits(&[0.9]), 4).unwrap();
    assert_eq!(hits.iter().map(|x| x.0).collect::<Vec<u64>>(), vec![3, 4]);
}

#[test]
fn eviction_down_to_one_leaves_a_bare_vector() {
    let mut h = HnswBuilder::new(Euclid).dims(2).build();
    h.insert_at(bits(&[0.0, 0.0]), 1, 0, 10).unwrap();
    h.insert_at(bits(&[1.0, 0.0]), 2, 0, 20).unwrap();
    h.insert_at(bits(&[0.0, 1.0]), 3, 0, 30).unwrap();
    assert_eq!(h.evict_lru_until(Some(1), None), (2, 0));
    assert!(h.contains(3));
    // Two components of four bytes, and no link left.
    assert_eq!(h.total_bytes(), 8);
}

#[test]
fn a_beam_as_wide_as_the_index_is_wide_enough() {
    let mut h = HnswBuilder::new(Euclid).dims(2).m(3).build();
    for i in 0..25u64 {
        h.insert_at(bits(&[(i % 5) as f32, (i / 5) as f32]), i, (i % 2) as usize, 1).unwrap();
    }
    let query = bits(&[1.2, 3.4]);
    let enough = h.search_with_ef(&query, 7, 25).unwrap();
    let more = h.search_with_ef(&query, 7, 1000).unwrap();
    let most = h.search_with_ef(&query, 7, usize::MAX).unwrap();
    assert_eq!(enough, more);
    assert_eq!(enough, most);
    assert_eq!(enough[0].0, 16);
}

#[test]
fn every_layer_of_a_new_node_is_laced() {
    // The second node takes part in the layers 0 and 1 and is linked with the
    // first on both; the third is wired on the base layer, where the
    // heuristic accepts both older nodes: the nearer one first, and the
    // farther one because it is closer to the new node than to the nearer.
    let mut h = HnswBuilder::new(Euclid).dims(1).m(2).build();
    h.insert_at(bits(&[0.0]), 1, 2, 1).unwrap();
    h.insert_at(bits(&[10.0]), 2, 1, 1).unwrap();
    h.insert_at(bits(&[9.0]), 3, 0, 1).unwrap();
    let snap = h.to_snapshot();
    let links: Vec<Vec<Vec<usize>>> = snap.graph.nodes.iter().map(|n| n.links.clone()).collect();
    assert_eq!(links[0], vec![vec![1, 2], vec![1], vec![]]);
    assert_eq!(links[1], vec![vec![0, 2], vec![0]]);
    assert_eq!(links[2], vec![vec![0, 1]]);
    assert_eq!(h.graph().stats(), (3, 3 * 4 + 8 * 8));
}
