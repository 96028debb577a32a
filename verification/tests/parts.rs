use vcal_core::beam::{insert_ascending, insert_descending, precedes};
use vcal_core::clock::unix_now;
use vcal_core::evict::need;
use vcal_core::idlist::{copy_of, has, insert_unique, without_id};
use vcal_core::math::dist_rank;
use vcal_core::order::{copy_range, merge_by_age, older_or_same, sort_by_age};
use vcal_core::errors::{decimal, digit};
use vcal_core::rand_level::{climbs, draw_level, next_level, MAX_LEVEL};
use vcal_core::serialize::find_misfit;
use vcal_core::{Graph, Metric, Node, SerNode};

struct Euclid;

impl Metric for Euclid {
    fn distance(&self, a: &[u32], b: &[u32]) -> u32 {
        let mut sum = 0.0_f32;
        for i in 0..a.len() {
            let d = f32::from_bits(a[i]) - f32::from_bits(b[i]);
            sum += d * d;
        }
        sum.to_bits()
    }
}

fn bits(v: &[f32]) -> Vec<u32> {
    v.iter().map(|x| x.to_bits()).collect()
}

fn rank(x: f32) -> u32 {
    dist_rank(x.to_bits())
}

#[test]
fn rank_of_known_patterns() {
    assert_eq!(rank(0.0), 0x8000_0000);
    assert_eq!(rank(-0.0), 0x8000_0000);
    assert_eq!(rank(1.0), 0xbf80_0000);
    assert_eq!(rank(-1.0), 0x4080_0000);
    assert_eq!(rank(f32::INFINITY), 0xff80_0000);
    assert_eq!(rank(f32::NEG_INFINITY), 0x0080_0000);
    assert_eq!(rank(f32::NAN), u32::MAX);
    assert_eq!(dist_rank(0xffc0_0001), u32::MAX);
    assert_eq!(dist_rank(0x7f80_0001), u32::MAX);
    assert_eq!(dist_rank(0x0000_0001), 0x8000_0001);
    assert_eq!(dist_rank(0x8000_0001), 0x7fff_ffff);
}

#[test]
fn rank_follows_the_numeric_order() {
    let xs = [
        f32::NEG_INFINITY,
        -1e30,
        -2.5,
        -1.0,
        -1e-30,
        -f32::MIN_POSITIVE / 2.0,
        0.0,
        f32::MIN_POSITIVE / 2.0,
        1e-30,
        0.5,
        1.0,
        1.0000001,
        3e20,
        f32::MAX,
        f32::INFINITY,
    ];
    for i in 0..xs.len() {
        for j in 0..xs.len() {
            assert_eq!(rank(xs[i]) < rank(xs[j]), xs[i] < xs[j]);
            assert_eq!(rank(xs[i]) == rank(xs[j]), xs[i] == xs[j]);
        }
        assert!(rank(xs[i]) < rank(f32::NAN));
    }
}

#[test]
fn candidates_are_ordered_by_distance_then_id() {
    let near = (9usize, 0.5_f32.to_bits());
    let far = (1usize, 2.0_f32.to_bits());
    assert!(precedes(near, far));
    assert!(!precedes(far, near));
    assert!(precedes((3, 1.0_f32.to_bits()), (4, 1.0_f32.to_bits())));
    assert!(!precedes((4, 1.0_f32.to_bits()), (4, 1.0_f32.to_bits())));
    assert!(precedes((4, 0.0_f32.to_bits()), (5, (-0.0_f32).to_bits())));
    let mut up: Vec<(usize, u32)> = Vec::new();
    let mut down: Vec<(usize, u32)> = Vec::new();
    for (id, d) in [(1usize, 3.0_f32), (2, 1.0), (3, 2.0), (4, 1.0), (5, -1.0)] {
        insert_ascending(&mut up, (id, d.to_bits()));
        insert_descending(&mut down, (id, d.to_bits()));
    }
    let order = |v: &Vec<(usize, u32)>| v.iter().map(|c| c.0).collect::<Vec<usize>>();
    assert_eq!(order(&up), vec![5, 2, 4, 3, 1]);
    assert_eq!(order(&down), vec![1, 3, 4, 2, 5]);
    assert_eq!(insert_ascending(&mut up, (6, 0.0_f32.to_bits())), 1);
    assert_eq!(insert_descending(&mut down, (6, 0.0_f32.to_bits())), 4);
}

#[test]
fn id_lists() {
    let list = vec![4usize, 9, 2, 7];
    assert!(has(&list, 2));
    assert!(!has(&list, 3));
    assert_eq!(copy_of(&list), list);
    assert_eq!(without_id(&list, 9), vec![4, 2, 7]);
    assert_eq!(without_id(&list, 5), list);
    assert_eq!(without_id(&[1usize, 1, 2, 1], 1), vec![2]);
    assert_eq!(without_id(&[], 1), Vec::<usize>::new());
    let mut sorted: Vec<usize> = Vec::new();
    for x in [5usize, 1, 9, 5, 3, 1, 0] {
        insert_unique(&mut sorted, x);
    }
    assert_eq!(sorted, vec![0, 1, 3, 5, 9]);
}

#[test]
fn node_footprint() {
    let mut node = Node::new_at(7, 2, bits(&[1.0, 2.0, 3.0]), 99);
    assert_eq!(node.ext_id, 7);
    assert_eq!(node.links.len(), 3);
    assert_eq!(node.last_hit, 99);
    assert!(!node.is_deleted());
    assert_eq!(node.bytes, 12);
    node.links[0].push(1);
    node.links[2].push(4);
    node.links[2].push(5);
    assert_eq!(node.count_links(), 3);
    assert_eq!(node.recompute_bytes(), 12 + 24);
    assert_eq!(node.bytes, 36);
    node.touch(123);
    assert_eq!(node.last_hit, 123);
    let fresh = Node::new(1, 0, Vec::new());
    assert_eq!(fresh.bytes, 0);
    assert_eq!(fresh.links.len(), 1);
    assert!(fresh.last_hit <= unix_now());
}

#[test]
fn capacity_predicate() {
    assert!(!need(None, None, 10, 1000));
    assert!(need(Some(9), None, 10, 1000));
    assert!(!need(Some(10), None, 10, 1000));
    assert!(need(None, Some(999), 10, 1000));
    assert!(!need(None, Some(1000), 10, 1000));
    assert!(need(Some(10), Some(999), 10, 1000));
    assert!(need(Some(9), Some(1000), 10, 1000));
    assert!(!need(Some(10), Some(1000), 10, 1000));
}

#[test]
fn levels_are_drawn_geometrically() {
    assert!(climbs(0));
    assert!(!climbs(1));
    assert!(!climbs(15));
    assert_eq!(next_level(0, 0), Some(1));
    assert_eq!(next_level(7, 0), Some(8));
    assert_eq!(next_level(7, 1), None);
    assert_eq!(next_level(0, 5), None);
    assert_eq!(next_level(MAX_LEVEL - 1, 0), Some(MAX_LEVEL));
    assert_eq!(next_level(MAX_LEVEL, 0), None);
    let mut climbed = 0;
    let mut total = 0usize;
    for _ in 0..4000 {
        let level = draw_level(2);
        assert!(level <= MAX_LEVEL);
        if level > 0 {
            climbed += 1;
        }
        total += level;
    }
    // With M = 2 a node climbs with probability one half, and the mean
    // level is one.
    assert!(climbed > 1600 && climbed < 2400);
    assert!(total > 3000 && total < 5000);
    let mut high = 0;
    for _ in 0..4000 {
        if draw_level(16) > 0 {
            high += 1;
        }
    }
    // With M = 16 one node in sixteen climbs: 250 of 4000.
    assert!(high > 120 && high < 400);
}

#[test]
fn first_misfit_is_found() {
    let node = |len: usize| SerNode { ext_id: 0, vec: vec![0; len], links: Vec::new(), last_hit: None };
    assert_eq!(find_misfit(&vec![node(3), node(3)], 3), None);
    assert_eq!(find_misfit(&vec![node(3), node(2), node(5)], 3), Some(1));
    assert_eq!(find_misfit(&vec![node(0)], 3), Some(0));
    assert_eq!(find_misfit(&Vec::new(), 3), None);
}

#[test]
fn graph_insert_search_delete() {
    let mut g = Graph::new();
    assert_eq!(g.stats(), (0, 0));
    assert!(g.knn(&bits(&[0.0, 0.0]), 3, &Euclid, 10).is_empty());
    g.add_with(bits(&[0.0, 0.0]), 10, &Euclid, 4, 10, 0, 1);
    g.add_with(bits(&[3.0, 0.0]), 20, &Euclid, 4, 10, 1, 2);
    g.add_with(bits(&[0.0, 4.0]), 30, &Euclid, 4, 10, 0, 3);
    assert_eq!(g.stats().0, 3);
    assert_eq!(g.stats().1, g.recount_bytes());
    assert!(g.contains_ext(20));
    assert!(!g.contains_ext(21));
    let hits = g.knn(&bits(&[3.0, 4.0]), 3, &Euclid, 10);
    let view: Vec<(u64, f32)> = hits.iter().map(|h| (h.0, f32::from_bits(h.1))).collect();
    assert_eq!(view, vec![(30, 9.0), (20, 16.0), (10, 25.0)]);
    // Ties are broken by the order of insertion.
    let hits = g.knn(&bits(&[1.5, 0.0]), 2, &Euclid, 10);
    assert_eq!(hits.iter().map(|h| h.0).collect::<Vec<u64>>(), vec![10, 20]);
    assert!(g.knn(&bits(&[3.0, 4.0]), 0, &Euclid, 10).is_empty());
    assert_eq!(g.knn(&bits(&[3.0, 4.0]), 1, &Euclid, 0).len(), 1);
    assert!(g.delete(20));
    assert!(!g.delete(20));
    assert!(!g.contains_ext(20));
    assert_eq!(g.stats().0, 2);
    assert_eq!(g.stats().1, g.recount_bytes());
    let hits = g.knn(&bits(&[3.0, 4.0]), 3, &Euclid, 10);
    assert_eq!(hits.iter().map(|h| h.0).collect::<Vec<u64>>(), vec![30, 10]);
}

#[test]
fn graph_add_draws_a_level_and_stamps_the_clock() {
    let mut g = Graph::default();
    let before = unix_now();
    for i in 0..50u64 {
        g.add(bits(&[i as f32]), i, &Euclid, 2, 8);
    }
    assert_eq!(g.stats().0, 50);
    // Nothing is older than the start of the test.
    assert_eq!(g.evict_ttl(0, before), (0, 0));
    // In ten seconds' time everything is.
    assert_eq!(g.evict_ttl(5, unix_now() + 10), (50, 0));
    assert_eq!(g.stats(), (0, 0));
}

#[test]
fn graph_eviction_and_touch() {
    let mut g = Graph::new();
    for i in 0..6u64 {
        g.add_with(bits(&[i as f32]), i, &Euclid, 4, 10, 0, 100);
    }
    g.touch_many(&[0, 1, 99], 200);
    // Among vectors of one age the one inserted first goes first.
    assert_eq!(g.evict_lru_until(Some(3), None, 0), (3, 0));
    assert!(g.contains_ext(0) && g.contains_ext(1) && g.contains_ext(5));
    assert!(!g.contains_ext(2) && !g.contains_ext(3) && !g.contains_ext(4));
    assert_eq!(g.evict_ttl(50, 200), (1, 0));
    assert!(!g.contains_ext(5));
    assert_eq!(g.stats().0, 2);
    assert_eq!(g.stats().1, g.recount_bytes());
    assert_eq!(g.sanitize(), (0, 0));
    assert_eq!(g.stats().0, 2);
    let hits = g.knn(&bits(&[0.2]), 5, &Euclid, 5);
    assert_eq!(hits.iter().map(|h| h.0).collect::<Vec<u64>>(), vec![0, 1]);
}

#[test]
fn pruning_leaves_a_one_sided_link_that_deletion_misses() {
    // With a degree bound of two: 0 and 3 are linked; 1 links to both; then
    // 2 links to 3 and 1, and the node at 3, now with three links, is pruned
    // down to its link to 2. The node at 0 still links to it.
    let mut g = Graph::new();
    for (i, x) in [0.0_f32, 3.0, 1.0, 2.0].iter().enumerate() {
        g.add_with(bits(&[*x]), i as u64, &Euclid, 2, 10, 0, 1);
    }
    assert!(g.delete(1));
    // Deleting the node at 3 unlinks it from the node at 2 only; the link
    // from the node at 0 stays until the graph is sanitized.
    assert_eq!(g.stats().1, g.recount_bytes());
    let bytes = g.stats().1;
    assert_eq!(g.sanitize(), (1, 0));
    assert_eq!(g.stats().1, bytes - 8);
    let hits = g.knn(&bits(&[3.0]), 4, &Euclid, 10);
    assert_eq!(hits.iter().map(|h| h.0).collect::<Vec<u64>>(), vec![3, 2, 0]);
}

#[test]
fn sanitize_drops_links_to_deleted_nodes() {
    // With a degree bound of two the hub at 0 is pruned by its neighbours'
    // back links, which leaves one-sided links behind.
    let mut g = Graph::new();
    let points = [0.0_f32, 1.0, -1.0, 0.4, -0.4, 0.7, -0.7, 0.2];
    for (i, x) in points.iter().enumerate() {
        g.add_with(bits(&[*x, 0.0]), i as u64, &Euclid, 2, 10, 0, 1);
    }
    for id in [1u64, 3, 5] {
        assert!(g.delete(id));
    }
    let bytes = g.stats().1;
    assert_eq!(bytes, g.recount_bytes());
    let (dropped, fixed) = g.sanitize();
    assert_eq!(fixed, 0);
    assert_eq!(g.stats().1, bytes - 8 * dropped);
    assert_eq!(g.stats().0, 5);
    assert_eq!(g.sanitize(), (0, 0));
}

#[test]
fn nodes_are_ordered_by_age_then_id() {
    assert!(older_or_same((1, 9), (2, 0)));
    assert!(!older_or_same((2, 0), (1, 9)));
    assert!(older_or_same((5, 3), (5, 4)));
    assert!(older_or_same((5, 3), (5, 3)));
    assert!(!older_or_same((5, 4), (5, 3)));
    let list = vec![(7u64, 0usize), (3, 1), (7, 2), (1, 3), (3, 4), (9, 5), (0, 6)];
    assert_eq!(copy_range(&list, 2, 5), vec![(7, 2), (1, 3), (3, 4)]);
    assert_eq!(copy_range(&list, 4, 4), Vec::<(u64, usize)>::new());
    assert_eq!(
        sort_by_age(&list),
        vec![(0, 6), (1, 3), (3, 1), (3, 4), (7, 0), (7, 2), (9, 5)]
    );
    assert_eq!(sort_by_age(&Vec::new()), Vec::<(u64, usize)>::new());
    assert_eq!(sort_by_age(&vec![(4, 4)]), vec![(4, 4)]);
    assert_eq!(
        merge_by_age(&vec![(1, 1), (4, 0), (4, 9)], &vec![(0, 5), (4, 3), (8, 2)]),
        vec![(0, 5), (1, 1), (4, 0), (4, 3), (4, 9), (8, 2)]
    );
    let mut big: Vec<(u64, usize)> = (0..1000usize).map(|i| (((i * 7919) % 1000) as u64, i)).collect();
    let sorted = sort_by_age(&big);
    big.sort();
    assert_eq!(sorted, big);
}

#[test]
fn numbers_in_decimal() {
    for d in 0..10usize {
        assert_eq!(digit(d), format!("{}", d));
    }
    for n in [0usize, 7, 10, 19, 100, 909, 65_536, 1_234_567_890, usize::MAX] {
        assert_eq!(decimal(n), format!("{}", n));
    }
}

#[test]
fn sanitize_puts_the_registry_in_order() {
    let mut g = Graph::new();
    for (i, level) in [0usize, 3, 1, 3, 0].iter().enumerate() {
        g.add_with(bits(&[i as f32]), i as u64, &Euclid, 4, 10, *level, 1);
    }
    // The two nodes of the top layer go: the top layer is then layer 1.
    assert!(g.delete(1));
    assert!(g.delete(3));
    g.sanitize();
    assert_eq!(g.stats().0, 3);
    // The entry point is the node of that layer; on the line it is cut off
    // from the others, so a search far from it still finds it alone.
    let hits = g.knn(&bits(&[0.1]), 5, &Euclid, 10);
    assert_eq!(hits.iter().map(|h| h.0).collect::<Vec<u64>>(), vec![2]);
    // A second pass finds nothing to do.
    assert_eq!(g.sanitize(), (0, 0));
}
