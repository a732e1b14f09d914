use qcu::QecError;
use qcu::allocator::BumpAllocator;
use qcu::bit_utils::{BitPack, pack_bits};
use qcu::graph::DecodingGraph;
use qcu::static_vec::StaticVec;
use qcu::stats::LatencyStats;

#[test]
fn bitpack_get_set_toggle() {
    let mut words = [0u64; 3];
    assert!(!BitPack::get(&words, 0));
    BitPack::set(&mut words, 0, true);
    BitPack::set(&mut words, 70, true);
    assert!(BitPack::get(&words, 0));
    assert!(BitPack::get(&words, 70));
    assert!(!BitPack::get(&words, 1));
    assert_eq!(words[1], 1 << 6);
    BitPack::toggle(&mut words, 70);
    assert!(!BitPack::get(&words, 70));
    BitPack::set(&mut words, 0, false);
    assert_eq!(words, [0, 0, 0]);
}

#[test]
fn pack_bits_round_trip() {
    // Packing a bit vector and reading every index back reproduces it.
    let bits: Vec<bool> = (0..130).map(|i| i % 3 == 0 || i == 129).collect();
    let words = pack_bits(&bits);
    assert_eq!(words.len(), 3);
    for (i, &b) in bits.iter().enumerate() {
        assert_eq!(BitPack::get(&words, i), b);
    }
}

#[test]
fn static_vec_push_pop() {
    let mut v: StaticVec<u32, 3> = StaticVec::new();
    assert!(v.is_empty());
    assert_eq!(v.capacity(), 3);
    v.push(1).unwrap();
    v.push(2).unwrap();
    v.push(3).unwrap();
    assert_eq!(v.push(4), Err(4));
    assert_eq!(v.len(), 3);
    assert_eq!(v.as_slice(), &[1, 2, 3]);
    assert_eq!(*v.get(1), 2);
    assert_eq!(v.pop(), Some(3));
    assert_eq!(v.len(), 2);
    v.clear();
    assert!(v.is_empty());
    assert_eq!(v.pop(), None);
}

#[test]
fn bump_allocator_aligns_and_runs_out() {
    let mut arena = BumpAllocator::new(0x1000, 64);
    assert_eq!(arena.allocate(10, 8), Ok(0x1000));
    assert_eq!(arena.allocate(3, 1), Ok(0x100A));
    // next 8-aligned address after 0x100D is 0x1010
    assert_eq!(arena.allocate(8, 8), Ok(0x1010));
    assert_eq!(arena.allocate(100, 1), Err(QecError::OutOfMemory));
    // a failed allocation leaves the offset alone
    assert_eq!(arena.allocate(40, 8), Ok(0x1018));
}

#[test]
fn graph_tracks_node_count() {
    let mut g = DecodingGraph::new(16);
    assert_eq!(g.num_nodes(), 0);
    g.add_edge(0, 1).unwrap();
    assert_eq!(g.num_nodes(), 2);
    g.add_edge(5, 3).unwrap();
    assert_eq!(g.num_nodes(), 6);
    g.add_edge(2, 2).unwrap();
    assert_eq!(g.num_nodes(), 6);
    assert_eq!(g.num_edges(), 3);
    g.ensure_size(100);
    assert_eq!(g.num_nodes_capacity, 100);
}

#[test]
fn adjacency_lists_both_directions() {
    let mut g = DecodingGraph::new(4);
    assert_eq!(g.neighbors(0), &[] as &[u32]);
    g.add_edge(0, 1).unwrap();
    g.add_edge(1, 2).unwrap();
    g.add_edge(2, 3).unwrap();
    g.add_edge(1, 3).unwrap();
    g.build_adjacency();
    assert_eq!(g.adj_targets.len(), 8);
    assert_eq!(g.neighbors(0), &[1]);
    assert_eq!(g.neighbors(1), &[0, 2, 3]);
    assert_eq!(g.neighbors(2), &[1, 3]);
    assert_eq!(g.neighbors(3), &[2, 1]);
    assert_eq!(g.neighbors(9), &[] as &[u32]);
}

#[test]
fn adjacency_of_self_loop() {
    let mut g = DecodingGraph::new(2);
    g.add_edge(0, 0).unwrap();
    g.add_edge(0, 1).unwrap();
    g.build_adjacency();
    assert_eq!(g.neighbors(0), &[0, 0, 1]);
    assert_eq!(g.neighbors(1), &[0]);
}

#[test]
fn latency_stats_update() {
    let mut stats = LatencyStats::new();
    assert_eq!(stats.min, u64::MAX);
    stats.update(5_000);
    stats.update(25_000);
    stats.update(1_000_000);
    assert_eq!(stats.count, 3);
    assert_eq!(stats.sum, 1_030_000);
    assert_eq!(stats.min, 5_000);
    assert_eq!(stats.max, 1_000_000);
    assert_eq!(stats.buckets[0], 1);
    assert_eq!(stats.buckets[2], 1);
    assert_eq!(stats.buckets[19], 1);
}
