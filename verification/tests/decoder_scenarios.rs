use qcu::QecError;
use qcu::decoder::UnionFindDecoder;
use qcu::graph::DecodingGraph;
use qcu::static_vec::StaticVec;

fn chain_graph() -> DecodingGraph {
    // nodes {0,1,2,3}, edges [(0,1),(1,2),(2,3)]
    let mut g = DecodingGraph::new(4);
    g.add_edge(0, 1).unwrap();
    g.add_edge(1, 2).unwrap();
    g.add_edge(2, 3).unwrap();
    g
}

#[test]
fn two_syndromes_on_one_edge() {
    // Scenario: one edge, both endpoints odd; one union, one correction.
    let mut g = DecodingGraph::new(2);
    g.add_edge(0, 1).unwrap();
    assert_eq!(g.num_nodes(), 2);
    let mut dec = UnionFindDecoder::new(2);
    let mut out: Vec<(usize, usize)> = Vec::new();
    dec.solve_into(&g, &[0, 1], &mut out).unwrap();
    assert_eq!(out, vec![(0, 1)]);
}

#[test]
fn chain_three_syndromes() {
    // Chain with syndromes on 0, 2 and 3.  The sweep merges (0,1) and
    // (1,2), cancelling 0 against 2; the remaining odd cluster {3} then
    // merges across (2,3), so that edge is emitted as well.
    let g = chain_graph();
    let mut dec = UnionFindDecoder::new(4);
    let mut out: Vec<(usize, usize)> = Vec::new();
    dec.solve_into(&g, &[0, 2, 3], &mut out).unwrap();
    assert_eq!(out, vec![(0, 1), (1, 2), (2, 3)]);
}

#[test]
fn even_parity_no_op() {
    // Chain with syndromes 0 and 1: one union makes the cluster even and
    // the sweep stops.
    let g = chain_graph();
    let mut dec = UnionFindDecoder::new(4);
    let mut out: Vec<(usize, usize)> = Vec::new();
    dec.solve_into(&g, &[0, 1], &mut out).unwrap();
    assert_eq!(out, vec![(0, 1)]);
}

#[test]
fn isolated_odd_clusters() {
    // Two components {0,1} and {2,3} with one syndrome in each: each odd
    // cluster grows along its component's only edge.
    let mut g = DecodingGraph::new(4);
    g.add_edge(0, 1).unwrap();
    g.add_edge(2, 3).unwrap();
    let mut dec = UnionFindDecoder::new(4);
    let mut out: Vec<(usize, usize)> = Vec::new();
    dec.solve_into(&g, &[0, 2], &mut out).unwrap();
    assert_eq!(out, vec![(0, 1), (2, 3)]);
}

#[test]
fn empty_syndrome_list() {
    let g = chain_graph();
    let mut dec = UnionFindDecoder::new(4);
    let mut out: Vec<(usize, usize)> = Vec::new();
    dec.solve_into(&g, &[], &mut out).unwrap();
    assert!(out.is_empty());
    for i in 0..4 {
        assert!(!dec.is_touched(i));
    }
}

#[test]
fn single_node_graph() {
    // A single node (self-loop edge): a syndrome toggles its parity but
    // no edge can merge anything.
    let mut g = DecodingGraph::new(1);
    g.add_edge(0, 0).unwrap();
    assert_eq!(g.num_nodes(), 1);
    let mut dec = UnionFindDecoder::new(1);
    let mut out: Vec<(usize, usize)> = Vec::new();
    dec.solve_into(&g, &[0], &mut out).unwrap();
    assert!(out.is_empty());
    assert!(dec.is_touched(0));
}

#[test]
fn disconnected_components_no_edges() {
    // Fully disconnected nodes (only self-loops): syndromes in different
    // components cannot be matched, so no corrections come out.
    let mut g = DecodingGraph::new(4);
    g.add_edge(0, 0).unwrap();
    g.add_edge(2, 2).unwrap();
    let mut dec = UnionFindDecoder::new(3);
    let mut out: Vec<(usize, usize)> = Vec::new();
    dec.solve_into(&g, &[0, 2], &mut out).unwrap();
    assert!(out.is_empty());
}

#[test]
fn out_of_range_syndromes_dropped() {
    let mut g = DecodingGraph::new(2);
    g.add_edge(0, 1).unwrap();
    let mut dec = UnionFindDecoder::new(2);
    let mut out: Vec<(usize, usize)> = Vec::new();
    dec.solve_into(&g, &[0, 7, 1], &mut out).unwrap();
    assert_eq!(out, vec![(0, 1)]);
}

#[test]
fn deterministic_output() {
    // Two runs on identical inputs give byte-identical corrections.
    let g = chain_graph();
    let mut dec1 = UnionFindDecoder::new(4);
    let mut dec2 = UnionFindDecoder::new(4);
    let mut out1: Vec<(usize, usize)> = Vec::new();
    let mut out2: Vec<(usize, usize)> = Vec::new();
    dec1.solve_into(&g, &[0, 2, 3], &mut out1).unwrap();
    dec2.solve_into(&g, &[0, 2, 3], &mut out2).unwrap();
    assert_eq!(out1, out2);
}

#[test]
fn decoder_reuse_resets_state() {
    // A job with syndromes followed by one with none: the second leaves
    // an empty correction list and all touched flags clear.
    let g = chain_graph();
    let mut dec = UnionFindDecoder::new(4);
    let mut out: Vec<(usize, usize)> = Vec::new();
    dec.solve_into(&g, &[0, 1], &mut out).unwrap();
    assert_eq!(out, vec![(0, 1)]);
    dec.solve_into(&g, &[], &mut out).unwrap();
    assert!(out.is_empty());
    assert_eq!(dec.touched_len(), 4);
    for i in 0..4 {
        assert!(!dec.is_touched(i));
    }
}

#[test]
fn static_sink_holds_corrections() {
    let g = chain_graph();
    let mut dec = UnionFindDecoder::new(4);
    let mut out: StaticVec<(usize, usize), 8> = StaticVec::new();
    dec.solve_into(&g, &[0, 1], &mut out).unwrap();
    assert_eq!(out.as_slice(), &[(0, 1)]);
}

#[test]
fn buffer_overflow_keeps_prefix() {
    // A sink with room for one correction overflows on the second and
    // keeps the first.
    let g = chain_graph();
    let mut dec = UnionFindDecoder::new(4);
    let mut out: StaticVec<(usize, usize), 1> = StaticVec::new();
    let res = dec.solve_into(&g, &[0, 2, 3], &mut out);
    assert_eq!(res, Err(QecError::BufferOverflow));
    assert_eq!(out.as_slice(), &[(0, 1)]);
}

#[test]
fn capacity_of_node_count_always_succeeds() {
    // A sink with capacity >= num_nodes never overflows.
    let g = chain_graph();
    let mut dec = UnionFindDecoder::new(4);
    let mut out: StaticVec<(usize, usize), 4> = StaticVec::new();
    assert!(dec.solve_into(&g, &[0, 2, 3], &mut out).is_ok());
    assert_eq!(out.len(), 3);
}
