use qcu::decoder::UnionFindDecoder;
use qcu::graph::DecodingGraph;
use qcu::pipeline::{
    ShotPacer, SyndromePacket, TelemetryCounters, WORDS_PER_SHOT, advance_data_index,
    average_latency, expand_set_bits, latency_since,
};
use qcu::spmc::StaticQueue;

#[test]
fn expand_set_bits_examples() {
    assert_eq!(expand_set_bits(&[]), Vec::<usize>::new());
    assert_eq!(expand_set_bits(&[0]), Vec::<usize>::new());
    assert_eq!(expand_set_bits(&[0b1011]), vec![0, 1, 3]);
    assert_eq!(expand_set_bits(&[1u64 << 63]), vec![63]);
    assert_eq!(expand_set_bits(&[0, 1, 1u64 << 5]), vec![64, 133]);
    assert_eq!(expand_set_bits(&[u64::MAX]).len(), 64);
}

#[test]
fn packet_round_trip_through_expansion() {
    let mut syndromes = [0u64; WORDS_PER_SHOT];
    syndromes[0] = 0b101;
    syndromes[2] = 1 << 10;
    let packet = SyndromePacket { shot_id: 7, timestamp: 1234, syndromes };
    let idx = expand_set_bits(&packet.syndromes);
    assert_eq!(idx, vec![0, 2, 138]);
    assert_eq!(packet.shot_id, 7);
    assert_eq!(packet.timestamp, 1234);
}

#[test]
fn pacer_fires_on_schedule() {
    let mut pacer = ShotPacer::new(1000, 222);
    assert!(!pacer.ready(999));
    assert!(pacer.ready(1000));
    assert!(pacer.ready(1500));
    pacer.advance();
    assert_eq!(pacer.next_shot_time, 1222);
    assert!(!pacer.ready(1100));
}

#[test]
fn data_index_wraps() {
    assert_eq!(advance_data_index(0, 3), 1);
    assert_eq!(advance_data_index(1, 3), 2);
    assert_eq!(advance_data_index(2, 3), 0);
    assert_eq!(advance_data_index(0, 1), 0);
}

#[test]
fn latency_saturates() {
    assert_eq!(latency_since(100, 40), 60);
    assert_eq!(latency_since(40, 100), 0);
    assert_eq!(latency_since(5, 5), 0);
}

#[test]
fn single_packet_latency_accounting() {
    // One packet stamped at T0 and processed at T1: the counters show one
    // shot with min == max == sum == T1 - T0.
    let t0: u64 = 10_000;
    let t1: u64 = 10_222;
    let mut counters = TelemetryCounters::new();
    assert_eq!(counters.total_processed, 0);
    assert_eq!(counters.latency_min, u64::MAX);
    let lat = latency_since(t1, t0);
    counters.record_latency(lat);
    assert_eq!(counters.total_processed, 1);
    assert_eq!(counters.latency_sum, t1 - t0);
    assert_eq!(counters.latency_min, t1 - t0);
    assert_eq!(counters.latency_max, t1 - t0);
}

#[test]
fn telemetry_window_swap_resets() {
    let mut counters = TelemetryCounters::new();
    counters.note_enqueued();
    counters.record_latency(50);
    counters.record_latency(10);
    counters.record_latency(90);
    counters.note_dequeued();
    let (sum, max, min) = counters.take_window();
    assert_eq!((sum, max, min), (150, 90, 10));
    assert_eq!(counters.latency_sum, 0);
    assert_eq!(counters.latency_max, 0);
    assert_eq!(counters.latency_min, u64::MAX);
    assert_eq!(counters.total_processed, 3);
    assert_eq!(counters.queue_depth, 0);
}

#[test]
fn worker_path_end_to_end() {
    // A packet travels the worker's whole path: queue, bit expansion,
    // decode, latency accounting.
    let mut g = DecodingGraph::new(2);
    g.add_edge(0, 1).unwrap();

    let mut syndromes = [0u64; WORDS_PER_SHOT];
    syndromes[0] = 0b11;
    let packet = SyndromePacket { shot_id: 0, timestamp: 100, syndromes };

    let mut queue: StaticQueue<SyndromePacket, 4> = StaticQueue::new();
    queue.push(packet).unwrap();
    let mut counters = TelemetryCounters::new();
    counters.note_enqueued();

    let job = queue.pop().unwrap();
    counters.note_dequeued();
    let indices = expand_set_bits(&job.syndromes);
    assert_eq!(indices, vec![0, 1]);

    let mut decoder = UnionFindDecoder::new(2);
    let mut corrections: Vec<(usize, usize)> = Vec::new();
    decoder.solve_into(&g, &indices, &mut corrections).unwrap();
    assert_eq!(corrections, vec![(0, 1)]);

    counters.record_latency(latency_since(322, job.timestamp));
    assert_eq!(counters.total_processed, 1);
    assert_eq!(counters.latency_sum, 222);
    assert_eq!(counters.queue_depth, 0);
}

#[test]
fn average_latency_handles_empty_window() {
    assert_eq!(average_latency(150, 3), 50);
    assert_eq!(average_latency(7, 2), 3);
    assert_eq!(average_latency(1000, 0), 0);
}
