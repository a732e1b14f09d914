use qcu::ring_buffer::RingBuffer;
use qcu::spmc::StaticQueue;

#[test]
fn queue_fifo_order() {
    let mut q: StaticQueue<u32, 8> = StaticQueue::new();
    assert_eq!(q.pop(), None);
    q.push(10).unwrap();
    q.push(20).unwrap();
    q.push(30).unwrap();
    assert_eq!(q.len(), 3);
    assert_eq!(q.pop(), Some(10));
    assert_eq!(q.pop(), Some(20));
    q.push(40).unwrap();
    assert_eq!(q.pop(), Some(30));
    assert_eq!(q.pop(), Some(40));
    assert_eq!(q.pop(), None);
}

#[test]
fn queue_full_is_backpressure() {
    let mut q: StaticQueue<u32, 4> = StaticQueue::new();
    for i in 0..4 {
        q.push(i).unwrap();
    }
    assert_eq!(q.push(99), Err(99));
    assert_eq!(q.pop(), Some(0));
    q.push(99).unwrap();
    assert_eq!(q.pop(), Some(1));
}

#[test]
fn queue_hundred_thousand_distinct_values() {
    // Push 100,000 distinct values through a 16-slot ring, draining when
    // full: every value comes out exactly once, in order.
    let mut q: StaticQueue<u32, 16> = StaticQueue::new();
    let mut next_pop: u32 = 0;
    for i in 0..100_000u32 {
        while q.push(i).is_err() {
            let v = q.pop().unwrap();
            assert_eq!(v, next_pop);
            next_pop += 1;
        }
    }
    while let Some(v) = q.pop() {
        assert_eq!(v, next_pop);
        next_pop += 1;
    }
    assert_eq!(next_pop, 100_000);
}

#[test]
fn ring_buffer_fifo_order() {
    let mut rb: RingBuffer<u64> = RingBuffer::new(4);
    assert_eq!(rb.pop(), None);
    assert!(rb.push(1));
    assert!(rb.push(2));
    assert!(rb.push(3));
    assert!(rb.push(4));
    assert!(!rb.push(5));
    assert_eq!(rb.pop(), Some(1));
    assert!(rb.push(5));
    assert_eq!(rb.pop(), Some(2));
    assert_eq!(rb.pop(), Some(3));
    assert_eq!(rb.pop(), Some(4));
    assert_eq!(rb.pop(), Some(5));
    assert_eq!(rb.pop(), None);
}

#[test]
fn ring_buffer_wraps_many_times() {
    let mut rb: RingBuffer<u32> = RingBuffer::new(2);
    let mut expected: u32 = 0;
    for i in 0..1000u32 {
        assert!(rb.push(i));
        if i % 2 == 1 {
            assert_eq!(rb.pop(), Some(expected));
            assert_eq!(rb.pop(), Some(expected + 1));
            expected += 2;
        }
    }
}
