//! Lock-free-style single-producer single-consumer ring buffer.
//!
//! The hosted streaming harness moves task packets from its generator
//! thread to its decode thread through this ring.  As with the job queue,
//! `head` and `tail` are monotonically increasing counters and slot
//! `c % capacity` holds the item of counter `c`; what is verified is the
//! functional behaviour of each push and pop, while the cross-thread
//! pairing of the two ends stays outside the library.

use vstd::prelude::*;

verus! {

use vstd::arithmetic::div_mod::{lemma_mod_division_less_than_divisor, lemma_small_mod};
use crate::spmc::lemma_ring_slots_distinct;

/// True when `n` is a power of two.
pub open spec fn is_pow2(n: int) -> bool
    decreases n,
{
    if n <= 0 {
        false
    } else if n == 1 {
        true
    } else {
        n % 2 == 0 && is_pow2(n / 2)
    }
}

/// Bounded single-producer/single-consumer ring with its capacity chosen
/// at construction.
pub struct RingBuffer<T> {
    buffer: Vec<T>,
    capacity: usize,
    head: u64,
    tail: u64,
    pushed: Ghost<Seq<T>>,
    popped: Ghost<Seq<T>>,
}

impl<T: Copy> RingBuffer<T> {
    /// The fixed capacity of the ring.
    pub closed spec fn capacity_spec(&self) -> int {
        self.capacity as int
    }

    /// The items currently queued, oldest first.
    pub closed spec fn contents(&self) -> Seq<T> {
        Seq::new(
            (self.head - self.tail) as nat,
            |i: int| self.buffer@[(self.tail as int + i) % (self.capacity as int)],
        )
    }

    /// Every item ever pushed, in order.
    pub closed spec fn pushed(&self) -> Seq<T> {
        self.pushed@
    }

    /// Every item ever popped, in order.
    pub closed spec fn popped(&self) -> Seq<T> {
        self.popped@
    }

    /// Ring invariant, as for the job queue.
    pub closed spec fn wf(&self) -> bool {
        &&& self.capacity >= 1
        &&& self.tail <= self.head
        &&& self.head - self.tail <= self.capacity as u64
        &&& self.buffer@.len() == (if self.head < self.capacity as u64 {
            self.head as int
        } else {
            self.capacity as int
        })
        &&& self.pushed@.len() == self.head
        &&& self.popped@.len() == self.tail
        &&& self.pushed@ == self.popped@ + self.contents()
    }

    /// Creates an empty ring of the given capacity, which must be a power
    /// of two (so that the slot index can be computed by masking).
    pub fn new(capacity: usize) -> (r: Self)
        requires
            is_pow2(capacity as int),
        ensures
            r.wf(),
            r.capacity_spec() == capacity,
            r.contents() == Seq::<T>::empty(),
            r.pushed() == Seq::<T>::empty(),
            r.popped() == Seq::<T>::empty(),
    {
        let r = RingBuffer {
            buffer: Vec::new(),
            capacity,
            head: 0,
            tail: 0,
            pushed: Ghost(Seq::empty()),
            popped: Ghost(Seq::empty()),
        };
        proof {
            assert(r.contents() =~= Seq::<T>::empty());
            assert(r.pushed@ =~= r.popped@ + r.contents());
        }
        r
    }

    /// Pushes an item (producer side); returns `false` without queueing
    /// when the ring is full.
    pub fn push(&mut self, item: T) -> (r: bool)
        requires
            old(self).wf(),
            old(self).pushed().len() < u64::MAX,
        ensures
            final(self).wf(),
            final(self).capacity_spec() == old(self).capacity_spec(),
            r ==> {
                &&& old(self).contents().len() < old(self).capacity_spec()
                &&& final(self).contents() == old(self).contents().push(item)
                &&& final(self).pushed() == old(self).pushed().push(item)
                &&& final(self).popped() == old(self).popped()
            },
            !r ==> {
                &&& old(self).contents().len() == old(self).capacity_spec()
                &&& final(self).contents() == old(self).contents()
                &&& final(self).pushed() == old(self).pushed()
                &&& final(self).popped() == old(self).popped()
            },
    {
        let head = self.head;
        let tail = self.tail;
        if head - tail >= self.capacity as u64 {
            return false;
        }
        let ghost oldq = *self;
        let idx = (head % (self.capacity as u64)) as usize;
        proof {
            lemma_mod_division_less_than_divisor(head as int, self.capacity as int);
        }
        if self.buffer.len() < self.capacity {
            proof {
                assert(self.head < self.capacity as u64);
                lemma_small_mod(head as nat, self.capacity as nat);
                assert(idx == self.buffer@.len());
            }
            self.buffer.push(item);
        } else {
            self.buffer[idx] = item;
        }
        self.head = head + 1;
        self.pushed = Ghost(self.pushed@.push(item));
        proof {
            let cap: int = self.capacity as int;
            assert forall|i: int| 0 <= i < oldq.contents().len() implies self.contents()[i]
                == oldq.contents()[i] by {
                lemma_mod_division_less_than_divisor(oldq.tail as int + i, cap);
                lemma_ring_slots_distinct(oldq.tail as int + i, head as int, cap);
                if oldq.head < self.capacity as u64 {
                    lemma_small_mod((oldq.tail as int + i) as nat, self.capacity as nat);
                }
            }
            assert(self.contents()[oldq.contents().len() as int] == item) by {
                lemma_mod_division_less_than_divisor(head as int, cap);
                if oldq.head < self.capacity as u64 {
                    lemma_small_mod(head as nat, self.capacity as nat);
                }
            }
            assert(self.contents() =~= oldq.contents().push(item));
            assert(self.pushed@ =~= self.popped@ + self.contents());
        }
        true
    }

    /// Pops the oldest item (consumer side), or `None` when the ring is
    /// empty.
    pub fn pop(&mut self) -> (r: Option<T>)
        requires
            old(self).wf(),
        ensures
            final(self).wf(),
            final(self).capacity_spec() == old(self).capacity_spec(),
            match r {
                Some(it) => {
                    &&& old(self).contents().len() > 0
                    &&& it == old(self).contents()[0]
                    &&& final(self).contents() == old(self).contents().subrange(
                        1,
                        old(self).contents().len() as int,
                    )
                    &&& final(self).popped() == old(self).popped().push(it)
                    &&& final(self).pushed() == old(self).pushed()
                },
                None => {
                    &&& old(self).contents().len() == 0
                    &&& final(self).contents() == old(self).contents()
                    &&& final(self).pushed() == old(self).pushed()
                    &&& final(self).popped() == old(self).popped()
                },
            },
    {
        let tail = self.tail;
        let head = self.head;
        if tail == head {
            return None;
        }
        let ghost oldq = *self;
        let idx = (tail % (self.capacity as u64)) as usize;
        proof {
            lemma_mod_division_less_than_divisor(tail as int, self.capacity as int);
            if self.head < self.capacity as u64 {
                lemma_small_mod(tail as nat, self.capacity as nat);
            }
            assert(idx < self.buffer@.len());
        }
        let item = *vstd::slice::slice_index_get(self.buffer.as_slice(), idx);
        self.tail = tail + 1;
        self.popped = Ghost(self.popped@.push(item));
        proof {
            assert(item == oldq.contents()[0]);
            assert(self.contents() =~= oldq.contents().subrange(
                1,
                oldq.contents().len() as int,
            ));
            assert(self.pushed@ =~= self.popped@ + self.contents());
        }
        Some(item)
    }
}

} // verus!
