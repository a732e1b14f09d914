//! The job queue feeding decode workers: a bounded ring holding items by
//! value, with two monotonically increasing counters.
//!
//! `head` counts items ever pushed, `tail` items ever popped; the live
//! window `tail..head` never exceeds the capacity, and slot `c % N` holds
//! the item of counter `c`.  The contracts record the full push and pop
//! histories, so the order law — what is popped is exactly a prefix of
//! what was pushed — is a consequence of the queue's invariant.
//!
//! In the running system one producer pushes and several consumers pop,
//! claiming slots with a compare-and-swap on `tail`; the functional
//! behaviour of each push and pop is what is verified here, and the
//! process-level loop around it stays outside the library.

use vstd::prelude::*;

verus! {

use vstd::arithmetic::div_mod::{
    lemma_fundamental_div_mod, lemma_mod_division_less_than_divisor, lemma_small_mod,
};

/// Two counters less than one window apart land on distinct ring slots.
pub proof fn lemma_ring_slots_distinct(a: int, b: int, n: int)
    requires
        n >= 1,
        a >= 0,
        a < b,
        b - a < n,
    ensures
        a % n != b % n,
{
    lemma_fundamental_div_mod(a, n);
    lemma_fundamental_div_mod(b, n);
    lemma_mod_division_less_than_divisor(a, n);
    lemma_mod_division_less_than_divisor(b, n);
    if a % n == b % n {
        assert(false) by (nonlinear_arith)
            requires
                n >= 1,
                a < b,
                b - a < n,
                a == n * (a / n) + a % n,
                b == n * (b / n) + b % n,
                a % n == b % n,
        ;
    }
}

/// Bounded single-producer/multi-consumer ring of `N` slots holding items
/// by value.
pub struct StaticQueue<T, const N: usize> {
    buffer: Vec<T>,
    head: u64,
    tail: u64,
    pushed: Ghost<Seq<T>>,
    popped: Ghost<Seq<T>>,
}

impl<T: Copy, const N: usize> StaticQueue<T, N> {
    /// The items currently queued, oldest first.
    pub closed spec fn contents(&self) -> Seq<T> {
        Seq::new(
            (self.head - self.tail) as nat,
            |i: int| self.buffer@[(self.tail as int + i) % (N as int)],
        )
    }

    /// Every item ever pushed, in order.
    pub closed spec fn pushed(&self) -> Seq<T> {
        self.pushed@
    }

    /// Every item ever popped, in order.
    pub closed spec fn popped(&self) -> Seq<T> {
        self.popped@
    }

    /// Queue invariant: the window fits the ring, the initialized prefix
    /// of the buffer covers it, and the push history splits into the pop
    /// history followed by the live contents.
    pub closed spec fn wf(&self) -> bool {
        &&& N >= 1
        &&& self.tail <= self.head
        &&& self.head - self.tail <= N as u64
        &&& self.buffer@.len() == (if self.head < N as u64 {
            self.head as int
        } else {
            N as int
        })
        &&& self.pushed@.len() == self.head
        &&& self.popped@.len() == self.tail
        &&& self.pushed@ == self.popped@ + self.contents()
    }

    /// Creates an empty queue.  The capacity `N` must be at least one; a
    /// power of two lets the slot index be computed by masking.
    pub fn new() -> (r: Self)
        requires
            N >= 1,
        ensures
            r.wf(),
            r.contents() == Seq::<T>::empty(),
            r.pushed() == Seq::<T>::empty(),
            r.popped() == Seq::<T>::empty(),
    {
        let r = StaticQueue {
            buffer: Vec::new(),
            head: 0,
            tail: 0,
            pushed: Ghost(Seq::empty()),
            popped: Ghost(Seq::empty()),
        };
        proof {
            assert(r.contents() =~= Seq::<T>::empty());
            assert(r.pushed@ =~= r.popped@ + r.contents());
        }
        r
    }

    /// Number of items currently queued.
    pub fn len(&self) -> (r: u64)
        requires
            self.wf(),
        ensures
            r == self.contents().len(),
    {
        self.head - self.tail
    }

    /// Pushes an item (producer side).  Fails, handing the item back, when
    /// the ring is full — that is the producer's backpressure signal, not
    /// an error.
    pub fn push(&mut self, item: T) -> (r: Result<(), T>)
        requires
            old(self).wf(),
            old(self).pushed().len() < u64::MAX,
        ensures
            final(self).wf(),
            match r {
                Ok(()) => {
                    &&& old(self).contents().len() < N
                    &&& final(self).contents() == old(self).contents().push(item)
                    &&& final(self).pushed() == old(self).pushed().push(item)
                    &&& final(self).popped() == old(self).popped()
                },
                Err(it) => {
                    &&& it == item
                    &&& old(self).contents().len() == N
                    &&& final(self).contents() == old(self).contents()
                    &&& final(self).pushed() == old(self).pushed()
                    &&& final(self).popped() == old(self).popped()
                },
            },
    {
        let head = self.head;
        let tail = self.tail;
        if head - tail >= N as u64 {
            return Err(item);
        }
        let ghost oldq = *self;
        let idx = (head % (N as u64)) as usize;
        proof {
            lemma_mod_division_less_than_divisor(head as int, N as int);
        }
        if self.buffer.len() < N {
            proof {
                assert(self.head < N as u64);
                lemma_small_mod(head as nat, N as nat);
                assert(idx == self.buffer@.len());
            }
            self.buffer.push(item);
        } else {
            self.buffer[idx] = item;
        }
        self.head = head + 1;
        self.pushed = Ghost(self.pushed@.push(item));
        proof {
            assert forall|i: int| 0 <= i < oldq.contents().len() implies self.contents()[i]
                == oldq.contents()[i] by {
                lemma_mod_division_less_than_divisor(oldq.tail as int + i, N as int);
                lemma_ring_slots_distinct(oldq.tail as int + i, head as int, N as int);
                if oldq.head < N as u64 {
                    lemma_small_mod((oldq.tail as int + i) as nat, N as nat);
                }
            }
            assert(self.contents()[oldq.contents().len() as int] == item) by {
                lemma_mod_division_less_than_divisor(head as int, N as int);
                if oldq.head < N as u64 {
                    lemma_small_mod(head as nat, N as nat);
                }
            }
            assert(self.contents() =~= oldq.contents().push(item));
            assert(self.pushed@ =~= self.popped@ + self.contents());
        }
        Ok(())
    }

    /// Pops the oldest item (consumer side), or `None` when the queue is
    /// empty.
    pub fn pop(&mut self) -> (r: Option<T>)
        requires
            old(self).wf(),
        ensures
            final(self).wf(),
            match r {
                Some(it) => {
                    &&& old(self).contents().len() > 0
                    &&& it == old(self).contents()[0]
                    &&& final(self).contents() == old(self).contents().subrange(
                        1,
                        old(self).contents().len() as int,
                    )
                    &&& final(self).popped() == old(self).popped().push(it)
                    &&& final(self).pushed() == old(self).pushed()
                },
                None => {
                    &&& old(self).contents().len() == 0
                    &&& final(self).contents() == old(self).contents()
                    &&& final(self).pushed() == old(self).pushed()
                    &&& final(self).popped() == old(self).popped()
                },
            },
    {
        let tail = self.tail;
        let head = self.head;
        if tail == head {
            return None;
        }
        let ghost oldq = *self;
        let idx = (tail % (N as u64)) as usize;
        proof {
            lemma_mod_division_less_than_divisor(tail as int, N as int);
            if self.head < N as u64 {
                lemma_small_mod(tail as nat, N as nat);
            }
            assert(idx < self.buffer@.len());
        }
        let item = *vstd::slice::slice_index_get(self.buffer.as_slice(), idx);
        self.tail = tail + 1;
        self.popped = Ghost(self.popped@.push(item));
        proof {
            assert(item == oldq.contents()[0]);
            assert(self.contents() =~= oldq.contents().subrange(
                1,
                oldq.contents().len() as int,
            ));
            assert(self.pushed@ =~= self.popped@ + self.contents());
        }
        Some(item)
    }
}

/// Order law of the queue: the sequence of popped items is exactly a
/// prefix of the sequence of pushed items — nothing is duplicated, lost
/// from the middle, or reordered — and the remainder is what the queue
/// still holds.
pub proof fn lemma_popped_prefix_of_pushed<T: Copy, const N: usize>(q: &StaticQueue<T, N>)
    requires
        q.wf(),
    ensures
        q.pushed() == q.popped() + q.contents(),
        q.popped() == q.pushed().take(q.popped().len() as int),
{
    assert(q.popped() =~= q.pushed().take(q.popped().len() as int));
}

} // verus!
