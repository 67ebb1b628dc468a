//! The ring buffer and its two iterators.
use crate::model::after_push;
use vstd::arithmetic::div_mod::{lemma_mod_sub_multiples_vanish, lemma_small_mod};
use vstd::prelude::*;

verus! {

/// FIFO ring buffer with fixed capacity.
/// When it already holds `capacity` elements, a new element overwrites the
/// oldest one.
#[derive(Clone)]
pub struct RingBuffer<T> {
    data: Vec<Option<T>>,
    capacity: usize,
    size: usize,
    start: usize,
    end: usize,
}

impl<T> RingBuffer<T> {
    /// The capacity the buffer was made with.
    pub closed spec fn spec_capacity(&self) -> nat {
        self.capacity as nat
    }

    /// Slot of the `i`-th live element, counted from the oldest.
    spec fn slot(&self, i: int) -> int {
        (self.start + i) % (self.capacity as int)
    }

    /// Well-formedness: the `size` live elements occupy the slots from
    /// `start` on, wrapping forward, and `end` is where the next push lands.
    /// Until the storage has grown to `capacity` slots, nothing has wrapped.
    pub closed spec fn wf(&self) -> bool {
        &&& self.data.len() <= self.capacity
        &&& self.size <= self.capacity
        &&& if self.capacity == 0 {
            self.data.len() == 0 && self.size == 0 && self.start == 0 && self.end == 0
        } else {
            &&& self.start < self.capacity
            &&& self.end < self.capacity
            &&& self.data.len() < self.capacity ==> {
                &&& self.end == self.data.len()
                &&& self.start + self.size == self.data.len()
            }
            &&& self.data.len() == self.capacity ==> (self.start + self.size) % (
            self.capacity as int) == self.end
            &&& forall|i: int|
                0 <= i < self.size ==> 0 <= self.slot(i) < self.data.len()
                    && #[trigger] self.data@[self.slot(i)] is Some
        }
    }
}

impl<T> View for RingBuffer<T> {
    type V = Seq<T>;

    /// The live elements, oldest first.
    closed spec fn view(&self) -> Seq<T> {
        Seq::new(self.size as nat, |i: int| self.data@[self.slot(i)]->Some_0)
    }
}

impl<T> RingBuffer<T> {
    /// An empty buffer that will hold up to `capacity` elements.
    pub fn with_capacity(capacity: usize) -> (r: RingBuffer<T>)
        ensures
            r.wf(),
            r@ == Seq::<T>::empty(),
            r.spec_capacity() == capacity,
    {
        let r = RingBuffer { data: Vec::with_capacity(capacity), capacity, size: 0, start: 0, end: 0 };
        assert(r@ =~= Seq::<T>::empty());
        r
    }

    /// Appends `element` as the newest element. When the buffer is full, the
    /// oldest element is dropped to make room.
    pub fn push(&mut self, element: T)
        requires
            old(self).wf(),
            old(self).spec_capacity() > 0,
        ensures
            final(self).wf(),
            final(self).spec_capacity() == old(self).spec_capacity(),
            final(self)@ == after_push(old(self)@, element, old(self).spec_capacity()),
    {
        let ghost old_self = *self;
        let ghost e = element;
        let ghost cap = self.capacity as int;
        // The slot at `end` holds the oldest live element only when the buffer
        // is full; a drained buffer also has `end == start`, with nothing to evict.
        let was_full = self.size == self.capacity;
        if self.size < self.capacity {
            self.size = self.size + 1;
        }
        if self.data.len() < self.capacity {
            self.data.push(Some(element));
            self.next_end();
            proof {
                lemma_wrap(old_self.end + 1, cap);
                assert forall|i: int| 0 <= i < self.size implies self.slot(i) == old_self.start + i
                    && #[trigger] self.data@[self.slot(i)] is Some by {
                    lemma_wrap(old_self.start + i, cap);
                    if i < old_self.size {
                        lemma_wrap(old_self.start + i, cap);
                        assert(old_self.data@[old_self.slot(i)] is Some);
                    }
                }
                lemma_wrap(self.start + self.size, cap);
                assert(self@ =~= old_self@.push(e));
            }
        } else {
            self.data.set(self.end, Some(element));
            if was_full {
                self.next_start();
            }
            self.next_end();
            proof {
                lemma_wrap(old_self.end + 1, cap);
                lemma_wrap(old_self.start + 1, cap);
                lemma_wrap(old_self.start + old_self.size, cap);
                assert forall|i: int| 0 <= i < cap implies
                    #[trigger] old_self.slot(i) == if old_self.start + i < cap {
                        old_self.start + i
                    } else {
                        old_self.start + i - cap
                    } by {
                    lemma_wrap(old_self.start + i, cap);
                }
                if was_full {
                    assert forall|i: int| 0 <= i < self.size implies self.slot(i) == old_self.slot(
                        i + 1,
                    ) && #[trigger] self.data@[self.slot(i)] is Some by {
                        lemma_wrap(self.start + i, cap);
                        lemma_wrap(old_self.start + i + 1, cap);
                        if i + 1 < cap {
                            assert(old_self.data@[old_self.slot(i + 1)] is Some);
                        }
                    }
                    lemma_wrap(self.start + self.size, cap);
                    assert(self@ =~= old_self@.push(e).subrange(1, cap + 1));
                } else {
                    assert forall|i: int| 0 <= i < self.size implies self.slot(i) == old_self.slot(
                        i,
                    ) && #[trigger] self.data@[self.slot(i)] is Some by {
                        lemma_wrap(old_self.start + i, cap);
                        if i < old_self.size {
                            assert(old_self.data@[old_self.slot(i)] is Some);
                        }
                    }
                    lemma_wrap(self.start + self.size, cap);
                assert(self@ =~= old_self@.push(e));
                }
            }
        }
    }

    /// Removes and returns the oldest element, or `None` when the buffer is
    /// empty (and then leaves it unchanged).
    pub fn pop(&mut self) -> (r: Option<T>)
        requires
            old(self).wf(),
        ensures
            final(self).wf(),
            final(self).spec_capacity() == old(self).spec_capacity(),
            old(self)@.len() == 0 ==> r is None && final(self)@ == old(self)@,
            old(self)@.len() > 0 ==> r == Some(old(self)@[0]) && final(self)@ == old(
                self,
            )@.drop_first(),
    {
        if self.size == 0 {
            None
        } else {
            let ghost old_self = *self;
            let ghost cap = self.capacity as int;
            self.size = self.size - 1;
            let position: usize = self.start;
            self.next_start();
            proof {
                lemma_wrap(old_self.start + 0, cap);
                lemma_wrap(old_self.start + 1, cap);
                lemma_wrap(old_self.start + old_self.size, cap);
                lemma_wrap(self.start + self.size, cap);
                assert forall|i: int| 0 <= i < self.size implies self.slot(i) == old_self.slot(
                    i + 1,
                ) by {
                    lemma_wrap(self.start + i, cap);
                    lemma_wrap(old_self.start + i + 1, cap);
                }
            }
            let r = self.data[position].take();
            proof {
                assert(self.data@ == old_self.data@.update(position as int, None));
                assert forall|i: int| 0 <= i < self.size implies self.slot(i) == old_self.slot(
                    i + 1,
                ) && self.slot(i) != position && 0 <= self.slot(i) < self.data.len()
                    && #[trigger] self.data@[self.slot(i)] is Some by {
                    lemma_wrap(self.start + i, cap);
                    lemma_wrap(old_self.start + i + 1, cap);
                    assert(old_self.data@[old_self.slot(i + 1)] is Some);
                }
                assert forall|i: int| 0 <= i < self.size implies #[trigger] self@[i] == old_self@[i
                    + 1] by {
                    assert(self.data@[self.slot(i)] is Some);
                }
                assert(self@ =~= old_self@.drop_first());
            }
            r
        }
    }

    /// Advances `start` by one slot, wrapping at `capacity`.
    fn next_start(&mut self)
        requires
            old(self).start < old(self).capacity,
        ensures
            *final(self) == (RingBuffer { start: ((old(self).start + 1) % (old(self).capacity as int)) as usize, ..*old(self) }),
    {
        self.start = (self.start + 1) % self.capacity;
    }

    /// Advances `end` by one slot, wrapping at `capacity`.
    fn next_end(&mut self)
        requires
            old(self).end < old(self).capacity,
        ensures
            *final(self) == (RingBuffer { end: ((old(self).end + 1) % (old(self).capacity as int)) as usize, ..*old(self) }),
    {
        self.end = (self.end + 1) % self.capacity;
    }
}

/// Borrowing iterator over a ring buffer: yields references to the live
/// elements, oldest first, without changing the buffer.
pub struct RingBufferIterator<'a, T> {
    ring: &'a RingBuffer<T>,
    size: usize,
    position: usize,
}

/// Consuming iterator over a ring buffer: owns the buffer and pops one
/// element per step.
pub struct ConsumingRingBufferIterator<T> {
    ring: RingBuffer<T>,
}

impl<T> RingBuffer<T> {
    /// A borrowing iterator that starts at the oldest live element.
    pub fn iter(&self) -> (r: RingBufferIterator<'_, T>)
        requires
            self.wf(),
        ensures
            r.wf(),
            r.started_on(*self),
            r@ == self@,
    {
        let r = RingBufferIterator { ring: self, size: self.size, position: self.start };
        proof {
            if self.capacity > 0 {
                lemma_wrap(self.start + 0, self.capacity as int);
            }
            assert(r@ =~= self@);
        }
        r
    }

    /// A consuming iterator that takes the buffer over.
    pub fn into_iter(self) -> (r: ConsumingRingBufferIterator<T>)
        requires
            self.wf(),
        ensures
            r.wf(),
            r.started_on(self),
            r@ == self@,
    {
        ConsumingRingBufferIterator { ring: self }
    }
}

impl<'a, T> RingBufferIterator<'a, T> {
    /// Well-formedness: the iterator stands on one of the buffer's live
    /// elements and has exactly the newer ones still ahead of it.
    pub closed spec fn wf(&self) -> bool {
        &&& self.ring.wf()
        &&& self.size <= self.ring.size
        &&& self.ring.capacity > 0 ==> self.position == self.ring.slot(
            self.ring.size - self.size,
        )
    }

    /// The iterator is a fresh one on `b`: it has yielded nothing yet.
    pub closed spec fn started_on(&self, b: RingBuffer<T>) -> bool {
        &&& *self.ring == b
        &&& self.size == b.size
        &&& self.position == b.start
    }

    /// Yields a reference to the next element, or `None` once every live
    /// element has been yielded.
    pub fn next(&mut self) -> (r: Option<&'a T>)
        requires
            old(self).wf(),
        ensures
            final(self).wf(),
            old(self)@.len() == 0 ==> r is None && final(self)@ == old(self)@,
            old(self)@.len() > 0 ==> r is Some && *r->Some_0 == old(self)@[0] && final(self)@
                == old(self)@.drop_first(),
    {
        if self.size == 0 {
            None
        } else {
            let ghost old_self = *self;
            let ring: &'a RingBuffer<T> = self.ring;
            let ghost k = ring.size - self.size;
            let ghost cap = ring.capacity as int;
            proof {
                assert(ring.data@[ring.slot(k)] is Some);
                lemma_wrap(ring.start + k, cap);
                lemma_wrap(ring.start + k + 1, cap);
                lemma_wrap(self.position + 1, cap);
            }
            let ret: &'a T = ring.data[self.position].as_ref().unwrap();
            self.size = self.size - 1;
            self.position = (self.position + 1) % ring.capacity;
            proof {
                assert(self@ =~= old_self@.drop_first());
            }
            Some(ret)
        }
    }

    /// Every element still ahead, oldest first.
    pub fn collect(self) -> (r: Vec<&'a T>)
        requires
            self.wf(),
        ensures
            r@.len() == self@.len(),
            forall|i: int| 0 <= i < r@.len() ==> *#[trigger] r@[i] == self@[i],
    {
        let ghost all = self@;
        let mut it = self;
        let mut out: Vec<&'a T> = Vec::new();
        loop
            invariant
                it.wf(),
                out@.len() + it@.len() == all.len(),
                it@ == all.subrange(out@.len() as int, all.len() as int),
                forall|i: int| 0 <= i < out@.len() ==> *#[trigger] out@[i] == all[i],
            ensures
                it@.len() == 0,
                out@.len() == all.len(),
                forall|i: int| 0 <= i < out@.len() ==> *#[trigger] out@[i] == all[i],
            decreases it@.len(),
        {
            match it.next() {
                Some(x) => {
                    out.push(x);
                },
                None => {
                    break ;
                },
            }
        }
        out
    }
}

impl<'a, T> View for RingBufferIterator<'a, T> {
    type V = Seq<T>;

    /// The elements still to be yielded, oldest first.
    closed spec fn view(&self) -> Seq<T> {
        self.ring@.subrange(self.ring.size - self.size, self.ring.size as int)
    }
}

impl<T> ConsumingRingBufferIterator<T> {
    /// Well-formedness: the buffer it owns is well formed.
    pub closed spec fn wf(&self) -> bool {
        self.ring.wf()
    }

    /// The iterator is a fresh one on `b`: it owns `b` untouched.
    pub closed spec fn started_on(&self, b: RingBuffer<T>) -> bool {
        self.ring == b
    }

    /// Pops and yields the oldest element, or `None` once the buffer is
    /// drained.
    pub fn next(&mut self) -> (r: Option<T>)
        requires
            old(self).wf(),
        ensures
            final(self).wf(),
            old(self)@.len() == 0 ==> r is None && final(self)@ == old(self)@,
            old(self)@.len() > 0 ==> r == Some(old(self)@[0]) && final(self)@ == old(
                self,
            )@.drop_first(),
    {
        self.ring.pop()
    }

    /// Drains the buffer: every remaining element, oldest first.
    pub fn collect(self) -> (r: Vec<T>)
        requires
            self.wf(),
        ensures
            r@ == self@,
    {
        let ghost all = self@;
        let mut it = self;
        let mut out: Vec<T> = Vec::new();
        loop
            invariant
                it.wf(),
                all == out@ + it@,
            ensures
                it@.len() == 0,
                all == out@ + it@,
            decreases it@.len(),
        {
            match it.next() {
                Some(x) => {
                    out.push(x);
                    proof {
                        assert(all =~= out@ + it@);
                    }
                },
                None => {
                    break ;
                },
            }
        }
        proof {
            assert(all =~= out@);
        }
        out
    }
}

impl<T> View for ConsumingRingBufferIterator<T> {
    type V = Seq<T>;

    /// The elements still to be yielded, oldest first.
    closed spec fn view(&self) -> Seq<T> {
        self.ring@
    }
}

/// Borrowing iteration can be restarted: two fresh borrowing iterators on the
/// same buffer yield the same elements in the same order, namely its live
/// elements oldest first.
pub proof fn lemma_borrowing_iteration_restartable<'a, 'b, T>(
    b: RingBuffer<T>,
    first: RingBufferIterator<'a, T>,
    second: RingBufferIterator<'b, T>,
)
    requires
        b.wf(),
        first.started_on(b),
        second.started_on(b),
    ensures
        first@ == second@,
        first@ == b@,
{
    assert(first@ =~= b@);
    assert(second@ =~= b@);
}

/// Consuming iteration yields what borrowing iteration yields: a fresh
/// consuming iterator and a fresh borrowing iterator on the same buffer have
/// the same elements ahead, in the same order.
pub proof fn lemma_consuming_matches_borrowing<'a, T>(
    b: RingBuffer<T>,
    borrowing: RingBufferIterator<'a, T>,
    consuming: ConsumingRingBufferIterator<T>,
)
    requires
        b.wf(),
        borrowing.started_on(b),
        consuming.started_on(b),
    ensures
        consuming@ == borrowing@,
{
    assert(borrowing@ =~= b@);
}

/// `x % m` for `0 <= x < 2 * m`: a value at most one lap past `m` wraps once.
proof fn lemma_wrap(x: int, m: int)
    requires
        0 <= x < 2 * m,
    ensures
        x % m == if x < m {
            x
        } else {
            x - m
        },
{
    if x < m {
        lemma_small_mod(x as nat, m as nat);
    } else {
        lemma_mod_sub_multiples_vanish(x, m);
        lemma_small_mod((x - m) as nat, m as nat);
    }
}

} // verus!
