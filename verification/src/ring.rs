//! Ring buffer with overflow spilling to a spout.

use vstd::prelude::*;
use crate::counter::{
    is_ahead, lemma_lag_room, lemma_slot, lemma_wrapped_add, lemma_wrapped_distance,
    lemma_wrapped_behind, lemma_wrapped_small, max_lag, slot, valid_capacity, wrapped,
};
use crate::index::{Index, SpoutCell};
use crate::traits::{RingConsumer, RingInfo, RingProducer};
use crate::model::{kept, lemma_bulk_cases, spilled};
use crate::slots::{
    lemma_ends, lemma_put, lemma_put_many, lemma_slot_step, lemma_take, lemma_untouched,
    lemma_vacant, slots_hold,
};
use crate::spout::{
    lemma_sent_concat, lemma_sent_none, lemma_sent_one, lemma_sent_push, sent_all, DropSpout,
    Spout,
};

verus! {

/// Copies `count` items of `src`, from index `from` on, into the slots from
/// `at` on: one contiguous run.
fn copy_in<T: Copy>(slots: &mut Vec<Option<T>>, at: usize, src: &[T], from: usize, count: usize)
    requires
        at + count <= old(slots)@.len(),
        from + count <= src@.len(),
    ensures
        final(slots)@.len() == old(slots)@.len(),
        forall|k: int|
            0 <= k < old(slots)@.len() ==> #[trigger] final(slots)@[k] == (if at <= k < at + count {
                Some(src@[k - at + from])
            } else {
                old(slots)@[k]
            }),
{
    let n = slots.len();
    let m = src.len();
    let mut j: usize = 0;
    while j < count
        invariant
            j <= count,
            n == slots@.len(),
            m == src@.len(),
            at + count <= n,
            from + count <= m,
            slots@.len() == old(slots)@.len(),
            forall|k: int|
                0 <= k < slots@.len() ==> #[trigger] slots@[k] == (if at <= k < at + j {
                    Some(src@[k - at + from])
                } else {
                    old(slots)@[k]
                }),
        decreases count - j,
    {
        slots[at + j] = Some(src[from + j]);
        j += 1;
    }
}

/// A ring as its contracts see it: the items it holds, oldest first, and its
/// three counters, which count without bound.
pub struct RingView<T> {
    pub items: Seq<T>,
    pub head: nat,
    pub tail: nat,
    pub evict_head: nat,
}

impl<T> RingView<T> {
    /// The count of the oldest item that is still in the ring.
    pub open spec fn effective_head(self) -> nat {
        if self.head < self.evict_head {
            self.evict_head
        } else {
            self.head
        }
    }

    /// How far the tail is ahead of the slower of the two head counters.
    pub open spec fn lag(self) -> int {
        if self.head < self.evict_head {
            self.tail - self.head
        } else {
            self.tail - self.evict_head
        }
    }

    /// What holds of the counters and the contents of a ring of capacity
    /// `cap` whenever no call is under way.
    pub open spec fn wf(self, cap: nat) -> bool {
        &&& self.head <= self.tail
        &&& self.evict_head <= self.tail
        &&& self.items.len() == self.tail - self.effective_head()
        &&& self.items.len() <= cap
        &&& self.head < self.evict_head ==> self.items.len() == cap
        &&& self.lag() <= max_lag()
    }

    /// No counter of `self` is behind where it was in `prev`.
    pub open spec fn advanced_from(self, prev: Self) -> bool {
        &&& prev.head <= self.head
        &&& prev.tail <= self.tail
        &&& prev.evict_head <= self.evict_head
    }
}

/// The counts behind the two shadow counters: the producer's copy of the
/// head and the consumer's copy of the tail.
pub struct Shadows {
    pub head: nat,
    pub tail: nat,
}

/// Ring buffer of capacity `N` that spills evicted items to a spout.
///
/// The consumer owns `head` and its shadow of the tail; the producer owns
/// `tail`, `evict_head` and its shadow of the head.
pub struct SpillRing<T, const N: usize, S: Spout<T> = DropSpout> {
    head: Index,
    cached_tail: usize,
    tail: Index,
    cached_head: usize,
    evict_head: Index,
    buffer: Vec<Option<T>>,
    sink: SpoutCell<S>,
    model: Ghost<RingView<T>>,
    shadows: Ghost<Shadows>,
}

impl<T, const N: usize, S: Spout<T>> View for SpillRing<T, N, S> {
    type V = RingView<T>;

    closed spec fn view(&self) -> RingView<T> {
        self.model@
    }
}

impl<T, const N: usize, S: Spout<T>> SpillRing<T, N, S> {
    /// The spout, as a value.
    pub closed spec fn spout(&self) -> S {
        self.sink@
    }

    /// The stored counters are the words of the counts.
    spec fn words_match(&self) -> bool {
        &&& self.head@ == wrapped(self.model@.head)
        &&& self.tail@ == wrapped(self.model@.tail)
        &&& self.evict_head@ == wrapped(self.model@.evict_head)
        &&& self.cached_head == wrapped(self.shadows@.head)
        &&& self.cached_tail == wrapped(self.shadows@.tail)
    }

    /// The shadow counters are stale at worst, never wrong.
    spec fn shadows_bounded(&self) -> bool {
        &&& self.shadows@.head <= self.model@.head
        &&& self.model@.tail - self.shadows@.head <= max_lag()
        &&& self.model@.head <= self.shadows@.tail <= self.model@.tail
    }

    /// The slots hold the items, from the effective head on.
    spec fn slots_match(&self) -> bool {
        slots_hold(self.buffer@, N as nat, self.model@.effective_head(), self.model@.items)
    }

    /// The ring is sound: a valid capacity, counters, slots and contents
    /// that agree, and a spout that is ready.
    pub closed spec fn wf(&self) -> bool {
        &&& valid_capacity(N)
        &&& self.model@.wf(N as nat)
        &&& self.sink@.wf()
        &&& self.words_match()
        &&& self.shadows_bounded()
        &&& self.slots_match()
    }

    /// What a sound ring lets its callers know.
    pub proof fn lemma_wf(&self)
        requires
            self.wf(),
        ensures
            valid_capacity(N),
            self@.wf(N as nat),
            self.spout().wf(),
    {
    }

    /// Create a new ring buffer with a custom spout, without touching its
    /// slots.
    pub fn with_sink_cold(sink: S) -> (ring: Self)
        requires
            valid_capacity(N),
            sink.wf(),
        ensures
            ring.wf(),
            ring@ == (RingView { items: Seq::<T>::empty(), head: 0, tail: 0, evict_head: 0 }),
            ring.spout() == sink,
    {
        let mut buffer: Vec<Option<T>> = Vec::with_capacity(N);
        let mut i: usize = 0;
        while i < N
            invariant
                i <= N,
                buffer@.len() == i,
                forall|j: int| 0 <= j < i ==> buffer@[j] == None::<T>,
            decreases N - i,
        {
            buffer.push(None);
            i += 1;
        }
        proof {
            lemma_lag_room(N);
            lemma_wrapped_small(0);
            lemma_vacant(buffer@, N as nat, 0);
        }
        Self {
            head: Index::new(0),
            cached_tail: 0,
            tail: Index::new(0),
            cached_head: 0,
            evict_head: Index::new(0),
            buffer,
            sink: SpoutCell::new(sink),
            model: Ghost(RingView { items: Seq::empty(), head: 0, tail: 0, evict_head: 0 }),
            shadows: Ghost(Shadows { head: 0, tail: 0 }),
        }
    }

    /// Create a new ring buffer with a custom spout, every slot touched once
    /// before the first push.
    pub fn with_sink(sink: S) -> (ring: Self)
        requires
            valid_capacity(N),
            sink.wf(),
        ensures
            ring.wf(),
            ring@ == (RingView { items: Seq::<T>::empty(), head: 0, tail: 0, evict_head: 0 }),
            ring.spout() == sink,
    {
        let mut ring = Self::with_sink_cold(sink);
        ring.warm();
        ring
    }

    /// Writes every slot of an empty ring once, then sets all its counters
    /// to zero, wherever they stood. Nothing is added to the ring.
    fn warm(&mut self)
        requires
            old(self).wf(),
            old(self)@.items.len() == 0,
        ensures
            final(self).wf(),
            final(self)@ == (RingView { items: Seq::<T>::empty(), head: 0, tail: 0, evict_head: 0 }),
            final(self).spout() == old(self).spout(),
    {
        let mut i: usize = 0;
        while i < N
            invariant
                i <= N,
                self.buffer@.len() == N,
                forall|j: int| 0 <= j < i ==> self.buffer@[j] == None::<T>,
                self.sink == old(self).sink,
            decreases N - i,
        {
            self.buffer[i] = None;
            i += 1;
        }
        self.head.store(0);
        self.cached_tail = 0;
        self.tail.store(0);
        self.cached_head = 0;
        self.evict_head.store(0);
        self.model = Ghost(RingView { items: Seq::empty(), head: 0, tail: 0, evict_head: 0 });
        self.shadows = Ghost(Shadows { head: 0, tail: 0 });
        proof {
            lemma_lag_room(N);
            lemma_wrapped_small(0);
            lemma_vacant(self.buffer@, N as nat, 0);
        }
    }

    /// The counter of the consumer, as stored.
    pub fn head(&self) -> (word: usize)
        requires
            self.wf(),
        ensures
            word == wrapped(self@.head),
    {
        self.head.load()
    }

    /// The counter of the producer, as stored.
    pub fn tail(&self) -> (word: usize)
        requires
            self.wf(),
        ensures
            word == wrapped(self@.tail),
    {
        self.tail.load()
    }

    /// The eviction counter of the producer, as stored.
    pub fn evict_head(&self) -> (word: usize)
        requires
            self.wf(),
        ensures
            word == wrapped(self@.evict_head),
    {
        self.evict_head.load()
    }

    /// How far the tail is ahead of the slower of the two head counters.
    pub fn lag(&self) -> (lag: usize)
        requires
            self.wf(),
        ensures
            lag == self@.lag(),
            lag <= max_lag(),
    {
        let tail = self.tail.load();
        let head = self.head.load();
        let evict = self.evict_head.load();
        proof {
            lemma_lag_room(N);
            lemma_wrapped_distance(self.model@.tail, self.model@.head);
            lemma_wrapped_distance(self.model@.tail, self.model@.evict_head);
        }
        let behind_head = tail.wrapping_sub(head);
        let behind_evict = tail.wrapping_sub(evict);
        if behind_head < behind_evict {
            behind_evict
        } else {
            behind_head
        }
    }

    /// True if the producer may `push`: the tail has not run half the word
    /// range ahead of a head counter. Any call with exclusive access brings
    /// the counters together again.
    pub fn can_push(&self) -> (ready: bool)
        requires
            self.wf(),
        ensures
            ready == (self@.lag() < max_lag()),
    {
        proof {
            lemma_lag_room(N);
        }
        self.lag() <= usize::MAX / 2
    }

    /// Number of items in the buffer: the tail less the effective head,
    /// and never more than the capacity.
    pub fn len(&self) -> (len: usize)
        requires
            self.wf(),
        ensures
            len == self@.items.len(),
            len <= N,
    {
        let tail = self.tail.load();
        let head = self.head.load();
        let evict = self.evict_head.load();
        proof {
            lemma_lag_room(N);
        }
        let ahead = is_ahead(evict, head, Ghost(self.model@.evict_head), Ghost(self.model@.head));
        let effective = if ahead {
            evict
        } else {
            head
        };
        proof {
            lemma_wrapped_distance(self.model@.tail, self.model@.effective_head());
        }
        let len = tail.wrapping_sub(effective);
        if len > N {
            N
        } else {
            len
        }
    }

    /// True if empty.
    pub fn is_empty(&self) -> (empty: bool)
        requires
            self.wf(),
        ensures
            empty == (self@.items.len() == 0),
    {
        self.len() == 0
    }

    /// True if full.
    pub fn is_full(&self) -> (full: bool)
        requires
            self.wf(),
        ensures
            full == (self@.items.len() == N),
    {
        self.len() >= N
    }

    /// Buffer capacity.
    pub fn capacity(&self) -> (capacity: usize)
        ensures
            capacity == N,
    {
        N
    }

    /// Reference to the spout.
    pub fn sink(&self) -> (sink: &S)
        ensures
            *sink == self.spout(),
    {
        self.sink.get_ref()
    }

    /// Mutable reference to the spout. The ring stays sound as long as the
    /// spout is left ready.
    pub fn sink_mut(&mut self) -> (sink: &mut S)
        ensures
            *sink == old(self).spout(),
            final(self).spout() == *final(sink),
            final(self)@ == old(self)@,
            old(self).wf() && final(sink).wf() ==> final(self).wf(),
    {
        self.sink.get_mut()
    }

    /// Brings the two head counters and both shadows up to date. Only a
    /// caller with exclusive access may do so.
    fn reconcile(&mut self)
        requires
            old(self).wf(),
        ensures
            final(self).wf(),
            final(self)@.items == old(self)@.items,
            final(self)@.tail == old(self)@.tail,
            final(self)@.head == old(self)@.effective_head(),
            final(self)@.evict_head == old(self)@.effective_head(),
            final(self).shadows@.head == final(self)@.head,
            final(self).shadows@.tail == final(self)@.tail,
            final(self).sink == old(self).sink,
            final(self).buffer == old(self).buffer,
    {
        let mut head = self.head.load_mut();
        let evict = self.evict_head.load_mut();
        proof {
            lemma_lag_room(N);
        }
        if is_ahead(evict, head, Ghost(self.model@.evict_head), Ghost(self.model@.head)) {
            head = evict;
        }
        let tail = self.tail.load_mut();
        self.head.store_mut(head);
        self.evict_head.store_mut(head);
        self.cached_head = head;
        self.cached_tail = tail;
        let ghost eff = self.model@.effective_head();
        self.model = Ghost(
            RingView {
                items: self.model@.items,
                head: eff,
                tail: self.model@.tail,
                evict_head: eff,
            },
        );
        self.shadows = Ghost(Shadows { head: eff, tail: self.model@.tail });
    }

    /// Both head counters and both shadows are up to date.
    spec fn reconciled(&self) -> bool {
        &&& self.wf()
        &&& self.model@.head == self.model@.evict_head
        &&& self.shadows@.head == self.model@.head
        &&& self.shadows@.tail == self.model@.tail
    }

    /// Moves the `count` oldest items to the spout, oldest first, then
    /// advances both head counters past them.
    fn spill_oldest(&mut self, count: usize)
        requires
            old(self).reconciled(),
            count <= old(self)@.items.len(),
        ensures
            final(self).reconciled(),
            final(self)@.items == old(self)@.items.skip(count as int),
            sent_all(old(self).spout(), old(self)@.items.take(count as int), final(self).spout()),
            final(self)@.tail == old(self)@.tail,
            final(self)@.head == old(self)@.head + count,
    {
        let head = self.head.load_mut();
        let ghost before = self.model@;
        let ghost sink_before = self.sink@;
        let mut i: usize = 0;
        proof {
            lemma_sent_none::<T, S>(sink_before);
            assert(before.items.take(0) =~= Seq::<T>::empty());
            assert(before.items.skip(0) =~= before.items);
        }
        while i < count
            invariant
                i <= count <= before.items.len(),
                valid_capacity(N),
                head == wrapped(before.head),
                slots_hold(
                    self.buffer@,
                    N as nat,
                    (before.head + i) as nat,
                    before.items.skip(i as int),
                ),
                self.sink@.wf(),
                sent_all(sink_before, before.items.take(i as int), self.sink@),
                self.head@ == old(self).head@,
                self.tail@ == old(self).tail@,
                self.evict_head@ == old(self).evict_head@,
                self.cached_head == old(self).cached_head,
                self.cached_tail == old(self).cached_tail,
                self.model == old(self).model,
                self.shadows == old(self).shadows,
            decreases count - i,
        {
            let idx = head.wrapping_add(i) & (N - 1);
            let ghost rest = before.items.skip(i as int);
            let ghost sink_mid = self.sink@;
            proof {
                lemma_lag_room(N);
                lemma_wrapped_add(before.head, i);
                lemma_slot((before.head + i) as nat, N);
                lemma_take(self.buffer@, N as nat, (before.head + i) as nat, rest);
            }
            let item = self.buffer[idx].take().unwrap();
            self.sink.get_mut().send(item);
            proof {
                assert(rest.drop_first() =~= before.items.skip(i + 1));
                assert(before.items.take(i + 1) =~= before.items.take(i as int).push(item));
                lemma_sent_push(sink_before, before.items.take(i as int), sink_mid, item, self.sink@);
            }
            i += 1;
        }
        let next = head.wrapping_add(count);
        self.head.store_mut(next);
        self.evict_head.store_mut(next);
        self.cached_head = next;
        proof {
            lemma_wrapped_add(before.head, count);
        }
        let ghost new_head = (before.head + count) as nat;
        self.model = Ghost(
            RingView {
                items: before.items.skip(count as int),
                head: new_head,
                tail: before.tail,
                evict_head: new_head,
            },
        );
        self.shadows = Ghost(Shadows { head: new_head, tail: before.tail });
    }

    /// Push an item with exclusive access. If the ring is full, the oldest
    /// item goes to the spout first.
    pub fn push_mut(&mut self, item: T)
        requires
            old(self).wf(),
        ensures
            final(self).wf(),
            final(self)@.items == kept(old(self)@.items.push(item), N as nat),
            sent_all(
                old(self).spout(),
                spilled(old(self)@.items.push(item), N as nat),
                final(self).spout(),
            ),
            final(self)@.tail == old(self)@.tail + 1,
            final(self)@.head == final(self)@.tail - final(self)@.items.len(),
            final(self)@.evict_head == final(self)@.head,
            final(self)@.advanced_from(old(self)@),
    {
        self.reconcile();
        let tail = self.tail.load_mut();
        let head = self.head.load_mut();
        let ghost before = self.model@;
        let ghost sink_before = self.sink@;
        proof {
            lemma_lag_room(N);
            lemma_wrapped_distance(before.tail, before.head);
        }
        if tail.wrapping_sub(head) >= N {
            self.spill_oldest(1);
            proof {
                assert(spilled(before.items.push(item), N as nat) =~= before.items.take(1));
                assert(kept(before.items.push(item), N as nat) =~= before.items.skip(1).push(item));
            }
        } else {
            proof {
                lemma_sent_none::<T, S>(sink_before);
                assert(spilled(before.items.push(item), N as nat) =~= Seq::<T>::empty());
            }
        }
        self.put(item);
    }

    /// Writes an item into the slot of the tail and advances the tail.
    fn put(&mut self, item: T)
        requires
            old(self).reconciled(),
            old(self)@.items.len() < N,
        ensures
            final(self).reconciled(),
            final(self)@.items == old(self)@.items.push(item),
            final(self)@.tail == old(self)@.tail + 1,
            final(self)@.head == old(self)@.head,
            final(self).sink == old(self).sink,
    {
        let tail = self.tail.load_mut();
        let ghost before = self.model@;
        let idx = tail & (N - 1);
        proof {
            lemma_lag_room(N);
            lemma_slot(before.tail, N);
            lemma_put(self.buffer@, N as nat, before.head, before.items, item);
            lemma_wrapped_add(before.tail, 1);
        }
        self.buffer[idx] = Some(item);
        self.tail.store_mut(tail.wrapping_add(1));
        self.cached_tail = tail.wrapping_add(1);
        self.model = Ghost(
            RingView {
                items: before.items.push(item),
                head: before.head,
                tail: (before.tail + 1) as nat,
                evict_head: before.evict_head,
            },
        );
        self.shadows = Ghost(Shadows { head: before.head, tail: (before.tail + 1) as nat });
    }

    /// Push an item as the producer of the ring. If the ring is full, the
    /// oldest item goes to the spout first.
    ///
    /// The producer writes `tail` and `evict_head` only. It looks at its
    /// shadow of the head first and reads the head itself only when the
    /// shadow says that the ring is full. An eviction is published through
    /// `evict_head` before the new item is written.
    pub fn push(&mut self, item: T)
        requires
            old(self).wf(),
            old(self)@.lag() < max_lag(),
        ensures
            final(self).wf(),
            final(self)@.items == kept(old(self)@.items.push(item), N as nat),
            sent_all(
                old(self).spout(),
                spilled(old(self)@.items.push(item), N as nat),
                final(self).spout(),
            ),
            final(self)@.tail == old(self)@.tail + 1,
            final(self)@.head == old(self)@.head,
            final(self)@.evict_head == (if old(self)@.items.len() == N {
                old(self)@.effective_head() + 1
            } else {
                old(self)@.evict_head
            }),
            final(self)@.advanced_from(old(self)@),
    {
        let ghost before = self.model@;
        let ghost sink_before = self.sink@;
        let ghost mut first = before.effective_head();
        let ghost mut held = before.items;
        let ghost mut evict_count = before.evict_head;
        let ghost mut shadow_head = self.shadows@.head;

        let tail = self.tail.load_relaxed();
        let mut head = self.cached_head;
        proof {
            lemma_lag_room(N);
            lemma_wrapped_distance(before.tail, self.shadows@.head);
            lemma_sent_none::<T, S>(sink_before);
            assert(spilled(before.items.push(item), N as nat) =~= if before.items.len() == N {
                before.items.take(1)
            } else {
                Seq::<T>::empty()
            });
            assert(kept(before.items.push(item), N as nat) =~= if before.items.len() == N {
                before.items.drop_first().push(item)
            } else {
                before.items.push(item)
            });
        }
        if tail.wrapping_sub(head) >= N {
            head = self.head.load();
            self.cached_head = head;
            proof {
                shadow_head = before.head;
                lemma_wrapped_distance(before.tail, before.head);
            }
            if tail.wrapping_sub(head) >= N {
                let mut evict = self.evict_head.load_relaxed();
                if is_ahead(head, evict, Ghost(before.head), Ghost(before.evict_head)) {
                    evict = head;
                }
                let idx = evict & (N - 1);
                proof {
                    lemma_slot(first, N);
                    lemma_take(self.buffer@, N as nat, first, held);
                    lemma_wrapped_add(first, 1);
                }
                let evicted = self.buffer[idx].take().unwrap();
                self.sink.get_mut().send(evicted);
                self.evict_head.store(evict.wrapping_add(1));
                proof {
                    lemma_sent_one(sink_before, evicted, self.sink@);
                    assert(before.items.take(1) =~= seq![evicted]);
                    held = held.drop_first();
                    first = first + 1;
                    evict_count = first;
                }
            }
        }
        let idx = tail & (N - 1);
        proof {
            assert(first + held.len() == before.tail);
            lemma_slot(before.tail, N);
            lemma_put(self.buffer@, N as nat, first, held, item);
            lemma_wrapped_add(before.tail, 1);
        }
        self.buffer[idx] = Some(item);
        self.tail.store(tail.wrapping_add(1));
        self.model = Ghost(
            RingView {
                items: held.push(item),
                head: before.head,
                tail: (before.tail + 1) as nat,
                evict_head: evict_count,
            },
        );
        self.shadows = Ghost(Shadows { head: shadow_head, tail: self.shadows@.tail });
    }

    /// Pop the oldest item as the consumer of the ring.
    ///
    /// The consumer writes `head` only. It first skips what the producer
    /// evicted, looks at its shadow of the tail and reads the tail itself
    /// only when the shadow says that the ring is empty. Before it takes the
    /// item it reads `evict_head` once more and starts over if the producer
    /// evicted the slot in the meantime. While the ring is borrowed
    /// exclusively nothing can come in between, so the first round decides.
    pub fn pop(&mut self) -> (item: Option<T>)
        requires
            old(self).wf(),
        ensures
            final(self).wf(),
            item == (if old(self)@.items.len() == 0 {
                None
            } else {
                Some(old(self)@.items[0])
            }),
            final(self)@.items == (if old(self)@.items.len() == 0 {
                old(self)@.items
            } else {
                old(self)@.items.drop_first()
            }),
            final(self).spout() == old(self).spout(),
            final(self)@.tail == old(self)@.tail,
            final(self)@.evict_head == old(self)@.evict_head,
            final(self)@.head == final(self)@.tail - final(self)@.items.len(),
            final(self)@.advanced_from(old(self)@),
    {
        let ghost before = self.model@;
        let ghost first = before.effective_head();
        loop
            invariant
                *self == *old(self),
                self.wf(),
                before == self.model@,
                first == before.effective_head(),
            decreases 0nat,
        {
            let mut head = self.head.load_relaxed();
            let evict = self.evict_head.load();
            proof {
                lemma_lag_room(N);
            }
            if is_ahead(evict, head, Ghost(before.evict_head), Ghost(before.head)) {
                head = evict;
            }
            let mut tail = self.cached_tail;
            let ghost mut shadow_tail = self.shadows@.tail;
            proof {
                if shadow_tail >= first {
                    lemma_wrapped_distance(shadow_tail, first);
                } else {
                    lemma_wrapped_behind(shadow_tail, first);
                }
            }
            let cached_avail = tail.wrapping_sub(head);
            if cached_avail == 0 || cached_avail > N {
                tail = self.tail.load();
                self.cached_tail = tail;
                proof {
                    shadow_tail = before.tail;
                    lemma_wrapped_distance(before.tail, first);
                }
                if head == tail {
                    if head != self.head.load_relaxed() {
                        self.head.store(head);
                    }
                    self.model = Ghost(
                        RingView {
                            items: before.items,
                            head: first,
                            tail: before.tail,
                            evict_head: before.evict_head,
                        },
                    );
                    self.shadows = Ghost(Shadows { head: self.shadows@.head, tail: shadow_tail });
                    return None;
                }
            }
            let idx = head & (N - 1);
            let evict_again = self.evict_head.load_relaxed();
            if is_ahead(evict_again, head, Ghost(before.evict_head), Ghost(first)) {
                continue ;
            }
            proof {
                lemma_wrapped_distance(before.tail, first);
                lemma_slot(first, N);
                lemma_take(self.buffer@, N as nat, first, before.items);
                lemma_wrapped_add(first, 1);
            }
            let item = self.buffer[idx].take().unwrap();
            self.head.store(head.wrapping_add(1));
            self.model = Ghost(
                RingView {
                    items: before.items.drop_first(),
                    head: (first + 1) as nat,
                    tail: before.tail,
                    evict_head: before.evict_head,
                },
            );
            self.shadows = Ghost(Shadows { head: self.shadows@.head, tail: shadow_tail });
            return Some(item);
        }
    }

    /// Sends the first `count` items of a slice straight to the spout.
    fn send_prefix(&mut self, items: &[T], count: usize) where T: Copy
        requires
            old(self).reconciled(),
            count <= items@.len(),
        ensures
            final(self).reconciled(),
            final(self)@ == old(self)@,
            sent_all(old(self).spout(), items@.take(count as int), final(self).spout()),
    {
        let ghost sink_before = self.sink@;
        let mut i: usize = 0;
        proof {
            assert(items@.take(0) =~= Seq::<T>::empty());
            lemma_sent_none::<T, S>(sink_before);
        }
        while i < count
            invariant
                i <= count <= items@.len(),
                self.reconciled(),
                self.model@ == old(self).model@,
                sent_all(sink_before, items@.take(i as int), self.sink@),
            decreases count - i,
        {
            let ghost sink_now = self.sink@;
            self.sink.get_mut().send(items[i]);
            proof {
                assert(items@.take(i + 1) =~= items@.take(i as int).push(items@[i as int]));
                lemma_sent_push(
                    sink_before,
                    items@.take(i as int),
                    sink_now,
                    items@[i as int],
                    self.sink@,
                );
            }
            i += 1;
        }
    }

    /// Copies the items of a slice from index `skip` on into the slots from
    /// the tail on, in at most two contiguous runs: up to the last slot, then
    /// from the first slot on. Then advances the tail past them.
    fn copy_to_tail(&mut self, items: &[T], skip: usize) where T: Copy
        requires
            old(self).reconciled(),
            skip <= items@.len(),
            old(self)@.items.len() + (items@.len() - skip) <= N,
        ensures
            final(self).reconciled(),
            final(self)@.items == old(self)@.items + items@.skip(skip as int),
            final(self)@.tail == old(self)@.tail + (items@.len() - skip),
            final(self)@.head == old(self)@.head,
            final(self).sink == old(self).sink,
    {
        let ghost before = self.model@;
        let ghost keep = items@.skip(skip as int);
        let ghost slots_before = self.buffer@;
        let tail = self.tail.load_mut();
        let count = items.len() - skip;
        let tail_idx = tail & (N - 1);
        proof {
            lemma_lag_room(N);
            lemma_slot(before.tail, N);
        }
        let space_to_end = N - tail_idx;
        if count <= space_to_end {
            copy_in(&mut self.buffer, tail_idx, items, skip, count);
        } else {
            copy_in(&mut self.buffer, tail_idx, items, skip, space_to_end);
            copy_in(&mut self.buffer, 0, items, skip + space_to_end, count - space_to_end);
        }
        self.tail.store_mut(tail.wrapping_add(count));
        self.cached_tail = tail.wrapping_add(count);
        proof {
            let n = N as nat;
            lemma_wrapped_add(before.tail, count);
            assert forall|j: nat| j < keep.len() implies #[trigger] self.buffer@[slot(
                before.tail + j,
                n,
            )] == Some(keep[j as int]) by {
                lemma_slot_step(before.tail, j, n);
            }
            assert forall|c: nat|
                before.head <= c < before.head + n && !(before.tail <= c < before.tail
                    + keep.len()) implies #[trigger] self.buffer@[slot(c, n)] == slots_before[slot(
                c,
                n,
            )] by {
                lemma_untouched(before.tail, c, n, count as nat, tail_idx as int);
            }
            lemma_put_many(slots_before, self.buffer@, n, before.head, before.items, keep);
        }
        let ghost new_tail = (before.tail + count) as nat;
        self.model = Ghost(
            RingView {
                items: before.items + keep,
                head: before.head,
                tail: new_tail,
                evict_head: before.evict_head,
            },
        );
        self.shadows = Ghost(Shadows { head: before.head, tail: new_tail });
    }

    /// Bulk-push a slice of `Copy` items.
    ///
    /// The ring ends up with the newest items of what it held followed by
    /// the slice, and everything older goes to the spout, oldest first. Of a
    /// slice longer than the capacity only the last `N` items enter the
    /// buffer; the ones before them go straight to the spout. The items that
    /// stay are copied in at most two contiguous runs.
    pub fn push_slice(&mut self, items: &[T]) where T: Copy
        requires
            old(self).wf(),
        ensures
            final(self).wf(),
            final(self)@.items == kept(old(self)@.items + items@, N as nat),
            sent_all(
                old(self).spout(),
                spilled(old(self)@.items + items@, N as nat),
                final(self).spout(),
            ),
            final(self)@.tail == old(self)@.tail + (if items@.len() > N {
                N as nat
            } else {
                items@.len()
            }),
            final(self)@.head == final(self)@.tail - final(self)@.items.len(),
            final(self)@.evict_head == final(self)@.head,
            final(self)@.advanced_from(old(self)@),
    {
        self.reconcile();
        let ghost before = self.model@;
        let ghost sink_before = self.sink@;
        proof {
            lemma_lag_room(N);
            lemma_wrapped_distance(before.tail, before.head);
            lemma_sent_none::<T, S>(sink_before);
            lemma_bulk_cases(before.items, N as nat, items@);
        }
        if items.len() == 0 {
            return ;
        }
        let tail = self.tail.load_mut();
        let head = self.head.load_mut();
        let len = tail.wrapping_sub(head);

        // A slice longer than the capacity: empty the ring into the spout
        // and send the excess after it. Only the last N items are kept.
        if items.len() > N {
            proof {
                assert(before.items.take(len as int) =~= before.items);
                assert(before.items.skip(len as int) =~= Seq::<T>::empty());
            }
            self.spill_oldest(len);
            let ghost sink_mid = self.sink@;
            let excess = items.len() - N;
            self.send_prefix(items, excess);
            proof {
                lemma_sent_concat(
                    sink_before,
                    before.items,
                    sink_mid,
                    items@.take(excess as int),
                    self.sink@,
                );
            }
            self.copy_to_tail(items, excess);
        } else {
            // Evict the oldest items to make room.
            let free = N - len;
            if items.len() > free {
                self.spill_oldest(items.len() - free);
            }
            self.copy_to_tail(items, 0);
        }
    }

    /// Bulk-extend from a slice. The same as `push_slice`.
    pub fn extend_from_slice(&mut self, items: &[T]) where T: Copy
        requires
            old(self).wf(),
        ensures
            final(self).wf(),
            final(self)@.items == kept(old(self)@.items + items@, N as nat),
            sent_all(
                old(self).spout(),
                spilled(old(self)@.items + items@, N as nat),
                final(self).spout(),
            ),
            final(self)@.tail == old(self)@.tail + (if items@.len() > N {
                N as nat
            } else {
                items@.len()
            }),
            final(self)@.head == final(self)@.tail - final(self)@.items.len(),
            final(self)@.evict_head == final(self)@.head,
            final(self)@.advanced_from(old(self)@),
    {
        self.push_slice(items);
    }

    /// Push every item of a vector, first to last, with exclusive access.
    pub fn extend(&mut self, items: Vec<T>)
        requires
            old(self).wf(),
        ensures
            final(self).wf(),
            final(self)@.items == kept(old(self)@.items + items@, N as nat),
            sent_all(
                old(self).spout(),
                spilled(old(self)@.items + items@, N as nat),
                final(self).spout(),
            ),
            final(self)@.tail == old(self)@.tail + items@.len(),
            final(self)@.advanced_from(old(self)@),
    {
        let ghost before = self.model@;
        let ghost sink_before = self.sink@;
        let ghost xs = items@;
        proof {
            lemma_sent_none::<T, S>(sink_before);
            assert(xs.take(0) =~= Seq::<T>::empty());
            assert(before.items + xs.take(0) =~= before.items);
            self.lemma_wf();
        }
        for item in iter: items
            invariant
                iter.seq() == xs,
                self.wf(),
                before == old(self).model@,
                sink_before == old(self).sink@,
                before.items.len() <= N,
                self.model@.items == kept(before.items + xs.take(iter.index()), N as nat),
                sent_all(
                    sink_before,
                    spilled(before.items + xs.take(iter.index()), N as nat),
                    self.sink@,
                ),
                self.model@.tail == before.tail + iter.index(),
                self.model@.advanced_from(before),
        {
            let ghost i = iter.index();
            let ghost sink_now = self.sink@;
            let ghost done = before.items + xs.take(i);
            self.push_mut(item);
            proof {
                let more = before.items + xs.take(i + 1);
                assert(more =~= done.push(item));
                assert(kept(kept(done, N as nat).push(item), N as nat) =~= kept(more, N as nat));
                assert(spilled(done, N as nat) + spilled(kept(done, N as nat).push(item), N as nat)
                    =~= spilled(more, N as nat));
                lemma_sent_concat(
                    sink_before,
                    spilled(done, N as nat),
                    sink_now,
                    spilled(kept(done, N as nat).push(item), N as nat),
                    self.sink@,
                );
            }
        }
        proof {
            assert(xs.take(xs.len() as int) =~= xs);
        }
    }

    /// Takes the oldest item out of its slot and advances both head
    /// counters past it.
    fn take_oldest(&mut self) -> (item: T)
        requires
            old(self).reconciled(),
            old(self)@.items.len() > 0,
        ensures
            final(self).reconciled(),
            item == old(self)@.items[0],
            final(self)@.items == old(self)@.items.drop_first(),
            final(self)@.tail == old(self)@.tail,
            final(self)@.head == old(self)@.head + 1,
            final(self).sink == old(self).sink,
    {
        let head = self.head.load_mut();
        let ghost before = self.model@;
        let idx = head & (N - 1);
        proof {
            lemma_lag_room(N);
            lemma_slot(before.head, N);
            lemma_take(self.buffer@, N as nat, before.head, before.items);
            lemma_wrapped_add(before.head, 1);
        }
        let item = self.buffer[idx].take().unwrap();
        let next = head.wrapping_add(1);
        self.head.store_mut(next);
        self.evict_head.store_mut(next);
        self.cached_head = next;
        let ghost new_head = (before.head + 1) as nat;
        self.model = Ghost(
            RingView {
                items: before.items.drop_first(),
                head: new_head,
                tail: before.tail,
                evict_head: new_head,
            },
        );
        self.shadows = Ghost(Shadows { head: new_head, tail: before.tail });
        item
    }

    /// Pop the oldest item with exclusive access.
    pub fn pop_mut(&mut self) -> (item: Option<T>)
        requires
            old(self).wf(),
        ensures
            final(self).wf(),
            item == (if old(self)@.items.len() == 0 {
                None
            } else {
                Some(old(self)@.items[0])
            }),
            final(self)@.items == (if old(self)@.items.len() == 0 {
                old(self)@.items
            } else {
                old(self)@.items.drop_first()
            }),
            final(self).spout() == old(self).spout(),
            final(self)@.tail == old(self)@.tail,
            final(self)@.head == final(self)@.tail - final(self)@.items.len(),
            final(self)@.evict_head == final(self)@.head,
            final(self)@.advanced_from(old(self)@),
    {
        self.reconcile();
        let head = self.head.load_mut();
        let tail = self.tail.load_mut();
        proof {
            lemma_lag_room(N);
            lemma_wrapped_distance(self.model@.tail, self.model@.head);
        }
        if head == tail {
            return None;
        }
        Some(self.take_oldest())
    }

    /// The oldest item, left where it is.
    pub fn peek(&self) -> (oldest: Option<&T>)
        requires
            self.wf(),
        ensures
            oldest == (if self@.items.len() == 0 {
                None
            } else {
                Some(&self@.items[0])
            }),
    {
        let head = self.head.load();
        let evict = self.evict_head.load();
        let tail = self.tail.load();
        proof {
            lemma_lag_room(N);
        }
        let ahead = is_ahead(evict, head, Ghost(self.model@.evict_head), Ghost(self.model@.head));
        let effective = if ahead {
            evict
        } else {
            head
        };
        proof {
            lemma_wrapped_distance(self.model@.tail, self.model@.effective_head());
            lemma_slot(self.model@.effective_head(), N);
            lemma_ends(self.buffer@, N as nat, self.model@.effective_head(), self.model@.items);
        }
        if effective == tail {
            return None;
        }
        self.buffer[effective & (N - 1)].as_ref()
    }

    /// Flush all items to the spout, oldest first. Returns the count
    /// flushed.
    pub fn flush(&mut self) -> (count: usize)
        requires
            old(self).wf(),
        ensures
            final(self).wf(),
            count == old(self)@.items.len(),
            final(self)@.items == Seq::<T>::empty(),
            sent_all(old(self).spout(), old(self)@.items, final(self).spout()),
            final(self)@.tail == old(self)@.tail,
            final(self)@.head == old(self)@.tail,
            final(self)@.evict_head == old(self)@.tail,
            final(self)@.advanced_from(old(self)@),
    {
        self.reconcile();
        let head = self.head.load_mut();
        let tail = self.tail.load_mut();
        proof {
            lemma_lag_room(N);
            lemma_wrapped_distance(self.model@.tail, self.model@.head);
            assert(self.model@.items.take(self.model@.items.len() as int) =~= self.model@.items);
            assert(self.model@.items.skip(self.model@.items.len() as int) =~= Seq::<T>::empty());
        }
        let count = tail.wrapping_sub(head);
        self.spill_oldest(count);
        count
    }

    /// Clear all items from the buffer, flushing them to the spout.
    pub fn clear(&mut self)
        requires
            old(self).wf(),
        ensures
            final(self).wf(),
            final(self)@.items == Seq::<T>::empty(),
            sent_all(old(self).spout(), old(self)@.items, final(self).spout()),
            final(self)@.tail == old(self)@.tail,
            final(self)@.head == old(self)@.tail,
            final(self)@.evict_head == old(self)@.tail,
            final(self)@.advanced_from(old(self)@),
    {
        self.flush();
    }

    /// Push an item then flush all to the spout.
    pub fn push_and_flush(&mut self, item: T)
        requires
            old(self).wf(),
        ensures
            final(self).wf(),
            final(self)@.items == Seq::<T>::empty(),
            sent_all(old(self).spout(), old(self)@.items.push(item), final(self).spout()),
            final(self)@.tail == old(self)@.tail + 1,
            final(self)@.head == final(self)@.tail,
            final(self)@.evict_head == final(self)@.tail,
            final(self)@.advanced_from(old(self)@),
    {
        let ghost all = self.model@.items.push(item);
        self.push_mut(item);
        let ghost mid = self.sink@;
        self.flush();
        proof {
            lemma_sent_concat(
                old(self).sink@,
                spilled(all, N as nat),
                mid,
                kept(all, N as nat),
                self.sink@,
            );
            assert(spilled(all, N as nat) + kept(all, N as nat) =~= all);
        }
    }

    /// Drain all items from the ring, oldest first. Nothing goes to the
    /// spout.
    pub fn drain(&mut self) -> (items: Vec<T>)
        requires
            old(self).wf(),
        ensures
            final(self).wf(),
            items@ == old(self)@.items,
            final(self)@.items == Seq::<T>::empty(),
            final(self).spout() == old(self).spout(),
            final(self)@.tail == old(self)@.tail,
            final(self)@.head == old(self)@.tail,
            final(self)@.evict_head == old(self)@.tail,
            final(self)@.advanced_from(old(self)@),
    {
        self.reconcile();
        let ghost before = self.model@;
        let mut items: Vec<T> = Vec::new();
        let head = self.head.load_mut();
        let tail = self.tail.load_mut();
        proof {
            lemma_lag_room(N);
            lemma_wrapped_distance(before.tail, before.head);
            assert(before.items.skip(0) =~= before.items);
            assert(before.items.take(0) =~= items@);
        }
        let count = tail.wrapping_sub(head);
        let mut i: usize = 0;
        while i < count
            invariant
                i <= count == before.items.len(),
                self.reconciled(),
                self.model@.items == before.items.skip(i as int),
                self.model@.tail == before.tail,
                self.model@.head == before.head + i,
                items@ == before.items.take(i as int),
                self.sink == old(self).sink,
            decreases count - i,
        {
            let item = self.take_oldest();
            items.push(item);
            proof {
                assert(before.items.skip(i as int).drop_first() =~= before.items.skip(i + 1));
                assert(before.items.take(i + 1) =~= before.items.take(i as int).push(item));
            }
            i += 1;
        }
        proof {
            assert(before.items.take(count as int) =~= before.items);
            assert(before.items.skip(count as int) =~= Seq::<T>::empty());
        }
        items
    }

    /// Ends the ring as letting it go would: what it holds is flushed to
    /// the spout, the spout is flushed, and the spout is handed out.
    pub fn into_sink(self) -> (sink: S)
        requires
            self.wf(),
        ensures
            sink.wf(),
            exists|mid: S|
                sent_all(self.spout(), self@.items, mid) && mid.wf() && #[trigger] mid.settles(
                    &sink,
                ),
    {
        let mut ring = self;
        ring.flush();
        let ghost mid = ring.sink@;
        let mut sink = ring.sink.into_inner();
        sink.flush();
        proof {
            assert(mid.settles(&sink));
        }
        sink
    }
}

impl<T, const N: usize> SpillRing<T, N, DropSpout> {
    /// Create a new ring buffer whose evicted items are dropped, every slot
    /// touched once before the first push.
    pub fn new() -> (ring: Self)
        requires
            valid_capacity(N),
        ensures
            ring.wf(),
            ring@ == (RingView { items: Seq::<T>::empty(), head: 0, tail: 0, evict_head: 0 }),
    {
        let mut ring = Self::cold();
        ring.warm();
        ring
    }

    /// Create a new ring buffer whose evicted items are dropped, without
    /// touching its slots.
    pub fn cold() -> (ring: Self)
        requires
            valid_capacity(N),
        ensures
            ring.wf(),
            ring@ == (RingView { items: Seq::<T>::empty(), head: 0, tail: 0, evict_head: 0 }),
    {
        Self::with_sink_cold(DropSpout)
    }
}

/// A ring is a spout too: what is sent to it is pushed, and what it cannot
/// hold spills on into its own spout.
impl<T, const N: usize, S: Spout<T>> Spout<T> for SpillRing<T, N, S> {
    open spec fn wf(&self) -> bool {
        SpillRing::wf(self)
    }

    open spec fn accepts(&self, item: T, next: &Self) -> bool {
        &&& next@.items == kept(self@.items.push(item), N as nat)
        &&& sent_all(self.spout(), spilled(self@.items.push(item), N as nat), next.spout())
        &&& next@.tail == self@.tail + 1
        &&& next@.advanced_from(self@)
    }

    open spec fn settles(&self, next: &Self) -> bool {
        &&& next@.items == Seq::<T>::empty()
        &&& sent_all(self.spout(), self@.items, next.spout())
        &&& next@.advanced_from(self@)
    }

    fn send(&mut self, item: T) {
        self.push_mut(item);
    }

    fn flush(&mut self) {
        SpillRing::flush(self);
    }
}

impl<T, const N: usize, S: Spout<T>> RingInfo for SpillRing<T, N, S> {
    open spec fn ready(&self) -> bool {
        self.wf()
    }

    open spec fn held(&self) -> nat {
        self@.items.len()
    }

    open spec fn room(&self) -> nat {
        N as nat
    }

    fn len(&self) -> (len: usize) {
        proof {
            assert(self.room() == N);
        }
        SpillRing::len(self)
    }

    fn capacity(&self) -> (capacity: usize) {
        N
    }
}

impl<T, const N: usize, S: Spout<T>> RingProducer<T> for SpillRing<T, N, S> {
    open spec fn queued(&self) -> Seq<T> {
        self@.items
    }

    /// Push an item unless the ring is full. A full ring evicts nothing and
    /// hands the item back.
    fn try_push(&mut self, item: T) -> (pushed: Result<(), T>)
        ensures
            final(self).spout() == old(self).spout(),
            final(self)@.tail == old(self)@.tail + (if old(self)@.items.len() < N {
                1nat
            } else {
                0nat
            }),
            final(self)@.head == old(self)@.effective_head(),
            final(self)@.evict_head == final(self)@.head,
            final(self)@.advanced_from(old(self)@),
    {
        self.reconcile();
        let tail = self.tail.load_mut();
        let head = self.head.load_mut();
        proof {
            lemma_lag_room(N);
            lemma_wrapped_distance(self.model@.tail, self.model@.head);
        }
        if tail.wrapping_sub(head) >= N {
            return Err(item);
        }
        self.put(item);
        Ok(())
    }
}

impl<T, const N: usize, S: Spout<T>> RingConsumer<T> for SpillRing<T, N, S> {
    open spec fn waiting(&self) -> Seq<T> {
        self@.items
    }

    fn try_pop(&mut self) -> (item: Option<T>)
        ensures
            final(self).spout() == old(self).spout(),
            final(self)@.tail == old(self)@.tail,
            final(self)@.head == final(self)@.tail - final(self)@.items.len(),
            final(self)@.evict_head == final(self)@.head,
            final(self)@.advanced_from(old(self)@),
    {
        self.pop_mut()
    }

    fn peek(&self) -> (oldest: Option<&T>) {
        SpillRing::peek(self)
    }
}

} // verus!
