//! What rings have in common: how full they are, and the two ends of a
//! bounded queue.

use vstd::prelude::*;

verus! {

/// How many items a ring holds and how many it can hold.
pub trait RingInfo {
    /// The ring is sound.
    spec fn ready(&self) -> bool;

    /// The number of items in the ring.
    spec fn held(&self) -> nat;

    /// The number of items that the ring has room for.
    spec fn room(&self) -> nat;

    /// Number of items in the ring.
    fn len(&self) -> (len: usize)
        requires
            self.ready(),
        ensures
            len == self.held(),
            len <= self.room(),
    ;

    /// Ring capacity.
    fn capacity(&self) -> (capacity: usize)
        requires
            self.ready(),
        ensures
            capacity == self.room(),
    ;

    /// True if the ring holds nothing.
    fn is_empty(&self) -> (empty: bool)
        requires
            self.ready(),
        ensures
            empty == (self.held() == 0),
    {
        self.len() == 0
    }

    /// True if the ring has no room left.
    fn is_full(&self) -> (full: bool)
        requires
            self.ready(),
        ensures
            full == (self.held() == self.room()),
    {
        self.len() >= self.capacity()
    }
}

/// The end of a ring at which items go in, for callers that would rather
/// keep an item than have the ring evict one.
pub trait RingProducer<T>: RingInfo {
    /// The items in the ring, oldest first.
    spec fn queued(&self) -> Seq<T>;

    /// Push an item unless the ring is full. A full ring is left as it is
    /// and hands the item back.
    fn try_push(&mut self, item: T) -> (pushed: Result<(), T>)
        requires
            old(self).ready(),
        ensures
            final(self).ready(),
            final(self).room() == old(self).room(),
            pushed == (if old(self).queued().len() < old(self).room() {
                Ok::<(), T>(())
            } else {
                Err::<(), T>(item)
            }),
            final(self).queued() == (if old(self).queued().len() < old(self).room() {
                old(self).queued().push(item)
            } else {
                old(self).queued()
            }),
    ;
}

/// The end of a ring at which items come out.
pub trait RingConsumer<T>: RingInfo {
    /// The items in the ring, oldest first.
    spec fn waiting(&self) -> Seq<T>;

    /// Pop the oldest item, if there is one.
    fn try_pop(&mut self) -> (item: Option<T>)
        requires
            old(self).ready(),
        ensures
            final(self).ready(),
            final(self).room() == old(self).room(),
            item == (if old(self).waiting().len() == 0 {
                None
            } else {
                Some(old(self).waiting()[0])
            }),
            final(self).waiting() == (if old(self).waiting().len() == 0 {
                old(self).waiting()
            } else {
                old(self).waiting().drop_first()
            }),
    ;

    /// The oldest item, left where it is.
    fn peek(&self) -> (oldest: Option<&T>)
        requires
            self.ready(),
        ensures
            oldest == (if self.waiting().len() == 0 {
                None
            } else {
                Some(&self.waiting()[0])
            }),
    ;
}

} // verus!
