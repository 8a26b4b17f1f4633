//! The sink capability that a ring spills into, and the two plain sinks.

use vstd::prelude::*;

verus! {

/// A sink for the items that a ring cannot hold.
///
/// The sink is described by two relations between its state before and after
/// a call: `accepts` for one item handed over, `settles` for a flush.
pub trait Spout<T>: Sized {
    /// What the sink needs to hold of itself to do its work.
    spec fn wf(&self) -> bool;

    /// `next` is a state in which `self` may be after it was sent `item`.
    spec fn accepts(&self, item: T, next: &Self) -> bool;

    /// `next` is a state in which `self` may be after a flush.
    spec fn settles(&self, next: &Self) -> bool;

    /// Takes one item. A sink never refuses.
    fn send(&mut self, item: T)
        requires
            old(self).wf(),
        ensures
            final(self).wf(),
            old(self).accepts(item, final(self)),
    ;

    /// Asks the sink to make durable what it buffered.
    fn flush(&mut self)
        requires
            old(self).wf(),
        ensures
            final(self).wf(),
            old(self).settles(final(self)),
    ;
}

/// `post` is a state in which `pre` may be after it was sent `items`, first
/// to last.
pub open spec fn sent_all<T, S: Spout<T>>(pre: S, items: Seq<T>, post: S) -> bool
    decreases items.len(),
{
    if items.len() == 0 {
        pre == post
    } else {
        exists|mid: S|
            sent_all(pre, items.drop_last(), mid) && mid.wf() && #[trigger] mid.accepts(
                items.last(),
                &post,
            )
    }
}

/// Sending nothing leaves a sink as it is.
pub proof fn lemma_sent_none<T, S: Spout<T>>(sink: S)
    ensures
        sent_all(sink, Seq::<T>::empty(), sink),
{
}

/// One accepted item is a run of one.
pub proof fn lemma_sent_one<T, S: Spout<T>>(pre: S, item: T, post: S)
    requires
        pre.wf(),
        pre.accepts(item, &post),
    ensures
        sent_all(pre, seq![item], post),
{
    let items = seq![item];
    assert(items.drop_last() =~= Seq::<T>::empty());
    assert(sent_all(pre, items.drop_last(), pre));
    assert(pre.accepts(items.last(), &post));
}

/// A run of sends goes on with one more accepted item.
pub proof fn lemma_sent_push<T, S: Spout<T>>(pre: S, items: Seq<T>, mid: S, item: T, post: S)
    requires
        sent_all(pre, items, mid),
        mid.wf(),
        mid.accepts(item, &post),
    ensures
        sent_all(pre, items.push(item), post),
{
    let all = items.push(item);
    assert(all.drop_last() =~= items);
    assert(mid.accepts(all.last(), &post));
}

/// Two runs of sends, one after the other, are one run.
pub proof fn lemma_sent_concat<T, S: Spout<T>>(pre: S, first: Seq<T>, mid: S, second: Seq<T>, post: S)
    requires
        sent_all(pre, first, mid),
        sent_all(mid, second, post),
    ensures
        sent_all(pre, first + second, post),
    decreases second.len(),
{
    if second.len() == 0 {
        assert(first + second =~= first);
    } else {
        let before = choose|before: S|
            sent_all(mid, second.drop_last(), before) && before.wf() && #[trigger] before.accepts(
                second.last(),
                &post,
            );
        lemma_sent_concat(pre, first, mid, second.drop_last(), before);
        assert((first + second.drop_last()).push(second.last()) =~= first + second);
        lemma_sent_push(pre, first + second.drop_last(), before, second.last(), post);
    }
}

/// Sends a batch of items to a sink, first to last.
pub fn send_all<T, S: Spout<T>>(sink: &mut S, items: Vec<T>)
    requires
        old(sink).wf(),
    ensures
        final(sink).wf(),
        sent_all(*old(sink), items@, *final(sink)),
{
    let ghost xs = items@;
    proof {
        assert(xs.take(0) =~= Seq::<T>::empty());
    }
    for item in iter: items
        invariant
            iter.seq() == xs,
            sink.wf(),
            sent_all(*old(sink), xs.take(iter.index()), *sink),
    {
        let ghost before = *sink;
        let ghost done = xs.take(iter.index());
        sink.send(item);
        proof {
            assert(xs.take(iter.index() + 1) =~= done.push(item));
            lemma_sent_push(*old(sink), done, before, item, *sink);
        }
    }
    proof {
        assert(xs.take(xs.len() as int) =~= xs);
    }
}

/// A sink that forgets every item.
pub struct DropSpout;

impl<T> Spout<T> for DropSpout {
    open spec fn wf(&self) -> bool {
        true
    }

    open spec fn accepts(&self, item: T, next: &Self) -> bool {
        true
    }

    open spec fn settles(&self, next: &Self) -> bool {
        true
    }

    fn send(&mut self, item: T) {
    }

    fn flush(&mut self) {
    }
}

/// A sink that keeps every item, in the order of arrival.
pub struct CollectSpout<T> {
    items: Vec<T>,
}

impl<T> View for CollectSpout<T> {
    type V = Seq<T>;

    closed spec fn view(&self) -> Seq<T> {
        self.items@
    }
}

impl<T> CollectSpout<T> {
    pub fn new() -> (spout: Self)
        ensures
            spout@ == Seq::<T>::empty(),
    {
        Self { items: Vec::new() }
    }

    /// The items received so far, oldest first.
    pub fn items(&self) -> (items: &Vec<T>)
        ensures
            items@ == self@,
    {
        &self.items
    }

    /// Ends the sink and hands out what it received.
    pub fn into_items(self) -> (items: Vec<T>)
        ensures
            items@ == self@,
    {
        self.items
    }
}

impl<T> Spout<T> for CollectSpout<T> {
    open spec fn wf(&self) -> bool {
        true
    }

    open spec fn accepts(&self, item: T, next: &Self) -> bool {
        next@ == self@.push(item)
    }

    open spec fn settles(&self, next: &Self) -> bool {
        next@ == self@
    }

    fn send(&mut self, item: T) {
        self.items.push(item);
    }

    fn flush(&mut self) {
    }
}

/// What a collecting sink holds after a run of sends: what it held before,
/// followed by the items sent.
pub proof fn lemma_collect_sent_all<T>(pre: CollectSpout<T>, items: Seq<T>, post: CollectSpout<T>)
    requires
        sent_all(pre, items, post),
    ensures
        post@ == pre@ + items,
    decreases items.len(),
{
    if items.len() == 0 {
        assert(post@ =~= pre@ + items);
    } else {
        let mid = choose|mid: CollectSpout<T>|
            sent_all(pre, items.drop_last(), mid) && mid.wf() && #[trigger] mid.accepts(
                items.last(),
                &post,
            );
        lemma_collect_sent_all(pre, items.drop_last(), mid);
        assert(post@ =~= pre@ + items);
    }
}


} // verus!
