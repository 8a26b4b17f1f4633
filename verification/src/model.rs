//! The ring as a mathematical object: what a ring of a given capacity keeps
//! and what it spills, and the laws that follow.

use vstd::prelude::*;

verus! {

/// What a ring of capacity `cap` keeps of `all`: its newest `cap` items.
pub open spec fn kept<T>(all: Seq<T>, cap: nat) -> Seq<T> {
    if all.len() <= cap {
        all
    } else {
        all.skip(all.len() - cap)
    }
}

/// What a ring of capacity `cap` spills of `all`: everything but its newest
/// `cap` items, oldest first.
pub open spec fn spilled<T>(all: Seq<T>, cap: nat) -> Seq<T> {
    if all.len() <= cap {
        Seq::empty()
    } else {
        all.take(all.len() - cap)
    }
}

/// The kept and the spilled items after `xs` were pushed one at a time onto a
/// ring that held `items`.
pub open spec fn push_each<T>(items: Seq<T>, cap: nat, xs: Seq<T>) -> (Seq<T>, Seq<T>)
    decreases xs.len(),
{
    if xs.len() == 0 {
        (items, Seq::empty())
    } else {
        let (k, s) = push_each(items, cap, xs.drop_last());
        (kept(k.push(xs.last()), cap), s + spilled(k.push(xs.last()), cap))
    }
}

/// Nothing is lost between what is kept and what is spilled, and the order
/// stays.
pub proof fn lemma_spilled_then_kept<T>(all: Seq<T>, cap: nat)
    ensures
        spilled(all, cap) + kept(all, cap) == all,
        kept(all, cap).len() <= cap,
        kept(all, cap).len() == if all.len() <= cap { all.len() } else { cap },
{
    assert(spilled(all, cap) + kept(all, cap) =~= all);
}

/// Pushing a slice at once keeps and spills what pushing its items one at a
/// time does, in the same order.
pub proof fn lemma_bulk_equivalence<T>(items: Seq<T>, cap: nat, xs: Seq<T>)
    requires
        items.len() <= cap,
    ensures
        push_each(items, cap, xs) == (kept(items + xs, cap), spilled(items + xs, cap)),
    decreases xs.len(),
{
    if xs.len() == 0 {
        assert(items + xs =~= items);
    } else {
        let front = xs.drop_last();
        let x = xs.last();
        lemma_bulk_equivalence(items, cap, front);
        let k = kept(items + front, cap);
        let s = spilled(items + front, cap);
        let all = items + xs;
        assert((items + front).push(x) =~= all);
        assert(kept(k.push(x), cap) =~= kept(all, cap));
        assert(s + spilled(k.push(x), cap) =~= spilled(all, cap));
    }
}

/// What a ring keeps and spills of what it held followed by a slice, by the
/// three ways in which the slice may fit.
pub proof fn lemma_bulk_cases<T>(items: Seq<T>, cap: nat, xs: Seq<T>)
    requires
        items.len() <= cap,
    ensures
        xs.len() > cap ==> {
            &&& spilled(items + xs, cap) == items + xs.take(xs.len() - cap)
            &&& kept(items + xs, cap) == xs.skip(xs.len() - cap)
            &&& kept(items + xs, cap) == Seq::<T>::empty() + xs.skip(xs.len() - cap)
        },
        xs.len() <= cap && items.len() + xs.len() > cap ==> {
            &&& spilled(items + xs, cap) == items.take(items.len() + xs.len() - cap)
            &&& kept(items + xs, cap) == items.skip(items.len() + xs.len() - cap) + xs.skip(0)
        },
        items.len() + xs.len() <= cap ==> {
            &&& spilled(items + xs, cap) == Seq::<T>::empty()
            &&& kept(items + xs, cap) == items + xs.skip(0)
        },
{
    let all = items + xs;
    assert(xs.skip(0) =~= xs);
    if xs.len() > cap {
        assert(spilled(all, cap) =~= items + xs.take(xs.len() - cap));
        assert(kept(all, cap) =~= xs.skip(xs.len() - cap));
        assert(kept(all, cap) =~= Seq::<T>::empty() + xs.skip(xs.len() - cap));
    } else if items.len() + xs.len() > cap {
        assert(spilled(all, cap) =~= items.take(items.len() + xs.len() - cap));
        assert(kept(all, cap) =~= items.skip(items.len() + xs.len() - cap) + xs);
    }
}

/// A ring that is filled from empty with no more than its capacity spills
/// nothing and holds exactly what went in, in order.
pub proof fn lemma_fill_round_trip<T>(cap: nat, xs: Seq<T>)
    requires
        xs.len() <= cap,
    ensures
        push_each(Seq::<T>::empty(), cap, xs) == (xs, Seq::<T>::empty()),
        kept(Seq::<T>::empty() + xs, cap) == xs,
{
    lemma_bulk_equivalence(Seq::<T>::empty(), cap, xs);
    assert(Seq::<T>::empty() + xs =~= xs);
}

/// One call on a ring.
pub enum Op<T> {
    /// `push`, `push_mut` or a successful `try_push` of one item.
    Push(T),
    /// `pop`, `pop_mut` or `try_pop`.
    Pop,
    /// `push_slice`, `extend_from_slice` or `extend` of a run of items.
    PushSlice(Seq<T>),
    /// `flush` or `clear`.
    Flush,
}

/// The life of a ring so far: what it holds, what the consumer popped, what
/// went to the spout, and everything that was ever pushed.
pub struct Trace<T> {
    pub items: Seq<T>,
    pub consumed: Seq<T>,
    pub spilled: Seq<T>,
    pub pushed: Seq<T>,
}

/// The trace after one more call.
pub open spec fn step<T>(t: Trace<T>, cap: nat, op: Op<T>) -> Trace<T> {
    match op {
        Op::Push(x) => Trace {
            items: kept(t.items.push(x), cap),
            consumed: t.consumed,
            spilled: t.spilled + spilled(t.items.push(x), cap),
            pushed: t.pushed.push(x),
        },
        Op::Pop => if t.items.len() == 0 {
            t
        } else {
            Trace {
                items: t.items.drop_first(),
                consumed: t.consumed.push(t.items[0]),
                spilled: t.spilled,
                pushed: t.pushed,
            }
        },
        Op::PushSlice(xs) => Trace {
            items: kept(t.items + xs, cap),
            consumed: t.consumed,
            spilled: t.spilled + spilled(t.items + xs, cap),
            pushed: t.pushed + xs,
        },
        Op::Flush => closed(t),
    }
}

/// The trace of a ring that started empty and saw `ops`, first to last.
pub open spec fn run<T>(cap: nat, ops: Seq<Op<T>>) -> Trace<T>
    decreases ops.len(),
{
    if ops.len() == 0 {
        Trace {
            items: Seq::empty(),
            consumed: Seq::empty(),
            spilled: Seq::empty(),
            pushed: Seq::empty(),
        }
    } else {
        step(run(cap, ops.drop_last()), cap, ops.last())
    }
}

/// The trace after the ring was flushed, as it is when it is let go: what
/// it held has followed the earlier spills into the spout.
pub open spec fn closed<T>(t: Trace<T>) -> Trace<T> {
    Trace {
        items: Seq::empty(),
        consumed: t.consumed,
        spilled: t.spilled + t.items,
        pushed: t.pushed,
    }
}

/// `whole` is `a` and `b` shuffled together: each item of `whole` is the next
/// item of `a` or the next item of `b`, and both are used up.
pub open spec fn interleaves<T>(whole: Seq<T>, a: Seq<T>, b: Seq<T>) -> bool
    decreases whole.len(),
{
    if whole.len() == 0 {
        a.len() == 0 && b.len() == 0
    } else {
        ||| (a.len() > 0 && a.last() == whole.last() && interleaves(
            whole.drop_last(),
            a.drop_last(),
            b,
        ))
        ||| (b.len() > 0 && b.last() == whole.last() && interleaves(
            whole.drop_last(),
            a,
            b.drop_last(),
        ))
    }
}

/// The items that have left the ring: all that was pushed but what it holds.
pub open spec fn departed<T>(t: Trace<T>) -> Seq<T> {
    t.pushed.take(t.pushed.len() - t.items.len())
}

/// A shuffle goes on with a run of items that all go the second way.
pub proof fn lemma_interleaves_run<T>(whole: Seq<T>, a: Seq<T>, b: Seq<T>, more: Seq<T>)
    requires
        interleaves(whole, a, b),
    ensures
        interleaves(whole + more, a, b + more),
    decreases more.len(),
{
    if more.len() == 0 {
        assert(whole + more =~= whole);
        assert(b + more =~= b);
    } else {
        lemma_interleaves_run(whole, a, b, more.drop_last());
        assert((whole + more).drop_last() =~= whole + more.drop_last());
        assert((b + more).drop_last() =~= b + more.drop_last());
    }
}

/// What holds of a trace between calls: the ring holds no more than its
/// capacity, it holds the newest of the pushed items, and the older ones
/// are the consumer's and the spout's items shuffled together.
pub open spec fn fifo<T>(t: Trace<T>, cap: nat) -> bool {
    &&& t.items.len() <= cap
    &&& t.items.len() <= t.pushed.len()
    &&& t.pushed == departed(t) + t.items
    &&& interleaves(departed(t), t.consumed, t.spilled)
}

/// One call keeps a trace first in, first out.
pub proof fn lemma_fifo_step<T>(before: Trace<T>, cap: nat, op: Op<T>)
    requires
        cap >= 1,
        fifo(before, cap),
    ensures
        fifo(step(before, cap, op), cap),
{
    let after = step(before, cap, op);
    let gone = departed(before);
    match op {
        Op::Push(x) => {
            if before.items.len() < cap {
                assert(after.items =~= before.items.push(x));
                assert(after.spilled =~= before.spilled);
                assert(departed(after) =~= gone);
                assert(after.pushed =~= departed(after) + after.items);
            } else {
                let oldest = before.items[0];
                assert(after.items =~= before.items.drop_first().push(x));
                assert(after.spilled =~= before.spilled.push(oldest));
                assert(departed(after) =~= gone.push(oldest));
                assert(after.pushed =~= departed(after) + after.items);
                assert(departed(after).drop_last() =~= gone);
                assert(after.spilled.drop_last() =~= before.spilled);
            }
        },
        Op::Pop => {
            if before.items.len() > 0 {
                let oldest = before.items[0];
                assert(departed(after) =~= gone.push(oldest));
                assert(after.pushed =~= departed(after) + after.items);
                assert(departed(after).drop_last() =~= gone);
                assert(after.consumed.drop_last() =~= before.consumed);
            }
        },
        Op::PushSlice(xs) => {
            let all = before.items + xs;
            let out = spilled(all, cap);
            lemma_spilled_then_kept(all, cap);
            lemma_interleaves_run(gone, before.consumed, before.spilled, out);
            assert(after.pushed =~= gone + (out + after.items));
            assert(departed(after) =~= gone + out);
            assert(after.pushed =~= departed(after) + after.items);
        },
        Op::Flush => {
            lemma_interleaves_run(gone, before.consumed, before.spilled, before.items);
            assert(departed(after) =~= gone + before.items);
            assert(after.pushed =~= departed(after) + after.items);
        },
    }
}

/// First in, first out, on both ways out. Whatever calls were made on it,
/// the ring holds the newest of the pushed items, and the older ones are
/// the consumer's items and the spout's items shuffled together, each in
/// the order in which it was pushed.
pub proof fn lemma_fifo_union<T>(cap: nat, ops: Seq<Op<T>>)
    requires
        cap >= 1,
    ensures
        fifo(run(cap, ops), cap),
    decreases ops.len(),
{
    if ops.len() > 0 {
        lemma_fifo_union(cap, ops.drop_last());
        lemma_fifo_step(run(cap, ops.drop_last()), cap, ops.last());
    } else {
        let t = run(cap, ops);
        assert(departed(t) =~= Seq::<T>::empty());
        assert(t.pushed =~= departed(t) + t.items);
    }
}

/// Two sequences that are shuffled together hold, between them, exactly the
/// items of the whole.
pub proof fn lemma_interleaves_multiset<T>(whole: Seq<T>, a: Seq<T>, b: Seq<T>)
    requires
        interleaves(whole, a, b),
    ensures
        whole.to_multiset() == a.to_multiset().add(b.to_multiset()),
        whole.len() == a.len() + b.len(),
    decreases whole.len(),
{
    broadcast use vstd::seq_lib::group_to_multiset_ensures;

    if whole.len() == 0 {
        assert(a =~= Seq::empty());
        assert(b =~= Seq::empty());
        assert(whole =~= Seq::empty());
        assert(whole.to_multiset() =~= a.to_multiset().add(b.to_multiset()));
    } else {
        let x = whole.last();
        assert(whole =~= whole.drop_last().push(x));
        if a.len() > 0 && a.last() == x && interleaves(whole.drop_last(), a.drop_last(), b) {
            lemma_interleaves_multiset(whole.drop_last(), a.drop_last(), b);
            assert(a =~= a.drop_last().push(x));
            assert(whole.to_multiset() =~= a.to_multiset().add(b.to_multiset()));
        } else {
            lemma_interleaves_multiset(whole.drop_last(), a, b.drop_last());
            assert(b =~= b.drop_last().push(x));
            assert(whole.to_multiset() =~= a.to_multiset().add(b.to_multiset()));
        }
    }
}

/// No loss, no copy. Every pushed item is, exactly once, with the consumer,
/// in the spout or still in the ring; once the ring is closed, with the
/// consumer or in the spout.
pub proof fn lemma_no_loss<T>(cap: nat, ops: Seq<Op<T>>)
    requires
        cap >= 1,
    ensures
        run(cap, ops).pushed.to_multiset() == run(cap, ops).consumed.to_multiset().add(
            run(cap, ops).spilled.to_multiset(),
        ).add(run(cap, ops).items.to_multiset()),
        closed(run(cap, ops)).pushed.to_multiset() == closed(
            run(cap, ops),
        ).consumed.to_multiset().add(closed(run(cap, ops)).spilled.to_multiset()),
{
    let t = run(cap, ops);
    lemma_fifo_union(cap, ops);
    lemma_interleaves_multiset(departed(t), t.consumed, t.spilled);
    assert(closed(t).pushed == t.pushed);
    vstd::seq_lib::lemma_multiset_commutative(departed(t), t.items);
    vstd::seq_lib::lemma_multiset_commutative(t.spilled, t.items);
    assert(t.pushed.to_multiset() =~= t.consumed.to_multiset().add(t.spilled.to_multiset()).add(
        t.items.to_multiset(),
    ));
    assert(closed(t).pushed.to_multiset() =~= closed(t).consumed.to_multiset().add(
        closed(t).spilled.to_multiset(),
    ));
}

} // verus!
