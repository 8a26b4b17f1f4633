//! How the items of a ring lie in its slots.
//!
//! The item with count `c` lives in slot `c` modulo the number of slots. The
//! slots from the count of the oldest item up to the tail are occupied, and
//! all the others are vacant.

use vstd::prelude::*;
use vstd::arithmetic::div_mod::{lemma_fundamental_div_mod, lemma_mod_bound};
use crate::counter::{lemma_distinct_slots, lemma_slot_period, slot};

verus! {

/// `slots` are the `n` slots of a ring whose oldest item has count `first`
/// and which holds `items`, oldest first.
pub open spec fn slots_hold<T>(slots: Seq<Option<T>>, n: nat, first: nat, items: Seq<T>) -> bool {
    &&& slots.len() == n
    &&& n > 0
    &&& items.len() <= n
    &&& forall|c: nat|
        first <= c < first + n ==> #[trigger] slots[slot(c, n)] == (if c < first + items.len() {
            Some(items[c - first])
        } else {
            None
        })
}

/// Vacant slots hold an empty ring, wherever its counters stand.
pub proof fn lemma_vacant<T>(slots: Seq<Option<T>>, n: nat, first: nat)
    requires
        slots.len() == n,
        n > 0,
        forall|j: int| 0 <= j < n ==> slots[j] == None::<T>,
    ensures
        slots_hold(slots, n, first, Seq::<T>::empty()),
{
    assert forall|c: nat| first <= c < first + n implies #[trigger] slots[slot(c, n)] == None::<
        T,
    > by {
        lemma_slot_period(c, n);
    }
}

/// The oldest item is in the slot of the first count, and the next vacant
/// slot is the slot of the tail.
pub proof fn lemma_ends<T>(slots: Seq<Option<T>>, n: nat, first: nat, items: Seq<T>)
    requires
        slots_hold(slots, n, first, items),
    ensures
        0 <= slot(first, n) < n,
        0 <= slot(first + items.len(), n) < n,
        items.len() > 0 ==> slots[slot(first, n)] == Some(items[0]),
        items.len() < n ==> slots[slot(first + items.len(), n)] == None::<T>,
{
    lemma_slot_period(first, n);
    lemma_slot_period(first + items.len(), n);
}

/// Filling the slot of the tail appends an item.
pub proof fn lemma_put<T>(slots: Seq<Option<T>>, n: nat, first: nat, items: Seq<T>, item: T)
    requires
        slots_hold(slots, n, first, items),
        items.len() < n,
    ensures
        0 <= slot(first + items.len(), n) < n,
        slots_hold(
            slots.update(slot(first + items.len(), n), Some(item)),
            n,
            first,
            items.push(item),
        ),
{
    let tail = first + items.len();
    let after = slots.update(slot(tail, n), Some(item));
    lemma_slot_period(tail, n);
    assert forall|c: nat| first <= c < first + n implies #[trigger] after[slot(c, n)] == (if c
        < first + items.push(item).len() {
        Some(items.push(item)[c - first])
    } else {
        None
    }) by {
        lemma_slot_period(c, n);
        if c < tail {
            lemma_distinct_slots(c, tail, n);
            assert(after[slot(c, n)] == slots[slot(c, n)]);
        } else if c > tail {
            lemma_distinct_slots(tail, c, n);
            assert(after[slot(c, n)] == slots[slot(c, n)]);
        }
    }
}

/// Vacating the slot of the first count removes the oldest item.
pub proof fn lemma_take<T>(slots: Seq<Option<T>>, n: nat, first: nat, items: Seq<T>)
    requires
        slots_hold(slots, n, first, items),
        items.len() > 0,
    ensures
        0 <= slot(first, n) < n,
        slots[slot(first, n)] == Some(items[0]),
        slots_hold(slots.update(slot(first, n), None), n, first + 1, items.drop_first()),
{
    let after = slots.update(slot(first, n), None);
    lemma_slot_period(first, n);
    assert forall|c: nat| first + 1 <= c < first + 1 + n implies #[trigger] after[slot(c, n)] == (
    if c < first + 1 + items.drop_first().len() {
        Some(items.drop_first()[c - (first + 1)])
    } else {
        None
    }) by {
        lemma_slot_period(c, n);
        if c < first + n {
            lemma_distinct_slots(first, c, n);
            assert(after[slot(c, n)] == slots[slot(c, n)]);
        }
    }
}

/// The slot that lies `j` counts after `c`, without a division: `j` slots
/// further on, and back to the first slot past the last one.
pub proof fn lemma_slot_step(c: nat, j: nat, n: nat)
    requires
        n > 0,
        j <= n,
    ensures
        slot(c + j, n) == if slot(c, n) + j < n {
            slot(c, n) + j
        } else {
            slot(c, n) + j - n
        },
{
    reveal(slot);
    let s = slot(c, n);
    let q = c as int / n as int;
    lemma_fundamental_div_mod(c as int, n as int);
    lemma_mod_bound(c as int, n as int);
    if s + j < n {
        vstd::arithmetic::div_mod::lemma_fundamental_div_mod_converse(
            c as int + j as int,
            n as int,
            q,
            s + j,
        );
    } else {
        assert(n * (q + 1) == n * q + n) by (nonlinear_arith);
        vstd::arithmetic::div_mod::lemma_fundamental_div_mod_converse(
            c as int + j as int,
            n as int,
            q + 1,
            s + j - n,
        );
    }
}

/// Filling the slots from the tail on with `xs` appends `xs`.
pub proof fn lemma_put_many<T>(
    slots: Seq<Option<T>>,
    after: Seq<Option<T>>,
    n: nat,
    first: nat,
    items: Seq<T>,
    xs: Seq<T>,
)
    requires
        slots_hold(slots, n, first, items),
        items.len() + xs.len() <= n,
        after.len() == n,
        forall|j: nat| j < xs.len() ==> #[trigger] after[slot(first + items.len() + j, n)] == Some(xs[j as int]),
        forall|c: nat|
            first <= c < first + n && !(first + items.len() <= c < first + items.len() + xs.len())
                ==> #[trigger] after[slot(c, n)] == slots[slot(c, n)],
    ensures
        slots_hold(after, n, first, items + xs),
{
    let tail = first + items.len();
    assert forall|c: nat| first <= c < first + n implies #[trigger] after[slot(c, n)] == (if c
        < first + (items + xs).len() {
        Some((items + xs)[c - first])
    } else {
        None
    }) by {
        if tail <= c < tail + xs.len() {
            let j = (c - tail) as nat;
            assert(after[slot(tail + j, n)] == Some(xs[j as int]));
        } else {
            assert(after[slot(c, n)] == slots[slot(c, n)]);
        }
    }
}

/// A run of `count` slots that starts at the slot of `tail` and goes on
/// from the first slot past the last one covers the slots of the counts from
/// `tail` on, and of no other count of the same turn.
pub proof fn lemma_untouched(tail: nat, c: nat, n: nat, count: nat, tail_idx: int)
    requires
        n > 0,
        count <= n,
        tail_idx == slot(tail, n),
        c < tail || c >= tail + count,
        c + n > tail + count - 1,
        c < tail + n,
    ensures
        0 <= slot(c, n) < n,
        !(tail_idx <= slot(c, n) < tail_idx + count),
        !(slot(c, n) < tail_idx + count - n),
{
    lemma_slot_period(c, n);
    lemma_slot_period(tail, n);
    let k = slot(c, n);
    if tail_idx <= k < tail_idx + count {
        let j = (k - tail_idx) as nat;
        lemma_slot_step(tail, j, n);
        if c < tail + j {
            lemma_distinct_slots(c, tail + j, n);
        } else {
            lemma_distinct_slots(tail + j, c, n);
        }
    } else if k < tail_idx + count - n {
        let j = (k + n - tail_idx) as nat;
        lemma_slot_step(tail, j, n);
        if c < tail + j {
            lemma_distinct_slots(c, tail + j, n);
        } else {
            lemma_distinct_slots(tail + j, c, n);
        }
    }
}

} // verus!
