use spill_ring::ring::SpillRing;
use spill_ring::spout::{CollectSpout, DropSpout, Spout};
use spill_ring::traits::{RingConsumer, RingProducer};

fn collecting<const N: usize>() -> SpillRing<u64, N, CollectSpout<u64>> {
    SpillRing::with_sink(CollectSpout::new())
}

#[test]
fn drop_sink_keeps_the_newest_four() {
    let mut ring: SpillRing<u64, 4> = SpillRing::new();
    for x in 1..=6u64 {
        ring.push(x);
    }
    assert_eq!(ring.len(), 4);
    assert_eq!(ring.pop(), Some(3));
    assert_eq!(ring.pop(), Some(4));
    assert_eq!(ring.pop(), Some(5));
    assert_eq!(ring.pop(), Some(6));
    assert_eq!(ring.pop(), None);
    assert_eq!(ring.pop(), None);
    assert!(ring.is_empty());
}

#[test]
fn collect_sink_receives_the_evicted_item() {
    let mut ring = collecting::<4>();
    for x in 1..=5u64 {
        ring.push(x);
    }
    let mut consumed = Vec::new();
    while let Some(x) = ring.pop() {
        consumed.push(x);
    }
    assert_eq!(consumed, vec![2, 3, 4, 5]);
    assert_eq!(ring.sink().items(), &vec![1]);
}

#[test]
fn push_slice_longer_than_the_ring() {
    let mut ring = collecting::<2>();
    ring.push_slice(&[10, 20, 30, 40, 50]);
    assert_eq!(ring.sink().items(), &vec![10, 20, 30]);
    assert_eq!(ring.len(), 2);
    assert_eq!(ring.drain(), vec![40, 50]);
    assert!(ring.is_empty());
}

#[test]
fn flush_sends_what_is_left() {
    let mut ring = collecting::<8>();
    ring.push(1);
    ring.push(2);
    assert_eq!(ring.pop(), Some(1));
    ring.push(3);
    ring.push(4);
    assert_eq!(ring.flush(), 3);
    assert_eq!(ring.sink().items(), &vec![2, 3, 4]);
    assert!(ring.is_empty());
    assert_eq!(ring.pop(), None);
    assert_eq!(ring.flush(), 0);
}

#[test]
fn one_pop_per_push_loses_nothing() {
    let mut ring = collecting::<4>();
    let mut consumed = Vec::new();
    for x in 0..100u64 {
        ring.push(x);
        if x % 3 != 0 {
            if let Some(y) = ring.pop() {
                consumed.push(y);
            }
        }
    }
    while let Some(y) = ring.pop() {
        consumed.push(y);
    }
    let spilled = ring.sink().items().clone();
    assert!(consumed.windows(2).all(|w| w[0] < w[1]));
    assert!(spilled.windows(2).all(|w| w[0] < w[1]));
    let mut all: Vec<u64> = consumed.iter().chain(spilled.iter()).copied().collect();
    all.sort();
    assert_eq!(all, (0..100u64).collect::<Vec<_>>());
}

#[test]
fn slow_consumer_spills_in_push_order() {
    let mut ring = collecting::<4>();
    let mut consumed = Vec::new();
    for x in 0..100u64 {
        ring.push(x);
        if x % 7 == 0 {
            if let Some(y) = ring.pop() {
                consumed.push(y);
            }
        }
    }
    let left = ring.drain();
    let spilled = ring.sink().items().clone();
    assert!(!spilled.is_empty());
    assert!(consumed.windows(2).all(|w| w[0] < w[1]));
    assert!(spilled.windows(2).all(|w| w[0] < w[1]));
    assert_eq!(left, vec![96, 97, 98, 99]);
    let mut all: Vec<u64> = consumed.into_iter().chain(spilled).chain(left).collect();
    all.sort();
    assert_eq!(all, (0..100u64).collect::<Vec<_>>());
}

#[test]
fn cold_ring_starts_at_zero() {
    let ring: SpillRing<u64, 2> = SpillRing::cold();
    assert_eq!(ring.head(), 0);
    assert_eq!(ring.tail(), 0);
    assert_eq!(ring.evict_head(), 0);
    assert!(ring.is_empty());
    assert!(!ring.is_full());
    assert_eq!(ring.len(), 0);
    assert_eq!(ring.capacity(), 2);
}

#[test]
fn warm_ring_starts_at_zero() {
    let mut ring: SpillRing<String, 8> = SpillRing::new();
    assert_eq!(ring.head(), 0);
    assert_eq!(ring.tail(), 0);
    assert_eq!(ring.evict_head(), 0);
    assert!(ring.is_empty());
    assert_eq!(ring.pop(), None);
    assert_eq!(ring.pop_mut(), None);
    assert!(ring.peek().is_none());
}

#[test]
fn counters_follow_the_producer_and_the_consumer() {
    let mut ring = collecting::<4>();
    for x in 1..=6u64 {
        ring.push(x);
    }
    assert_eq!(ring.tail(), 6);
    assert_eq!(ring.head(), 0);
    assert_eq!(ring.evict_head(), 2);
    assert_eq!(ring.len(), 4);
    assert!(ring.is_full());
    assert_eq!(ring.pop(), Some(3));
    assert_eq!(ring.head(), 3);
    assert_eq!(ring.evict_head(), 2);
    assert_eq!(ring.tail(), 6);
    assert_eq!(ring.len(), 3);
    assert_eq!(ring.pop_mut(), Some(4));
    assert_eq!(ring.head(), 4);
    assert_eq!(ring.evict_head(), 4);
    assert_eq!(ring.flush(), 2);
    assert_eq!(ring.head(), 6);
    assert_eq!(ring.evict_head(), 6);
    assert_eq!(ring.tail(), 6);
}

#[test]
fn counters_never_go_back() {
    let mut ring = collecting::<4>();
    let mut last = (ring.head(), ring.tail(), ring.evict_head());
    for x in 0..50u64 {
        match x % 5 {
            0 | 1 | 2 => ring.push(x),
            3 => {
                let _ = ring.pop();
            }
            _ => ring.push_mut(x),
        }
        let now = (ring.head(), ring.tail(), ring.evict_head());
        assert!(now.0 >= last.0 && now.1 >= last.1 && now.2 >= last.2);
        assert!(ring.len() <= ring.capacity());
        last = now;
    }
}

#[test]
fn exclusive_push_after_producer_evictions_evicts_the_oldest() {
    let mut ring = collecting::<4>();
    for x in 1..=6u64 {
        ring.push(x);
    }
    ring.push_mut(7);
    assert_eq!(ring.sink().items(), &vec![1, 2, 3]);
    assert_eq!(ring.len(), 4);
    assert_eq!(ring.drain(), vec![4, 5, 6, 7]);
}

#[test]
fn push_mut_and_pop_mut_are_first_in_first_out() {
    let mut ring = collecting::<4>();
    for x in 1..=4u64 {
        ring.push_mut(x);
    }
    assert!(ring.is_full());
    assert!(ring.sink().items().is_empty());
    ring.push_mut(5);
    assert_eq!(ring.sink().items(), &vec![1]);
    assert_eq!(ring.peek(), Some(&2));
    assert_eq!(ring.pop_mut(), Some(2));
    assert_eq!(ring.try_pop(), Some(3));
    assert_eq!(ring.len(), 2);
    assert_eq!(ring.pop_mut(), Some(4));
    assert_eq!(ring.pop_mut(), Some(5));
    assert_eq!(ring.pop_mut(), None);
    assert_eq!(ring.peek(), None);
}

#[test]
fn try_push_hands_the_item_back_when_full() {
    let mut ring = collecting::<2>();
    assert_eq!(ring.try_push(1), Ok(()));
    assert_eq!(ring.try_push(2), Ok(()));
    assert_eq!(ring.try_push(3), Err(3));
    assert!(ring.sink().items().is_empty());
    assert_eq!(ring.len(), 2);
    assert_eq!(ring.pop_mut(), Some(1));
    assert_eq!(ring.try_push(3), Ok(()));
    assert_eq!(ring.drain(), vec![2, 3]);
}

#[test]
fn fill_then_drain_gives_the_input_back() {
    let mut ring = collecting::<8>();
    let input: Vec<u64> = vec![5, 3, 9, 1, 1, 7, 2, 8];
    for &x in &input {
        ring.push_mut(x);
    }
    assert_eq!(ring.drain(), input);
    assert!(ring.sink().items().is_empty());

    ring.push_slice(&input);
    let mut popped = Vec::new();
    while let Some(x) = ring.pop_mut() {
        popped.push(x);
    }
    assert_eq!(popped, input);
    assert!(ring.sink().items().is_empty());
}

fn one_by_one<const N: usize>(before: &[u64], xs: &[u64]) -> (Vec<u64>, Vec<u64>) {
    let mut ring = collecting::<N>();
    for &x in before {
        ring.push_mut(x);
    }
    for &x in xs {
        ring.push_mut(x);
    }
    let kept = ring.drain();
    (kept, ring.sink().items().clone())
}

fn at_once<const N: usize>(before: &[u64], xs: &[u64]) -> (Vec<u64>, Vec<u64>) {
    let mut ring = collecting::<N>();
    for &x in before {
        ring.push_mut(x);
    }
    ring.push_slice(xs);
    let kept = ring.drain();
    (kept, ring.sink().items().clone())
}

#[test]
fn push_slice_is_repeated_push_mut() {
    let xs: Vec<u64> = (100..120).collect();
    for held in 0..=4usize {
        let before: Vec<u64> = (0..held as u64).collect();
        for n in 0..xs.len() {
            assert_eq!(at_once::<4>(&before, &xs[..n]), one_by_one::<4>(&before, &xs[..n]));
        }
    }
}

#[test]
fn push_slice_wraps_around_the_last_slot() {
    let mut ring = collecting::<4>();
    ring.push_slice(&[1, 2, 3]);
    assert_eq!(ring.pop_mut(), Some(1));
    assert_eq!(ring.pop_mut(), Some(2));
    ring.extend_from_slice(&[4, 5, 6]);
    assert_eq!(ring.tail(), 6);
    assert_eq!(ring.head(), 2);
    assert!(ring.sink().items().is_empty());
    ring.push_slice(&[7, 8]);
    assert_eq!(ring.sink().items(), &vec![3, 4]);
    assert_eq!(ring.head(), 4);
    assert_eq!(ring.tail(), 8);
    assert_eq!(ring.drain(), vec![5, 6, 7, 8]);
}

#[test]
fn push_slice_of_nothing_changes_nothing() {
    let mut ring = collecting::<4>();
    ring.push(1);
    ring.push_slice(&[]);
    assert_eq!(ring.len(), 1);
    assert_eq!(ring.tail(), 1);
    assert!(ring.sink().items().is_empty());
}

#[test]
fn long_slice_counts_only_what_enters_the_buffer() {
    let mut ring = collecting::<2>();
    ring.push(1);
    ring.push_slice(&[10, 20, 30, 40, 50]);
    assert_eq!(ring.sink().items(), &vec![1, 10, 20, 30]);
    assert_eq!(ring.tail(), 3);
    assert_eq!(ring.head(), 1);
    assert_eq!(ring.drain(), vec![40, 50]);
}

#[test]
fn extend_pushes_every_item() {
    let mut ring = collecting::<2>();
    ring.extend(vec![1, 2, 3, 4, 5]);
    assert_eq!(ring.sink().items(), &vec![1, 2, 3]);
    assert_eq!(ring.tail(), 5);
    assert_eq!(ring.drain(), vec![4, 5]);
}

#[test]
fn push_and_flush_empties_the_ring() {
    let mut ring = collecting::<2>();
    ring.push(1);
    ring.push(2);
    ring.push_and_flush(3);
    assert!(ring.is_empty());
    assert_eq!(ring.sink().items(), &vec![1, 2, 3]);
    ring.push(4);
    ring.clear();
    assert!(ring.is_empty());
    assert_eq!(ring.sink().items(), &vec![1, 2, 3, 4]);
}

#[test]
fn drain_sends_nothing_to_the_spout() {
    let mut ring = collecting::<4>();
    ring.push(1);
    ring.push(2);
    assert_eq!(ring.drain(), vec![1, 2]);
    assert!(ring.sink().items().is_empty());
    assert_eq!(ring.drain(), Vec::<u64>::new());
}

#[test]
fn into_sink_flushes_the_ring_first() {
    let mut ring = collecting::<4>();
    for x in 1..=6u64 {
        ring.push(x);
    }
    assert_eq!(ring.pop(), Some(3));
    let sink = ring.into_sink();
    assert_eq!(sink.into_items(), vec![1, 2, 4, 5, 6]);
}

#[test]
fn sink_mut_reaches_the_spout() {
    let mut ring = collecting::<2>();
    ring.sink_mut().send(9);
    ring.push(1);
    ring.push(2);
    ring.push(3);
    assert_eq!(ring.sink().items(), &vec![9, 1]);
}

#[test]
fn ring_of_one_slot() {
    let mut ring = collecting::<1>();
    ring.push(1);
    assert!(ring.is_full());
    ring.push(2);
    ring.push_mut(3);
    assert_eq!(ring.sink().items(), &vec![1, 2]);
    assert_eq!(ring.peek(), Some(&3));
    assert_eq!(ring.pop(), Some(3));
    assert_eq!(ring.pop(), None);
}

#[test]
fn rings_chain_through_the_spout() {
    let inner: SpillRing<u64, 2, CollectSpout<u64>> = SpillRing::with_sink_cold(CollectSpout::new());
    let mut outer: SpillRing<u64, 2, SpillRing<u64, 2, CollectSpout<u64>>> =
        SpillRing::with_sink(inner);
    for x in 1..=5u64 {
        outer.push(x);
    }
    assert_eq!(outer.len(), 2);
    assert_eq!(outer.sink().len(), 2);
    assert_eq!(outer.sink().sink().items(), &vec![1]);
    assert_eq!(outer.sink().peek(), Some(&2));
    assert_eq!(outer.flush(), 2);
    assert_eq!(outer.sink().sink().items(), &vec![1, 2, 3]);
    let mut inner = outer.into_sink();
    assert!(inner.is_empty());
    assert_eq!(inner.sink().items(), &vec![1, 2, 3, 4, 5]);
    inner.send(6);
    Spout::flush(&mut inner);
    assert_eq!(inner.sink().items(), &vec![1, 2, 3, 4, 5, 6]);
}

#[test]
fn items_that_own_memory_move_through() {
    let mut ring: SpillRing<String, 2, CollectSpout<String>> =
        SpillRing::with_sink(CollectSpout::new());
    ring.push("a".to_string());
    ring.push("b".to_string());
    ring.push("c".to_string());
    assert_eq!(ring.sink().items(), &vec!["a".to_string()]);
    assert_eq!(ring.pop(), Some("b".to_string()));
    assert_eq!(ring.peek().map(|s| s.as_str()), Some("c"));
}

#[test]
fn drop_spout_forgets() {
    let mut sink = DropSpout;
    sink.send(1u8);
    Spout::<u8>::flush(&mut sink);
    let mut ring: SpillRing<u8, 2> = SpillRing::with_sink_cold(DropSpout);
    ring.push_slice(&[1, 2, 3]);
    assert_eq!(ring.drain(), vec![2, 3]);
}
