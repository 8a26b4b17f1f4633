use spill_ring::index::{Index, SpoutCell};
use spill_ring::ring::SpillRing;
use spill_ring::spout::{send_all, CollectSpout, Spout};

#[test]
fn index_holds_what_was_stored() {
    let mut index = Index::new(7);
    assert_eq!(index.load(), 7);
    assert_eq!(index.load_relaxed(), 7);
    assert_eq!(index.load_mut(), 7);
    index.store(usize::MAX);
    assert_eq!(index.load(), usize::MAX);
    index.store_mut(0);
    assert_eq!(index.load_relaxed(), 0);
    assert_eq!(index.load_mut(), 0);
}

#[test]
fn spout_cell_hands_out_its_sink() {
    let mut cell = SpoutCell::new(CollectSpout::new());
    assert!(cell.get_ref().items().is_empty());
    cell.get_mut().send(3u8);
    cell.get_mut().send(4u8);
    assert_eq!(cell.get_ref().items(), &vec![3, 4]);
    assert_eq!(cell.into_inner().into_items(), vec![3, 4]);
}

#[test]
fn send_all_sends_first_to_last() {
    let mut sink = CollectSpout::new();
    sink.send(1u32);
    send_all(&mut sink, vec![2, 3, 4]);
    send_all(&mut sink, Vec::new());
    assert_eq!(sink.items(), &vec![1, 2, 3, 4]);
    let mut ring: SpillRing<u32, 2, CollectSpout<u32>> = SpillRing::with_sink(CollectSpout::new());
    send_all(&mut ring, vec![1, 2, 3]);
    assert_eq!(ring.sink().items(), &vec![1]);
    assert_eq!(ring.drain(), vec![2, 3]);
}

#[test]
fn lag_is_the_distance_to_the_slower_head() {
    let mut ring: SpillRing<u32, 2, CollectSpout<u32>> = SpillRing::with_sink(CollectSpout::new());
    assert_eq!(ring.lag(), 0);
    assert!(ring.can_push());
    for x in 0..5 {
        ring.push(x);
    }
    assert_eq!(ring.lag(), 5);
    assert_eq!(ring.pop(), Some(3));
    assert_eq!(ring.lag(), 2);
    assert_eq!(ring.pop(), Some(4));
    assert_eq!(ring.pop(), None);
    assert_eq!(ring.head(), 5);
    assert_eq!(ring.evict_head(), 3);
    assert_eq!(ring.lag(), 2);
    assert_eq!(ring.pop_mut(), None);
    assert_eq!(ring.evict_head(), 5);
    assert_eq!(ring.lag(), 0);
    assert!(ring.can_push());
}

fn fill<R: spill_ring::traits::RingProducer<u32>>(ring: &mut R, upto: u32) -> Vec<u32> {
    let mut refused = Vec::new();
    for x in 0..upto {
        if let Err(back) = ring.try_push(x) {
            refused.push(back);
        }
    }
    refused
}

fn empty_out<R: spill_ring::traits::RingConsumer<u32>>(ring: &mut R) -> Vec<u32> {
    let mut out = Vec::new();
    while let Some(&next) = ring.peek() {
        assert_eq!(ring.try_pop(), Some(next));
        out.push(next);
    }
    assert_eq!(ring.try_pop(), None);
    out
}

fn fullness<R: spill_ring::traits::RingInfo>(ring: &R) -> (usize, usize, bool, bool) {
    (ring.len(), ring.capacity(), ring.is_empty(), ring.is_full())
}

#[test]
fn rings_are_bounded_queues() {
    let mut ring: SpillRing<u32, 4, CollectSpout<u32>> = SpillRing::with_sink(CollectSpout::new());
    assert_eq!(fullness(&ring), (0, 4, true, false));
    assert_eq!(fill(&mut ring, 6), vec![4, 5]);
    assert_eq!(fullness(&ring), (4, 4, false, true));
    assert!(ring.sink().items().is_empty());
    assert_eq!(empty_out(&mut ring), vec![0, 1, 2, 3]);
    assert_eq!(fullness(&ring), (0, 4, true, false));
}
