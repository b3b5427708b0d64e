use std::collections::BinaryHeap;

use pcfg::grammar::cell::{BacktraceInfo, ChartEntry};
use pcfg::grammar::queue::{comes_before, MaxQueue, QueueItem};

fn item(weight: u64, back: Option<BacktraceInfo>, nt: usize) -> QueueItem {
    QueueItem {
        entry: ChartEntry { weight, back },
        nt,
    }
}

/// The place of an item in the order of the queue, as a tuple that std orders.
fn place(item: &QueueItem) -> (u64, u8, usize, usize, usize) {
    let (kind, first, second) = match item.entry.back {
        None => (0, 0, 0),
        Some(BacktraceInfo::Binary(i, j)) => (1, i, j),
        Some(BacktraceInfo::Chain(i)) => (2, i, 0),
        Some(BacktraceInfo::Term(i)) => (3, i, 0),
    };
    (item.entry.weight, kind, first, second, item.nt)
}

#[test]
fn heaviest_item_leaves_first() {
    let mut queue = MaxQueue::new();
    assert_eq!(0, queue.len());
    queue.push(item(3, None, 0));
    queue.push(item(9, Some(BacktraceInfo::Term(1)), 4));
    queue.push(item(5, Some(BacktraceInfo::Chain(2)), 1));
    queue.push(item(9, Some(BacktraceInfo::Chain(7)), 2));
    queue.push(item(9, Some(BacktraceInfo::Term(1)), 3));
    assert_eq!(5, queue.len());
    let order: Vec<(u64, usize)> = (0..5)
        .map(|_| {
            let next = queue.pop();
            (next.entry.weight, next.nt)
        })
        .collect();
    // of equal weights a word trace goes before a chain trace, and the greater non-terminal first
    assert_eq!(vec![(9, 4), (9, 3), (9, 2), (5, 1), (3, 0)], order);
    assert_eq!(0, queue.len());
}

#[test]
fn items_leave_in_the_order_of_a_heap_of_tuples() {
    let mut seed: u64 = 12345;
    let mut next = || {
        seed = seed.wrapping_mul(6364136223846793005).wrapping_add(1442695040888963407);
        (seed >> 33) as usize
    };
    let mut queue = MaxQueue::new();
    let mut heap = BinaryHeap::new();
    for round in 0..2000 {
        if round % 3 != 2 {
            let back = match next() % 4 {
                0 => None,
                1 => Some(BacktraceInfo::Binary(next() % 3, next() % 3)),
                2 => Some(BacktraceInfo::Chain(next() % 3)),
                _ => Some(BacktraceInfo::Term(next() % 3)),
            };
            let new = item((next() % 5) as u64, back, next() % 4);
            heap.push(place(&new));
            queue.push(new);
        } else if queue.len() > 0 {
            assert_eq!(heap.pop().unwrap(), place(&queue.pop()));
        }
        assert_eq!(heap.len(), queue.len());
    }
    while queue.len() > 0 {
        assert_eq!(heap.pop().unwrap(), place(&queue.pop()));
    }
}

#[test]
fn order_of_items() {
    let light = item(1, Some(BacktraceInfo::Term(9)), 9);
    let heavy = item(2, None, 0);
    assert!(comes_before(&light, &heavy));
    assert!(!comes_before(&heavy, &light));
    assert!(!comes_before(&heavy, &heavy));
    let binary = item(2, Some(BacktraceInfo::Binary(8, 8)), 0);
    let chain = item(2, Some(BacktraceInfo::Chain(0)), 0);
    assert!(comes_before(&heavy, &binary));
    assert!(comes_before(&binary, &chain));
    assert!(comes_before(
        &item(2, Some(BacktraceInfo::Binary(1, 5)), 0),
        &item(2, Some(BacktraceInfo::Binary(2, 0)), 0)
    ));
    assert!(comes_before(
        &item(2, Some(BacktraceInfo::Binary(1, 5)), 0),
        &item(2, Some(BacktraceInfo::Binary(1, 6)), 0)
    ));
    assert!(comes_before(&chain, &item(2, Some(BacktraceInfo::Chain(0)), 1)));
}
