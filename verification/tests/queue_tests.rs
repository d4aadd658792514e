use std::collections::VecDeque;
use ntorrent::bitfield::Bitfield;
use ntorrent::queue::Queue;
use ntorrent::torrents::Piece;

#[test]
fn test_push_pop() {
    let mut q: Queue<i64> = Queue::new();
    assert_eq!(q.pop(), None);

    q.push(1);
    assert_eq!(q.pop(), Some(1));
    assert_eq!(q.pop(), None);
}

#[test]
fn queue_test_replace() {
    let mut q: Queue<i64> = Queue::new();
    q.replace(vec![3, 2, 1].into_iter().collect());

    assert_eq!(q.pop(), Some(3));
    assert_eq!(q.pop(), Some(2));
}

#[test]
fn find_first_extracts_in_order() {
    let pieces: VecDeque<Piece> = (0u32..4).map(|i| Piece([0; 20], i, 4)).collect();
    let mut q = Queue::from(pieces);

    // the remote has pieces 1 and 2: bits 1 and 2, MSB first
    let bf = Bitfield::from(vec![0b0110_0000]);
    let got = q.find_first(&bf).expect("piece 1 should match first");
    assert_eq!(got.1, 1);
    assert_eq!(q.len(), 3);

    let got = q.find_first(&bf).expect("piece 2 matches next");
    assert_eq!(got.1, 2);

    // nothing else matches, and the queue keeps its order
    assert!(q.find_first(&bf).is_none());
    assert_eq!(q.pop().unwrap().1, 0);
    assert_eq!(q.pop().unwrap().1, 3);
    assert_eq!(q.pop(), None);
}

#[test]
fn clear_and_len() {
    let mut q: Queue<i64> = Queue::new();
    q.push(5);
    q.push(6);
    assert_eq!(q.len(), 2);
    q.clear();
    assert_eq!(q.len(), 0);
}
