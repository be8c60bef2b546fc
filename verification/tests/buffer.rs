use std::collections::VecDeque;

use swap_stream::buffer::{ReorganizingBuffer, ReorganizingBufferError};

const DEPTH: usize = 3;

#[test]
fn passthrough() {
    let mut buffer = ReorganizingBuffer::<&str>::new(0);
    assert!(buffer.queue.is_empty());
    assert_eq!(buffer.push((123, vec!["abc", "def"])).unwrap(), Some((123, vec!["abc", "def"])));
    assert!(buffer.queue.is_empty());
}

#[test]
fn reorg_none() {
    let item_1 = || (1, vec!["a"]);
    let item_2 = || (2, vec!["b"]);
    let item_3 = || (3, vec!["c"]);
    let item_4 = || (4, vec!["d"]);

    let mut buffer = ReorganizingBuffer::<&str>::new(DEPTH);
    assert_eq!(buffer.queue, vec![]);

    assert_eq!(buffer.push(item_1()).unwrap(), None);
    assert_eq!(buffer.queue, vec![item_1()]);

    assert_eq!(buffer.push(item_2()).unwrap(), None);
    assert_eq!(buffer.queue, vec![item_1(), item_2()]);

    assert_eq!(buffer.push(item_3()).unwrap(), None);
    assert_eq!(buffer.queue, vec![item_1(), item_2(), item_3()]);

    assert_eq!(buffer.push(item_4()).unwrap(), Some(item_1()));
    assert_eq!(buffer.queue, vec![item_2(), item_3(), item_4()]);
}

#[test]
fn reorg_one() {
    let item_1 = || (1, vec!["a"]);
    let item_2 = || (2, vec!["b"]);
    let item_3 = || (3, vec!["c"]);
    let item_4 = || (4, vec!["d"]);

    let mut buffer = ReorganizingBuffer::<&str>::new(DEPTH);
    assert_eq!(buffer.queue, vec![]);

    assert_eq!(buffer.push(item_1()).unwrap(), None);
    assert_eq!(buffer.queue, vec![item_1()]);

    assert_eq!(buffer.push(item_2()).unwrap(), None);
    assert_eq!(buffer.queue, vec![item_1(), item_2()]);

    assert_eq!(buffer.push(item_3()).unwrap(), None);
    assert_eq!(buffer.queue, vec![item_1(), item_2(), item_3()]);

    assert_eq!(buffer.push(item_4()).unwrap(), Some(item_1()));
    assert_eq!(buffer.queue, vec![item_2(), item_3(), item_4()]);

    let item_4 = || (4, vec!["x"]);
    assert_eq!(buffer.push(item_4()).unwrap(), None);
    assert_eq!(buffer.queue, vec![item_2(), item_3(), item_4()]);
}

#[test]
fn reorg_many() {
    let item_1 = || (1, vec!["a"]);
    let item_2 = || (2, vec!["b"]);
    let item_3 = || (3, vec!["c"]);
    let item_4 = || (4, vec!["d"]);

    let mut buffer = ReorganizingBuffer::<&str>::new(DEPTH);
    assert_eq!(buffer.queue, vec![]);

    assert_eq!(buffer.push(item_1()).unwrap(), None);
    assert_eq!(buffer.queue, vec![item_1()]);

    assert_eq!(buffer.push(item_2()).unwrap(), None);
    assert_eq!(buffer.queue, vec![item_1(), item_2()]);

    assert_eq!(buffer.push(item_3()).unwrap(), None);
    assert_eq!(buffer.queue, vec![item_1(), item_2(), item_3()]);

    assert_eq!(buffer.push(item_4()).unwrap(), Some(item_1()));
    assert_eq!(buffer.queue, vec![item_2(), item_3(), item_4()]);

    let item_3 = || (3, vec!["x"]);
    assert_eq!(buffer.push(item_3()).unwrap(), None);
    assert_eq!(buffer.queue, vec![item_2(), item_3()]);
}

#[test]
fn reorg_max() {
    let item_2 = || (2, vec!["b"]);
    let item_3 = || (3, vec!["c"]);
    let item_4 = || (4, vec!["d"]);

    let buffer_new = || ReorganizingBuffer {
        depth: DEPTH,
        queue: VecDeque::from([item_2(), item_3(), item_4()]),
    };

    let mut buffer = buffer_new();
    let item_2 = || (2, vec!["x"]);
    assert_eq!(buffer.push(item_2()).unwrap(), None);
    assert_eq!(buffer.queue, vec![item_2()]);

    let mut buffer = buffer_new();
    let item_1 = || (1, vec!["x"]);
    assert!(buffer.push(item_1()).is_err());
}

#[test]
fn full_buffer() {
    let item_1 = || (1, vec!["a"]);
    let item_2 = || (2, vec!["b"]);
    let item_3 = || (3, vec!["c"]);
    let item_4 = || (4, vec!["d"]);

    let mut buffer = ReorganizingBuffer::<&str>::new(DEPTH);
    assert_eq!(buffer.queue, vec![]);

    assert_eq!(buffer.push(item_1()).unwrap(), None);
    assert_eq!(buffer.queue, vec![item_1()]);

    assert_eq!(buffer.push(item_2()).unwrap(), None);
    assert_eq!(buffer.queue, vec![item_1(), item_2()]);

    assert_eq!(buffer.push(item_3()).unwrap(), None);
    assert_eq!(buffer.queue, vec![item_1(), item_2(), item_3()]);

    assert_eq!(buffer.push(item_4()).unwrap(), Some(item_1()));
    assert_eq!(buffer.queue, vec![item_2(), item_3(), item_4()]);

    let item_1 = || (1, vec!["x"]);
    let result = buffer.push(item_1());

    match result {
        Err(ReorganizingBufferError::DepthExceeded(4)) => assert!(true),
        _ => assert!(false, "Unexpected result {:?}", result),
    }
    assert_eq!(buffer.queue, vec![item_2(), item_3(), item_4()]);
}

#[test]
fn end_to_end_scenario() {
    let mut buffer = ReorganizingBuffer::<&str>::new(3);

    assert_eq!(buffer.push((1, vec!["a"])).unwrap(), None);
    assert_eq!(buffer.push((2, vec!["b"])).unwrap(), None);
    assert_eq!(buffer.push((3, vec!["c"])).unwrap(), None);
    assert_eq!(buffer.queue, vec![(1, vec!["a"]), (2, vec!["b"]), (3, vec!["c"])]);

    assert_eq!(buffer.push((4, vec!["d"])).unwrap(), Some((1, vec!["a"])));
    assert_eq!(buffer.queue, vec![(2, vec!["b"]), (3, vec!["c"]), (4, vec!["d"])]);

    assert_eq!(buffer.push((4, vec!["d2"])).unwrap(), None);
    assert_eq!(buffer.queue, vec![(2, vec!["b"]), (3, vec!["c"]), (4, vec!["d2"])]);

    assert_eq!(buffer.push((3, vec!["c2"])).unwrap(), None);
    assert_eq!(buffer.queue, vec![(2, vec!["b"]), (3, vec!["c2"])]);
}

#[test]
fn gap_rejection() {
    let mut buffer = ReorganizingBuffer::<&str>::new(3);
    assert_eq!(buffer.push((7, vec!["a"])).unwrap(), None);
    let result = buffer.push((9, vec!["b"]));
    match result {
        Err(ReorganizingBufferError::MissingOffset(8)) => (),
        _ => panic!("Unexpected result {:?}", result),
    }
    assert_eq!(buffer.queue, vec![(7, vec!["a"])]);
}

#[test]
fn confirmations_increase() {
    let mut buffer = ReorganizingBuffer::<&str>::new(2);
    let mut confirmed: Vec<u64> = Vec::new();
    for offset in 1..=6 {
        if let Some((off, _)) = buffer.push((offset, vec!["x"])).unwrap() {
            confirmed.push(off);
        }
        assert!(buffer.queue.len() <= 2);
        for pair in buffer.queue.iter().zip(buffer.queue.iter().skip(1)) {
            assert_eq!(pair.1 .0, pair.0 .0 + 1);
        }
    }
    assert_eq!(confirmed, vec![1, 2, 3, 4]);
}

#[test]
fn top_of_offset_range() {
    let mut buffer = ReorganizingBuffer::<&str>::new(1);
    assert_eq!(buffer.push((u64::MAX, vec!["a"])).unwrap(), None);
    assert_eq!(buffer.push((u64::MAX, vec!["b"])).unwrap(), None);
    assert_eq!(buffer.queue, vec![(u64::MAX, vec!["b"])]);

    let result = buffer.push((u64::MAX - 1, vec!["c"]));
    match result {
        Err(ReorganizingBufferError::DepthExceeded(2)) => (),
        _ => panic!("Unexpected result {:?}", result),
    }
    assert_eq!(buffer.queue, vec![(u64::MAX, vec!["b"])]);
}
