use linked_queue::lockfree_queue::LinkedQueue;

/// A small keyed record, as a payload with more than one field.
#[allow(dead_code)]
struct Entry {
    key: i64,
    value: i64,
}

impl Entry {
    fn new(key: i64, value: i64) -> Self {
        Entry { key, value }
    }
}

#[test]
fn test_single() {
    let mut q = LinkedQueue::new();
    let entry = Entry::new(1, 2);
    q.push(entry);
    println!("{}", q.pop().unwrap().key);
}

#[test]
fn test_fifo_order() {
    let mut q = LinkedQueue::new();
    q.push(1);
    q.push(2);
    q.push(3);
    assert_eq!(q.pop(), Some(1));
    assert_eq!(q.pop(), Some(2));
    assert_eq!(q.pop(), Some(3));
    assert_eq!(q.pop(), None);
}

#[test]
fn test_empty_queue() {
    let mut q: LinkedQueue<u32> = LinkedQueue::new();
    assert!(q.is_empty());
    assert_eq!(q.pop(), None);
    assert!(q.is_empty());
}

#[test]
fn test_length_accounting() {
    let n: u64 = 5;
    let m: u64 = 3;
    let mut q = LinkedQueue::new();
    for i in 0..n {
        q.push(i);
    }
    for _ in 0..m {
        assert!(q.pop().is_some());
    }
    // n - m = 2 items remain
    assert!(!q.is_empty());
    assert_eq!(q.pop(), Some(3));
    assert!(!q.is_empty());
    assert_eq!(q.pop(), Some(4));
    assert!(q.is_empty());
    assert_eq!(q.pop(), None);
}

#[test]
fn test_two_producers_drain() {
    // Two producers' uniquely tagged items, interleaved into one queue:
    // a drain must return every item exactly once.
    let a: Vec<u64> = vec![100, 101, 102, 103, 104];
    let b: Vec<u64> = vec![200, 201, 202, 203, 204];
    let mut q = LinkedQueue::new();
    for i in 0..a.len() {
        q.push(a[i]);
        q.push(b[i]);
    }
    let mut drained: Vec<u64> = Vec::new();
    while let Some(x) = q.pop() {
        drained.push(x);
    }
    assert_eq!(drained.len(), a.len() + b.len());
    for tag in a.iter().chain(b.iter()) {
        assert_eq!(drained.iter().filter(|x| *x == tag).count(), 1);
    }
}

#[test]
fn test_round_trip_values() {
    let mut q = LinkedQueue::new();
    q.push(String::from("alpha"));
    q.push(String::from("beta"));
    assert_eq!(q.pop(), Some(String::from("alpha")));
    assert_eq!(q.pop(), Some(String::from("beta")));
    assert_eq!(q.pop(), None);
}

#[test]
fn test_teardown_partial_drain() {
    // Construct, push N, pop fewer than N, then drop the queue with items
    // still linked: ownership frees the remaining nodes exactly once.
    let mut q = LinkedQueue::new();
    for i in 0..10u32 {
        q.push(i);
    }
    for i in 0..4u32 {
        assert_eq!(q.pop(), Some(i));
    }
    drop(q);
}

#[test]
fn test_randomized_push_pop_accounting() {
    // Randomized push/pop sequence: what was popped plus what remains
    // must equal what was pushed.
    let mut q: LinkedQueue<u64> = LinkedQueue::new();
    let mut pushed: u64 = 0;
    let mut popped: u64 = 0;
    for i in 0..1000u64 {
        if rand::random::<bool>() {
            q.push(i);
            pushed += 1;
        } else if q.pop().is_some() {
            popped += 1;
        }
    }
    let mut remaining: u64 = 0;
    while q.pop().is_some() {
        remaining += 1;
    }
    assert_eq!(popped + remaining, pushed);
    assert!(q.is_empty());
}
