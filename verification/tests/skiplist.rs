use linked_queue::skip::Node;
use linked_queue::skip::SkipList;

#[test]
fn test() {
    let mut skiplist = SkipList::new(2);
    skiplist.insert(1, 1);
    skiplist.insert(3, 3);
    skiplist.insert(2, 2);
    skiplist.insert(4, 4);
    assert_eq!(Some(2), skiplist.find(2));
    assert_eq!(Some(3), skiplist.find(3));
}

#[test]
fn test_find_missing() {
    let mut s = SkipList::new(4);
    s.insert(10, -10);
    s.insert(30, -30);
    assert_eq!(s.find(20), None);
    assert_eq!(s.find(0), None);
    assert_eq!(s.find(10), Some(-10));
    assert_eq!(s.find(30), Some(-30));
}

#[test]
fn test_empty_list() {
    let s = SkipList::new(3);
    assert_eq!(s.find(1), None);
}

#[test]
fn test_insert_many() {
    let mut s = SkipList::new(5);
    let keys = [7usize, 3, 11, 1, 9, 5, 13, 2, 8, 12];
    for k in keys {
        s.insert(k, (k as i32) * 10);
    }
    for k in keys {
        assert_eq!(s.find(k), Some((k as i32) * 10));
    }
    assert_eq!(s.find(4), None);
    assert_eq!(s.find(100), None);
}

#[test]
fn test_node_fields() {
    let n = Node::new(5, -7);
    assert_eq!(n.key, 5);
    assert_eq!(n.value, -7);
}
