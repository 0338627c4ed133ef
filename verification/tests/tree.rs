use social_indexer::btree::{Node, MAX_KEYS};

fn leaf(keys: &[i32]) -> Node {
    let mut n = Node::new(16);
    n.keys = keys.to_vec();
    n
}

#[test]
fn new_node_is_empty() {
    let n = Node::new(64);
    assert_eq!(n.address, 64);
    assert!(n.keys.is_empty());
    assert!(n.children.is_empty());
    assert!(!n.search(5));
    assert_eq!(MAX_KEYS, 4);
}

#[test]
fn insert_into_leaf_without_split() {
    let mut n = leaf(&[10, 30]);
    assert!(n.pending_writes(20).is_none());
    assert!(n.insert(20, true).is_none());
    assert_eq!(n.keys, vec![10, 20, 30]);
    assert!(n.search(20));
    assert!(n.search(10));
    assert!(!n.search(15));
}

#[test]
fn insert_splits_full_leaf() {
    let mut n = leaf(&[10, 20, 30, 40]);
    let (l, r) = n.pending_writes(25).unwrap();
    assert_eq!(l.keys, vec![10, 20]);
    assert_eq!(l.address, 16);
    assert_eq!(r.keys, vec![25, 30, 40]);
    assert_eq!(r.address, 0);
    let top = n.insert(25, true).unwrap();
    assert_eq!(n.keys, vec![10, 20]);
    assert_eq!(top.address, 0);
    assert_eq!(top.keys, vec![25]);
    assert_eq!(top.children.len(), 2);
    assert_eq!(top.children[0].keys, vec![10, 20]);
    assert_eq!(top.children[1].keys, vec![25, 30, 40]);
    for k in [10, 20, 25, 30, 40] {
        assert!(top.search(k), "key {}", k);
    }
    assert!(!top.search(35));
}

#[test]
fn unwritten_split_keeps_left_half_only() {
    let mut n = leaf(&[1, 2, 3, 4]);
    assert!(n.insert(5, false).is_none());
    assert_eq!(n.keys, vec![1, 2]);
}

#[test]
fn inner_node_takes_split_child_halves_in_swapped_order() {
    let mut root = Node::new(0);
    root.keys = vec![100];
    root.children = vec![leaf(&[10, 20, 30, 40]), leaf(&[200])];
    let (l, r) = root.pending_writes(15).unwrap();
    assert_eq!(l.keys, vec![10, 15]);
    assert_eq!(r.keys, vec![20, 30, 40]);
    assert!(root.insert(15, true).is_none());
    assert_eq!(root.keys, vec![20, 100]);
    assert_eq!(root.children.len(), 3);
    assert_eq!(root.children[0].keys, vec![20, 30, 40]);
    assert_eq!(root.children[1].keys, vec![10, 15]);
    assert_eq!(root.children[2].keys, vec![200]);
}

#[test]
fn inner_node_drops_unsplit_child_changes() {
    let mut root = Node::new(0);
    root.keys = vec![100];
    root.children = vec![leaf(&[10]), leaf(&[200])];
    assert!(root.insert(15, true).is_none());
    assert_eq!(root.children[0].keys, vec![10]);
    assert!(!root.search(15));
}

#[test]
fn search_descends_into_children() {
    let mut root = Node::new(0);
    root.keys = vec![50];
    root.children = vec![leaf(&[10, 20]), leaf(&[60, 70])];
    assert!(root.search(50));
    assert!(root.search(20));
    assert!(root.search(70));
    assert!(!root.search(65));
}

#[test]
fn disk_record_layout_and_read_back() {
    let mut root = Node::new(0x0102);
    root.keys = vec![7, -1];
    let mut a = Node::new(8);
    a.keys = vec![1];
    root.children = vec![a, Node::new(9), Node::new(10)];
    let le = root.to_disk_bytes_in(true);
    let mut expected = vec![2u8, 1, 0, 0, 0, 0, 0, 0, 2, 0, 0, 0, 7, 0, 0, 0, 255, 255, 255, 255];
    expected.extend_from_slice(&[8, 0, 0, 0, 0, 0, 0, 0, 9, 0, 0, 0, 0, 0, 0, 0, 10, 0, 0, 0, 0, 0, 0, 0]);
    assert_eq!(le, expected);
    let be = root.to_disk_bytes_in(false);
    assert_eq!(&be[0..8], &[0, 0, 0, 0, 0, 0, 1, 2]);
    let native = root.to_disk_bytes();
    assert!(native == le || native == be);
    let (keys, addrs) = Node::read_record(&le, 8, true).unwrap();
    assert_eq!(keys, vec![7, -1]);
    assert_eq!(addrs, vec![8, 9, 10]);
    let (keys, addrs) = Node::read_record(&be, 8, false).unwrap();
    assert_eq!(keys, vec![7, -1]);
    assert_eq!(addrs, vec![8, 9, 10]);
}

#[test]
fn read_record_needs_all_bytes() {
    let leaf_bytes = leaf(&[5]).to_disk_bytes_in(true);
    // a leaf has no child addresses, yet a read expects one more than its keys
    assert!(Node::read_record(&leaf_bytes, 8, true).is_none());
    assert!(Node::read_record(&leaf_bytes, 1000, true).is_none());
}

#[test]
fn clone_copies_whole_tree() {
    let mut root = Node::new(1);
    root.keys = vec![5];
    root.children = vec![leaf(&[1]), leaf(&[9])];
    let c = root.clone();
    assert_eq!(c.keys, vec![5]);
    assert_eq!(c.children[1].keys, vec![9]);
    assert_eq!(c.children[0].address, 16);
}
