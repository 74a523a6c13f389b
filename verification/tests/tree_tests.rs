use shortener::store::bptree::page::Page;
use shortener::store::bptree::tree::{
    internal_insert_step, internal_split_step, leaf_insert_step, leaf_split_step, NodeStep,
    get_step, internal_page, leaf_page, meta_page, read_meta, read_node, BPlusTree, GetStep, Internal, Leaf, Meta,
    PageNode, TreeError,
};

fn leaf_of(pairs: &[(&str, &str)], next: Option<u64>) -> Leaf {
    let mut l = Leaf::empty();
    for (k, v) in pairs {
        l.put(k.as_bytes().to_vec(), v.as_bytes().to_vec());
    }
    l.next = next;
    l
}

#[test]
fn leaf_put_keeps_keys_sorted_and_replaces_values() {
    let mut l = Leaf::empty();
    assert!(!l.put(b"b".to_vec(), b"2".to_vec()));
    assert!(!l.put(b"a".to_vec(), b"1".to_vec()));
    assert!(!l.put(b"c".to_vec(), b"3".to_vec()));
    assert!(l.put(b"a".to_vec(), b"9".to_vec()));
    assert_eq!(l.keys, vec![b"a".to_vec(), b"b".to_vec(), b"c".to_vec()]);
    assert_eq!(l.vals, vec![b"9".to_vec(), b"2".to_vec(), b"3".to_vec()]);
    assert!(l.overfull(2));
    assert!(!l.overfull(3));
}

#[test]
fn leaf_split_moves_the_upper_half() {
    let mut l = leaf_of(&[("a", "1"), ("b", "2"), ("c", "3"), ("d", "4"), ("e", "5")], Some(42));
    let (sep, right) = l.split(7);
    assert_eq!(sep, b"c".to_vec());
    assert_eq!(l.keys, vec![b"a".to_vec(), b"b".to_vec()]);
    assert_eq!(l.next, Some(7));
    assert_eq!(right.keys, vec![b"c".to_vec(), b"d".to_vec(), b"e".to_vec()]);
    assert_eq!(right.vals, vec![b"3".to_vec(), b"4".to_vec(), b"5".to_vec()]);
    assert_eq!(right.next, Some(42));
}

#[test]
fn internal_node_routing_and_split() {
    let mut n = Internal::new_root(b"m".to_vec(), 1, 2);
    assert_eq!(n.child_slot(b"a"), Some(0));
    assert_eq!(n.child_slot(b"m"), Some(1));
    assert_eq!(n.child_slot(b"z"), Some(1));
    n.absorb(1, b"t".to_vec(), 3);
    assert_eq!(n.keys, vec![b"m".to_vec(), b"t".to_vec()]);
    assert_eq!(n.children, vec![1, 2, 3]);
    n.absorb(0, b"f".to_vec(), 4);
    assert_eq!(n.keys, vec![b"f".to_vec(), b"m".to_vec(), b"t".to_vec()]);
    assert_eq!(n.children, vec![1, 4, 2, 3]);
    assert!(n.overfull(2));
    let (up, right) = n.split();
    assert_eq!(up, b"m".to_vec());
    assert_eq!(n.keys, vec![b"f".to_vec(), b"m".to_vec()]);
    assert_eq!(n.children, vec![1, 4]);
    assert_eq!(right.keys, vec![b"t".to_vec()]);
    assert_eq!(right.children, vec![2, 3]);
}

#[test]
fn leaf_page_reads_back_as_the_same_leaf() {
    let leaf = leaf_of(&[("k1", "v1"), ("k2", "")], Some(9));
    let p = leaf_page(5, &leaf).ok().unwrap();
    assert_eq!(p.id, 5);
    assert_eq!(p.buf[8], 2);
    match read_node(&p.buf) {
        Ok(PageNode::Leaf(l)) => {
            assert_eq!(l.keys, leaf.keys);
            assert_eq!(l.vals, leaf.vals);
            assert_eq!(l.next, Some(9));
        },
        _ => panic!("expected a leaf"),
    }
}

#[test]
fn internal_page_reads_back_as_the_same_node() {
    let node = Internal::new_root(b"sep".to_vec(), 4, 8);
    let p = internal_page(2, &node).ok().unwrap();
    assert_eq!(p.buf[8], 1);
    match read_node(&p.buf) {
        Ok(PageNode::Internal(n)) => {
            assert_eq!(n.keys, vec![b"sep".to_vec()]);
            assert_eq!(n.children, vec![4, 8]);
        },
        _ => panic!("expected an internal node"),
    }
}

#[test]
fn meta_page_reads_back() {
    let p = meta_page(Page::new(0), &Meta { root: 7, order: 16 }).ok().unwrap();
    let m = read_meta(&p.buf).ok().unwrap();
    assert_eq!((m.root, m.order), (7, 16));
}

#[test]
fn oversized_leaf_is_refused() {
    let mut leaf = Leaf::empty();
    leaf.put(b"k".to_vec(), vec![0u8; 5000]);
    assert!(matches!(leaf_page(1, &leaf), Err(TreeError::LeafOverflow)));
}

#[test]
fn other_pages_read_as_no_node() {
    let p = Page::new(0);
    assert!(matches!(read_node(&p.buf), Ok(PageNode::Other)));
    let mut bad = Page::new(0);
    bad.buf[8] = 2;
    bad.set_payload_len(5000);
    assert!(matches!(read_node(&bad.buf), Err(TreeError::BadPayloadLength)));
    let mut junk = Page::new(0);
    junk.buf[8] = 1;
    junk.set_payload_len(3);
    assert!(matches!(read_node(&junk.buf), Err(TreeError::Decode)));
}

#[test]
fn get_steps_descend_then_answer() {
    let node = Internal::new_root(b"m".to_vec(), 1, 2);
    let ip = internal_page(0, &node).ok().unwrap();
    assert!(matches!(get_step(&ip.buf, b"a"), Ok(GetStep::Descend(1))));
    assert!(matches!(get_step(&ip.buf, b"m"), Ok(GetStep::Descend(2))));
    let leaf = leaf_of(&[("a", "1"), ("b", "")], None);
    let lp = leaf_page(1, &leaf).ok().unwrap();
    match get_step(&lp.buf, b"a") {
        Ok(GetStep::Done(Some(v))) => assert_eq!(v, b"1".to_vec()),
        _ => panic!("expected a value"),
    }
    assert!(matches!(get_step(&lp.buf, b"b"), Ok(GetStep::Done(None))));
    assert!(matches!(get_step(&lp.buf, b"c"), Ok(GetStep::Done(None))));
    assert!(matches!(get_step(&Page::new(0).buf, b"a"), Ok(GetStep::Done(None))));
}

#[test]
fn tree_creation_and_root_growth() {
    let (mut t, leaf, meta) = BPlusTree::create(0, 1, 2);
    assert_eq!((t.meta_id, t.root, t.order), (0, 1, 4));
    assert!(leaf.keys.is_empty() && leaf.next.is_none());
    assert_eq!((meta.root, meta.order), (1, 4));
    let n = t.grow_root(b"k".to_vec(), 2, 3);
    assert_eq!(n.keys, vec![b"k".to_vec()]);
    assert_eq!(n.children, vec![1, 2]);
    assert_eq!(t.root, 3);
    let m = t.meta();
    assert_eq!((m.root, m.order), (3, 4));
    let t2 = BPlusTree::from_meta(&Meta { root: 5, order: 8 });
    assert_eq!((t2.meta_id, t2.root, t2.order), (0, 5, 8));
}

#[test]
fn leaf_insert_step_writes_back_until_the_leaf_grows_past_order() {
    let mut leaf = Leaf::empty();
    for (k, v) in [("a", "1"), ("b", "2"), ("c", "3"), ("d", "4")] {
        leaf = match leaf_insert_step(leaf, k.as_bytes().to_vec(), v.as_bytes().to_vec(), 4) {
            NodeStep::Write(l) => l,
            NodeStep::Overfull(_) => panic!("four keys fit an order-4 leaf"),
        };
    }
    // replacing a value never overfills
    leaf = match leaf_insert_step(leaf, b"a".to_vec(), b"9".to_vec(), 4) {
        NodeStep::Write(l) => l,
        NodeStep::Overfull(_) => panic!("a replaced value keeps the size"),
    };
    assert_eq!(leaf.vals[0], b"9".to_vec());
    match leaf_insert_step(leaf, b"e".to_vec(), b"5".to_vec(), 4) {
        NodeStep::Overfull(l) => assert_eq!(l.keys.len(), 5),
        NodeStep::Write(_) => panic!("a fifth key overfills an order-4 leaf"),
    }
}

#[test]
fn leaf_split_step_gives_both_pages() {
    let leaf = leaf_of(&[("a", "1"), ("b", "2"), ("c", "3"), ("d", "4"), ("e", "5")], None);
    let (sep, lp, rp) = leaf_split_step(1, leaf, 7);
    assert_eq!(sep, b"c".to_vec());
    match read_node(&lp.ok().unwrap().buf) {
        Ok(PageNode::Leaf(l)) => {
            assert_eq!(l.keys, vec![b"a".to_vec(), b"b".to_vec()]);
            assert_eq!(l.next, Some(7));
        },
        _ => panic!("expected a leaf"),
    }
    match read_node(&rp.ok().unwrap().buf) {
        Ok(PageNode::Leaf(l)) => {
            assert_eq!(l.keys, vec![b"c".to_vec(), b"d".to_vec(), b"e".to_vec()]);
            assert_eq!(l.next, None);
        },
        _ => panic!("expected a leaf"),
    }
}

#[test]
fn internal_steps_absorb_and_split() {
    let n = Internal::new_root(b"m".to_vec(), 1, 2);
    let n = match internal_insert_step(n, 1, b"t".to_vec(), 3, 2) {
        NodeStep::Write(n) => n,
        NodeStep::Overfull(_) => panic!("two separators fit order 2"),
    };
    let n = match internal_insert_step(n, 0, b"f".to_vec(), 4, 2) {
        NodeStep::Overfull(n) => n,
        NodeStep::Write(_) => panic!("three separators overfill order 2"),
    };
    let (up, lp, rp) = internal_split_step(0, n, 9);
    assert_eq!(up, b"m".to_vec());
    match read_node(&lp.ok().unwrap().buf) {
        Ok(PageNode::Internal(l)) => assert_eq!(l.children, vec![1, 4]),
        _ => panic!("expected an internal node"),
    }
    match read_node(&rp.ok().unwrap().buf) {
        Ok(PageNode::Internal(r)) => {
            assert_eq!(r.keys, vec![b"t".to_vec()]);
            assert_eq!(r.children, vec![2, 3]);
        },
        _ => panic!("expected an internal node"),
    }
}

#[test]
fn put_tolerates_keys_out_of_order() {
    let mut l = Leaf { keys: vec![b"b".to_vec(), b"a".to_vec()], vals: vec![b"1".to_vec(), b"2".to_vec()], next: None };
    l.put(b"c".to_vec(), b"3".to_vec());
    assert_eq!(l.keys.len(), 3);
    assert_eq!(l.vals.len(), 3);
}

#[test]
fn page_payload_lengths_follow_the_encoding() {
    // an empty leaf: two empty vectors (8 bytes each) and no next link (1 byte)
    let p = leaf_page(1, &Leaf::empty()).ok().unwrap();
    assert_eq!(p.payload_len(), 17);
    // one key "ab" with value "x" and a next link:
    // keys 8 + (8 + 2), values 8 + (8 + 1), link 1 + 8
    let mut l = Leaf::empty();
    l.put(b"ab".to_vec(), b"x".to_vec());
    l.next = Some(3);
    let p = leaf_page(1, &l).ok().unwrap();
    assert_eq!(p.payload_len(), 18 + 17 + 9);
    // an internal node with one separator "m" and two children: 8 + 9, 8 + 16
    let p = internal_page(1, &Internal::new_root(b"m".to_vec(), 1, 2)).ok().unwrap();
    assert_eq!(p.payload_len(), 17 + 24);
    // metadata: two eight-byte numbers
    let p = meta_page(Page::new(0), &Meta { root: 1, order: 4 }).ok().unwrap();
    assert_eq!(p.payload_len(), 16);
}
