use shortener::models::{LinkRecord, Timestamp};
use shortener::store::b_plus_tree::{ns_link_v1, ns_link_v2, BpTree};
use shortener::store::bptree::bpstore::{hits_from, live_value, next_hits, ns_hit, ns_link, replayed_value, unexpired};
use shortener::store::bptree::wal::Operation;
use shortener::store::bytes_util::prefixed;
use shortener::store::keys::{compare_keys, search_keys, KeyOrder};
use shortener::text::{chars_of, string_of};

#[test]
fn link_and_hit_keys() {
    assert_eq!(ns_link("abc"), b"L:abc".to_vec());
    assert_eq!(ns_hit("abc"), b"H:abc".to_vec());
    assert_eq!(ns_link_v1("x"), b"L:x".to_vec());
    assert_eq!(ns_link_v2("x"), b"L:x".to_vec());
    assert_eq!(ns_link_v1("é"), vec![b'L', b':', 0xC3, 0xA9]);
    assert_eq!(prefixed(b"P", ""), b"P".to_vec());
}

#[test]
fn hit_counter_values() {
    assert_eq!(hits_from(&None), 0);
    assert_eq!(hits_from(&Some(vec![])), 0);
    assert_eq!(hits_from(&Some(vec![5, 0, 0, 0, 0, 0, 0, 0])), 5);
    assert_eq!(hits_from(&Some(vec![1, 1, 0, 0, 0, 0, 0, 0, 99])), 257);
    assert_eq!(next_hits(0), vec![1, 0, 0, 0, 0, 0, 0, 0]);
    assert_eq!(next_hits(255), vec![0, 1, 0, 0, 0, 0, 0, 0]);
    assert_eq!(hits_from(&Some(next_hits(41))), 42);
}

#[test]
fn replay_values_and_live_values() {
    assert_eq!(replayed_value(Operation::Insert, vec![1, 2]), vec![1, 2]);
    assert_eq!(replayed_value(Operation::Delete, vec![1, 2]), Vec::<u8>::new());
    assert_eq!(live_value(None), None);
    assert_eq!(live_value(Some(vec![])), None);
    assert_eq!(live_value(Some(vec![7])), Some(vec![7]));
}

#[test]
fn expired_links_are_not_returned() {
    let rec = |e: Option<Timestamp>| LinkRecord {
        id: "a".to_string(),
        target: "https://a.example".to_string(),
        created_at: Timestamp { secs: 0, nanos: 0 },
        expires_at: e,
    };
    let now = Timestamp { secs: 50, nanos: 0 };
    assert_eq!(unexpired(rec(None), now), Some(rec(None)));
    assert_eq!(unexpired(rec(Some(Timestamp { secs: 60, nanos: 0 })), now), Some(rec(Some(Timestamp { secs: 60, nanos: 0 }))));
    assert_eq!(unexpired(rec(Some(Timestamp { secs: 50, nanos: 0 })), now), None);
}

#[test]
fn new_tree_is_empty_and_insert_leaves_it_so() {
    let mut t = BpTree::new(2);
    assert_eq!(t.order, 4);
    assert_eq!(t.root, 0);
    assert_eq!(t.get(b"a"), None);
    t.insert(b"a".to_vec(), b"1".to_vec());
    assert_eq!(t.get(b"a"), None);
    assert_eq!(BpTree::new(10).order, 10);
}

#[test]
fn byte_string_order() {
    assert_eq!(compare_keys(b"a", b"b"), KeyOrder::Less);
    assert_eq!(compare_keys(b"b", b"a"), KeyOrder::Greater);
    assert_eq!(compare_keys(b"ab", b"ab"), KeyOrder::Equal);
    assert_eq!(compare_keys(b"a", b"ab"), KeyOrder::Less);
    assert_eq!(compare_keys(b"", b""), KeyOrder::Equal);
}

#[test]
fn search_finds_keys_or_their_place() {
    let keys = vec![b"b".to_vec(), b"d".to_vec(), b"f".to_vec()];
    assert_eq!(search_keys(&keys, b"d"), Ok(1));
    assert_eq!(search_keys(&keys, b"a"), Err(0));
    assert_eq!(search_keys(&keys, b"c"), Err(1));
    assert_eq!(search_keys(&keys, b"g"), Err(3));
    assert_eq!(search_keys(&Vec::new(), b"g"), Err(0));
}

#[test]
fn characters_round_trip() {
    assert_eq!(chars_of("héllo"), vec!['h', 'é', 'l', 'l', 'o']);
    assert_eq!(string_of(&['a', 'ü']), "aü");
    assert_eq!(string_of(&[]), "");
}
