use shortener::models::{LinkRecord, Timestamp};
use shortener::store::memory::MemoryStore;

fn record(id: &str, target: &str) -> LinkRecord {
    LinkRecord {
        id: id.to_string(),
        target: target.to_string(),
        created_at: Timestamp { secs: 1_700_000_000, nanos: 0 },
        expires_at: None,
    }
}

#[test]
fn get_after_put_returns_the_record() {
    let mut s = MemoryStore::new();
    s.put(record("abc", "https://a.example"));
    assert_eq!(s.get("abc"), Some(record("abc", "https://a.example")));
    assert_eq!(s.get("abd"), None);
}

#[test]
fn put_replaces_the_record_under_the_same_id() {
    let mut s = MemoryStore::new();
    s.put(record("abc", "https://a.example"));
    s.put(record("xyz", "https://x.example"));
    s.put(record("abc", "https://b.example"));
    assert_eq!(s.get("abc").map(|r| r.target), Some("https://b.example".to_string()));
    assert_eq!(s.get("xyz").map(|r| r.target), Some("https://x.example".to_string()));
}

#[test]
fn delete_removes_only_that_link() {
    let mut s = MemoryStore::new();
    s.put(record("a", "https://a.example"));
    s.put(record("b", "https://b.example"));
    s.delete("a");
    assert_eq!(s.get("a"), None);
    assert_eq!(s.get("b"), Some(record("b", "https://b.example")));
    s.delete("missing");
    assert_eq!(s.get("b"), Some(record("b", "https://b.example")));
}

#[test]
fn hits_count_from_zero() {
    let mut s = MemoryStore::new();
    assert_eq!(s.get_hits("a"), 0);
    s.incr_hit("a");
    assert_eq!(s.get_hits("a"), 1);
    s.incr_hit("a");
    s.incr_hit("b");
    assert_eq!(s.get_hits("a"), 2);
    assert_eq!(s.get_hits("b"), 1);
}

#[test]
fn hits_outlive_delete_and_put() {
    let mut s = MemoryStore::new();
    s.put(record("a", "https://a.example"));
    s.incr_hit("a");
    s.delete("a");
    assert_eq!(s.get_hits("a"), 1);
    s.put(record("a", "https://c.example"));
    assert_eq!(s.get_hits("a"), 1);
}

#[test]
fn expiry_is_reached_at_the_expiry_time() {
    let mut r = record("a", "https://a.example");
    let t = Timestamp { secs: 100, nanos: 5 };
    assert!(!r.is_expired(t));
    r.expires_at = Some(Timestamp { secs: 100, nanos: 5 });
    assert!(r.is_expired(t));
    assert!(r.is_expired(Timestamp { secs: 101, nanos: 0 }));
    assert!(!r.is_expired(Timestamp { secs: 100, nanos: 4 }));
    assert!(!r.is_expired(Timestamp { secs: 99, nanos: 999_999_999 }));
    assert_eq!(r.duplicate(), r);
}
