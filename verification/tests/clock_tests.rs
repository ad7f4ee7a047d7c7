use causal_relay::clock::Clock;
use causal_relay::dedup::DedupStore;

fn key(s: &str) -> String {
    s.to_string()
}

#[test]
fn new_clock_holds_local_zero() {
    let c = Clock::new(key("A"));
    assert_eq!(c.len(), 1);
    assert_eq!(c.get(&key("A")), Some(0));
    assert_eq!(c.get(&key("B")), None);
}

#[test]
fn set_inserts_and_overwrites() {
    let mut c = Clock::empty();
    c.set(key("A"), 1);
    c.set(key("B"), 4);
    assert_eq!(c.get(&key("A")), Some(1));
    assert_eq!(c.get(&key("B")), Some(4));
    c.set(key("A"), 9);
    assert_eq!(c.get(&key("A")), Some(9));
    assert_eq!(c.len(), 2);
}

#[test]
fn merge_is_pointwise_max() {
    let mut a = Clock::empty();
    a.set(key("A"), 3);
    a.set(key("B"), 1);
    let mut b = Clock::empty();
    b.set(key("B"), 5);
    b.set(key("C"), 2);
    a.merge(&b);
    assert_eq!(a.get(&key("A")), Some(3));
    assert_eq!(a.get(&key("B")), Some(5));
    assert_eq!(a.get(&key("C")), Some(2));
    assert_eq!(a.len(), 3);
}

#[test]
fn merge_keeps_newer_local_times() {
    let mut a = Clock::empty();
    a.set(key("A"), 7);
    let mut b = Clock::empty();
    b.set(key("A"), 2);
    a.merge(&b);
    assert_eq!(a.get(&key("A")), Some(7));
    assert_eq!(a.len(), 1);
}

#[test]
fn merge_is_commutative_as_maps() {
    let mut a1 = Clock::empty();
    a1.set(key("A"), 3);
    a1.set(key("B"), 1);
    let mut b1 = Clock::empty();
    b1.set(key("B"), 5);
    b1.set(key("C"), 2);
    let mut left = a1.snapshot();
    left.merge(&b1);
    let mut right = b1.snapshot();
    right.merge(&a1);
    for k in ["A", "B", "C"] {
        assert_eq!(left.get(&key(k)), right.get(&key(k)));
    }
    assert_eq!(left.len(), right.len());
}

#[test]
fn merge_is_idempotent() {
    let mut a = Clock::empty();
    a.set(key("A"), 3);
    let mut b = Clock::empty();
    b.set(key("B"), 5);
    let mut once = a.snapshot();
    once.merge(&b);
    let mut twice = once.snapshot();
    twice.merge(&b);
    for k in ["A", "B"] {
        assert_eq!(twice.get(&key(k)), once.get(&key(k)));
    }
    assert_eq!(twice.len(), once.len());
}

#[test]
fn mark_seen_admits_each_id_once() {
    let mut d = DedupStore::new();
    assert!(d.mark_seen(17));
    assert!(!d.mark_seen(17));
    assert!(!d.mark_seen(17));
    assert!(d.mark_seen(18));
    assert!(!d.mark_seen(18));
}
