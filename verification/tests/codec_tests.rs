use causal_relay::clock::Clock;
use causal_relay::msg::{Header, Msg};

fn key(s: &str) -> String {
    s.to_string()
}

#[test]
fn serialize_exact_public() {
    let mut c = Clock::empty();
    c.set(key("B"), 7);
    let m = Msg::new(5, key("A"), Header::Public("hi".to_string()), c);
    assert_eq!(m.serialize(), "5;1;AP2;hi1;1;B7;");
}

#[test]
fn serialize_exact_private_empty_clock() {
    let m = Msg::new(0, key("A"), Header::Private(key("C"), "secret".to_string()), Clock::empty());
    assert_eq!(m.serialize(), "0;1;AQ1;C6;secret0;");
}

#[test]
fn decode_exact_public() {
    let m = Msg::from_str("5;1;AP2;hi1;1;B7;").unwrap();
    assert_eq!(m.id, 5);
    assert_eq!(m.sender, "A");
    match &m.header {
        Header::Public(t) => assert_eq!(t, "hi"),
        _ => panic!("wrong payload kind"),
    }
    assert_eq!(m.clock.len(), 1);
    assert_eq!(m.clock.get(&key("B")), Some(7));
}

#[test]
fn round_trip_public() {
    let mut c = Clock::empty();
    c.set(key("A"), 1);
    c.set(key("B"), 5);
    let m = Msg::new(42, key("A"), Header::Public("hi".to_string()), c);
    let line = m.serialize();
    let d = Msg::from_str(&line).unwrap();
    assert_eq!(d.id, 42);
    assert_eq!(d.sender, "A");
    match &d.header {
        Header::Public(t) => assert_eq!(t, "hi"),
        _ => panic!("wrong payload kind"),
    }
    assert_eq!(d.clock.get(&key("A")), Some(1));
    assert_eq!(d.clock.get(&key("B")), Some(5));
    assert_eq!(d.serialize(), line);
}

#[test]
fn round_trip_private_unicode() {
    let mut c = Clock::empty();
    c.set(key("p€er"), u64::MAX);
    let m = Msg::new(
        u64::MAX,
        key("émile"),
        Header::Private(key("p€er"), "héllo; 12:34 ✓".to_string()),
        c,
    );
    let line = m.serialize();
    let d = Msg::from_str(&line).unwrap();
    assert_eq!(d.id, u64::MAX);
    assert_eq!(d.sender, "émile");
    match &d.header {
        Header::Private(p, t) => {
            assert_eq!(p, "p€er");
            assert_eq!(t, "héllo; 12:34 ✓");
        },
        _ => panic!("wrong payload kind"),
    }
    assert_eq!(d.clock.get(&key("p€er")), Some(u64::MAX));
    assert_eq!(d.serialize(), line);
}

#[test]
fn round_trip_empty_text() {
    let m = Msg::new(1, key(""), Header::Public(String::new()), Clock::empty());
    let line = m.serialize();
    assert_eq!(line, "1;0;P0;0;");
    let d = Msg::from_str(&line).unwrap();
    assert_eq!(d.sender, "");
    match &d.header {
        Header::Public(t) => assert_eq!(t, ""),
        _ => panic!("wrong payload kind"),
    }
    assert_eq!(d.serialize(), line);
}

#[test]
fn decode_rejects_malformed_lines() {
    assert!(Msg::from_str("").is_err());
    assert!(Msg::from_str("garbage").is_err());
    assert!(Msg::from_str("5").is_err());
    // leading zero in a number
    assert!(Msg::from_str("05;1;AP2;hi0;").is_err());
    // text shorter than its announced length
    assert!(Msg::from_str("5;9;AP2;hi0;").is_err());
    // unknown payload tag
    assert!(Msg::from_str("5;1;AX2;hi0;").is_err());
    // clock announces more entries than it carries
    assert!(Msg::from_str("5;1;AP2;hi2;1;B7;").is_err());
    // trailing characters after a complete envelope
    assert!(Msg::from_str("5;1;AP2;hi1;1;B7;junk").is_err());
    // an id beyond u64
    assert!(Msg::from_str("99999999999999999999999;1;AP2;hi0;").is_err());
}

#[test]
fn decode_rejects_duplicate_clock_keys() {
    // two entries for peer A
    assert!(Msg::from_str("5;1;AP2;hi2;1;A3;1;A4;").is_err());
    // the same wire shape with distinct keys is accepted
    let d = Msg::from_str("5;1;AP2;hi2;1;A3;1;B4;").unwrap();
    assert_eq!(d.clock.get(&key("A")), Some(3));
    assert_eq!(d.clock.get(&key("B")), Some(4));
}
