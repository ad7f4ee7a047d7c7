use causal_relay::clock::Clock;
use causal_relay::events::{AppEvent, Event};
use causal_relay::msg::{Header, Msg};
use causal_relay::server::{write_failure_notice, Server};

fn key(s: &str) -> String {
    s.to_string()
}

#[test]
fn new_server_starts_at_zero() {
    let s = Server::new(key("A"));
    assert_eq!(s.get_date(), 0);
    let c = s.clock_snapshot();
    assert_eq!(c.len(), 1);
    assert_eq!(c.get(&key("A")), Some(0));
}

#[test]
fn increment_clock_ticks_local_entry() {
    let mut s = Server::new(key("A"));
    s.increment_clock();
    s.increment_clock();
    assert_eq!(s.get_date(), 2);
}

#[test]
fn receive_message_merges_and_stamps() {
    let mut s = Server::new(key("A"));
    s.increment_clock();
    let mut remote = Clock::empty();
    remote.set(key("B"), 5);
    let mut m = Msg::new(9, key("B"), Header::Public("hi".to_string()), remote);
    s.receive_message(&mut m);
    assert_eq!(m.clock.get(&key("A")), Some(1));
    assert_eq!(m.clock.get(&key("B")), Some(5));
    assert_eq!(s.get_date(), 1);
}

// Local peer "A" with clock {A:0} receives a remote public envelope from
// "B" carrying clock {B:5}: afterwards the local clock is {A:1, B:5},
// the relayed envelope carries {A:1, B:5}, and "hi" is delivered.
#[test]
fn remote_public_envelope_scenario() {
    let mut s = Server::new(key("A"));
    let mut remote = Clock::empty();
    remote.set(key("B"), 5);
    let m = Msg::new(42, key("B"), Header::Public("hi".to_string()), remote);
    let line = m.serialize();
    let step = s.step_with_id(Event::DistantInput(line), 0);

    let local = s.clock_snapshot();
    assert_eq!(local.get(&key("A")), Some(1));
    assert_eq!(local.get(&key("B")), Some(5));
    assert_eq!(local.len(), 2);

    let relayed = step.relay.expect("a novel envelope is relayed");
    assert_eq!(relayed.id, 42);
    assert_eq!(relayed.sender, "B");
    assert_eq!(relayed.clock.get(&key("A")), Some(1));
    assert_eq!(relayed.clock.get(&key("B")), Some(5));

    match step.app.expect("a public envelope is delivered") {
        AppEvent::DistantMessage(d) => match &d.header {
            Header::Public(t) => assert_eq!(t, "hi"),
            _ => panic!("wrong payload kind"),
        },
        _ => panic!("wrong application event"),
    }
    assert!(!step.stop);
}

// Processing the same remote envelope twice: the second application is
// a no-op with no relay, no delivery, and no clock change.
#[test]
fn duplicate_remote_envelope_is_ignored() {
    let mut s = Server::new(key("A"));
    let mut remote = Clock::empty();
    remote.set(key("B"), 5);
    let m = Msg::new(42, key("B"), Header::Public("hi".to_string()), remote);
    let line = m.serialize();
    let first = s.step_with_id(Event::DistantInput(line.clone()), 0);
    assert!(first.relay.is_some());
    assert_eq!(s.get_date(), 1);

    let second = s.step_with_id(Event::DistantInput(line), 0);
    assert!(second.relay.is_none());
    assert!(second.app.is_none());
    assert!(!second.stop);
    assert_eq!(s.get_date(), 1);
    assert_eq!(s.clock_snapshot().len(), 2);
}

// A private envelope for another peer is relayed but never delivered;
// one addressed to this peer is delivered exactly once.
#[test]
fn private_envelope_delivery_depends_on_target() {
    let mut s = Server::new(key("A"));
    let for_c = Msg::new(
        1,
        key("B"),
        Header::Private(key("C"), "psst".to_string()),
        Clock::empty(),
    );
    let step = s.step_with_id(Event::DistantInput(for_c.serialize()), 0);
    assert!(step.relay.is_some());
    assert!(step.app.is_none());

    let for_a = Msg::new(
        2,
        key("B"),
        Header::Private(key("A"), "psst".to_string()),
        Clock::empty(),
    );
    let step = s.step_with_id(Event::DistantInput(for_a.serialize()), 0);
    assert!(step.relay.is_some());
    match step.app.expect("a private envelope for this peer is delivered") {
        AppEvent::DistantMessage(d) => match &d.header {
            Header::Private(p, t) => {
                assert_eq!(p, "A");
                assert_eq!(t, "psst");
            },
            _ => panic!("wrong payload kind"),
        },
        _ => panic!("wrong application event"),
    }
}

#[test]
fn undecodable_line_is_discarded() {
    let mut s = Server::new(key("A"));
    let step = s.step_with_id(Event::DistantInput("not a message".to_string()), 0);
    assert!(step.relay.is_none());
    assert!(step.app.is_none());
    assert!(!step.stop);
    assert_eq!(s.get_date(), 0);
}

#[test]
fn public_send_relays_without_local_delivery() {
    let mut s = Server::new(key("A"));
    let step = s.step_with_id(Event::UserPublicMessage("hello".to_string()), 7);
    let m = step.relay.expect("a send is relayed");
    assert_eq!(m.id, 7);
    assert_eq!(m.sender, "A");
    match &m.header {
        Header::Public(t) => assert_eq!(t, "hello"),
        _ => panic!("wrong payload kind"),
    }
    assert_eq!(m.clock.get(&key("A")), Some(1));
    assert!(step.app.is_none());
    assert!(!step.stop);
}

// Local peer "A" sends SendPrivate("C", "secret"): the envelope carries
// sender "A", payload Private("C", "secret") and clock {A:1}; nothing is
// delivered locally.
#[test]
fn private_send_scenario() {
    let mut s = Server::new(key("A"));
    let step = s.step_with_id(
        Event::UserPrivateMessage(key("C"), "secret".to_string()),
        9,
    );
    let m = step.relay.expect("a send is relayed");
    assert_eq!(m.sender, "A");
    match &m.header {
        Header::Private(p, t) => {
            assert_eq!(p, "C");
            assert_eq!(t, "secret");
        },
        _ => panic!("wrong payload kind"),
    }
    assert_eq!(m.clock.get(&key("A")), Some(1));
    assert_eq!(m.clock.len(), 1);
    assert!(step.app.is_none());
    assert!(!step.stop);
}

#[test]
fn own_send_echoed_back_is_ignored() {
    let mut s = Server::new(key("A"));
    let step = s.step(Event::UserPublicMessage("hello".to_string()));
    let m = step.relay.expect("a send is relayed");
    // the flood echoes our own envelope back to us
    let echo = s.step(Event::DistantInput(m.serialize()));
    assert!(echo.relay.is_none());
    assert!(echo.app.is_none());
    assert_eq!(s.get_date(), 1);
}

#[test]
fn query_clock_returns_snapshot() {
    let mut s = Server::new(key("A"));
    s.increment_clock();
    let step = s.step_with_id(Event::GetClock, 0);
    assert!(step.relay.is_none());
    assert!(!step.stop);
    match step.app.expect("a clock query is answered") {
        AppEvent::Clock(c) => {
            assert_eq!(c.get(&key("A")), Some(1));
            assert_eq!(c.len(), 1);
        },
        _ => panic!("wrong application event"),
    }
    // the query itself does not tick the clock
    assert_eq!(s.get_date(), 1);
}

// Shutdown relays exactly one departure notice and stops the loop,
// whatever was processed before.
#[test]
fn shutdown_sends_departure_notice_and_stops() {
    let mut s = Server::new(key("A"));
    let _ = s.step_with_id(Event::UserPublicMessage("one".to_string()), 1);
    let _ = s.step_with_id(Event::UserPublicMessage("two".to_string()), 2);
    let step = s.step_with_id(Event::Shutdown, 3);
    let m = step.relay.expect("the departure notice is relayed");
    assert_eq!(m.sender, "A");
    match &m.header {
        Header::Public(t) => assert_eq!(t, "left the chat"),
        _ => panic!("wrong payload kind"),
    }
    assert_eq!(m.clock.get(&key("A")), Some(3));
    assert!(step.app.is_none());
    assert!(step.stop);
}

// Three peers flooding: A sends, B relays to C, and the copy that comes
// back to C straight from A is suppressed by the dedup gate.
#[test]
fn three_peer_flood() {
    let mut a = Server::new(key("A"));
    let mut b = Server::new(key("B"));
    let mut c = Server::new(key("C"));

    let sent = a.step_with_id(Event::UserPublicMessage("hi all".to_string()), 100);
    let a_line = sent.relay.expect("a send is relayed").serialize();

    let at_b = b.step_with_id(Event::DistantInput(a_line.clone()), 0);
    assert!(at_b.app.is_some());
    let b_line = at_b.relay.expect("b relays the novel envelope").serialize();

    let at_c = c.step_with_id(Event::DistantInput(b_line), 0);
    assert!(at_c.app.is_some());
    let relayed = at_c.relay.expect("c relays the novel envelope");
    assert_eq!(relayed.id, 100);
    assert_eq!(relayed.sender, "A");
    assert_eq!(relayed.clock.get(&key("A")), Some(1));
    assert_eq!(relayed.clock.get(&key("B")), Some(1));
    assert_eq!(relayed.clock.get(&key("C")), Some(1));

    // the same envelope arriving at C again, straight from A
    let dup_at_c = c.step_with_id(Event::DistantInput(a_line), 0);
    assert!(dup_at_c.relay.is_none());
    assert!(dup_at_c.app.is_none());
    assert_eq!(c.get_date(), 1);
}

#[test]
fn write_failure_notice_text() {
    assert_eq!(write_failure_notice(), "No one can hear you");
}
