use vstd::prelude::*;

use crate::clock::{
    advanced, as_map, distinct_keys, merge_entries, AppId, Clock, ClockEntries, Date,
};
use crate::codec::spec_decode;
use crate::dedup::DedupStore;
use crate::events::{AppEvent, Event};
use crate::msg::{Header, HeaderV, Msg, MsgId, MsgV};

verus! {

/// Relies on rand::random: one draw of the thread-local generator.
/// Nothing is promised of the value: every caller must work for every
/// outcome.
#[verifier::external_body]
fn gen_msg_id() -> MsgId {
    rand::random::<u64>()
}

/// The dispatcher's whole state: the local peer's id, its vector clock,
/// and the ids of every message already processed.  Exclusively owned;
/// each transition goes through `step` or `step_with_id`.
pub struct Server {
    app_id: AppId,
    clock: Clock,
    sent_messages_ids: DedupStore,
}

/// What one dispatcher step asks its surroundings to do: at most one
/// envelope to relay over the transport, at most one event for the local
/// application, and whether the loop is over.
pub struct Step {
    pub relay: Option<Msg>,
    pub app: Option<AppEvent>,
    pub stop: bool,
}

impl Server {
    /// The local peer's id.
    pub closed spec fn spec_app_id(&self) -> Seq<char> {
        self.app_id@
    }

    /// The clock's entries.
    pub closed spec fn spec_clock(&self) -> ClockEntries {
        self.clock@
    }

    /// The set of message ids already processed.
    pub closed spec fn spec_seen(&self) -> Set<MsgId> {
        self.sent_messages_ids@
    }

    /// The clock read as a map from peer id to logical time.
    pub open spec fn clock_map(&self) -> Map<Seq<char>, u64> {
        as_map(self.spec_clock())
    }

    /// The state invariant: clock keys are distinct, and the clock
    /// always holds an entry for the local peer.
    pub open spec fn wf(&self) -> bool {
        &&& distinct_keys(self.spec_clock())
        &&& self.clock_map().contains_key(self.spec_app_id())
    }

    /// Whether the local time still has room to tick.
    pub open spec fn can_advance(&self) -> bool {
        self.clock_map()[self.spec_app_id()] < u64::MAX
    }

    /// A fresh node: clock `{app_id: 0}`, nothing seen yet.
    pub fn new(app_id: AppId) -> (s: Server)
        ensures
            s.wf(),
            s.spec_app_id() == app_id@,
            s.spec_clock() == seq![(app_id@, 0u64)],
            s.clock_map() == Map::<Seq<char>, u64>::empty().insert(app_id@, 0),
            s.spec_seen() == Set::<MsgId>::empty(),
    {
        let clock = Clock::new(app_id.clone());
        let s = Server { app_id, clock, sent_messages_ids: DedupStore::new() };
        proof {
            crate::clock::lemma_as_map_entries(s.spec_clock());
            assert(s.spec_clock()[0].0 == s.spec_app_id());
        }
        s
    }

    /// The local peer's own logical time.  By the state invariant the
    /// entry is always there.
    pub fn get_date(&self) -> (d: Date)
        requires
            self.wf(),
        ensures
            d == self.clock_map()[self.spec_app_id()],
    {
        match self.clock.get(&self.app_id) {
            Some(t) => t,
            None => 0,
        }
    }

    /// A snapshot of the current clock, for the application.
    pub fn clock_snapshot(&self) -> (c: Clock)
        ensures
            c@ == self.spec_clock(),
    {
        self.clock.snapshot()
    }

    /// Tick the local peer's clock entry by one; a first tick registers
    /// time 1.
    pub fn increment_clock(&mut self)
        requires
            old(self).wf(),
            old(self).can_advance(),
        ensures
            final(self).wf(),
            final(self).spec_app_id() == old(self).spec_app_id(),
            final(self).spec_seen() == old(self).spec_seen(),
            final(self).spec_clock() == advanced(old(self).spec_clock(), old(self).spec_app_id()),
    {
        let ghost pre: ClockEntries = self.clock@;
        let ghost gk: Seq<char> = self.app_id@;
        let t = match self.clock.get(&self.app_id) {
            Some(t) => t + 1,
            None => 1,
        };
        let k = self.app_id.clone();
        self.clock.set(k, t);
        proof {
            crate::clock::lemma_set_entry(pre, gk, t);
        }
    }

    /// Fold a freshly-admitted remote envelope's clock into ours, then
    /// stamp the envelope with the merged clock, so that what is relayed
    /// carries the receiver's post-merge causal history.
    pub fn receive_message(&mut self, msg: &mut Msg)
        requires
            old(self).wf(),
            old(msg).wf(),
        ensures
            final(self).wf(),
            final(self).spec_app_id() == old(self).spec_app_id(),
            final(self).spec_seen() == old(self).spec_seen(),
            final(self).spec_clock() == merge_entries(old(self).spec_clock(), old(msg)@.clock),
            final(msg)@ == (MsgV {
                id: old(msg)@.id,
                sender: old(msg)@.sender,
                header: old(msg)@.header,
                clock: final(self).spec_clock(),
            }),
            final(msg).wf(),
    {
        self.clock.merge(&msg.clock);
        msg.clock = self.clock.snapshot();
        proof {
            crate::clock::lemma_merge_entries_as_map(old(self).spec_clock(), old(msg)@.clock);
        }
    }
}

/// How one send-shaped step reads (a user send, or the shutdown
/// departure notice): the fresh id is recorded as seen, the clock ticks,
/// and the new envelope goes out under the local peer's name with the
/// post-tick clock.  Nothing is delivered locally: the application
/// already has the text.
pub open spec fn step_rel_send(
    pre: Server,
    id: MsgId,
    hv: HeaderV,
    post: Server,
    r: Step,
    stop: bool,
) -> bool {
    &&& post.spec_app_id() == pre.spec_app_id()
    &&& post.spec_seen() == pre.spec_seen().insert(id)
    &&& post.spec_clock() == advanced(pre.spec_clock(), pre.spec_app_id())
    &&& r.relay matches Some(m) && m@ == (MsgV {
        id,
        sender: pre.spec_app_id(),
        header: hv,
        clock: post.spec_clock(),
    })
    &&& r.app is None
    &&& r.stop == stop
}

/// How a remote line is handled: an undecodable or already-seen line
/// changes nothing; a fresh envelope is recorded, the clock ticks and
/// merges, the restamped envelope is relayed unconditionally, and it is
/// delivered locally exactly when it is public or privately addressed to
/// this peer.
pub open spec fn step_rel_remote(pre: Server, line: Seq<char>, post: Server, r: Step) -> bool {
    match spec_decode(line) {
        None => {
            &&& post.spec_app_id() == pre.spec_app_id()
            &&& post.spec_seen() == pre.spec_seen()
            &&& post.spec_clock() == pre.spec_clock()
            &&& r.relay is None
            &&& r.app is None
            &&& !r.stop
        },
        Some(mv) => if pre.spec_seen().contains(mv.id) {
            &&& post.spec_app_id() == pre.spec_app_id()
            &&& post.spec_seen() == pre.spec_seen()
            &&& post.spec_clock() == pre.spec_clock()
            &&& r.relay is None
            &&& r.app is None
            &&& !r.stop
        } else {
            let stamped = MsgV {
                id: mv.id,
                sender: mv.sender,
                header: mv.header,
                clock: merge_entries(
                    advanced(pre.spec_clock(), pre.spec_app_id()),
                    mv.clock,
                ),
            };
            &&& post.spec_app_id() == pre.spec_app_id()
            &&& post.spec_seen() == pre.spec_seen().insert(mv.id)
            &&& post.spec_clock() == stamped.clock
            &&& r.relay matches Some(m) && m@ == stamped
            &&& !r.stop
            &&& match mv.header {
                HeaderV::Public(_) => r.app matches Some(AppEvent::DistantMessage(d)) && d@
                    == stamped,
                HeaderV::Private(tgt, _) => if tgt == pre.spec_app_id() {
                    r.app matches Some(AppEvent::DistantMessage(d)) && d@ == stamped
                } else {
                    r.app is None
                },
            }
        },
    }
}

/// How one dispatcher step reads, from the state before, the event, and
/// the id drawn for any fresh envelope, to the state after and the
/// outward `Step`.  This relation is the whole protocol.
pub open spec fn step_rel(pre: Server, ev: Event, id: MsgId, post: Server, r: Step) -> bool {
    match ev {
        Event::DistantInput(line) => step_rel_remote(pre, line@, post, r),
        Event::UserPublicMessage(text) => step_rel_send(
            pre,
            id,
            HeaderV::Public(text@),
            post,
            r,
            false,
        ),
        Event::UserPrivateMessage(target, text) => step_rel_send(
            pre,
            id,
            HeaderV::Private(target@, text@),
            post,
            r,
            false,
        ),
        Event::GetClock => {
            &&& post.spec_app_id() == pre.spec_app_id()
            &&& post.spec_seen() == pre.spec_seen()
            &&& post.spec_clock() == pre.spec_clock()
            &&& r.relay is None
            &&& r.app matches Some(AppEvent::Clock(c)) && c@ == pre.spec_clock()
            &&& !r.stop
        },
        Event::Shutdown => step_rel_send(
            pre,
            id,
            HeaderV::Public("left the chat"@),
            post,
            r,
            true,
        ),
    }
}

/// When a step may run: the clock must have room to tick exactly on the
/// paths that tick it, a machine limit on the 64-bit time.
pub open spec fn step_enabled(pre: Server, ev: Event) -> bool {
    match ev {
        Event::DistantInput(line) => match spec_decode(line@) {
            Some(mv) => !pre.spec_seen().contains(mv.id) ==> pre.can_advance(),
            None => true,
        },
        Event::GetClock => true,
        _ => pre.can_advance(),
    }
}

impl Server {
    /// One send-shaped transition: record the id, tick, build and hand
    /// back the envelope to relay.
    fn send_with_id(&mut self, id: MsgId, header: Header, stop: bool) -> (r: Step)
        requires
            old(self).wf(),
            old(self).can_advance(),
        ensures
            final(self).wf(),
            step_rel_send(*old(self), id, header@, *final(self), r, stop),
    {
        let _ = self.sent_messages_ids.mark_seen(id);
        self.increment_clock();
        let m = Msg::new(id, self.app_id.clone(), header, self.clock.snapshot());
        Step { relay: Some(m), app: None, stop }
    }

    /// One remote-line transition: decode, gate on the dedup store, then
    /// tick, merge, restamp, relay, and decide local delivery.
    fn handle_remote(&mut self, line: &String) -> (r: Step)
        requires
            old(self).wf(),
            step_enabled(*old(self), Event::DistantInput(*line)),
        ensures
            final(self).wf(),
            step_rel_remote(*old(self), line@, *final(self), r),
    {
        match Msg::from_str(line.as_str()) {
            Err(_) => Step { relay: None, app: None, stop: false },
            Ok(msg) => {
                let fresh = self.sent_messages_ids.mark_seen(msg.id);
                if fresh {
                    self.increment_clock();
                    let mut m = msg;
                    self.receive_message(&mut m);
                    let deliver = match &m.header {
                        Header::Public(_) => true,
                        Header::Private(tgt, _) => *tgt == self.app_id,
                    };
                    let app = if deliver {
                        Some(AppEvent::DistantMessage(m.duplicate()))
                    } else {
                        None
                    };
                    Step { relay: Some(m), app, stop: false }
                } else {
                    proof {
                        assert(old(self).spec_seen().insert(msg.id) =~= old(self).spec_seen());
                    }
                    Step { relay: None, app: None, stop: false }
                }
            },
        }
    }

    /// One dispatcher step with a caller-chosen id for any fresh
    /// envelope, so that the whole transition is deterministic.
    pub fn step_with_id(&mut self, ev: Event, id: MsgId) -> (r: Step)
        requires
            old(self).wf(),
            step_enabled(*old(self), ev),
        ensures
            final(self).wf(),
            step_rel(*old(self), ev, id, *final(self), r),
    {
        match ev {
            Event::DistantInput(line) => self.handle_remote(&line),
            Event::UserPublicMessage(text) => self.send_with_id(id, Header::Public(text), false),
            Event::UserPrivateMessage(target, text) => self.send_with_id(
                id,
                Header::Private(target, text),
                false,
            ),
            Event::GetClock => Step {
                relay: None,
                app: Some(AppEvent::Clock(self.clock.snapshot())),
                stop: false,
            },
            Event::Shutdown => self.send_with_id(
                id,
                Header::Public(String::from_str("left the chat")),
                true,
            ),
        }
    }

    /// One dispatcher step, drawing a fresh random id for any envelope
    /// this event sends.  Everything stated of the step holds whatever
    /// id the generator produced.
    pub fn step(&mut self, ev: Event) -> (r: Step)
        requires
            old(self).wf(),
            step_enabled(*old(self), ev),
        ensures
            final(self).wf(),
            exists|id: MsgId| step_rel(*old(self), ev, id, *final(self), r),
    {
        let id = gen_msg_id();
        self.step_with_id(ev, id)
    }
}

/// Processing the same remote line twice: the first step, on a line
/// whose envelope is new, merges the clocks and relays; the second step
/// of the very same line is a no-op, with no clock change, no relay and
/// no delivery.
pub proof fn lemma_duplicate_remote_noop(
    s0: Server,
    line: String,
    id1: MsgId,
    s1: Server,
    r1: Step,
    id2: MsgId,
    s2: Server,
    r2: Step,
)
    requires
        spec_decode(line@) is Some,
        !s0.spec_seen().contains(spec_decode(line@)->Some_0.id),
        step_rel(s0, Event::DistantInput(line), id1, s1, r1),
        step_rel(s1, Event::DistantInput(line), id2, s2, r2),
    ensures
        r1.relay is Some,
        s1.spec_clock() == merge_entries(
            advanced(s0.spec_clock(), s0.spec_app_id()),
            spec_decode(line@)->Some_0.clock,
        ),
        s2.spec_app_id() == s1.spec_app_id(),
        s2.spec_seen() == s1.spec_seen(),
        s2.spec_clock() == s1.spec_clock(),
        r2.relay is None,
        r2.app is None,
{
    let mv = spec_decode(line@)->Some_0;
    assert(s1.spec_seen().contains(mv.id));
}

/// A private envelope for another peer is relayed but never delivered
/// locally; one addressed to this peer is delivered exactly once.
pub proof fn lemma_private_delivery(
    pre: Server,
    line: String,
    id: MsgId,
    post: Server,
    r: Step,
    tgt: Seq<char>,
    body: Seq<char>,
)
    requires
        step_rel(pre, Event::DistantInput(line), id, post, r),
        spec_decode(line@) is Some,
        spec_decode(line@)->Some_0.header == HeaderV::Private(tgt, body),
        !pre.spec_seen().contains(spec_decode(line@)->Some_0.id),
    ensures
        r.relay is Some,
        tgt != pre.spec_app_id() ==> r.app is None,
        tgt == pre.spec_app_id() ==> (r.app matches Some(AppEvent::DistantMessage(d)) && d@.header
            == HeaderV::Private(tgt, body)),
{
}

/// Every newly seen remote public envelope is relayed and delivered
/// locally exactly once.
pub proof fn lemma_public_delivery(
    pre: Server,
    line: String,
    id: MsgId,
    post: Server,
    r: Step,
    body: Seq<char>,
)
    requires
        step_rel(pre, Event::DistantInput(line), id, post, r),
        spec_decode(line@) is Some,
        spec_decode(line@)->Some_0.header == HeaderV::Public(body),
        !pre.spec_seen().contains(spec_decode(line@)->Some_0.id),
    ensures
        r.relay is Some,
        r.app matches Some(AppEvent::DistantMessage(d)) && d@.id == spec_decode(
            line@,
        )->Some_0.id && d@.header == HeaderV::Public(body),
{
}

/// A self-originated send is never delivered back to the local
/// application: the application already has the text.
pub proof fn lemma_send_no_local_delivery(
    pre: Server,
    ev: Event,
    id: MsgId,
    post: Server,
    r: Step,
)
    requires
        step_rel(pre, ev, id, post, r),
        ev matches Event::UserPublicMessage(_) || ev matches Event::UserPrivateMessage(_, _),
    ensures
        r.relay is Some,
        r.app is None,
{
}

/// Shutdown, from any state, relays exactly one departure notice under
/// the local peer's name and stops the loop.
pub proof fn lemma_shutdown(pre: Server, id: MsgId, post: Server, r: Step)
    requires
        step_rel(pre, Event::Shutdown, id, post, r),
    ensures
        r.relay matches Some(m) && m@.sender == pre.spec_app_id() && m@.header == HeaderV::Public(
            "left the chat"@,
        ),
        r.app is None,
        r.stop,
{
}

/// The notice for the application when a transport write fails: that
/// envelope is dropped and the loop continues.
pub fn write_failure_notice() -> (s: String)
    ensures
        s@ == "No one can hear you"@,
{
    String::from_str("No one can hear you")
}

} // verus!
