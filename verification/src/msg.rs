use vstd::prelude::*;

use crate::clock::{AppId, Clock, ClockEntries};

verus! {

/// A message's globally-unique (with high probability) identifier; drawn
/// at random by the sender and used only for deduplication, never for
/// ordering.
pub type MsgId = u64;

/// What a message carries: text for everyone, or text for one peer.
pub enum Header {
    Public(String),
    Private(AppId, String),
}

/// The abstract content of a `Header`.
pub enum HeaderV {
    Public(Seq<char>),
    Private(Seq<char>, Seq<char>),
}

impl View for Header {
    type V = HeaderV;

    open spec fn view(&self) -> HeaderV {
        match self {
            Header::Public(t) => HeaderV::Public(t@),
            Header::Private(p, t) => HeaderV::Private(p@, t@),
        }
    }
}

impl Header {
    /// An independent copy of the payload.
    pub fn duplicate(&self) -> (h: Header)
        ensures
            h@ == self@,
    {
        match self {
            Header::Public(t) => Header::Public(t.clone()),
            Header::Private(p, t) => Header::Private(p.clone(), t.clone()),
        }
    }
}

/// One message envelope as it travels the overlay: its id, the sending
/// peer, the payload, and a clock snapshot.  The clock is overwritten
/// exactly once, at receipt time, with the receiver's post-merge clock
/// before the envelope is relayed.
pub struct Msg {
    pub id: MsgId,
    pub sender: AppId,
    pub header: Header,
    pub clock: Clock,
}

/// The abstract content of a `Msg`: plain values for every field, the
/// clock as its entries in storage order.
#[verifier::ext_equal]
pub struct MsgV {
    pub id: MsgId,
    pub sender: Seq<char>,
    pub header: HeaderV,
    pub clock: ClockEntries,
}

impl View for Msg {
    type V = MsgV;

    open spec fn view(&self) -> MsgV {
        MsgV { id: self.id, sender: self.sender@, header: self.header@, clock: self.clock@ }
    }
}

impl Msg {
    /// A message is well formed when its clock is.
    pub open spec fn wf(&self) -> bool {
        self.clock.wf()
    }

    /// An envelope assembled from its parts.
    pub fn new(id: MsgId, sender: AppId, header: Header, clock: Clock) -> (m: Msg)
        ensures
            m@ == (MsgV { id, sender: sender@, header: header@, clock: clock@ }),
            m.wf() == clock.wf(),
    {
        Msg { id, sender, header, clock }
    }

    /// An independent copy of the envelope.
    pub fn duplicate(&self) -> (m: Msg)
        ensures
            m@ == self@,
            m.wf() == self.wf(),
    {
        Msg {
            id: self.id,
            sender: self.sender.clone(),
            header: self.header.duplicate(),
            clock: self.clock.snapshot(),
        }
    }
}

} // verus!
