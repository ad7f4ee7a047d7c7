use vstd::prelude::*;

use crate::clock::{AppId, Clock};
use crate::msg::Msg;

verus! {

/// One event from the merged input stream the dispatcher consumes: a raw
/// line from the transport, a request from the local user, or the
/// shutdown signal.
pub enum Event {
    /// One undecoded line from a distant peer.
    DistantInput(String),
    /// The local user sends a public message.
    UserPublicMessage(String),
    /// The local user sends a private message to the named peer.
    UserPrivateMessage(AppId, String),
    /// The local application asks for the current clock.
    GetClock,
    /// The cooperative shutdown signal; the only way the loop ends.
    Shutdown,
}

/// One event from the dispatcher to the local application.
pub enum AppEvent {
    /// An operational notice, such as a failed transport write.
    ServerMessage(String),
    /// A message accepted for local display.
    DistantMessage(Msg),
    /// The answer to a clock query: an immutable snapshot.
    Clock(Clock),
}

} // verus!
