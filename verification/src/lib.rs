pub mod clock;
pub mod codec;
pub mod dedup;
pub mod events;
pub mod msg;
pub mod server;
