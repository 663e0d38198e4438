//! Hot Potato — an event message bus for agents: a mailbox with a state
//! machine. Letters move `queued → delivered → read → acked`; every change of
//! status goes through the truth table in [`state`].

pub mod text;
pub mod base64;
pub mod message;
pub mod state;
pub mod error;
pub mod store;
pub mod bus;
pub mod deliver;
pub mod federation;
pub mod handshake;
pub mod sweeper;
pub mod ws;
pub mod server;
