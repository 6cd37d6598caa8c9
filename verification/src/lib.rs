//! Protocol engine of an in-memory key-value cache: a decoder for
//! length-prefixed command frames, a store with per-key expiry, a dispatcher
//! and a reply encoder, tied together by a per-connection session.

pub mod ascii;
pub mod clock;
pub mod frame;
pub mod command;
pub mod reply;
pub mod store;
pub mod dispatch;
pub mod session;
pub mod laws;
