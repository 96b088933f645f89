//! Televery: a two-step verification gateway.
//!
//! Local applications ask over a line protocol whether an action may go
//! ahead; trusted approvers answer from a messaging channel. This crate holds
//! the protocol engine: the request framer, the approval router and the
//! identity bindings. Sockets, the event loop and the messaging session live
//! around it.

pub mod bindings;
pub mod codec;
pub mod router;
pub mod tag;
