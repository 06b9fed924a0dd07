//! Node library for the Maelstrom distributed-systems workbench.
//!
//! A node reads line-delimited JSON envelopes, dispatches them to a
//! workload handler, and writes replies back.  This crate holds the
//! verified core: envelope construction, message-id allocation, the
//! handshake, and the workload handlers (anti-entropy broadcast, a
//! grow-only counter over a sequentially consistent key-value service,
//! and a multi-key append-only log over a linearizable key-value
//! service).  The process edges — standard input and output, timers,
//! and the JSON codec — live in the accompanying application crate.

pub mod broadcast;
pub mod decimal;
pub mod g_counter;
pub mod int_set;
pub mod kafka;
pub mod kv_store;
pub mod node;
pub mod protocol;

pub use node::{Handler, HandlerError, Inner, Node};
pub use protocol::{Body, Event, InitPayload, Message};
