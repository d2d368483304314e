//! Synchronization core of a real-time chat client.
//!
//! The crate keeps a live in-memory view of connected users (the roster) and
//! of the conversation history (the timeline), driven by a stream of typed
//! envelopes that arrive over a persistent connection.  It holds three
//! pieces: the envelope codec that turns wire frames into typed values and
//! back, an in-process event relay that fans inbound frames out to
//! subscribers, and the state reconciler that applies decoded envelopes to
//! the roster-and-timeline model.  Transport and rendering live outside the
//! crate and exchange plain byte strings with it.

pub mod codec;
pub mod chat;
pub mod relay;
