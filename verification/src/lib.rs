//! A replicated FIFO queue over message-passing peers.
//!
//! Every peer holds a local replica of the queue and a vector clock. Enqueues
//! are ordered by an all-to-all acknowledgement round; dequeues commit through
//! per-peer confirmation lists. The replica core here is pure: it maps an
//! inbound payload to a state change plus outbound payloads, and the
//! surrounding process dispatches them over its transport.

pub mod ingress;
pub mod laws;
pub mod payload;
pub mod process;
pub mod vector_clock;
