//! Nodes of a distributed-systems testbed. A node exchanges JSON messages with
//! a harness and with its peers; this library holds what a node decides.
//!
//! - [`proto`]: the messages, the events and the handler interface.
//! - [`broadcast`]: the gossiping broadcast node; [`broadcast_laws`]: what
//!   holds of it over any sequence of events.
//! - [`echo`], [`unique_ids`]: the two one-reply-per-request nodes.
//! - [`framing`]: finding the objects in the incoming byte stream.
//! - [`node_map`], [`value_set`]: the collections the nodes keep.

pub mod broadcast;
pub mod broadcast_laws;
pub mod echo;
pub mod framing;
pub mod node_map;
pub mod proto;
pub mod unique_ids;
pub mod value_set;
