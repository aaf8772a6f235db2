//! A peer-to-peer replicated data node: replicas exchange signed, gossiped
//! envelopes carrying key/value writes and converge without a coordinator.
//!
//! The library covers the replicated value model and its conflict-resolution
//! merge engine, the canonical wire codec, the signed transport protocol, the
//! peer handshake state machine, and the bookkeeping that the node's dispatch
//! and gossip loops rely on. Storage, contract execution and the raw byte
//! transport are collaborators reached through narrow interfaces.

pub mod codec;
pub mod contract;
pub mod crypto;
pub mod merge;
pub mod node;
pub mod order;
pub mod peer;
pub mod protocol;
pub mod storage;
pub mod transport;
pub mod value;
pub mod wire;
