//! Transport faults.
//!
//! The byte transport itself (sockets, framing, accept/connect) is a
//! collaborator owned by the embedding application; the library only defines
//! the fault taxonomy that its own error handling speaks of.

use vstd::prelude::*;

verus! {

/// A transport fault: a generic runtime fault, an I/O failure (carrying the
/// underlying error's text), or an operation on an already-closed connection.
#[derive(Debug)]
pub enum TransportError {
    Runtime,
    IO(String),
    ConnectionClosed,
}

} // verus!
