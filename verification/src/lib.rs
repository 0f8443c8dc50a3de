//! In-memory session state store for a realtime collaboration server.
//!
//! The store is the single authoritative record of which users are connected,
//! which connections belong to which user, which projects are hosted or joined
//! by which connection, which channels each connection subscribes to, and which
//! call rooms are in progress. Every operation observes the store in a
//! consistent state, applies one atomic set of changes, and returns the derived
//! records the caller needs to notify peers.

pub mod checks;
pub(crate) mod clock;
pub mod laws;
pub mod records;
pub mod store;
pub mod tables;

#[allow(unused_imports)]
use vstd::prelude::*;

verus! {

/// Identifier of one client socket.
pub type ConnectionId = u64;

/// Identifier of one user account; a user may have many connections.
pub type UserId = u64;

/// Identifier of a project shared by a host connection.
pub type ProjectId = u64;

/// Identifier of a pub/sub channel.
pub type ChannelId = u64;

/// Identifier of a call room.
pub type RoomId = u64;

/// Per-project editing identity of a collaborator; the host is 0,
/// guests get the smallest unused positive value.
pub type ReplicaId = u16;

} // verus!
