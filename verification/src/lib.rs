//! Client library for a UDP-based multiplayer game protocol.
//!
//! The crate is organised around three subsystems:
//! a binary codec (`codec`) for the length-prefixed, tag-framed wire format;
//! the reliable-UDP transport engine (`transport`), which assigns
//! acknowledgement ids, tracks unconfirmed frames and decides
//! retransmissions; and the game session layer (`session`), which drives the
//! join handshake and dispatches replication events to networked objects
//! (`netobjects`). Wire-level data types live in `objects` and `packets`,
//! transport frames in `hazel`.
//!
//! All socket, clock and thread handling is left to the embedding
//! application: every function here is a pure state transition on plain
//! values, with its behaviour stated in its contract.

pub mod codec;
pub mod hazel;
pub mod netobjects;
pub mod objects;
pub mod packets;
pub mod session;
pub mod transport;
pub mod utils;
