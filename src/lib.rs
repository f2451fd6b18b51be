//! A two-client session proxy for the Minecraft Java Edition 1.16.5 protocol.
//!
//! Two game clients share one player identity and one upstream connection: one
//! of them is active and its packets go upstream, the other only receives. The
//! library holds the logic of the session: the wire codec, the login handoff and
//! the controller that routes packets and fails over from one client to the other.

pub mod codec;
pub mod packets;
pub mod controller;
pub mod login;
pub mod updater;
pub mod address;
pub mod runs;
