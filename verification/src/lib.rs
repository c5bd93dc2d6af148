//! Ephemeral, connectionless group messaging over UDP broadcast.
//!
//! The crate holds the protocol logic: the `"<id>:<text>"` wire codec, the
//! participant's send path (outbound message plus optimistic local echo) and
//! receive path (decode, parse the sender tag, suppress self-echo), and the
//! relay's membership table with its per-datagram fan-out planner. Socket
//! handling and the display surface live outside the library and exchange
//! plain values with it.

pub mod codec;
pub mod participant;
pub mod relay;
