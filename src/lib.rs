//! Session and voice-routing engine of a Mumble-compatible voice server.
//!
//! The library holds the registry of connected clients and channels, the
//! routing rules that decide who hears a voice frame, the control-message
//! handlers, the codec negotiation, the wire framing, the voice-frame codec,
//! the per-client OCB2-AES128 crypt state with its replay window, and the
//! datagram rules of the voice plane. Everything here is plain data: the
//! network, the timers and the protobuf codec live around it and feed it
//! values.
use vstd::prelude::*;

pub mod channel;
pub mod client;
pub mod codec;
pub mod crypt;
pub mod dash;
pub mod fanout;
pub mod handler;
pub mod handshake;
pub mod idset;
pub mod janitor;
pub mod laws;
pub mod membership;
pub mod message;
pub mod ocb;
pub mod session;
pub mod state;
pub mod status;
pub mod target;
pub mod udp;
pub mod voice;
pub mod wire;
