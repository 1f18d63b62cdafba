//! Server-authoritative session protocol and grid simulation engine for a
//! real-time multiplayer grid-snake game.
//!
//! The library owns the wire codec, the grid engine that advances every
//! snake one lockstep tick and resolves collisions, the server-side
//! session state machine (join admission, id assignment, move aggregation,
//! game end), and the client-side reaction to server events. Transport,
//! rendering and input live outside the library and exchange plain values
//! with it: inbound packets arrive as raw bytes, outbound messages leave
//! as bytes addressed by opaque peer tokens.

pub mod client;
pub mod codec;
pub mod game;
pub mod server;
pub mod shared;
pub mod snek;
