//! Verified core of a LAN file-sharing service: torrent metadata, the
//! built-in WebSocket tracker, request planning and the sharing state.

pub mod text;
pub mod trackers;
pub mod bencode;
pub mod codec;
pub mod torrent;
pub mod paths;
pub mod swarm;
pub mod serve;
pub mod session;
pub mod runtime;
pub mod routes;
pub mod host;
pub mod assets;
pub mod batch;
