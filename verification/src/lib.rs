//! Core of a BitTorrent v1 client: the wire-message codec, the handshake,
//! piece descriptors and SHA-1 verification, the piece work queue, the
//! in-memory piece store with its crash-recovery log, the per-peer session
//! state machine, and the supervisor's reply logic.
//!
//! All socket, file and timer work lives outside this crate; the functions
//! here compute over plain values and carry their contracts.

pub mod bitfield;
pub mod consts;
pub mod engine;
pub mod err;
pub mod handshake;
pub mod messages;
pub mod ops;
pub mod partial;
pub mod peerlist;
pub mod queue;
pub mod session;
pub mod supervisor;
pub mod torrents;
pub mod tracker;
pub mod utils;
