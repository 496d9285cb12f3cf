//! Reliable file transfer over unreliable, unordered datagrams.
//!
//! A file travels as a sequence of fixed-size parts.  The sender keeps every
//! part it has sent until the receiver confirms it, polls the receiver at a
//! fixed interval with the ids it still waits for, and resends what the
//! receiver reports missing.  The receiver writes the parts to their place in
//! the destination file in whatever order they arrive.
//!
//! This crate holds the engine only: the wire format, the state of both
//! peers, and the decisions they take.  Sockets, files, timers and threads
//! belong to the program that drives it.

pub mod bytes;
pub mod config;
pub mod delivery;
pub mod handshake;
pub mod id_set;
pub mod image;
pub mod parts;
pub mod protocol;
pub mod reassembly;
pub mod receiver;
pub mod sender;
pub mod transmission;
