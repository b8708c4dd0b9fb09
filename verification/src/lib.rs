//! A versioned, copy-on-write account store for an Ethereum-compatible
//! virtual machine embedded in a slot-based host ledger.
//!
//! The store advances through tree-structured slots: a working slot gathers
//! account writes in an overlay, is sealed by `freeze`, branched by
//! `try_fork`, and eventually folded into a flat durable image by `squash`.
//! A chunked big-object buffer assembles oversized payloads, and a backup
//! image captures the durable portion for reload.

pub mod types;
pub mod accounts;
pub mod bigtx;
pub mod state;
pub mod laws;
pub mod backup;
pub mod codec;
pub mod traces;
pub mod loader;
