//! Embedded message store for a location-based scavenger hunt.
//!
//! The library keeps per-POI (point of interest) message threads and a user
//! registry, derives public-facing views (anonymized user identities,
//! aggregate statistics) from the private stored state, and encodes the whole
//! store to bytes and back for persistence. All operations carry contracts
//! that pin their behaviour down; the surrounding process is expected to do
//! the file reads and writes and to serialize mutating cycles.

pub mod identity;
pub mod store;
pub mod codec;
