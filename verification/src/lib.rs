//! A verified decentralized-identifier (DID) registry.
//!
//! The registry owns one DID document per identity key and enforces the
//! document lifecycle (unregistered, valid, deactivated), authenticated key
//! management, service-endpoint association, and the invariants that keep
//! these mutually consistent. The execution environment is expected to hand
//! every operation an already-authenticated caller identity, the public key
//! the caller signed with, and a monotonic timestamp.
pub mod codec;
pub mod document;
pub mod registry;
pub mod store;
