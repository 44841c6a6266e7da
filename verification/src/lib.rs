//! Encrypted-state persistence for a small sidecar application.
//!
//! The crate turns an operator passphrase into symmetric keys (with a
//! salt-keyed cache), seals byte payloads into self-contained envelopes
//! with authenticated encryption, and keeps the application's durable
//! state (configuration, pending operations, notifications, terminal
//! session records) in a store whose every mutation yields the file
//! content to persist.

pub mod crypto;
pub mod codec;
pub mod json;
pub mod state;
pub mod store;
