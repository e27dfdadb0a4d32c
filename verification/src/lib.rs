//! Verified core of a command-line helper that keeps a local cache of
//! short-lived cloud session credentials and refreshes them with a
//! time-based one-time code computed by a hardware security key.
//!
//! The crate holds the logic worth proving: the persisted store and its
//! document format, the renewal decision rule, the one-time-code
//! protocol engine, and the orchestration of renewal and key rotation.
//! Process I/O (files, network calls, the device transport) lives
//! outside and hands this crate plain values.

pub mod codec;
pub mod decision;
pub mod engine;
pub mod errors;
pub mod otp;
pub mod renewal;
pub mod rotation;
pub mod store;
pub mod timestamp;
