//! Client-side logic for the Thor event-streaming service.
//!
//! The crate holds the pure parts of a streaming client: configuration
//! loading, the binary envelope codec, base-58 rendering, subscription
//! request validation, the per-frame consumer step, and the event
//! formatters.  Network transport and file output live in the
//! surrounding application; everything here is verified.

pub mod auth;
pub mod base58;
pub mod config;
pub mod consumer;
pub mod decode;
pub mod dispatch;
pub mod envelope;
pub mod format;
pub mod status;
pub mod text;
pub mod varint;
