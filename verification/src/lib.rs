//! Clipboard capture, classification and whiteboard persistence, verified.
//!
//! The crate models a clipboard manager's core pipeline: text classification,
//! a canonical lossless image codec, content fingerprinting, a polling
//! monitor with duplicate and self-copy suppression, a bounded volatile
//! history, and a persistent whiteboard of items and groups.

pub mod bytescan;
pub mod types;
pub mod categorizer;
pub mod codec;
pub mod adapters;
pub mod volatile;
pub mod encoding;
pub mod monitor;
pub mod persistent;
pub mod crypto;
