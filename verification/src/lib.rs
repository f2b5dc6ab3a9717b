//! Verified core of a UDP wireless-microphone receiver.
pub mod crypto;
pub mod discovery;
pub mod jitter;
pub mod listing;
pub mod metrics;
pub mod playback;
pub mod receiver;
pub mod text;
pub mod wire;
