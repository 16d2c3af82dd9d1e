//! Finds duplicate files by content digest and files touched during a session.
pub mod cluster;
pub mod error;
pub mod filter;
pub mod session;
pub mod fingerprint;
pub mod timestamp;
