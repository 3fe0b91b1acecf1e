//! Verified command planning for the HASHCRYPT engine.
pub mod digest;
pub mod engine;
pub mod hasher;
pub mod laws;
pub mod mode;
pub mod op;
pub mod padding;
pub mod words;
