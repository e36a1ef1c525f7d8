//! A one-time-pad substitution cipher over the alphabet `A`..`Z` plus space,
//! carried over a byte stream that interleaves data and key symbols.

pub mod alphabet;
pub mod cipher;
pub mod codec;
pub mod connection;
pub mod client;
pub mod message;
pub mod keygen;
