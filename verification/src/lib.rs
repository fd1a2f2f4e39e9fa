//! Verified core of the reckon-db native helpers.
pub mod aggregate;
pub mod archive;
pub mod base58;
pub mod bytes;
pub mod crypto;
pub mod dot;
pub mod filter;
pub mod graph;
pub mod hash;
pub mod radix;
