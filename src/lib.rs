//! Derivation of overlay-network addresses from public-key strings.

pub mod base32;
pub mod address;
pub mod key;
pub mod text;
