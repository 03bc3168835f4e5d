//! Verified core of the UrsoCapture desktop utilities: prime counting,
//! SHA-256 hashing, text statistics, token generation, size formatting,
//! directory reports and the small decision rules around them.

pub mod primes;
pub mod system;
pub mod strings;
pub mod sha256;
pub mod size_format;
pub mod text;
pub mod token;
pub mod order;
pub mod directory;
pub mod canvas;
