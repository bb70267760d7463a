//! A URL-shortening core: a bidirectional registry binding five-character
//! alphanumeric codes to long URLs, with idempotent code allocation and
//! collision-retried random generation.

pub mod codes;
pub mod store;
