//! A palette-indexed pixel grid and a one-byte-per-run colour RLE codec for it.

pub mod encodings;
pub mod types;
