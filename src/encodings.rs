//! Encodings of indexed grids.

pub mod onebyte_rle;
pub mod round_trip;
pub mod hex_text;

pub use onebyte_rle::{
    indexed_to_rle, rle_on_indexed, rle_to_indexed, DecodeError, EncodeError, OneByteRle, Rle,
    RunByte,
};
