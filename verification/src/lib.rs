//! An adaptive columnar page codec: per-page codec selection over run-length,
//! dictionary, frequency, bit-packing, delta and one-value encodings, with a
//! self-describing binary page frame and a symmetric decoder.

pub mod basic;
pub mod bitmap;
pub mod boolean;
pub mod bp;
pub mod bytes;
pub mod one_value;
pub mod codec;
pub mod delta;
pub mod dict;
pub mod delta_bp;
pub mod error;
pub mod freq;
pub mod integer;
pub mod page;
pub mod primitive;
pub mod ratio;
pub mod rle;
pub mod stats;
