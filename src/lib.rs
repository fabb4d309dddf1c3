//! A lossless image codec for the QOI format: raw 8-bit RGB or RGBA pixel
//! buffers are compressed into a stream of run, cache-index, delta and
//! literal-colour operations, and decoded back exactly.

mod decode;
mod encode;
mod error;
mod header;
pub mod laws;
mod pixel;
mod round_trip;

pub use decode::QoiDecode;
pub use encode::QoiEncode;
pub use error::QoiError;
pub use header::{Channels, Qoi, QoiHeader};
pub use pixel::Pixel;
