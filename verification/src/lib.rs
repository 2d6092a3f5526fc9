//! LSB steganography: hide text, binary data or a second image inside the
//! least-significant bits of a carrier image's pixel channels, and recover
//! the payload losslessly later.
//!
//! The codec walks the carrier's channel bytes in channel-major, then
//! width, then height order, one bit plane at a time: it uses bit plane 0
//! (the true LSB) across the whole image before touching bit plane 1, and
//! so on up to bit plane 7, which bounds the capacity of a carrier to
//! `width * height * channels * 8` bits.

pub mod bits;
pub mod error;
pub mod pixel;
pub mod stream;
pub mod codec;
pub mod payload;
pub mod laws;

pub use codec::LSBStego;
pub use error::StegoError;
pub use pixel::PixelBuffer;
