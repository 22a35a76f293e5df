//! PIE (Pixel Indexed Encoding): a lossless, palette-indexed image format for
//! pixel art. Pixels are mapped to palette indices, and the index stream is
//! run-length encoded.

pub mod codec;
pub mod error;
pub mod laws;
pub mod palette;
pub mod rle;

pub use codec::{decode, encode, to_bytes, DecodedPIE, EncodedPIE};
pub use error::{DecodeError, EncodeError};
pub use palette::{Palette, PixelFormat};
pub use rle::{rle, rle_decode};
