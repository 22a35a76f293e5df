//! Errors of the encoder and the decoder.
use vstd::prelude::*;

verus! {

/// Why a pixel buffer could not be encoded.
#[derive(Debug, Clone, Copy, PartialEq, Eq, Structural)]
pub enum EncodeError {
    /// The buffer's length is not width × height × 3 or width × height × 4.
    WrongPixelCount,
    /// A pixel's color is not in the supplied palette.
    ColorNotInPalette,
    /// The palette would need more than 256 colors.
    TooManyColors,
    /// The runs do not fit the 16-bit run count of the container.
    TooManyRuns,
}

/// Why a byte buffer could not be decoded.
#[derive(Debug, Clone, Copy, PartialEq, Eq, Structural)]
pub enum DecodeError {
    /// The image carries no palette and no palette of its format was supplied.
    MissingPalette,
    /// A run refers to an index past the end of the palette.
    ColorNotFound,
    /// The buffer is too short, has the wrong magic bytes, or its runs do not
    /// cover width × height pixels.
    MalformedHeader,
    /// A run has a count of zero, or a run is cut short.
    InvalidRun,
}

} // verus!
