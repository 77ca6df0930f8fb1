//! Errors that can occur while encoding or decoding a polyline.

use vstd::prelude::*;
use crate::codec::ScaledCoord;

verus! {

/// Everything that can go wrong in one encode or decode call.
///
/// Every variant that reports bad input carries a position: the coordinate
/// index for encoding, the byte index of the offending varint or byte for
/// decoding. Coordinate values travel in the scaled fixed-point form the
/// codec works in.
#[derive(Debug, Clone, Copy, PartialEq, Eq)]
#[allow(inconsistent_fields)]
pub enum PolylineError {
    /// A longitude outside `[-180, 180]` (scaled: `[-180 * 10^p, 180 * 10^p]`).
    LongitudeCoordError {
        /// The scaled coordinate value that was out of range.
        coord: i64,
        /// Coordinate index (encode) or byte index of the varint's first byte (decode).
        idx: usize,
    },
    /// A latitude outside `[-90, 90]` (scaled: `[-90 * 10^p, 90 * 10^p]`).
    LatitudeCoordError {
        /// The scaled coordinate value that was out of range.
        coord: i64,
        /// Coordinate index (encode) or byte index of the varint's first byte (decode).
        idx: usize,
    },
    /// A latitude was decoded but the string ended before its longitude.
    NoLongError {
        /// Byte index where the dangling latitude's varint began.
        idx: usize,
    },
    /// A byte below 63, or a varint that would overflow the 64-bit accumulator.
    DecodeError {
        /// Byte index of the offending byte.
        idx: usize,
    },
    /// A packed group could not be rendered as a character (defensive; the
    /// encoder proves its output bytes are printable ASCII, so it never
    /// produces this).
    EncodeToCharError,
    /// A coordinate whose deltas could not be encoded (defensive, as above).
    CoordEncodingError {
        /// The scaled coordinate that could not be encoded.
        coord: ScaledCoord,
        /// Index of that coordinate in the input sequence.
        idx: usize,
    },
    /// The requested precision cannot be represented: `180 * 10^precision`
    /// does not fit the signed 64-bit scaled integers.
    NumericCastFailure,
}

} // verus!
