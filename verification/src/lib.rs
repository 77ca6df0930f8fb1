//! Encoding and decoding of the Google Encoded Polyline format.
//!
//! A polyline is a compact printable-ASCII rendering of an ordered sequence
//! of two-dimensional coordinates. Each coordinate component is held as a
//! signed 64-bit integer scaled by `10^precision`; consecutive coordinates
//! are delta-coded, the deltas are zigzag-mapped to unsigned values, and the
//! unsigned values are packed into five-bit groups offset into the printable
//! ASCII range.

pub mod array;
pub mod codec;
pub mod errors;
pub mod properties;
pub mod varint;

pub use array::Array;
pub use codec::ScaledCoord;
pub use codec::decode_polyline;
pub use codec::encode_coordinates;
pub use errors::PolylineError;
