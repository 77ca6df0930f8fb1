//! An owned buffer of scaled coordinates with its length alongside, the
//! shape in which coordinate sequences are handed across the library
//! boundary, and the two conversions between that shape and polylines.
//!
//! The boundary has no error channel of its own, so both conversions fold
//! the codec's typed errors into `None`; a caller that needs the error uses
//! [`crate::codec::encode_coordinates`] or [`crate::codec::decode_polyline`]
//! directly.

use vstd::prelude::*;
use vstd::string::StringSliceAdditionalSpecFns;
use crate::codec::{
    ascii_chars_of, decode_polyline, decode_spec, encode_coordinates, encode_spec, ScaledCoord,
};

verus! {

/// An ordered buffer of scaled coordinate pairs together with its length.
#[derive(Debug, PartialEq)]
pub struct Array {
    /// The coordinate pairs, in order.
    pub data: Vec<ScaledCoord>,
    /// How many pairs `data` holds.
    pub len: usize,
}

impl Array {
    /// The recorded length matches the buffer.
    pub open spec fn well_formed(&self) -> bool {
        self.len == self.data@.len()
    }
}

impl From<Vec<ScaledCoord>> for Array {
    /// Wrap a coordinate buffer, recording its length.
    fn from(sl: Vec<ScaledCoord>) -> (r: Array) {
        let len = sl.len();
        Array { data: sl, len }
    }
}

impl vstd::std_specs::convert::FromSpecImpl<Vec<ScaledCoord>> for Array {
    open spec fn obeys_from_spec() -> bool {
        true
    }

    open spec fn from_spec(sl: Vec<ScaledCoord>) -> Array {
        Array { data: sl, len: sl@.len() as usize }
    }
}

/// Decode a polyline into a coordinate buffer, or `None` for the error the
/// decoder reported.
pub fn arr_from_string(incoming: &str, precision: u32) -> (r: Option<Array>)
    ensures
        match r {
            Some(arr) => {
                &&& arr.well_formed()
                &&& decode_spec(incoming.spec_bytes(), precision as nat)
                    == Ok::<Seq<ScaledCoord>, crate::errors::PolylineError>(arr.data@)
            },
            None => decode_spec(incoming.spec_bytes(), precision as nat) is Err,
        },
{
    match decode_polyline(incoming, precision) {
        Ok(coords) => {
            let len = coords.len();
            Some(Array { data: coords, len })
        },
        Err(_) => None,
    }
}

/// Encode a coordinate buffer into a polyline, or `None` for the error the
/// encoder reported.
pub fn string_from_arr(incoming: &Array, precision: u32) -> (r: Option<String>)
    ensures
        match r {
            Some(s) => encode_spec(incoming.data@, precision as nat) matches Ok(bytes)
                && s@ == ascii_chars_of(bytes) && vstd::utf8::encode_utf8(s@) == bytes,
            None => encode_spec(incoming.data@, precision as nat) is Err,
        },
{
    match encode_coordinates(&incoming.data, precision) {
        Ok(s) => Some(s),
        Err(_) => None,
    }
}

} // verus!
