//! The codec core: scaled coordinates, range validation, and the
//! encode / decode drivers.
//!
//! Both drivers are delta coders: the encoder emits, for each coordinate,
//! the zigzagged varint of the latitude change followed by the longitude
//! change against the previous scaled coordinate (starting from `(0, 0)`),
//! and the decoder accumulates the same changes back. The specification
//! functions [`encode_spec`] and [`decode_spec`] pin both directions down
//! byte by byte, including which error is reported at which position.

use vstd::prelude::*;
use vstd::arithmetic::power2::{lemma2_to64, lemma2_to64_rest, pow2};
use vstd::string::StringSliceAdditionalSpecFns;
use vstd::utf8::{encode_utf8, is_ascii_chars, is_ascii_chars_encode_utf8};
use crate::errors::PolylineError;
use crate::varint::{
    decode_next, encode, lemma_parse_advances, lemma_parse_value_bound, lemma_unzigzag_bound,
    lemma_varint_bytes_range, parse_varint, unzigzag, varint_bytes, zigzag, VarintParse,
};

verus! {

/// A coordinate pair in scaled fixed-point form: the real components
/// multiplied by `10^precision` and rounded to the nearest integer.
/// `x` is the longitude component, `y` the latitude component.
#[derive(Debug, Clone, Copy, PartialEq, Eq, Structural)]
pub struct ScaledCoord {
    /// Scaled longitude.
    pub x: i64,
    /// Scaled latitude.
    pub y: i64,
}

/// `10^p`, the scale factor attached to a precision `p`.
pub open spec fn pow10(p: nat) -> nat
    decreases p,
{
    if p == 0 {
        1
    } else {
        10 * pow10((p - 1) as nat)
    }
}

/// A precision is usable when the largest legal scaled component,
/// `180 * 10^p`, still fits a signed 64-bit integer.
pub open spec fn precision_valid(p: nat) -> bool {
    180 * pow10(p) <= i64::MAX
}

/// A scaled latitude is in range when it lies within `[-90, 90]` degrees
/// at the given scale factor.
pub open spec fn lat_in_bounds(y: int, factor: int) -> bool {
    -90 * factor <= y <= 90 * factor
}

/// A scaled longitude is in range when it lies within `[-180, 180]` degrees
/// at the given scale factor.
pub open spec fn lon_in_bounds(x: int, factor: int) -> bool {
    -180 * factor <= x <= 180 * factor
}

/// Both components of a scaled coordinate are in range.
pub open spec fn coord_in_bounds(c: ScaledCoord, factor: int) -> bool {
    lat_in_bounds(c.y as int, factor) && lon_in_bounds(c.x as int, factor)
}

/// The ASCII characters behind a byte sequence, one character per byte.
pub open spec fn ascii_chars_of(bytes: Seq<u8>) -> Seq<char> {
    bytes.map_values(|b: u8| b as char)
}

/// `pow10` grows monotonically.
pub proof fn lemma_pow10_increases(p: nat, q: nat)
    requires
        p <= q,
    ensures
        pow10(p) <= pow10(q),
    decreases q,
{
    if p < q {
        lemma_pow10_increases(p, (q - 1) as nat);
    }
}

/// Exactly the precisions up to 16 are usable.
pub proof fn lemma_precision_valid_iff(p: nat)
    ensures
        precision_valid(p) <==> p <= 16,
{
    assert(pow10(16) == 10_000_000_000_000_000) by {
        reveal_with_fuel(pow10, 17);
    }
    assert(pow10(17) == 100_000_000_000_000_000) by {
        reveal_with_fuel(pow10, 18);
    }
    if p <= 16 {
        lemma_pow10_increases(p, 16);
    } else {
        lemma_pow10_increases(17, p);
    }
}

/// The scale factor for a usable precision, or `None` when `10^precision`
/// would push legal coordinates past the 64-bit scaled range.
pub fn pow10_checked(precision: u32) -> (r: Option<i64>)
    ensures
        match r {
            Some(f) => {
                &&& precision_valid(precision as nat)
                &&& f == pow10(precision as nat)
                &&& 1 <= f <= 10_000_000_000_000_000
            },
            None => !precision_valid(precision as nat),
        },
{
    proof {
        lemma_precision_valid_iff(precision as nat);
    }
    if precision > 16 {
        return None;
    }
    let mut f: i64 = 1;
    let mut i: u32 = 0;
    while i < precision
        invariant
            i <= precision <= 16,
            f == pow10(i as nat),
            1 <= f,
        decreases precision - i,
    {
        proof {
            lemma_pow10_increases((i + 1) as nat, 16);
            assert(pow10(16) == 10_000_000_000_000_000) by {
                reveal_with_fuel(pow10, 17);
            }
        }
        f = f * 10;
        i = i + 1;
    }
    proof {
        lemma_pow10_increases(precision as nat, 16);
        assert(pow10(16) == 10_000_000_000_000_000) by {
            reveal_with_fuel(pow10, 17);
        }
    }
    Some(f)
}

/// The encoder from position `i` on, with `(prev_x, prev_y)` the previous
/// scaled coordinate: the first coordinate with a component out of range is
/// reported, everything before it is delta-coded, latitude change first.
pub open spec fn encode_rec(
    coords: Seq<ScaledCoord>,
    prev_x: int,
    prev_y: int,
    factor: int,
    i: int,
) -> Result<Seq<u8>, PolylineError>
    decreases coords.len() - i,
{
    if i >= coords.len() {
        Ok(Seq::empty())
    } else {
        let c = coords[i];
        if !lat_in_bounds(c.y as int, factor) {
            Err(PolylineError::LatitudeCoordError { coord: c.y, idx: i as usize })
        } else if !lon_in_bounds(c.x as int, factor) {
            Err(PolylineError::LongitudeCoordError { coord: c.x, idx: i as usize })
        } else {
            match encode_rec(coords, c.x as int, c.y as int, factor, i + 1) {
                Ok(rest) => Ok(
                    varint_bytes(zigzag(c.y - prev_y)) + varint_bytes(zigzag(c.x - prev_x))
                        + rest,
                ),
                Err(e) => Err(e),
            }
        }
    }
}

/// What encoding a scaled coordinate sequence at a precision returns.
pub open spec fn encode_spec(coords: Seq<ScaledCoord>, precision: nat) -> Result<
    Seq<u8>,
    PolylineError,
> {
    if !precision_valid(precision) {
        Err(PolylineError::NumericCastFailure)
    } else {
        encode_rec(coords, 0, 0, pow10(precision) as int, 0)
    }
}

/// The decoder from byte position `pos` on, with `lat` and `lon` the
/// running scaled totals: each coordinate is a latitude varint, validated
/// against its bounds, then a longitude varint, validated likewise; a
/// missing longitude, a bad byte and an out-of-range component are reported
/// at their byte positions.
pub open spec fn decode_rec(
    bytes: Seq<u8>,
    pos: int,
    lat: int,
    lon: int,
    factor: int,
) -> Result<Seq<ScaledCoord>, PolylineError>
    decreases bytes.len() - pos,
{
    if pos >= bytes.len() {
        Ok(Seq::empty())
    } else {
        match parse_varint(bytes, pos) {
            VarintParse::Failed { idx } => Err(
                PolylineError::DecodeError { idx: idx as usize },
            ),
            VarintParse::Parsed { value: v, next: p2 } => {
                let lat2 = lat + unzigzag(v);
                if !lat_in_bounds(lat2, factor) {
                    Err(
                        PolylineError::LatitudeCoordError {
                            coord: lat2 as i64,
                            idx: pos as usize,
                        },
                    )
                } else if p2 >= bytes.len() {
                    Err(PolylineError::NoLongError { idx: pos as usize })
                } else {
                    match parse_varint(bytes, p2) {
                        VarintParse::Failed { idx } => Err(
                            PolylineError::DecodeError { idx: idx as usize },
                        ),
                        VarintParse::Parsed { value: w, next: p3 } => {
                            let lon2 = lon + unzigzag(w);
                            if !lon_in_bounds(lon2, factor) {
                                Err(
                                    PolylineError::LongitudeCoordError {
                                        coord: lon2 as i64,
                                        idx: p2 as usize,
                                    },
                                )
                            } else {
                                proof {
                                    lemma_parse_advances(bytes, pos, 0, 0);
                                    lemma_parse_advances(bytes, p2, 0, 0);
                                }
                                match decode_rec(bytes, p3, lat2, lon2, factor) {
                                    Ok(rest) => Ok(
                                        seq![ScaledCoord { x: lon2 as i64, y: lat2 as i64 }]
                                            + rest,
                                    ),
                                    Err(e) => Err(e),
                                }
                            }
                        },
                    }
                }
            },
        }
    }
}

/// What decoding a byte sequence at a precision returns.
pub open spec fn decode_spec(bytes: Seq<u8>, precision: nat) -> Result<
    Seq<ScaledCoord>,
    PolylineError,
> {
    if !precision_valid(precision) {
        Err(PolylineError::NumericCastFailure)
    } else {
        decode_rec(bytes, 0, 0, 0, pow10(precision) as int)
    }
}

/// Relies on `String::from_utf8`: bytes that are valid UTF-8 become a string
/// holding exactly those bytes, and ASCII bytes are valid UTF-8, one
/// character per byte.
#[verifier::external_body]
fn string_from_ascii_bytes(bytes: Vec<u8>) -> (r: String)
    requires
        forall|k: int| 0 <= k < bytes@.len() ==> bytes@[k] < 128,
    ensures
        r@ == ascii_chars_of(bytes@),
{
    match String::from_utf8(bytes) {
        Ok(s) => s,
        Err(_) => String::new(),
    }
}

/// The UTF-8 bytes of the ASCII characters of a byte sequence are that
/// sequence itself; a string of such characters carries exactly those bytes.
pub proof fn lemma_ascii_chars_bytes(bytes: Seq<u8>)
    requires
        forall|k: int| 0 <= k < bytes.len() ==> bytes[k] < 128,
    ensures
        encode_utf8(ascii_chars_of(bytes)) == bytes,
{
    let chars = ascii_chars_of(bytes);
    assert(is_ascii_chars(chars)) by {
        assert forall|i: int| 0 <= i < chars.len() implies '\0' <= #[trigger] chars[i]
            <= '\u{7f}' by {
            assert(chars[i] == bytes[i] as char);
        }
    }
    is_ascii_chars_encode_utf8(chars);
    assert(encode_utf8(chars) =~= bytes);
}

/// Encode an ordered sequence of scaled coordinates into a polyline.
///
/// The result is a pure function of the coordinates and the precision:
/// exactly the string whose characters are [`encode_spec`]'s bytes, or
/// exactly the error [`encode_spec`] names. An empty sequence encodes to an
/// empty string.
pub fn encode_coordinates(coordinates: &Vec<ScaledCoord>, precision: u32) -> (r: Result<
    String,
    PolylineError,
>)
    ensures
        match encode_spec(coordinates@, precision as nat) {
            Ok(bytes) => r matches Ok(s) && s@ == ascii_chars_of(bytes) && encode_utf8(s@)
                == bytes,
            Err(e) => r == Err::<String, PolylineError>(e),
        },
{
    let factor: i64 = match pow10_checked(precision) {
        Some(f) => f,
        None => {
            return Err(PolylineError::NumericCastFailure);
        },
    };
    let ghost f: int = factor as int;
    let mut output: Vec<u8> = Vec::new();
    let mut prev_x: i64 = 0;
    let mut prev_y: i64 = 0;
    let mut i: usize = 0;
    while i < coordinates.len()
        invariant
            i <= coordinates@.len(),
            1 <= factor <= 10_000_000_000_000_000,
            f == factor as int,
            precision_valid(precision as nat),
            f == pow10(precision as nat),
            lat_in_bounds(prev_y as int, f),
            lon_in_bounds(prev_x as int, f),
            encode_rec(coordinates@, 0, 0, f, 0) == match encode_rec(
                coordinates@,
                prev_x as int,
                prev_y as int,
                f,
                i as int,
            ) {
                Ok(rest) => Ok::<Seq<u8>, PolylineError>(output@ + rest),
                Err(e) => Err::<Seq<u8>, PolylineError>(e),
            },
            forall|k: int| 0 <= k < output@.len() ==> 63 <= #[trigger] output@[k] <= 126,
        decreases coordinates@.len() - i,
    {
        let c = coordinates[i];
        let bound_lat: i64 = 90 * factor;
        if c.y < -bound_lat || c.y > bound_lat {
            return Err(PolylineError::LatitudeCoordError { coord: c.y, idx: i });
        }
        let bound_lon: i64 = 180 * factor;
        if c.x < -bound_lon || c.x > bound_lon {
            return Err(PolylineError::LongitudeCoordError { coord: c.x, idx: i });
        }
        let ghost output_before = output@;
        encode(c.y - prev_y, &mut output);
        encode(c.x - prev_x, &mut output);
        proof {
            lemma_varint_bytes_range(zigzag(c.y - prev_y));
            lemma_varint_bytes_range(zigzag(c.x - prev_x));
            assert(output@ == output_before + varint_bytes(zigzag(c.y - prev_y)) + varint_bytes(
                zigzag(c.x - prev_x),
            ));
            assert(encode_rec(coordinates@, prev_x as int, prev_y as int, f, i as int)
                == match encode_rec(coordinates@, c.x as int, c.y as int, f, i + 1) {
                Ok(rest) => Ok::<Seq<u8>, PolylineError>(
                    varint_bytes(zigzag(c.y - prev_y)) + varint_bytes(zigzag(c.x - prev_x))
                        + rest,
                ),
                Err(e) => Err::<Seq<u8>, PolylineError>(e),
            });
            if let Ok(rest) = encode_rec(coordinates@, c.x as int, c.y as int, f, i + 1) {
                assert(output_before + (varint_bytes(zigzag(c.y - prev_y)) + varint_bytes(
                    zigzag(c.x - prev_x),
                ) + rest) =~= output@ + rest);
            }
        }
        prev_x = c.x;
        prev_y = c.y;
        i = i + 1;
    }
    proof {
        assert(encode_rec(coordinates@, prev_x as int, prev_y as int, f, i as int)
            == Ok::<Seq<u8>, PolylineError>(Seq::empty()));
        assert(output@ + Seq::<u8>::empty() =~= output@);
        lemma_ascii_chars_bytes(output@);
    }
    Ok(string_from_ascii_bytes(output))
}

/// Decode a polyline into its ordered sequence of scaled coordinates.
///
/// The result is a pure function of the string's bytes and the precision:
/// exactly the coordinates [`decode_spec`] lists, in the order the string
/// encodes them, or exactly the error [`decode_spec`] names. An empty
/// string decodes to an empty sequence.
pub fn decode_polyline(polyline: &str, precision: u32) -> (r: Result<
    Vec<ScaledCoord>,
    PolylineError,
>)
    ensures
        match r {
            Ok(coords) => decode_spec(polyline.spec_bytes(), precision as nat)
                == Ok::<Seq<ScaledCoord>, PolylineError>(coords@),
            Err(e) => decode_spec(polyline.spec_bytes(), precision as nat)
                == Err::<Seq<ScaledCoord>, PolylineError>(e),
        },
{
    let bytes: &[u8] = polyline.as_bytes();
    let factor: i64 = match pow10_checked(precision) {
        Some(f) => f,
        None => {
            return Err(PolylineError::NumericCastFailure);
        },
    };
    let ghost f: int = factor as int;
    let mut coordinates: Vec<ScaledCoord> = Vec::new();
    let mut scaled_lat: i64 = 0;
    let mut scaled_lon: i64 = 0;
    let mut cursor: usize = 0;
    while cursor < bytes.len()
        invariant
            cursor <= bytes@.len(),
            1 <= factor <= 10_000_000_000_000_000,
            f == factor as int,
            precision_valid(precision as nat),
            f == pow10(precision as nat),
            bytes@ == polyline.spec_bytes(),
            lat_in_bounds(scaled_lat as int, f),
            lon_in_bounds(scaled_lon as int, f),
            decode_rec(bytes@, 0, 0, 0, f) == match decode_rec(
                bytes@,
                cursor as int,
                scaled_lat as int,
                scaled_lon as int,
                f,
            ) {
                Ok(rest) => Ok::<Seq<ScaledCoord>, PolylineError>(coordinates@ + rest),
                Err(e) => Err::<Seq<ScaledCoord>, PolylineError>(e),
            },
        decreases bytes@.len() - cursor,
    {
        let lat_start = cursor;
        let (lat_delta, after_lat) = match decode_next(bytes, cursor) {
            Ok(p) => p,
            Err(e) => {
                return Err(e);
            },
        };
        proof {
            lemma2_to64();
            lemma2_to64_rest();
            lemma_parse_value_bound(bytes@, cursor as int, 0, 0);
            lemma_parse_advances(bytes@, cursor as int, 0, 0);
            if let VarintParse::Parsed { value, .. } = parse_varint(bytes@, cursor as int) {
                lemma_unzigzag_bound(value, pow2(59));
            }
        }
        let new_lat = scaled_lat + lat_delta;
        let bound_lat: i64 = 90 * factor;
        if new_lat < -bound_lat || new_lat > bound_lat {
            return Err(PolylineError::LatitudeCoordError { coord: new_lat, idx: lat_start });
        }
        if after_lat >= bytes.len() {
            return Err(PolylineError::NoLongError { idx: lat_start });
        }
        let (lon_delta, after_lon) = match decode_next(bytes, after_lat) {
            Ok(p) => p,
            Err(e) => {
                return Err(e);
            },
        };
        proof {
            lemma2_to64();
            lemma2_to64_rest();
            lemma_parse_value_bound(bytes@, after_lat as int, 0, 0);
            lemma_parse_advances(bytes@, after_lat as int, 0, 0);
            if let VarintParse::Parsed { value, .. } = parse_varint(bytes@, after_lat as int) {
                lemma_unzigzag_bound(value, pow2(59));
            }
        }
        let new_lon = scaled_lon + lon_delta;
        let bound_lon: i64 = 180 * factor;
        if new_lon < -bound_lon || new_lon > bound_lon {
            return Err(PolylineError::LongitudeCoordError { coord: new_lon, idx: after_lat });
        }
        let ghost coords_before = coordinates@;
        coordinates.push(ScaledCoord { x: new_lon, y: new_lat });
        proof {
            if let Ok(rest) = decode_rec(bytes@, after_lon as int, new_lat as int,
                new_lon as int, f) {
                assert(coords_before + (seq![ScaledCoord { x: new_lon, y: new_lat }] + rest)
                    =~= coordinates@ + rest);
            }
        }
        scaled_lat = new_lat;
        scaled_lon = new_lon;
        cursor = after_lon;
    }
    proof {
        assert(decode_rec(bytes@, cursor as int, scaled_lat as int, scaled_lon as int, f)
            == Ok::<Seq<ScaledCoord>, PolylineError>(Seq::empty()));
        assert(coordinates@ + Seq::<ScaledCoord>::empty() =~= coordinates@);
    }
    Ok(coordinates)
}

} // verus!
