//! The laws the codec obeys, proved against the specification functions
//! that the encode and decode contracts are stated over.
//!
//! Determinism needs no lemma of its own: [`crate::codec::encode_coordinates`]
//! and [`crate::codec::decode_polyline`] each ensure that their result equals
//! a specification function of their inputs alone, so two calls on equal
//! inputs return equal results.

use vstd::prelude::*;
use vstd::arithmetic::power2::{lemma2_to64, lemma2_to64_rest, pow2};
use crate::codec::{
    coord_in_bounds, decode_rec, decode_spec, encode_rec, encode_spec, lat_in_bounds,
    lon_in_bounds, pow10, precision_valid, ScaledCoord,
};
use crate::errors::PolylineError;
use crate::varint::{
    lemma_parse_at, lemma_varint_bytes_range, lemma_zigzag_bound, lemma_zigzag_roundtrip,
    parse_varint, parse_varint_from, unzigzag, varint_bytes, zigzag, VarintParse,
};

verus! {

/// Every delta the encoder would emit from position `i` on, starting from
/// the previous scaled coordinate `(px, py)`, packs into groups that the
/// unpacker's 64-bit accumulator guard admits.
pub open spec fn deltas_encodable(coords: Seq<ScaledCoord>, px: int, py: int, i: int) -> bool
    decreases coords.len() - i,
{
    i >= coords.len() || {
        &&& zigzag(coords[i].y - py) < pow2(60)
        &&& zigzag(coords[i].x - px) < pow2(60)
        &&& deltas_encodable(coords, coords[i].x as int, coords[i].y as int, i + 1)
    }
}

/// The scaled latitude the decoder's running total holds after the
/// coordinates from position `i` on: the last one's, or `py` if there are
/// none.
pub open spec fn end_lat(coords: Seq<ScaledCoord>, i: int, py: int) -> int {
    if i < coords.len() {
        coords[coords.len() - 1].y as int
    } else {
        py
    }
}

/// The scaled longitude counterpart of [`end_lat`].
pub open spec fn end_lon(coords: Seq<ScaledCoord>, i: int, px: int) -> int {
    if i < coords.len() {
        coords[coords.len() - 1].x as int
    } else {
        px
    }
}

/// Encoding succeeds on a sequence whose coordinates are all in range.
pub proof fn lemma_encode_rec_ok(
    coords: Seq<ScaledCoord>,
    px: int,
    py: int,
    factor: int,
    i: int,
)
    requires
        0 <= i <= coords.len(),
        forall|k: int| i <= k < coords.len() ==> coord_in_bounds(#[trigger] coords[k], factor),
    ensures
        encode_rec(coords, px, py, factor, i) is Ok,
    decreases coords.len() - i,
{
    if i < coords.len() {
        lemma_encode_rec_ok(coords, coords[i].x as int, coords[i].y as int, factor, i + 1);
    }
}

/// Decoding the encoder's bytes, wherever they sit inside a longer input,
/// walks through exactly the encoded coordinates and carries on after them
/// with the running totals at the last coordinate.
proof fn lemma_decode_of_encoding(
    bytes: Seq<u8>,
    p: int,
    coords: Seq<ScaledCoord>,
    i: int,
    px: int,
    py: int,
    factor: int,
    enc: Seq<u8>,
)
    requires
        factor >= 1,
        0 <= i <= coords.len(),
        forall|k: int| i <= k < coords.len() ==> coord_in_bounds(#[trigger] coords[k], factor),
        lat_in_bounds(py, factor),
        lon_in_bounds(px, factor),
        deltas_encodable(coords, px, py, i),
        encode_rec(coords, px, py, factor, i) == Ok::<Seq<u8>, PolylineError>(enc),
        0 <= p,
        p + enc.len() <= bytes.len(),
        bytes.subrange(p, p + enc.len() as int) == enc,
    ensures
        decode_rec(bytes, p, py, px, factor) == match decode_rec(
            bytes,
            p + enc.len(),
            end_lat(coords, i, py),
            end_lon(coords, i, px),
            factor,
        ) {
            Ok(rest) => Ok::<Seq<ScaledCoord>, PolylineError>(coords.skip(i) + rest),
            Err(e) => Err::<Seq<ScaledCoord>, PolylineError>(e),
        },
    decreases coords.len() - i,
{
    lemma2_to64();
    lemma2_to64_rest();
    if i >= coords.len() {
        assert(enc =~= Seq::<u8>::empty());
        match decode_rec(bytes, p, py, px, factor) {
            Ok(rest) => {
                assert(coords.skip(i) + rest =~= rest);
            },
            Err(_) => {},
        }
    } else {
        let c = coords[i];
        let dy = c.y - py;
        let dx = c.x - px;
        let latb = varint_bytes(zigzag(dy));
        let lonb = varint_bytes(zigzag(dx));
        lemma_varint_bytes_range(zigzag(dy));
        lemma_varint_bytes_range(zigzag(dx));
        let rest_enc = encode_rec(coords, c.x as int, c.y as int, factor, i + 1)->Ok_0;
        assert(encode_rec(coords, c.x as int, c.y as int, factor, i + 1) is Ok);
        assert(enc == latb + lonb + rest_enc);

        // The latitude varint sits at `p`.
        assert(bytes.subrange(p, p + latb.len() as int) == latb) by {
            assert forall|k: int| 0 <= k < latb.len() implies bytes.subrange(
                p,
                p + latb.len() as int,
            )[k] == latb[k] by {
                assert(bytes.subrange(p, p + enc.len() as int)[k] == bytes[p + k]);
                assert(enc[k] == latb[k]);
            }
            assert(bytes.subrange(p, p + latb.len() as int) =~= latb);
        }
        lemma_parse_at(bytes, p, zigzag(dy), 0, 0);
        assert(zigzag(dy) * pow2(0) == zigzag(dy));
        let p2 = p + latb.len();
        assert(parse_varint(bytes, p) == (VarintParse::Parsed {
            value: zigzag(dy),
            next: p2,
        }));
        lemma_zigzag_roundtrip(dy);
        assert(py + unzigzag(zigzag(dy)) == c.y as int);

        // The longitude varint follows at `p2`, and is not past the end.
        assert(bytes.subrange(p2, p2 + lonb.len() as int) == lonb) by {
            assert forall|k: int| 0 <= k < lonb.len() implies bytes.subrange(
                p2,
                p2 + lonb.len() as int,
            )[k] == lonb[k] by {
                assert(bytes.subrange(p, p + enc.len() as int)[latb.len() + k] == bytes[p2 + k]);
                assert(enc[latb.len() + k] == lonb[k]);
            }
            assert(bytes.subrange(p2, p2 + lonb.len() as int) =~= lonb);
        }
        lemma_parse_at(bytes, p2, zigzag(dx), 0, 0);
        assert(zigzag(dx) * pow2(0) == zigzag(dx));
        let p3 = p2 + lonb.len();
        assert(parse_varint(bytes, p2) == (VarintParse::Parsed {
            value: zigzag(dx),
            next: p3,
        }));
        lemma_zigzag_roundtrip(dx);
        assert(px + unzigzag(zigzag(dx)) == c.x as int);

        // The rest of the encoding follows at `p3`.
        let rest_len = rest_enc.len();
        assert(bytes.subrange(p3, p3 + rest_len as int) == rest_enc) by {
            assert forall|k: int| 0 <= k < rest_len implies bytes.subrange(
                p3,
                p3 + rest_len as int,
            )[k] == rest_enc[k] by {
                assert(bytes.subrange(p, p + enc.len() as int)[latb.len() + lonb.len() + k]
                    == bytes[p3 + k]);
                assert(enc[latb.len() + lonb.len() + k] == rest_enc[k]);
            }
            assert(bytes.subrange(p3, p3 + rest_len as int) =~= rest_enc);
        }
        lemma_decode_of_encoding(
            bytes,
            p3,
            coords,
            i + 1,
            c.x as int,
            c.y as int,
            factor,
            rest_enc,
        );

        assert(end_lat(coords, i + 1, c.y as int) == end_lat(coords, i, py));
        assert(end_lon(coords, i + 1, c.x as int) == end_lon(coords, i, px));
        assert(p3 + rest_len == p + enc.len());

        match decode_rec(
            bytes,
            p + enc.len(),
            end_lat(coords, i, py),
            end_lon(coords, i, px),
            factor,
        ) {
            Ok(rest) => {
                assert(decode_rec(bytes, p3, c.y as int, c.x as int, factor)
                    == Ok::<Seq<ScaledCoord>, PolylineError>(coords.skip(i + 1) + rest));
                assert(seq![c] + (coords.skip(i + 1) + rest) =~= coords.skip(i) + rest);
            },
            Err(_) => {},
        }
    }
}

/// Round trip and order preservation: a sequence of in-range scaled
/// coordinates whose deltas the unpacker admits encodes successfully, and
/// decoding those bytes at the same precision returns exactly the same
/// coordinates in the same order.
pub proof fn lemma_encode_decode_roundtrip(coords: Seq<ScaledCoord>, precision: nat)
    requires
        precision_valid(precision),
        forall|k: int|
            0 <= k < coords.len() ==> coord_in_bounds(
                #[trigger] coords[k],
                pow10(precision) as int,
            ),
        deltas_encodable(coords, 0, 0, 0),
    ensures
        encode_spec(coords, precision) matches Ok(bytes) && decode_spec(bytes, precision)
            == Ok::<Seq<ScaledCoord>, PolylineError>(coords),
{
    let factor = pow10(precision) as int;
    assert(factor >= 1) by {
        crate::codec::lemma_pow10_increases(0, precision);
    }
    lemma_encode_rec_ok(coords, 0, 0, factor, 0);
    let enc = encode_rec(coords, 0, 0, factor, 0)->Ok_0;
    assert(enc.subrange(0, enc.len() as int) =~= enc);
    lemma_decode_of_encoding(enc, 0, coords, 0, 0, 0, factor, enc);
    assert(decode_rec(enc, enc.len() as int, end_lat(coords, 0, 0), end_lon(coords, 0, 0), factor)
        == Ok::<Seq<ScaledCoord>, PolylineError>(Seq::empty()));
    assert(coords.skip(0) + Seq::<ScaledCoord>::empty() =~= coords);
}

/// At scale factors up to `10^15` the unpacker admits every delta between
/// in-range coordinates, so the round-trip premises hold of bounds alone.
pub proof fn lemma_bounded_deltas_encodable(
    coords: Seq<ScaledCoord>,
    px: int,
    py: int,
    i: int,
    factor: int,
)
    requires
        1 <= factor,
        720 * factor < pow2(60),
        0 <= i <= coords.len(),
        forall|k: int| i <= k < coords.len() ==> coord_in_bounds(#[trigger] coords[k], factor),
        lat_in_bounds(py, factor),
        lon_in_bounds(px, factor),
    ensures
        deltas_encodable(coords, px, py, i),
    decreases coords.len() - i,
{
    if i < coords.len() {
        let c = coords[i];
        lemma_zigzag_bound(c.y - py, 180 * factor);
        lemma_zigzag_bound(c.x - px, 360 * factor);
        lemma_bounded_deltas_encodable(coords, c.x as int, c.y as int, i + 1, factor);
    }
}

/// Round trip from bounds alone: at any precision up to 15, every sequence
/// of in-range scaled coordinates encodes successfully and decodes back to
/// exactly itself.
pub proof fn lemma_encode_decode_roundtrip_small_precision(
    coords: Seq<ScaledCoord>,
    precision: nat,
)
    requires
        precision <= 15,
        forall|k: int|
            0 <= k < coords.len() ==> coord_in_bounds(
                #[trigger] coords[k],
                pow10(precision) as int,
            ),
    ensures
        encode_spec(coords, precision) matches Ok(bytes) && decode_spec(bytes, precision)
            == Ok::<Seq<ScaledCoord>, PolylineError>(coords),
{
    let factor = pow10(precision) as int;
    crate::codec::lemma_precision_valid_iff(precision);
    assert(factor >= 1) by {
        crate::codec::lemma_pow10_increases(0, precision);
    }
    assert(720 * factor < pow2(60)) by {
        crate::codec::lemma_pow10_increases(precision, 15);
        assert(pow10(15) == 1_000_000_000_000_000) by {
            reveal_with_fuel(pow10, 16);
        }
        lemma2_to64_rest();
    }
    lemma_bounded_deltas_encodable(coords, 0, 0, 0, factor);
    lemma_encode_decode_roundtrip(coords, precision);
}

/// Validation precedence: when the coordinate at position `k` is the first
/// one out of range, encoding reports exactly that coordinate at exactly
/// that index, checking its latitude before its longitude.
pub proof fn lemma_encode_validation_precedence(
    coords: Seq<ScaledCoord>,
    precision: nat,
    k: int,
)
    requires
        precision_valid(precision),
        0 <= k < coords.len(),
        !coord_in_bounds(coords[k], pow10(precision) as int),
        forall|j: int|
            0 <= j < k ==> coord_in_bounds(#[trigger] coords[j], pow10(precision) as int),
    ensures
        encode_spec(coords, precision) == (if !lat_in_bounds(
            coords[k].y as int,
            pow10(precision) as int,
        ) {
            Err::<Seq<u8>, PolylineError>(
                PolylineError::LatitudeCoordError { coord: coords[k].y, idx: k as usize },
            )
        } else {
            Err::<Seq<u8>, PolylineError>(
                PolylineError::LongitudeCoordError { coord: coords[k].x, idx: k as usize },
            )
        }),
{
    lemma_encode_rec_first_invalid(coords, 0, 0, pow10(precision) as int, 0, k);
}

/// The induction behind [`lemma_encode_validation_precedence`], over any
/// starting position and previous coordinate.
proof fn lemma_encode_rec_first_invalid(
    coords: Seq<ScaledCoord>,
    px: int,
    py: int,
    factor: int,
    i: int,
    k: int,
)
    requires
        0 <= i <= k < coords.len(),
        !coord_in_bounds(coords[k], factor),
        forall|j: int| i <= j < k ==> coord_in_bounds(#[trigger] coords[j], factor),
    ensures
        encode_rec(coords, px, py, factor, i) == (if !lat_in_bounds(coords[k].y as int, factor) {
            Err::<Seq<u8>, PolylineError>(
                PolylineError::LatitudeCoordError { coord: coords[k].y, idx: k as usize },
            )
        } else {
            Err::<Seq<u8>, PolylineError>(
                PolylineError::LongitudeCoordError { coord: coords[k].x, idx: k as usize },
            )
        }),
    decreases coords.len() - i,
{
    if i < k {
        lemma_encode_rec_first_invalid(
            coords,
            coords[i].x as int,
            coords[i].y as int,
            factor,
            i + 1,
            k,
        );
    }
}

/// Truncation: append one more valid latitude varint after a well-formed
/// encoding and decoding fails with `NoLongError` at the byte index where
/// that dangling latitude began.
pub proof fn lemma_truncated_polyline(coords: Seq<ScaledCoord>, precision: nat, d: int)
    requires
        precision_valid(precision),
        forall|k: int|
            0 <= k < coords.len() ==> coord_in_bounds(
                #[trigger] coords[k],
                pow10(precision) as int,
            ),
        deltas_encodable(coords, 0, 0, 0),
        zigzag(d) < pow2(60),
        lat_in_bounds(end_lat(coords, 0, 0) + d, pow10(precision) as int),
    ensures
        encode_spec(coords, precision) matches Ok(enc) && decode_spec(
            enc + varint_bytes(zigzag(d)),
            precision,
        ) == Err::<Seq<ScaledCoord>, PolylineError>(
            PolylineError::NoLongError { idx: enc.len() as usize },
        ),
{
    let factor = pow10(precision) as int;
    assert(factor >= 1) by {
        crate::codec::lemma_pow10_increases(0, precision);
    }
    lemma_encode_rec_ok(coords, 0, 0, factor, 0);
    let enc = encode_rec(coords, 0, 0, factor, 0)->Ok_0;
    let tail = varint_bytes(zigzag(d));
    lemma_varint_bytes_range(zigzag(d));
    let bytes = enc + tail;
    assert(bytes.subrange(0, enc.len() as int) =~= enc);
    lemma_decode_of_encoding(bytes, 0, coords, 0, 0, 0, factor, enc);
    // The dangling latitude parses and validates, and then the input ends.
    assert(bytes.subrange(enc.len() as int, (enc.len() + tail.len()) as int) =~= tail);
    lemma_parse_at(bytes, enc.len() as int, zigzag(d), 0, 0);
    lemma2_to64();
    assert(zigzag(d) * pow2(0) == zigzag(d));
    crate::varint::lemma_zigzag_roundtrip(d);
    assert(parse_varint(bytes, enc.len() as int) == (VarintParse::Parsed {
        value: zigzag(d),
        next: bytes.len() as int,
    }));
    assert(decode_rec(bytes, enc.len() as int, end_lat(coords, 0, 0), end_lon(coords, 0, 0), factor)
        == Err::<Seq<ScaledCoord>, PolylineError>(
        PolylineError::NoLongError { idx: enc.len() as usize },
    ));
}

/// A successfully decoded polyline contains no byte below 63: the unpacker
/// rejects any such byte.
pub proof fn lemma_decode_ok_bytes_valid(bytes: Seq<u8>, precision: nat)
    requires
        decode_spec(bytes, precision) is Ok,
    ensures
        forall|k: int| 0 <= k < bytes.len() ==> #[trigger] bytes[k] >= 63,
{
    lemma_decode_rec_ok_bytes(bytes, 0, 0, 0, pow10(precision) as int);
}

/// The induction behind [`lemma_decode_ok_bytes_valid`].
proof fn lemma_decode_rec_ok_bytes(bytes: Seq<u8>, pos: int, lat: int, lon: int, factor: int)
    requires
        0 <= pos,
        decode_rec(bytes, pos, lat, lon, factor) is Ok,
    ensures
        forall|k: int| pos <= k < bytes.len() ==> #[trigger] bytes[k] >= 63,
    decreases bytes.len() - pos,
{
    if pos < bytes.len() {
        match parse_varint(bytes, pos) {
            VarintParse::Failed { .. } => {},
            VarintParse::Parsed { value: v, next: p2 } => {
                let lat2 = lat + unzigzag(v);
                crate::varint::lemma_parse_advances(bytes, pos, 0, 0);
                lemma_parse_ok_bytes(bytes, pos, 0, 0);
                match parse_varint(bytes, p2) {
                    VarintParse::Failed { .. } => {},
                    VarintParse::Parsed { value: w, next: p3 } => {
                        let lon2 = lon + unzigzag(w);
                        crate::varint::lemma_parse_advances(bytes, p2, 0, 0);
                        lemma_parse_ok_bytes(bytes, p2, 0, 0);
                        lemma_decode_rec_ok_bytes(bytes, p3, lat2, lon2, factor);
                    },
                }
            },
        }
    }
}

/// Bytes inside a successfully unpacked varint are all at least 63.
proof fn lemma_parse_ok_bytes(bytes: Seq<u8>, i: int, shift: nat, acc: nat)
    ensures
        parse_varint_from(bytes, i, shift, acc) matches VarintParse::Parsed { next, .. }
            ==> forall|k: int| i <= k < next ==> #[trigger] bytes[k] >= 63,
    decreases bytes.len() - i,
{
    if i < bytes.len() && !(bytes[i] < 63 || shift > 59) {
        let group = (bytes[i] - 63) as nat;
        let acc2 = acc + (group % 32) * pow2(shift);
        if group >= 32 {
            lemma_parse_ok_bytes(bytes, i + 1, (shift + 5) as nat, acc2);
            crate::varint::lemma_parse_advances(bytes, i + 1, (shift + 5) as nat, acc2);
        }
    }
}

} // verus!

