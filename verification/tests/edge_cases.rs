use polyline::errors::PolylineError;
use polyline::{decode_polyline, encode_coordinates, ScaledCoord};

#[test]
fn empty_sequence_encodes_to_empty_string() {
    let coords: Vec<ScaledCoord> = vec![];
    assert_eq!(encode_coordinates(&coords, 5).unwrap(), "");
}

#[test]
fn empty_string_decodes_to_empty_sequence() {
    assert_eq!(decode_polyline("", 5).unwrap(), vec![]);
}

#[test]
fn bad_longitude_on_encode() {
    // 200.5 degrees of longitude at precision 5
    let coords = vec![ScaledCoord { x: 20050000, y: 0 }];
    let err = encode_coordinates(&coords, 5).unwrap_err();
    match err {
        PolylineError::LongitudeCoordError { coord, idx } => {
            assert_eq!(coord, 20050000);
            assert_eq!(idx, 0);
        }
        _ => panic!("Got wrong error"),
    }
}

#[test]
fn latitude_checked_before_longitude() {
    // Both components out of range: the latitude is the one reported.
    let coords = vec![ScaledCoord { x: 20000000, y: 10000000 }];
    let err = encode_coordinates(&coords, 5).unwrap_err();
    match err {
        PolylineError::LatitudeCoordError { coord, idx } => {
            assert_eq!(coord, 10000000);
            assert_eq!(idx, 0);
        }
        _ => panic!("Got wrong error"),
    }
}

#[test]
fn bad_longitude_on_decode() {
    // A zero latitude delta followed by a 200-degree longitude delta.
    let err = decode_polyline("?_ouce@", 5).unwrap_err();
    match err {
        PolylineError::LongitudeCoordError { coord, idx } => {
            assert_eq!(coord, 20000000);
            assert_eq!(idx, 1);
        }
        _ => panic!("Got wrong error"),
    }
}

#[test]
fn low_byte_reports_exact_index() {
    // A space (byte 32) where the longitude varint should start.
    let err = decode_polyline("_ibE _seK", 5).unwrap_err();
    match err {
        PolylineError::DecodeError { idx } => assert_eq!(idx, 4),
        _ => panic!("Got wrong error"),
    }
}

#[test]
fn unrepresentable_precision_on_encode() {
    // 180 * 10^17 does not fit a signed 64-bit scaled integer.
    let coords = vec![ScaledCoord { x: 0, y: 0 }];
    assert_eq!(
        encode_coordinates(&coords, 17).unwrap_err(),
        PolylineError::NumericCastFailure
    );
}

#[test]
fn unrepresentable_precision_on_decode() {
    assert_eq!(
        decode_polyline("_ibE_seK", 17).unwrap_err(),
        PolylineError::NumericCastFailure
    );
}

#[test]
fn largest_precision_round_trips() {
    // One degree at precision 16 is 10^16 scaled units.
    let coords = vec![
        ScaledCoord { x: 10_000_000_000_000_000, y: -10_000_000_000_000_000 },
        ScaledCoord { x: 9_999_999_999_999_999, y: -9_999_999_999_999_999 },
    ];
    let encoded = encode_coordinates(&coords, 16).unwrap();
    assert_eq!(decode_polyline(&encoded, 16).unwrap(), coords);
}

#[test]
fn oversized_delta_is_rejected_on_decode() {
    // At precision 16 a longitude swing from -180 to 180 degrees packs into
    // more five-bit groups than the decoder's 64-bit accumulator guard
    // admits, so the encoder's own output is refused at the byte where the
    // guard trips.
    let coords = vec![
        ScaledCoord { x: -1_800_000_000_000_000_000, y: 0 },
        ScaledCoord { x: 1_800_000_000_000_000_000, y: 0 },
    ];
    let encoded = encode_coordinates(&coords, 16).unwrap();
    let err = decode_polyline(&encoded, 16).unwrap_err();
    match err {
        PolylineError::DecodeError { .. } => {}
        _ => panic!("Got wrong error"),
    }
}

#[test]
fn zigzag_keeps_small_magnitudes_small() {
    // A one-unit move in any direction costs one byte per component.
    let coords = vec![
        ScaledCoord { x: 1, y: -1 },
        ScaledCoord { x: 0, y: 0 },
    ];
    let encoded = encode_coordinates(&coords, 5).unwrap();
    assert_eq!(encoded, "@AA@");
    assert_eq!(decode_polyline(&encoded, 5).unwrap(), coords);
}
