use polyline::errors::PolylineError;
use polyline::{decode_polyline, encode_coordinates, ScaledCoord};

fn scaled(coords: &[[f64; 2]], precision: u32) -> Vec<ScaledCoord> {
    let factor = 10f64.powi(precision as i32);
    coords
        .iter()
        .map(|c| ScaledCoord {
            x: (c[0] * factor).round() as i64,
            y: (c[1] * factor).round() as i64,
        })
        .collect()
}

struct TestCase {
    input: Vec<ScaledCoord>,
    output: &'static str,
}

#[test]
fn precision5() {
    let test_cases = vec![
        TestCase {
            input: scaled(&[[2.0, 1.0], [4.0, 3.0]], 5),
            output: "_ibE_seK_seK_seK",
        },
        TestCase {
            input: scaled(&[[-120.2, 38.5], [-120.95, 40.7], [-126.453, 43.252]], 5),
            output: "_p~iF~ps|U_ulLnnqC_mqNvxq`@",
        },
    ];
    for test_case in test_cases {
        assert_eq!(
            encode_coordinates(&test_case.input, 5).unwrap(),
            test_case.output
        );
        assert_eq!(
            decode_polyline(test_case.output, 5).unwrap(),
            test_case.input
        );
    }
}

#[test]
fn precision6() {
    let test_cases = vec![
        TestCase {
            input: scaled(&[[2.0, 1.0], [4.0, 3.0]], 6),
            output: "_c`|@_gayB_gayB_gayB",
        },
        TestCase {
            input: scaled(&[[-120.2, 38.5], [-120.95, 40.7], [-126.453, 43.252]], 6),
            output: "_izlhA~rlgdF_{geC~ywl@_kwzCn`{nI",
        },
    ];
    for test_case in test_cases {
        assert_eq!(
            encode_coordinates(&test_case.input, 6).unwrap(),
            test_case.output
        );
        assert_eq!(
            decode_polyline(test_case.output, 6).unwrap(),
            test_case.input
        );
    }
}

#[test]
// coordinates close to each other (below precision) should work
fn rounding_error() {
    let poly = "cr_iI}co{@?dB";
    let res = scaled(&[[9.9131118, 54.0702648], [9.9126013, 54.0702578]], 5);
    assert_eq!(encode_coordinates(&res, 5).unwrap(), poly);
    assert_eq!(
        decode_polyline(poly, 5).unwrap(),
        scaled(&[[9.91311, 54.07026], [9.91260, 54.07026]], 5)
    );
}

#[test]
fn broken_string_f64() {
    let s = "_p~iF~ps|U_u🗑lLnnqC_mqNvxq`@";
    let err = decode_polyline(s, 5).unwrap_err();
    match err {
        PolylineError::LatitudeCoordError { coord, idx } => {
            assert_eq!(coord, 230636053104);
            assert_eq!(idx, 10);
        }
        _ => panic!("Got wrong error"),
    }
}

#[test]
fn broken_string_f32() {
    let s = "_p~iF~ps|U_u🗑lLnnqC_mqNvxq`@";
    let err = decode_polyline(s, 5).unwrap_err();
    match err {
        PolylineError::LatitudeCoordError { coord, idx } => {
            assert_eq!(coord, 230636053104);
            assert_eq!(idx, 10);
        }
        _ => panic!("Got wrong error"),
    }
}

#[test]
fn invalid_string_f64() {
    let s = "invalid_polyline_that_should_be_handled_gracefully";
    let err = decode_polyline(s, 5).unwrap_err();
    match err {
        PolylineError::DecodeError { idx } => assert_eq!(idx, 12),
        _ => panic!("Got wrong error"),
    }
}

#[test]
fn invalid_string_f32() {
    let s = "invalid_polyline_that_should_be_handled_gracefully";
    let err = decode_polyline(s, 5).unwrap_err();
    match err {
        PolylineError::DecodeError { idx } => assert_eq!(idx, 12),
        _ => panic!("Got wrong error"),
    }
}

#[test]
fn another_invalid_string_f64() {
    let s = "ugh_ugh";
    let err = decode_polyline(s, 5).unwrap_err();
    match err {
        PolylineError::LatitudeCoordError { coord, idx } => {
            assert_eq!(coord, 4977595019);
            assert_eq!(idx, 0);
        }
        _ => panic!("Got wrong error"),
    }
}

#[test]
fn another_invalid_string_f32() {
    let s = "ugh_ugh";
    let err = decode_polyline(s, 5).unwrap_err();
    match err {
        PolylineError::LatitudeCoordError { coord, idx } => {
            assert_eq!(coord, 4977595019);
            assert_eq!(idx, 0);
        }
        _ => panic!("Got wrong error"),
    }
}

#[test]
fn bad_coords_f64() {
    // Can't have a latitude > 90.0
    let res = scaled(&[[-120.2, 38.5], [-120.95, 40.7], [-126.453, 430.252]], 5);
    let err = encode_coordinates(&res, 5).unwrap_err();
    match err {
        PolylineError::LatitudeCoordError { coord, idx } => {
            assert_eq!(coord, 43025200);
            assert_eq!(idx, 2);
        }
        _ => panic!("Got wrong error"),
    }
}

#[test]
fn bad_coords_f32() {
    // Can't have a latitude > 90.0
    let res = scaled(&[[-120.2, 38.5], [-120.95, 40.7], [-126.453, 430.252]], 5);
    let err = encode_coordinates(&res, 5).unwrap_err();
    match err {
        PolylineError::LatitudeCoordError { coord, idx } => {
            assert_eq!(coord, 43025200);
            assert_eq!(idx, 2);
        }
        _ => panic!("Got wrong error"),
    }
}

#[test]
fn should_not_trigger_overflow_f64() {
    // A long precision-6 route: thousands of coordinate pairs whose deltas
    // swing back and forth, decoded in one call.
    let route = "_ibE~hbE~hbE_ibE".repeat(600);
    decode_polyline(&route, 6).unwrap();
}

#[test]
fn should_not_trigger_overflow_f32() {
    let route = "_ibE~hbE~hbE_ibE".repeat(600);
    decode_polyline(&route, 6).unwrap();
}

#[test]
fn limits_f64() {
    let res = scaled(&[[-180.0, -90.0], [180.0, 90.0], [0.0, 0.0]], 6);
    let polyline = "~fdtjD~niivI_oiivI__tsmT~fdtjD~niivI";
    assert_eq!(encode_coordinates(&res, 6).unwrap(), polyline);
    assert_eq!(decode_polyline(polyline, 6).unwrap(), res);
}

#[test]
fn limits_f32() {
    let res = scaled(&[[-180.0, -90.0], [180.0, 90.0], [0.0, 0.0]], 6);
    let polyline = "~fdtjD~niivI_oiivI__tsmT~fdtjD~niivI";
    assert_eq!(encode_coordinates(&res, 6).unwrap(), polyline);
    assert_eq!(decode_polyline(polyline, 6).unwrap(), res);
}

#[test]
fn truncated() {
    let input = scaled(&[[2.0, 1.0], [4.0, 3.0]], 5);
    let polyline = "_ibE_seK_seK_seK";
    assert_eq!(encode_coordinates(&input, 5).unwrap(), polyline);
    assert_eq!(decode_polyline(polyline, 5).unwrap(), input);

    let truncated_polyline = "_ibE_seK_seK";
    let err = decode_polyline(truncated_polyline, 5).unwrap_err();
    match err {
        PolylineError::NoLongError { idx } => {
            assert_eq!(idx, 8);
        }
        _ => panic!("Got wrong error"),
    }
}

#[test]
fn truncated_f32() {
    let input = scaled(&[[2.0, 1.0], [4.0, 3.0]], 5);
    let polyline = "_ibE_seK_seK_seK";
    assert_eq!(encode_coordinates(&input, 5).unwrap(), polyline);
    assert_eq!(decode_polyline(polyline, 5).unwrap(), input);

    let truncated_polyline = "_ibE_seK_seK";
    let err = decode_polyline(truncated_polyline, 5).unwrap_err();
    match err {
        PolylineError::NoLongError { idx } => {
            assert_eq!(idx, 8);
        }
        _ => panic!("Got wrong error"),
    }
}
