use polyline::array::{arr_from_string, string_from_arr, Array};
use polyline::ScaledCoord;

// The buffer holds pairs in (lat, lon) = (y, x) order when read as the
// boundary's [lat, lon] arrays: [[1.0, 2.0]] at precision 5 is the scaled
// coordinate { x: 200000, y: 100000 }.
fn sample_coords() -> Vec<ScaledCoord> {
    vec![
        ScaledCoord { x: 200000, y: 100000 },
        ScaledCoord { x: 400000, y: 300000 },
    ]
}

#[test]
fn test_array_conversion() {
    let original = sample_coords();
    // move into an Array
    let arr: Array = original.into();
    // and look at what it carries
    assert_eq!(arr.data[0], ScaledCoord { x: 200000, y: 100000 });
    assert_eq!(arr.len, 2);
}

#[test]
fn test_coordinate_conversion() {
    let input_arr: Array = sample_coords().into();
    let output = "_ibE_seK_seK_seK";
    let transformed = string_from_arr(&input_arr, 5).unwrap();
    assert_eq!(transformed, output);
}

#[test]
fn test_string_conversion() {
    let input = "_ibE_seK_seK_seK";
    let output = sample_coords();
    // String to Array
    let transformed: Array = arr_from_string(input, 5).unwrap();
    assert_eq!(transformed.data, output);
    assert_eq!(transformed.len, 2);
}

#[test]
#[should_panic]
fn test_bad_string_conversion() {
    let input = "_p~iF~ps|U_u🗑lLnnqC_mqNvxq`@";
    // String to Array: fails, because the string does not decode
    let transformed = arr_from_string(input, 5);
    let arr = transformed.unwrap();
    assert_eq!(arr.data, sample_coords());
}
