use wasm_fractals::color::color_for;
use wasm_fractals::escape::{escape_outcome, result_code};

#[test]
fn zero_cap_reports_membership() {
    assert_eq!(escape_outcome(0, 0), None);
    assert_eq!(escape_outcome(7, 0), None);
}

#[test]
fn reaching_the_cap_reports_membership() {
    assert_eq!(escape_outcome(100000, 100000), None);
}

#[test]
fn stopping_before_the_cap_reports_the_count() {
    assert_eq!(escape_outcome(1, 100000), Some(1));
    assert_eq!(escape_outcome(99999, 100000), Some(99999));
}

#[test]
fn result_codes() {
    assert_eq!(result_code(None), -1);
    assert_eq!(result_code(Some(0)), 0);
    assert_eq!(result_code(Some(42)), 42);
    assert_eq!(result_code(Some(2147483647)), 2147483647);
}

#[test]
fn member_is_white() {
    let shades: Vec<u8> = vec![0, 100, 200];
    assert_eq!(color_for(None, &shades), (255, 255, 255));
    assert_eq!(color_for(None, &[]), (255, 255, 255));
}

#[test]
fn escaping_point_takes_half_and_third_of_its_shade() {
    let shades: Vec<u8> = vec![0, 100, 200, 255, 1];
    assert_eq!(color_for(Some(0), &shades), (0, 0, 0));
    assert_eq!(color_for(Some(1), &shades), (50, 0, 33));
    assert_eq!(color_for(Some(2), &shades), (100, 0, 66));
    assert_eq!(color_for(Some(3), &shades), (127, 0, 85));
    assert_eq!(color_for(Some(4), &shades), (0, 0, 0));
}
