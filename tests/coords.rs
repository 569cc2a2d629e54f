use point_cloud_viewer::coords::{field_in, parse_point3, PointParseError};
use point_cloud_viewer::stream::Point3;

#[test]
fn parses_three_coordinates() {
    assert_eq!(parse_point3("1 2 3"), Ok(Point3 { x: 1, y: 2, z: 3 }));
    assert_eq!(parse_point3("-500,0;+7"), Ok(Point3 { x: -500, y: 0, z: 7 }));
    assert_eq!(
        parse_point3("9223372036854775807 -9223372036854775808 0"),
        Ok(Point3 { x: i64::MAX, y: i64::MIN, z: 0 })
    );
}

#[test]
fn wrong_number_of_coordinates() {
    assert_eq!(parse_point3("1 2"), Err(PointParseError::WrongCount));
    assert_eq!(parse_point3("1 2 3 4"), Err(PointParseError::WrongCount));
}

#[test]
fn unparsable_coordinates() {
    assert_eq!(parse_point3("1 x 3"), Err(PointParseError::NotANumber));
    assert_eq!(parse_point3("1  2 3"), Err(PointParseError::NotANumber));
    assert_eq!(parse_point3(""), Err(PointParseError::NotANumber));
    assert_eq!(parse_point3("9223372036854775808 0 0"), Err(PointParseError::NotANumber));
    assert_eq!(parse_point3("1 2 x 4"), Err(PointParseError::NotANumber));
    assert_eq!(parse_point3("- 2 3"), Err(PointParseError::NotANumber));
}

#[test]
fn single_fields() {
    assert_eq!(field_in("a-12b", 1, 4), Some(-12));
    assert_eq!(field_in("+", 0, 1), None);
    assert_eq!(field_in("007", 0, 3), Some(7));
}
