use conways::parser::{
    parse_arguments, parse_points_arguments, parse_random_arguments, point_from_str,
};
use conways::point::Point;

#[test]
fn can_create_correct_ammount_of_random_points() {
    let random_points = parse_random_arguments("100,0,5".into()).unwrap();

    assert_eq!(random_points.len(), 5);
}

#[test]
fn can_not_create_points_with_missing_arguments() {
    let random_points = parse_random_arguments("100,5".into());

    assert!(random_points.is_err());
}

#[test]
fn can_not_create_points_with_wrong_type_of_arguments() {
    let random_points = parse_random_arguments("hi,100,5".into());

    assert!(random_points.is_err());
}

#[test]
fn can_not_create_points_with_min_value_bigger_than_max_value() {
    let random_points = parse_random_arguments("10,100,5".into());

    assert!(random_points.is_err());
}

#[test]
fn can_not_create_points_with_negative_ammout_of_points() {
    let random_points = parse_random_arguments("10,100,-1".into());

    assert!(random_points.is_err());
}

#[test]
fn can_create_a_point_from_string() {
    let point = point_from_str("5,5").unwrap();

    assert_eq!(point.x_position, 5);
    assert_eq!(point.y_position, 5);
}

#[test]
fn can_not_create_point_from_missing_position() {
    let point = point_from_str("5");

    assert!(point.is_err())
}

#[test]
fn can_not_create_point_from_wrong_type() {
    let point = point_from_str("hi,5");

    assert!(point.is_err())
}

#[test]
fn random_points_respect_the_requested_bounds() {
    let random_points = parse_random_arguments("7,-3,20".into()).unwrap();

    assert_eq!(random_points.len(), 20);
    for p in random_points {
        assert!(-3 <= p.x_position && p.x_position < 7);
        assert!(-3 <= p.y_position && p.y_position < 7);
    }
}

#[test]
fn a_points_list_parses_into_its_cells_in_order() {
    let points = parse_points_arguments("0,0:1,0:1,1".into()).unwrap();

    assert_eq!(
        points,
        vec![Point::new(0, 0), Point::new(1, 0), Point::new(1, 1)]
    );
}

#[test]
fn an_empty_points_list_is_rejected() {
    let points = parse_points_arguments("".into());

    assert_eq!(points.unwrap_err(), "No arguments provided");
}

#[test]
fn the_first_broken_piece_decides_the_error() {
    let points = parse_points_arguments("1,2:oops:3,4".into());

    assert_eq!(
        points.unwrap_err(),
        "Bad format creating a Point, should be x_position,y_position"
    );

    let points = parse_points_arguments("1,2:a,5:b,6".into());

    assert_eq!(points.unwrap_err(), "The x_position should be an integer");
}

#[test]
fn signed_and_extreme_coordinates_parse_exactly() {
    let point = point_from_str("-2147483648,+2147483647").unwrap();

    assert_eq!(point.x_position, i32::MIN);
    assert_eq!(point.y_position, i32::MAX);
}

#[test]
fn a_coordinate_outside_the_i32_range_is_rejected() {
    let point = point_from_str("2147483648,0");

    assert!(point.is_err());

    let point = point_from_str("-2147483649,0");

    assert!(point.is_err());
}

#[test]
fn a_count_outside_the_u32_range_is_rejected() {
    let random_points = parse_random_arguments("10,0,4294967296".into());

    assert_eq!(
        random_points.unwrap_err(),
        "Ammout of points must be a positive number"
    );
}

#[test]
fn parse_arguments_reads_the_first_argument() {
    let points = parse_arguments(vec!["2,3:4,5".to_string()]).unwrap();

    assert_eq!(points, vec![Point::new(2, 3), Point::new(4, 5)]);

    let points = parse_arguments(Vec::new());

    assert_eq!(points.unwrap_err(), "No arguments provided");
}
