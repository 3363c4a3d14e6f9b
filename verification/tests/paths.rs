use topo::error::Error;
use topo::path::{Cmd, Path, PathError};
use topo::point::Point;
use topo::polyline::Polyline;

fn cmd_point(c: &Cmd) -> Point {
    *c.point()
}

#[test]
fn path_parses_move_and_line() {
    let p = Path::from_str("M 1.5 2.5 L 3 4").unwrap();
    assert_eq!(p.len(), 2);
    assert!(matches!(p.cmds[0], Cmd::MoveTo(_)));
    assert!(matches!(p.cmds[1], Cmd::LineTo(_)));
    assert_eq!(cmd_point(&p.cmds[0]), Point::from_xy(1_500_000, 2_500_000));
    assert_eq!(cmd_point(&p.cmds[1]), Point::from_xy(3_000_000, 4_000_000));
}

#[test]
fn path_round_trips_through_text() {
    let text = "M 1.5 2.5 L 3 4";
    let p = Path::from_str(text).unwrap();
    let shown = p.to_display();
    assert_eq!(shown, text);
    let again = Path::from_str(&shown).unwrap();
    assert_eq!(again, p);
}

#[test]
fn path_round_trips_negative_and_trailing_zero() {
    let p = Path::from_str("M -0.25 10.050 L 0 -7").unwrap();
    let shown = p.to_display();
    assert_eq!(shown, "M -0.25 10.05 L 0 -7");
    assert_eq!(Path::from_str(&shown).unwrap(), p);
}

#[test]
fn path_rejects_unknown_command() {
    let e = Path::from_str("Q 1 2").unwrap_err();
    assert_eq!(e, PathError::UnknownCommand(String::from("Q")));
    assert_eq!(e.to_message(), "unknown command: Q");
}

#[test]
fn path_rejects_missing_coordinate() {
    assert_eq!(Path::from_str("M"), Err(PathError::NoX));
    assert_eq!(Path::from_str("M 1"), Err(PathError::NoY));
    assert_eq!(Path::from_str("M 1 2 L 3"), Err(PathError::NoY));
    assert_eq!(PathError::NoX.to_message(), "no x");
    assert_eq!(PathError::NoY.to_message(), "no y");
}

#[test]
fn path_rejects_bad_coordinate_naming_the_token() {
    let e = Path::from_str("M x 2").unwrap_err();
    assert_eq!(e, PathError::Coordinate(String::from("x")));
    assert_eq!(e.to_message(), "invalid coordinate: x");
}

#[test]
fn path_faults_follow_parser_order() {
    // the coordinates are checked before the command letter, as the
    // parser meets them
    assert_eq!(Path::from_str("Q 1"), Err(PathError::NoY));
    assert_eq!(Path::from_str("Q z 2"), Err(PathError::Coordinate(String::from("z"))));
}

#[test]
fn path_accepts_empty_text() {
    let p = Path::from_str("").unwrap();
    assert!(p.is_empty());
    assert_eq!(p.to_display(), "");
}

#[test]
fn path_is_valid_matches_parser() {
    for s in [
        "M 1 2 L 3 4",
        "",
        "M 1.5 -2.5",
        "Q 1 2",
        "M 1",
        "M x y",
        "M 1000000000 0",
        "M 2000000000 0", // beyond the representable cap
    ] {
        assert_eq!(Path::is_valid(s), Path::from_str(s).is_ok(), "disagree on {:?}", s);
    }
    assert!(Path::is_valid("M 1 2 L 3 4"));
    assert!(!Path::is_valid("Q 1 2"));
    assert!(!Path::is_valid("M 2000000000 0"));
}

#[test]
fn path_bounds_fold_min_and_max() {
    let p = Path::from_str("M 1 8 L -3 2 L 5 4").unwrap();
    let b = p.bounds();
    assert_eq!(b.x(), -3_000_000);
    assert_eq!(b.y(), 2_000_000);
    assert_eq!(b.top_left, Point::from_xy(-3_000_000, 2_000_000));
    assert_eq!(b.bottom_right, Point::from_xy(5_000_000, 8_000_000));
}

#[test]
fn path_bounds_of_empty_are_reversed_extremes() {
    let p = Path::from_str("").unwrap();
    let b = p.bounds();
    assert_eq!(b.top_left, Point::from_xy(i64::MAX, i64::MAX));
    assert_eq!(b.bottom_right, Point::from_xy(i64::MIN, i64::MIN));
}

#[test]
fn path_transform_applies_pointwise() {
    let p = Path::from_str("M 1 2 L 3 4").unwrap();
    let q = p.transform(|pt: &Point| Point::from_xy(pt.x() + 1_000_000, pt.y() - 1_000_000));
    assert_eq!(cmd_point(&q.cmds[0]), Point::from_xy(2_000_000, 1_000_000));
    assert_eq!(cmd_point(&q.cmds[1]), Point::from_xy(4_000_000, 3_000_000));
    // the original is untouched
    assert_eq!(cmd_point(&p.cmds[0]), Point::from_xy(1_000_000, 2_000_000));
}

#[test]
fn path_transform_into_mutates_in_place() {
    let mut p = Path::from_str("M 1 2").unwrap();
    p.transform_into(|pt: &Point| Point::from_xy(pt.y(), pt.x()));
    assert_eq!(cmd_point(&p.cmds[0]), Point::from_xy(2_000_000, 1_000_000));
}

#[test]
fn path_crop_scale_shifts_then_scales() {
    let p = Path::from_str("M 10 20 L 30 40").unwrap();
    // offset (10, 20), scale 2: (x-10)*2, (y-20)*2
    let q = p.crop_scale(10_000_000, 20_000_000, 2_000_000).unwrap();
    assert_eq!(cmd_point(&q.cmds[0]), Point::from_xy(0, 0));
    assert_eq!(cmd_point(&q.cmds[1]), Point::from_xy(40_000_000, 40_000_000));
}

#[test]
fn path_rejects_coordinates_beyond_the_cap() {
    // a billion units is the largest representable coordinate
    assert_eq!(
        Path::from_str("M 1000000001 0"),
        Err(PathError::Coordinate(String::from("1000000001")))
    );
    assert!(Path::from_str("M 1000000000 0").is_ok());
}

#[test]
fn path_crop_scale_reports_unrepresentable_results() {
    let p = Path::from_str("M 1000000000 0").unwrap();
    // shifting to twice the cap and scaling by a billion cannot fit
    let r = p.crop_scale(-1_000_000_000_000_000, 0, 1_000_000_000_000_000);
    assert_eq!(r, Err(Error::Range));
}

#[test]
fn polyline_parses_and_dedups_near_points() {
    // the second point is within a ten-thousandth of a unit of the first
    let p = Polyline::from_str("M 1 1 L 1.00005 1 L 2 2").unwrap();
    assert_eq!(p.len(), 2);
    assert_eq!(p.pts[0], Point::from_xy(1_000_000, 1_000_000));
    assert_eq!(p.pts[1], Point::from_xy(2_000_000, 2_000_000));
}

#[test]
fn polyline_keeps_points_at_the_threshold() {
    // exactly a ten-thousandth of a unit away: not dropped
    let p = Polyline::from_str("M 1 1 L 1.0001 1").unwrap();
    assert_eq!(p.len(), 2);
}

#[test]
fn polyline_rejects_unknown_command() {
    assert_eq!(
        Polyline::from_str("Z 1 2"),
        Err(PathError::UnknownCommand(String::from("Z")))
    );
}

#[test]
fn polyline_transform_applies_pointwise() {
    let mut p = Polyline::from_str("M 1 2 L 3 4").unwrap();
    p.transform(|pt: &Point| Point::from_xy(pt.x() * 2, pt.y() * 2));
    assert_eq!(p.pts[0], Point::from_xy(2_000_000, 4_000_000));
    assert_eq!(p.pts[1], Point::from_xy(6_000_000, 8_000_000));
}
