use topo::color::Color;
use topo::error::Error;
use topo::num::MICROS_PER_UNIT;
use topo::point::Point;
use topo::range::Range;
use topo::rect::Rect;
use topo::size::Size;
use topo::topo::{inv_lerp, lerp};

#[test]
fn size_parses_width_and_height() {
    let s = Size::from_str("1600x600").unwrap();
    assert_eq!(s.width(), 1600 * MICROS_PER_UNIT);
    assert_eq!(s.height(), 600 * MICROS_PER_UNIT);
}

#[test]
fn size_parses_bare_number_as_square() {
    let s = Size::from_str("40").unwrap();
    assert_eq!(s.width(), 40 * MICROS_PER_UNIT);
    assert_eq!(s.height(), 40 * MICROS_PER_UNIT);
}

#[test]
fn size_rejects_malformed() {
    assert_eq!(Size::from_str("abc"), Err(Error::Parse));
    assert_eq!(Size::from_str("10xZ"), Err(Error::Parse));
    assert_eq!(Size::from_str(""), Err(Error::Parse));
}

#[test]
fn size_displays_as_w_x_h() {
    let s = Size::new(1_500_000, 600_000_000);
    assert_eq!(s.to_display(), "1.5x600");
}

#[test]
fn size_from_arg_reports_input() {
    assert_eq!(Size::from_arg("nope"), Err(String::from("invalid size: nope")));
}

#[test]
fn range_parses_start_and_end() {
    let r = Range::from_str("1-8").unwrap();
    assert_eq!(r.start(), MICROS_PER_UNIT);
    assert_eq!(r.end(), 8 * MICROS_PER_UNIT);
}

#[test]
fn range_parses_fractions() {
    let r = Range::from_str("2.5-4.25").unwrap();
    assert_eq!(r.start(), 2_500_000);
    assert_eq!(r.end(), 4_250_000);
}

#[test]
fn range_rejects_missing_dash() {
    assert_eq!(Range::from_str("17"), Err(Error::Parse));
    assert_eq!(Range::from_str("-5-8"), Err(Error::Parse));
}

#[test]
fn range_from_arg_reports_input() {
    assert_eq!(Range::from_arg("bad"), Err(String::from("invnalid range: bad")));
}

#[test]
fn range_displays_with_dash() {
    let r = Range::new(1_000_000, 8_000_000);
    assert_eq!(r.to_display(), "1-8");
}

#[test]
fn rect_parses_four_tokens() {
    let r = Rect::from_str("1 2 30 40").unwrap();
    assert_eq!(r.x(), MICROS_PER_UNIT);
    assert_eq!(r.y(), 2 * MICROS_PER_UNIT);
    assert_eq!(r.width(), 30 * MICROS_PER_UNIT);
    assert_eq!(r.height(), 40 * MICROS_PER_UNIT);
}

#[test]
fn rect_rejects_short_input() {
    assert_eq!(Rect::from_str("1 2 3"), Err(Error::Parse));
}

#[test]
fn rect_intersects_is_strict() {
    let a = Rect::new(Point::from_xy(0, 0), Point::from_xy(10, 10));
    let touching = Rect::new(Point::from_xy(10, 0), Point::from_xy(20, 10));
    let overlapping = Rect::new(Point::from_xy(9, 9), Point::from_xy(20, 20));
    let disjoint = Rect::new(Point::from_xy(11, 11), Point::from_xy(20, 20));
    assert!(!a.intersects(&touching));
    assert!(a.intersects(&overlapping));
    assert!(!a.intersects(&disjoint));
}

#[test]
fn point_distance_is_rounded_euclidean() {
    let a = Point::from_xy(0, 0);
    let b = Point::from_xy(3_000_000, 4_000_000);
    assert_eq!(a.distance_to(&b), 5_000_000);
    let c = Point::from_xy(1, 1);
    assert_eq!(a.distance_to(&c), 1); // floor of sqrt(2)
}

#[test]
fn color_accessors_and_packed_form() {
    let c = Color::from_rgb(1, 2, 3);
    assert_eq!((c.r(), c.g(), c.b()), (1, 2, 3));
    let p = Color::from_rgb_u32(0x00FF_8001);
    assert_eq!((p.r(), p.g(), p.b()), (255, 128, 1));
}

#[test]
fn luminance_orders_by_brightness() {
    let black = Color::from_rgb(0, 0, 0);
    let white = Color::from_rgb(255, 255, 255);
    let mid = Color::from_rgb(128, 128, 128);
    assert_eq!(black.luminance(), 0);
    assert_eq!(white.luminance(), 2_550_000);
    assert_eq!(mid.luminance(), 1_280_000);
}

#[test]
fn inv_lerp_recovers_lerp_parameter() {
    let r = Range::new(1_000_000, 8_000_000);
    for t in [
        -3_000_000i64,
        -500_000,
        0,
        1,
        137,
        250_000,
        500_000,
        999_999,
        1_000_000,
        2_000_000,
        3_000_000,
    ] {
        let v = lerp(&r, t);
        let back = inv_lerp(&r, v);
        // exact up to the one-micro rounding of each division
        assert!((back - t).abs() <= 1, "t={} back={}", t, back);
    }
}

#[test]
fn lerp_endpoints_are_exact() {
    let r = Range::new(2_000_000, 4_000_000);
    assert_eq!(lerp(&r, 0), 2_000_000);
    assert_eq!(lerp(&r, 1_000_000), 4_000_000);
    assert_eq!(lerp(&r, 500_000), 3_000_000);
}

#[test]
fn lerp_extrapolates_beyond_the_range() {
    let r = Range::new(0, 1_000_000);
    assert_eq!(lerp(&r, 2_000_000), 2_000_000);
    assert_eq!(lerp(&r, -1_000_000), -1_000_000);
    let r2 = Range::new(1_000_000, 8_000_000);
    // three units along a seven-unit span
    assert_eq!(lerp(&r2, 3_000_000), 22_000_000);
}

#[test]
fn inv_lerp_accepts_values_outside_the_range() {
    let r = Range::new(0, 1_000_000);
    assert_eq!(inv_lerp(&r, 2_000_000), 2_000_000);
    assert_eq!(inv_lerp(&r, -1_000_000), -1_000_000);
    let r2 = Range::new(1_000_000, 8_000_000);
    assert_eq!(inv_lerp(&r2, lerp(&r2, 3_000_000)), 3_000_000);
}
