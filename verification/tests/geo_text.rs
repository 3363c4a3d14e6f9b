use topo::error::Error;
use topo::geo::{LatLng, Rect};

#[test]
fn to_dms_formats_with_padding_and_hemispheres() {
    let ll = LatLng::new(35_646_430, -80_049_980);
    assert_eq!(ll.to_dms(), "35°38′47″N 080°03′00″W");
}

#[test]
fn to_dms_carries_seconds_into_minutes() {
    // 0.04998 degrees of longitude rounds to 180 seconds, carrying into
    // three whole minutes
    let ll = LatLng::new(0, -49_980);
    assert_eq!(ll.to_dms(), "00°00′00″N 000°03′00″W");
}

#[test]
fn from_str_reads_canonical_text() {
    let ll = LatLng::from_str("35°38′47″N 080°03′00″W").unwrap();
    assert_eq!(ll.to_dms(), "35°38′47″N 080°03′00″W");
}

#[test]
fn from_str_accepts_ascii_quotes_and_lowercase() {
    let a = LatLng::from_str("10°20'30\"n 040°50'10\"e").unwrap();
    let b = LatLng::from_str("10°20′30″N 040°50′10″E").unwrap();
    assert_eq!(a, b);
}

#[test]
fn from_str_finds_the_pattern_inside_text() {
    let ll = LatLng::from_str("around 01°02′03″S 004°05′06″E, roughly").unwrap();
    assert_eq!(ll.to_dms(), "01°02′03″S 004°05′06″E");
}

#[test]
fn from_str_rejects_text_without_the_pattern() {
    assert_eq!(LatLng::from_str("nowhere"), Err(Error::Parse));
    assert_eq!(LatLng::from_str("12°34′56″X 001°02′03″E"), Err(Error::Parse));
}

#[test]
fn dms_round_trips_for_integer_seconds() {
    for text in [
        "35°38′47″N 080°03′00″W",
        "00°00′00″N 000°00′00″E",
        "89°59′59″S 179°59′59″W",
        "35°29′20″N 079°51′00″W",
    ] {
        let ll = LatLng::from_str(text).unwrap();
        assert_eq!(ll.to_dms(), text);
        let again = LatLng::from_str(&ll.to_dms()).unwrap();
        assert_eq!(again.to_dms(), ll.to_dms());
    }
}

#[test]
fn geo_rect_parses_two_corners() {
    let r = Rect::from_str("35°38′47″N 080°03′00″W-35°29′20″N 079°51′00″W").unwrap();
    assert_eq!(r.nw.to_dms(), "35°38′47″N 080°03′00″W");
    assert_eq!(r.se.to_dms(), "35°29′20″N 079°51′00″W");
    assert_eq!(r.to_display(), "35°38′47″N 080°03′00″W-35°29′20″N 079°51′00″W");
}

#[test]
fn geo_rect_rejects_missing_separator() {
    assert_eq!(Rect::from_str("35°38′47″N 080°03′00″W"), Err(Error::Parse));
}

#[test]
fn geo_rect_from_arg_reports_input() {
    assert_eq!(Rect::from_arg("x"), Err(String::from("invalid rect: x")));
}
