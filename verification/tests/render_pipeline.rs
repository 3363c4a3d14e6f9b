use topo::color::Color;
use topo::error::Error;
use topo::geo::{LatLng, Rect as GeoRect};
use topo::path::Path;
use topo::range::Range;
use topo::rng::Rng;
use topo::seed::Seed;
use topo::size::Size;
use topo::themes::{ThemeRef, Themes};
use topo::topo::{label_layout, render, select_color_pair, Config, Data};

const UNIT: i64 = 1_000_000;

fn sample_record() -> Vec<u8> {
    vec![
        0xFF, 0x00, 0x00, 0x00, // red
        0x00, 0xFF, 0x00, 0x00, // green
        0x00, 0x00, 0xFF, 0x00, // blue
        0x00, 0x00, 0x00, 0x00, // black
        0xFF, 0xFF, 0xFF, 0x00, // white
    ]
}

fn sample_data() -> Data {
    Data {
        size: Size::new(1000 * UNIT, 1000 * UNIT),
        region: GeoRect::new(
            LatLng::new(35_646_430, -80_049_980),
            LatLng::new(35_488_790, -79_850_050),
        ),
        paths: vec![
            Path::from_str("M 0 0 L 10 5 L 20 0").unwrap(),
            Path::from_str("M 100 100 L 900 900").unwrap(),
        ],
    }
}

fn sample_config(seed: u64) -> Config {
    Config {
        seed: Seed::new(seed),
        size: Size::new(500 * UNIT, 500 * UNIT),
        scale_range: Range::new(1 * UNIT, 8 * UNIT),
        line_width_range: Range::new(2 * UNIT, 4 * UNIT),
        theme: ThemeRef::from_path("themes.bin"),
        hide_location: false,
    }
}

#[test]
fn render_is_deterministic() {
    let data = sample_data();
    let config = sample_config(0x1234_5678);
    let themes = Themes::from_bytes(sample_record()).unwrap();
    let a = render(&data, &config, &themes).unwrap();
    let b = render(&data, &config, &themes).unwrap();
    assert_eq!(a.tx, b.tx);
    assert_eq!(a.ty, b.ty);
    assert_eq!(a.scale, b.scale);
    assert_eq!(a.theme_index, b.theme_index);
    assert_eq!(a.background, b.background);
    assert_eq!(a.foreground, b.foreground);
    assert_eq!(a.line_width, b.line_width);
    assert_eq!(a.location, b.location);
    assert_eq!(a.label, b.label);
    assert_eq!(a.paths, b.paths);
}

#[test]
fn render_scenario_with_seed_one() {
    // dataset 1000x1000, region as given, canvas 500x500, seed 0x1: the
    // exact values the fixed generator and draw order determine
    let data = sample_data();
    let config = sample_config(1);
    let themes = Themes::from_bytes(sample_record()).unwrap();
    let plan = render(&data, &config, &themes).unwrap();
    assert_eq!(plan.tx, 200_822_465);
    assert_eq!(plan.ty, 66_428_519);
    assert_eq!(plan.scale, 1_890_590);
    assert_eq!(plan.theme_index, 0);
    // darkest and brightest of the palette; the coin for this seed keeps
    // the dark background
    assert_eq!(plan.background, Color::from_rgb(0, 0, 0));
    assert_eq!(plan.foreground, Color::from_rgb(255, 255, 255));
    assert_eq!(plan.line_width, 2_254_454);
    assert_eq!(plan.location, LatLng::new(35_499_261, -80_009_829));
    assert_eq!(plan.label.as_deref(), Some("35°29′57″N 080°00′35″W"));
}

#[test]
fn render_transforms_every_path_point() {
    let data = sample_data();
    let config = sample_config(1);
    let themes = Themes::from_bytes(sample_record()).unwrap();
    let plan = render(&data, &config, &themes).unwrap();
    assert_eq!(plan.paths.len(), 2);
    let crop = |v: i64, off: i64| -> i64 {
        (((v as i128) - (off as i128)) * (plan.scale as i128) / 1_000_000) as i64
    };
    for (old, new) in data.paths.iter().zip(plan.paths.iter()) {
        assert_eq!(old.len(), new.len());
        for (oc, nc) in old.cmds.iter().zip(new.cmds.iter()) {
            assert_eq!(nc.point().x(), crop(oc.point().x(), plan.tx));
            assert_eq!(nc.point().y(), crop(oc.point().y(), plan.ty));
        }
    }
}

#[test]
fn render_at_dataset_size_forces_zero_offsets() {
    let mut config = sample_config(0xDEAD);
    config.size = Size::new(1000 * UNIT, 1000 * UNIT);
    let data = sample_data();
    let themes = Themes::from_bytes(sample_record()).unwrap();
    let plan = render(&data, &config, &themes).unwrap();
    assert_eq!(plan.tx, 0);
    assert_eq!(plan.ty, 0);
}

#[test]
fn render_rejects_canvas_larger_than_dataset() {
    let mut config = sample_config(1);
    config.size = Size::new(1001 * UNIT, 500 * UNIT);
    let data = sample_data();
    let themes = Themes::from_bytes(sample_record()).unwrap();
    assert!(matches!(render(&data, &config, &themes), Err(Error::Range)));
}

#[test]
fn render_rejects_inverted_ranges() {
    let data = sample_data();
    let themes = Themes::from_bytes(sample_record()).unwrap();
    let mut config = sample_config(1);
    config.scale_range = Range::new(8 * UNIT, 1 * UNIT);
    assert!(matches!(render(&data, &config, &themes), Err(Error::Range)));
    let mut config = sample_config(1);
    config.line_width_range = Range::new(4 * UNIT, 4 * UNIT);
    assert!(matches!(render(&data, &config, &themes), Err(Error::Range)));
}

#[test]
fn render_rejects_bad_theme_reference() {
    let data = sample_data();
    let themes = Themes::from_bytes(sample_record()).unwrap();
    let mut config = sample_config(1);
    config.theme = ThemeRef::from_str("themes.bin:9").unwrap();
    assert!(matches!(render(&data, &config, &themes), Err(Error::Range)));
    let mut config = sample_config(1);
    config.theme = ThemeRef::from_path("themes.bin");
    let empty = Themes::from_bytes(Vec::new()).unwrap();
    assert!(matches!(render(&data, &config, &empty), Err(Error::Range)));
}

#[test]
fn render_hides_the_label_on_request() {
    let data = sample_data();
    let mut config = sample_config(1);
    config.hide_location = true;
    let themes = Themes::from_bytes(sample_record()).unwrap();
    let plan = render(&data, &config, &themes).unwrap();
    assert_eq!(plan.label, None);
}

#[test]
fn color_pair_takes_the_luminance_extremes() {
    let black = Color::from_rgb(0, 0, 0);
    let white = Color::from_rgb(255, 255, 255);
    let mid = Color::from_rgb(128, 128, 128);
    let colors = vec![black, white, mid, mid, mid];
    for seed in 0..16u64 {
        let mut rng = Rng::from_seed(seed);
        let (bg, fg) = select_color_pair(&mut rng, &colors);
        assert!(
            (bg == black && fg == white) || (bg == white && fg == black),
            "pair must be the extremes, got {:?}/{:?}",
            bg,
            fg
        );
    }
}

#[test]
fn color_pair_ties_resolve_to_the_first_index() {
    // all five colors equal: both extremes are index zero
    let c = Color::from_rgb(7, 7, 7);
    let colors = vec![c, c, c, c, c];
    let mut rng = Rng::from_seed(0);
    let (bg, fg) = select_color_pair(&mut rng, &colors);
    assert_eq!(bg, c);
    assert_eq!(fg, c);
}

#[test]
fn label_layout_anchors_bottom_right() {
    let canvas = Size::new(500 * UNIT, 500 * UNIT);
    let l = label_layout(&canvas, 100 * UNIT, 20 * UNIT, -18 * UNIT);
    assert_eq!(l.box_x, 370 * UNIT);
    assert_eq!(l.box_y, 452 * UNIT);
    assert_eq!(l.box_w, 120 * UNIT);
    assert_eq!(l.box_h, 40 * UNIT);
    assert_eq!(l.text_x, 380 * UNIT);
    assert_eq!(l.text_y, 480 * UNIT);
}
