use topo::color::Color;
use topo::error::Error;
use topo::rng::Rng;
use topo::themes::{ThemeRef, Themes};

// One record: [0xFF0000, 0x00FF00, 0x0000FF, 0x000000, 0xFFFFFF], each
// color a big-endian word with the low byte unused.
fn sample_record() -> Vec<u8> {
    vec![
        0xFF, 0x00, 0x00, 0x00, // red
        0x00, 0xFF, 0x00, 0x00, // green
        0x00, 0x00, 0xFF, 0x00, // blue
        0x00, 0x00, 0x00, 0x00, // black
        0xFF, 0xFF, 0xFF, 0x00, // white
    ]
}

#[test]
fn store_decodes_first_record() {
    let themes = Themes::from_bytes(sample_record()).unwrap();
    assert_eq!(themes.len(), 1);
    let colors = themes.get(0);
    assert_eq!(colors.len(), 5);
    assert_eq!(colors[0], Color::from_rgb(255, 0, 0));
    assert_eq!(colors[1], Color::from_rgb(0, 255, 0));
    assert_eq!(colors[2], Color::from_rgb(0, 0, 255));
    assert_eq!(colors[3], Color::from_rgb(0, 0, 0));
    assert_eq!(colors[4], Color::from_rgb(255, 255, 255));
}

#[test]
fn store_indexes_later_records() {
    let mut bytes = vec![0u8; 20];
    bytes.extend(sample_record());
    let themes = Themes::from_bytes(bytes).unwrap();
    assert_eq!(themes.len(), 2);
    assert_eq!(themes.get(1)[0], Color::from_rgb(255, 0, 0));
    assert_eq!(themes.get(0)[0], Color::from_rgb(0, 0, 0));
}

#[test]
fn store_rejects_partial_record() {
    let bytes = vec![0u8; 19];
    assert!(matches!(Themes::from_bytes(bytes), Err(Error::Format)));
}

#[test]
fn store_accepts_empty_file_but_pick_fails() {
    let themes = Themes::from_bytes(Vec::new()).unwrap();
    assert!(themes.is_empty());
    let mut rng = Rng::from_seed(1);
    assert!(matches!(themes.pick(&mut rng), Err(Error::Range)));
}

#[test]
fn pick_draws_a_valid_index() {
    let mut bytes = sample_record();
    bytes.extend(sample_record());
    bytes.extend(sample_record());
    let themes = Themes::from_bytes(bytes).unwrap();
    let mut rng = Rng::from_seed(9);
    let (ix, colors) = themes.pick(&mut rng).unwrap();
    assert!(ix < 3);
    assert_eq!(colors.len(), 5);
}

#[test]
fn theme_ref_parses_path_only() {
    let tr = ThemeRef::from_str("themes.bin").unwrap();
    assert_eq!(tr.path(), "themes.bin");
    assert_eq!(tr.idx(), None);
}

#[test]
fn theme_ref_parses_trailing_index() {
    let tr = ThemeRef::from_str("themes.bin:12").unwrap();
    assert_eq!(tr.path(), "themes.bin");
    assert_eq!(tr.idx(), Some(12));
}

#[test]
fn theme_ref_splits_at_the_last_colon() {
    let tr = ThemeRef::from_str("a:b:12").unwrap();
    assert_eq!(tr.path(), "a:b");
    assert_eq!(tr.idx(), Some(12));
}

#[test]
fn theme_ref_with_non_digit_tail_is_all_path() {
    let tr = ThemeRef::from_str("a:12:x").unwrap();
    assert_eq!(tr.path(), "a:12:x");
    assert_eq!(tr.idx(), None);
}

#[test]
fn theme_ref_from_arg_reports_input() {
    // an index too large for the machine is refused
    assert_eq!(
        ThemeRef::from_arg("t:99999999999999999999999"),
        Err(String::from("invalid theme: t:99999999999999999999999"))
    );
}

#[test]
fn theme_ref_display_brackets_the_index() {
    let tr = ThemeRef::from_str("themes.bin:3").unwrap();
    assert_eq!(tr.to_display(), "themes.bin[3]");
    let plain = ThemeRef::from_path("themes.bin");
    assert_eq!(plain.to_display(), "themes.bin");
}

#[test]
fn theme_ref_pick_uses_the_pinned_index() {
    let mut bytes = vec![0u8; 20];
    bytes.extend(sample_record());
    let themes = Themes::from_bytes(bytes).unwrap();
    let tr = ThemeRef::from_str("t:1").unwrap();
    let mut rng = Rng::from_seed(1);
    let (ix, colors) = tr.pick(&themes, &mut rng).unwrap();
    assert_eq!(ix, 1);
    assert_eq!(colors[0], Color::from_rgb(255, 0, 0));
}

#[test]
fn theme_ref_pick_rejects_out_of_range_index() {
    let themes = Themes::from_bytes(sample_record()).unwrap();
    let tr = ThemeRef::from_str("t:5").unwrap();
    let mut rng = Rng::from_seed(1);
    assert!(matches!(tr.pick(&themes, &mut rng), Err(Error::Range)));
}
