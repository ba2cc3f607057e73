//! Colours taken from the desktop theme.

use omalibre::journal::Moment;
use omalibre::theme::{
    all_distinguishable, current_theme_name, default_marks, hex, parse, theme_files, Theme, Watcher,
};

#[test]
fn the_theme_name_comes_from_the_state_directory() {
    let name = current_theme_name(Some("giants\n".to_string()), None);
    assert_eq!(name.as_deref(), Some("giants"));
}

#[test]
fn an_older_layout_still_yields_the_theme_name() {
    let name = current_theme_name(None, Some("matte-black".to_string()));
    assert_eq!(name.as_deref(), Some("matte-black"));
}

#[test]
fn reads_a_rendered_file() {
    let theme = parse(
        r##"
        [colors]
        background = "#0A1428"
        foreground = "#F0F8FF"
        accent = "#FF40A3"
        muted = "#88919e"
        code_background = "#212b3e"
        code_foreground = "#f4cae8"
        quote = "#abb4be"
        mark_yellow = "#d9b84c"
        mark_green = "#6fb86f"
        mark_blue = "#6a9fd8"
        mark_red = "#e07a6a"
        mark_purple = "#b48ad8"
        "##,
    );
    assert_eq!(theme.background, (0x0a, 0x14, 0x28));
    assert_eq!(theme.accent, (0xff, 0x40, 0xa3));
    assert_eq!(theme.marks[0], (0xd9, 0xb8, 0x4c));
}

#[test]
fn missing_entries_keep_their_defaults() {
    let theme = parse("[colors]\naccent = \"#ff0000\"\n");
    assert_eq!(theme.accent, (0xff, 0, 0));
    assert_eq!(theme.background, Theme::default().background);
}

#[test]
fn a_malformed_file_leaves_the_defaults() {
    assert_eq!(parse("this is not toml {{{"), Theme::default());
    assert_eq!(parse(""), Theme::default());
}

#[test]
fn marks_that_collide_fall_back_as_a_set() {
    // A theme where red and purple are the same accent, as some are.
    let theme = parse(
        r##"
        [colors]
        mark_yellow = "#5076B2"
        mark_green = "#00BFFF"
        mark_blue = "#F0F8FF"
        mark_red = "#FF40A3"
        mark_purple = "#FF40A3"
        "##,
    );
    assert_eq!(
        theme.marks,
        default_marks(),
        "colliding marks must be dropped"
    );
}

#[test]
fn the_built_in_marks_are_distinguishable() {
    assert!(all_distinguishable(&default_marks()));
}

#[test]
fn parses_hex_with_and_without_hash() {
    assert_eq!(hex("#a1b2c3"), Some((0xa1, 0xb2, 0xc3)));
    assert_eq!(hex("A1B2C3"), Some((0xa1, 0xb2, 0xc3)));
    assert_eq!(hex(" #a1b2c3 "), Some((0xa1, 0xb2, 0xc3)));
    assert_eq!(hex("#abc"), None);
    assert_eq!(hex("#gggggg"), None);
    assert_eq!(hex(""), None);
}

#[test]
fn marks_can_always_be_told_apart() {
    for text in ["", "[colors]\nmark_red = \"#d9b84c\"\n", "[colors]\nmark_blue = \"#000000\"\n"] {
        assert!(all_distinguishable(&parse(text).marks), "{text}");
    }
    let almost: [(u8, u8, u8); 5] =
        [(0, 0, 0), (60, 0, 0), (0, 60, 0), (0, 0, 60), (30, 30, 30)];
    assert!(!all_distinguishable(&almost));
}

#[test]
fn the_watcher_reads_a_file_that_changed() {
    let stamp = |seconds: i64| Some(Moment { seconds, nanos: 0 });
    let red = "[colors]\naccent = \"#ff0000\"\n";
    let mut watcher = Watcher::new(true, stamp(1), Some(""));
    assert!(!watcher.is_stale(stamp(1)));
    assert!(!watcher.refresh(stamp(1), Some(red)), "the same stamp means no change");
    assert!(watcher.is_stale(stamp(2)));
    assert!(watcher.refresh(stamp(2), Some(red)));
    assert_eq!(watcher.theme().accent, (255, 0, 0));
    assert!(!watcher.refresh(stamp(3), Some(red)), "the colours did not move");
    let mut idle = Watcher::new(false, None, None);
    assert!(!idle.refresh(stamp(9), Some(red)));
    assert_eq!(idle.theme(), Theme::default());
}

#[test]
fn a_blank_theme_name_is_none() {
    assert_eq!(current_theme_name(Some("  \n".to_string()), None), None);
    assert_eq!(current_theme_name(None, None), None);
    assert_eq!(theme_files("/home/me").len(), 2);
}
