//! What a terminal can draw.

use omalibre::image::detect::{
    choose_backend, classify, is_multiplexed, reply_is_complete, supports_sixel, Backend,
};

#[test]
fn recognises_a_kitty_answer() {
    assert_eq!(classify("\x1b_Gi=1;OK\x1b\\\x1b[?62;c"), Backend::Kitty);
}

#[test]
fn recognises_sixel_in_device_attributes() {
    // foot answers like this.
    assert_eq!(classify("\x1b[?62;4;22c"), Backend::Sixel);
    assert!(supports_sixel("\x1b[?62;4c"));
    assert!(supports_sixel("\x1b[?64;1;2;4;6;9;15;22c"));
}

#[test]
fn a_terminal_without_feature_four_gets_half_blocks() {
    // alacritty answers without Sixel.
    assert_eq!(classify("\x1b[?6c"), Backend::HalfBlocks);
    assert_eq!(classify("\x1b[?62;22c"), Backend::HalfBlocks);
    assert!(!supports_sixel("\x1b[?62;40c"), "40 must not match 4");
    assert!(!supports_sixel("\x1b[?14c"));
}

#[test]
fn silence_means_half_blocks() {
    assert_eq!(classify(""), Backend::HalfBlocks);
    assert_eq!(classify("nonsense"), Backend::HalfBlocks);
}

#[test]
fn kitty_outranks_sixel() {
    assert_eq!(classify("\x1b_Gi=1;OK\x1b\\\x1b[?62;4;22c"), Backend::Kitty);
}

#[test]
fn names_round_trip_through_the_setting() {
    for backend in [Backend::HalfBlocks, Backend::Sixel, Backend::Kitty] {
        let written = match backend {
            Backend::HalfBlocks => "half-blocks",
            Backend::Sixel => "sixel",
            Backend::Kitty => "kitty",
        };
        assert_eq!(Backend::parse(written), Some(backend));
    }
    assert_eq!(Backend::parse("nonsense"), None);
}

#[test]
fn a_multiplexer_gets_half_blocks() {
    let foot = "\x1b[?62;4;22c";
    assert_eq!(choose_backend(false, Some(foot)), Backend::Sixel);
    assert_eq!(choose_backend(true, Some(foot)), Backend::HalfBlocks);
    assert_eq!(choose_backend(false, None), Backend::HalfBlocks);
    assert!(is_multiplexed(true, None));
    assert!(is_multiplexed(false, Some("screen-256color")));
    assert!(!is_multiplexed(false, Some("foot")));
}

#[test]
fn an_answer_ends_with_the_device_attributes() {
    assert!(reply_is_complete("\x1b[?62;4c"));
    assert!(!reply_is_complete("\x1b_Gi=1;OK"));
    assert_eq!(Backend::HalfBlocks.name(), "half blocks");
}
