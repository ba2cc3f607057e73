//! Pictures sent as Sixel.

use omalibre::image::sixel::{
    distance, encode, level_of, nearest, palette, percent, step, write_run, Picture, Rgb, LEVELS,
};

fn solid(width: u32, height: u32, color: Rgb) -> Picture {
    Picture { width, height, pixels: vec![color; (width * height) as usize] }
}

#[test]
fn the_palette_fits_sixel_limits() {
    assert!(palette().len() <= 256, "{} entries", palette().len());
}

#[test]
fn an_encoded_image_is_well_formed() {
    let escape = encode(&solid(4, 6, (255, 0, 0)));
    assert!(escape.starts_with("\x1bP"), "missing introducer");
    assert!(escape.contains("q\"1;1;4;6"), "missing raster attributes");
    assert!(escape.ends_with("\x1b\\"), "missing terminator");
    assert!(escape.contains("#"), "no colour defined");
}

#[test]
fn a_full_band_sets_every_bit() {
    // Six rows of one colour means all six bits, so 63 + 63 = '~'.
    let escape = encode(&solid(1, 6, (0, 0, 0)));
    assert!(escape.contains('~'), "{escape:?}");
}

#[test]
fn bands_are_separated() {
    // Twelve rows are two bands.
    let escape = encode(&solid(2, 12, (0, 0, 0)));
    assert_eq!(escape.matches('-').count(), 1, "expected one band break");
}

#[test]
fn repeats_are_compressed() {
    let escape = encode(&solid(20, 6, (0, 0, 0)));
    assert!(escape.contains("!20"), "expected a run of 20: {escape:?}");
}

#[test]
fn short_runs_stay_literal() {
    let mut buffer = solid(3, 6, (0, 0, 0));
    // Three identical columns are below the threshold for `!`.
    for pixel in buffer.pixels.iter_mut() {
        *pixel = (0, 0, 0);
    }
    let escape = encode(&buffer);
    assert!(!escape.contains('!'), "{escape:?}");
}

#[test]
fn an_empty_image_encodes_to_nothing() {
    assert!(encode(&Picture { width: 0, height: 0, pixels: Vec::new() }).is_empty());
}

/// What `nearest` replaced: a scan over every entry. Kept so the fast path
/// can be held against it.
fn nearest_by_scan(palette: &[(u8, u8, u8)], pixel: (u8, u8, u8)) -> usize {
    let mut best = 0;
    let mut best_distance = u32::MAX;
    for (index, &entry) in palette.iter().enumerate() {
        let candidate = distance(entry, pixel);
        if candidate < best_distance {
            best_distance = candidate;
            best = index;
        }
    }
    best
}

#[test]
fn the_fast_lookup_agrees_with_a_full_scan() {
    let palette = palette();
    // Every eleventh value per channel, which lands on and between the cube
    // levels and covers both ends. All 16.7 million were checked once by
    // hand and agreed; this keeps the cheap part of that in the suite.
    let values: Vec<u8> = (0..=255u8).step_by(11).chain([255]).collect();
    for &r in &values {
        for &g in &values {
            for &b in &values {
                assert_eq!(
                    nearest(&palette, (r, g, b)),
                    nearest_by_scan(&palette, (r, g, b)),
                    "rgb({r},{g},{b})"
                );
            }
        }
    }
}

#[test]
fn cube_levels_map_to_themselves() {
    let palette = palette();
    for level in 0..LEVELS {
        let value = step(level);
        let grey = (value, value, value);
        // A cube corner is its own nearest entry, unless the grey ramp holds
        // the very same colour at a lower index, which it never does.
        assert_eq!(palette[nearest(&palette, grey)], grey, "level {level}");
    }
}

#[test]
fn two_colours_share_a_band() {
    let mut buffer = solid(2, 6, (0, 0, 0));
    for y in 0..6 {
        buffer.pixels[y * 2 + 0] = (255, 0, 0);
        buffer.pixels[y * 2 + 1] = (0, 0, 255);
    }
    let escape = encode(&buffer);
    // A second colour in the same band needs the carriage return.
    assert!(escape.contains('$'), "{escape:?}");
}

#[test]
fn percentages_span_the_range() {
    assert_eq!(percent(0), 0);
    assert_eq!(percent(255), 100);
}

#[test]
fn compression_loses_nothing() {
    for length in 0..12usize {
        let run: Vec<u8> = vec![5; length];
        let mut out: Vec<char> = Vec::new();
        write_run(&mut out, &run);
        let mut unpacked = String::new();
        let text: String = out.into_iter().collect();
        let mut rest = text.as_str();
        while let Some(c) = rest.chars().next() {
            if c == '!' {
                let digits: String = rest[1..].chars().take_while(char::is_ascii_digit).collect();
                let times: usize = digits.parse().unwrap();
                rest = &rest[1 + digits.len()..];
                let c = rest.chars().next().unwrap();
                unpacked.extend(std::iter::repeat(c).take(times));
            } else {
                unpacked.push(c);
            }
            rest = &rest[1..];
        }
        assert_eq!(unpacked, "D".repeat(length));
    }
}

#[test]
fn a_channel_maps_to_its_closest_level() {
    for value in 0..=255u8 {
        let level = level_of(value);
        for other in 0..LEVELS {
            let gap = |l: usize| (i32::from(step(l)) - i32::from(value)).abs();
            assert!(gap(level) <= gap(other), "{value}");
        }
    }
}
