//! Highlights: colours, their keys, and the text they cover.

use omalibre::annotation::{Annotation, Color, Slice};

#[test]
fn every_colour_has_a_distinct_shortcut() {
    let mut keys: Vec<char> = Color::ALL.iter().map(|c| c.shortcut()).collect();
    keys.sort_unstable();
    keys.dedup();
    assert_eq!(keys.len(), Color::ALL.len());
}

#[test]
fn shortcuts_round_trip() {
    for color in Color::ALL {
        assert_eq!(Color::from_shortcut(color.shortcut()), Some(color));
    }
    assert_eq!(Color::from_shortcut('x'), None);
}

#[test]
fn a_slice_covers_its_range_half_open() {
    let slice = Slice {
        block: 3,
        start: 5,
        end: 8,
    };
    assert!(!slice.contains(3, 4));
    assert!(slice.contains(3, 5));
    assert!(slice.contains(3, 7));
    assert!(!slice.contains(3, 8));
    assert!(!slice.contains(2, 6));
}

#[test]
fn an_annotation_starts_at_its_earliest_slice() {
    let annotation = Annotation {
        id: "a".into(),
        href: "c.xhtml".into(),
        slices: vec![
            Slice {
                block: 7,
                start: 0,
                end: 4,
            },
            Slice {
                block: 5,
                start: 9,
                end: 20,
            },
        ],
        color: Color::Yellow,
        quote: "text".into(),
        note: None,
    };
    assert_eq!(annotation.start(), (5, 9));
    assert!(annotation.covers(7, 2));
    assert!(!annotation.covers(6, 0));
}

#[test]
fn a_colour_sits_where_the_palette_lists_it() {
    for (place, color) in Color::ALL.iter().enumerate() {
        assert_eq!(color.index(), place);
    }
    assert_eq!(Color::Purple.label(), "purple");
}

#[test]
fn a_blank_comment_is_none() {
    let mark = |note: Option<&str>| Annotation {
        id: "a".into(),
        href: "c.xhtml".into(),
        slices: Vec::new(),
        color: Color::Red,
        quote: String::new(),
        note: note.map(String::from),
    };
    assert!(mark(Some("why")).has_note());
    assert!(!mark(None).has_note());
    assert!(!mark(Some(" \n")).has_note());
    assert_eq!(mark(None).start(), (0, 0));
}
