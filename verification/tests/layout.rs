//! Chapters broken into lines.

use omalibre::doc::{Block, BlockKind, Chapter, Run, RunStyle};
use omalibre::layout::{
    layout_full, layout_with_notes, ImagePlacement, Index, LayoutOptions, LineKind, NoteAnchor,
};

fn chapter_of(blocks: Vec<Block>) -> Chapter {
    Chapter {
        href: "ch.xhtml".into(),
        blocks,
        ..Chapter::default()
    }
}

fn paragraph(text: &str) -> Block {
    Block {
        kind: BlockKind::Paragraph,
        runs: vec![Run {
            text: text.into(),
            style: RunStyle::default(),
        }],
    }
}

#[test]
fn wraps_at_word_boundaries() {
    let chapter = chapter_of(vec![paragraph("aaa bbb ccc ddd")]);
    let lines = layout_with_notes(&chapter, 100, LayoutOptions { max_width: 11 }, &Vec::new());
    let texts: Vec<String> = lines
        .iter()
        .map(|l| l.pieces.iter().map(|p| p.text.as_str()).collect())
        .collect();
    assert_eq!(texts, vec!["aaa bbb ccc", "ddd"]);
}

#[test]
fn records_offsets_of_continuation_lines() {
    let chapter = chapter_of(vec![paragraph("aaa bbb ccc ddd")]);
    let lines = layout_with_notes(&chapter, 100, LayoutOptions { max_width: 11 }, &Vec::new());
    assert_eq!(lines[0].offset, 0);
    // "ddd" starts after "aaa bbb ccc ".
    assert_eq!(lines[1].offset, 12);
    assert!(lines.iter().all(|l| l.block == 0));
}

#[test]
fn breaks_words_longer_than_the_line() {
    let chapter = chapter_of(vec![paragraph("abcdefghij")]);
    let lines = layout_with_notes(&chapter, 100, LayoutOptions { max_width: 24 }, &Vec::new());
    // Minimum usable width is 20, so this fits on one line.
    assert_eq!(lines.len(), 1);

    let chapter = chapter_of(vec![paragraph(&"x".repeat(50))]);
    let lines = layout_with_notes(&chapter, 100, LayoutOptions { max_width: 20 }, &Vec::new());
    assert!(lines.len() > 1);
    assert!(lines.iter().all(|l| !l.pieces.is_empty()));
}

#[test]
fn separates_paragraphs_with_a_blank_line() {
    let chapter = chapter_of(vec![paragraph("one"), paragraph("two")]);
    let lines = layout_with_notes(&chapter, 100, LayoutOptions::default(), &Vec::new());
    assert_eq!(lines.len(), 3);
    assert_eq!(lines[1].kind, LineKind::Blank);
}

#[test]
fn keeps_styles_across_a_line_break() {
    let block = Block {
        kind: BlockKind::Paragraph,
        runs: vec![
            Run {
                text: "plain ".into(),
                style: RunStyle::default(),
            },
            Run {
                text: "bold text here".into(),
                style: RunStyle {
                    bold: true,
                    ..RunStyle::default()
                },
            },
        ],
    };
    let lines = layout_with_notes(
        &chapter_of(vec![block]),
        100,
        LayoutOptions { max_width: 12 },
        &Vec::new(),
    );
    assert!(lines.len() > 1);
    // The bold run survives the break on both lines.
    assert!(lines[0].pieces.iter().any(|p| p.style.bold));
    assert!(lines[1].pieces.iter().all(|p| p.style.bold));
}

#[test]
fn indents_list_items_and_hangs_continuations() {
    let block = Block {
        kind: BlockKind::ListItem {
            depth: 0,
            ordinal: Some(1),
        },
        runs: vec![Run {
            text: "first item that wraps".into(),
            style: RunStyle::default(),
        }],
    };
    let lines = layout_with_notes(
        &chapter_of(vec![block]),
        100,
        LayoutOptions { max_width: 20 },
        &Vec::new(),
    );
    assert_eq!(lines[0].indent, 2);
    assert_eq!(lines[0].pieces[0].text, "1. ");
    assert!(lines[1].indent > lines[0].indent);
}

#[test]
fn never_drops_text() {
    let source = "The quick brown fox jumps over the lazy dog again and again";
    let chapter = chapter_of(vec![paragraph(source)]);
    for width in [20u16, 25, 33, 47, 66] {
        let lines = layout_with_notes(&chapter, 100, LayoutOptions { max_width: width }, &Vec::new());
        let joined: Vec<String> = lines
            .iter()
            .filter(|l| l.kind != LineKind::Blank)
            .map(|l| l.pieces.iter().map(|p| p.text.as_str()).collect())
            .collect();
        assert_eq!(joined.join(" "), source, "width {width}");
    }
}

#[test]
fn a_comment_appears_under_its_block() {
    let chapter = chapter_of(vec![paragraph("first"), paragraph("second")]);
    let notes = vec![NoteAnchor {
        block: 0,
        color: (1, 2, 3),
        text: "my thought".into(),
    }];
    let lines = layout_with_notes(&chapter, 100, LayoutOptions::default(), &notes);

    let note_at = lines
        .iter()
        .position(|l| matches!(l.kind, LineKind::Note { .. }))
        .expect("no comment line");
    let second_at = lines
        .iter()
        .position(|l| l.block == 1 && l.kind == LineKind::Body)
        .expect("second paragraph missing");
    assert!(note_at < second_at, "comment must precede the next block");
    assert!(matches!(
        lines[note_at].kind,
        LineKind::Note { color: (1, 2, 3) }
    ));
}

#[test]
fn a_comment_holds_no_text_position() {
    let chapter = chapter_of(vec![paragraph("first")]);
    let notes = vec![NoteAnchor {
        block: 0,
        color: (0, 0, 0),
        text: "note".into(),
    }];
    let lines = layout_with_notes(&chapter, 100, LayoutOptions::default(), &notes);
    for line in lines
        .iter()
        .filter(|l| matches!(l.kind, LineKind::Note { .. }))
    {
        assert_eq!(line.text_len(), 0);
        assert!(!line.is_selectable());
    }
}

#[test]
fn a_long_comment_wraps() {
    let chapter = chapter_of(vec![paragraph("x")]);
    let notes = vec![NoteAnchor {
        block: 0,
        color: (0, 0, 0),
        text: "word ".repeat(30),
    }];
    let lines = layout_with_notes(&chapter, 40, LayoutOptions::default(), &notes);
    let note_lines = lines
        .iter()
        .filter(|l| matches!(l.kind, LineKind::Note { .. }))
        .count();
    assert!(note_lines > 1, "expected the comment to wrap");
}

#[test]
fn wide_characters_take_two_columns() {
    let chapter = chapter_of(vec![paragraph(&"日".repeat(15))]);
    let lines = layout_with_notes(&chapter, 100, LayoutOptions { max_width: 20 }, &Vec::new());
    let texts: Vec<usize> = lines
        .iter()
        .map(|l| l.pieces.iter().map(|p| p.text.chars().count()).sum())
        .collect();
    assert_eq!(texts, vec![10, 5]);
}

#[test]
fn a_line_is_found_by_its_position() {
    let chapter = chapter_of(vec![paragraph("aaa bbb ccc ddd eee fff"), paragraph("x")]);
    let lines = layout_with_notes(&chapter, 100, LayoutOptions { max_width: 20 }, &Vec::new());
    let index = Index::new(&lines);
    for (at, line) in lines.iter().enumerate().filter(|(_, l)| l.is_selectable()) {
        assert_eq!(index.line_of(line.block, line.offset), Some(at));
    }
    assert_eq!(index.line_of(9, 0), Some(3), "past the end is the last line");
    assert_eq!(Index::new(&Vec::new()).line_of(0, 0), None);
    assert_eq!(index.next_selectable(0), Some(0));
    assert_eq!(index.next_selectable(2), Some(3));
    assert_eq!(index.previous_selectable(2), Some(1));
}

#[test]
fn a_picture_takes_the_rows_it_was_given() {
    let picture = Block { kind: BlockKind::Image { src: None }, runs: Vec::new() };
    let images = vec![ImagePlacement { block: 0, rows: 3 }];
    let lines = layout_full(
        &chapter_of(vec![picture]),
        100,
        LayoutOptions::default(),
        &Vec::new(),
        &images,
    );
    let rows: Vec<u16> = lines
        .iter()
        .filter_map(|l| match l.kind {
            LineKind::Image { row, rows: 3 } => Some(row),
            _ => None,
        })
        .collect();
    assert_eq!(rows, vec![0, 1, 2]);
}

fn noted(block: usize, text: &str) -> NoteAnchor {
    NoteAnchor { block, text: text.to_string(), color: (1, 2, 3) }
}

#[test]
fn comments_move_no_text() {
    let item = Block {
        kind: BlockKind::ListItem { depth: 0, ordinal: Some(3) },
        runs: vec![Run { text: "an item that wraps".into(), style: RunStyle::default() }],
    };
    let chapter = chapter_of(vec![paragraph("aaa bbb ccc ddd"), item, paragraph("end")]);
    let options = LayoutOptions { max_width: 16 };
    let notes = vec![noted(0, "first"), noted(1, "second"), noted(0, "third")];
    let with = layout_with_notes(&chapter, 100, options, &notes);
    let without = layout_with_notes(&chapter, 100, options, &Vec::new());
    let shown = |lines: &Vec<omalibre::layout::Line>| -> Vec<(usize, usize, u16, String)> {
        lines
            .iter()
            .filter(|l| l.text_len() > 0)
            .map(|l| (l.block, l.offset, l.indent, format!("{:?} {:?}", l.kind, l.pieces)))
            .collect()
    };
    assert_eq!(shown(&with), shown(&without));
}

#[test]
fn comments_stand_below_their_block() {
    let chapter = chapter_of(vec![paragraph("aaa bbb ccc ddd"), paragraph("end")]);
    let notes = vec![noted(0, "first"), noted(0, "second")];
    let lines = layout_with_notes(&chapter, 100, LayoutOptions { max_width: 14 }, &notes);
    let kinds: Vec<(usize, bool)> = lines
        .iter()
        .filter(|l| l.kind != LineKind::Blank)
        .map(|l| (l.block, matches!(l.kind, LineKind::Note { color: (1, 2, 3) })))
        .collect();
    assert_eq!(
        kinds,
        vec![(0, false), (0, false), (0, true), (0, true), (1, false)]
    );
    for line in lines.iter().filter(|l| matches!(l.kind, LineKind::Note { .. })) {
        assert!(line.pieces.iter().all(|p| p.decoration));
        assert_eq!(line.text_len(), 0);
    }
}

#[test]
fn lines_stay_within_the_reading_width() {
    let kind = |kind: BlockKind, text: &str| Block {
        kind,
        runs: vec![Run { text: text.into(), style: RunStyle::default() }],
    };
    let words = "漢字 and words of some length, abcdefghijklmnopqrstuvwxyz";
    let chapter = chapter_of(vec![
        kind(BlockKind::Paragraph, words),
        kind(BlockKind::Quote, words),
        kind(BlockKind::Code, words),
        kind(BlockKind::ListItem { depth: 1, ordinal: Some(12) }, words),
    ]);
    for width in 16..40 {
        let lines = layout_with_notes(
            &chapter,
            width,
            LayoutOptions { max_width: 100 },
            &vec![noted(0, words)],
        );
        for line in &lines {
            let drawn: usize = line
                .pieces
                .iter()
                .map(|p| unicode_width::UnicodeWidthStr::width(p.text.as_str()))
                .sum();
            assert!(line.indent as usize + drawn <= width as usize, "{width}: {line:?}");
        }
    }
}

#[test]
fn a_layout_never_drops_text() {
    let kind = |kind: BlockKind, text: &str| Block {
        kind,
        runs: vec![Run { text: text.into(), style: RunStyle::default() }],
    };
    let words = "some words, and abcdefghijklmnopqrstuvwxyz";
    let code = "    let indented = \"a   b\";  // kept";
    let blocks = vec![
        kind(BlockKind::Heading(1), words),
        kind(BlockKind::Rule, ""),
        kind(BlockKind::Code, code),
        kind(BlockKind::ListItem { depth: 2, ordinal: None }, words),
        kind(BlockKind::Quote, words),
    ];
    let wanted: Vec<String> = blocks.iter().map(|b| b.plain_text()).collect();
    let chapter = chapter_of(blocks);
    let notes = vec![noted(0, "a comment"), noted(2, "and another")];
    for width in [8u16, 13, 21, 80] {
        let lines = layout_with_notes(&chapter, width, LayoutOptions { max_width: 60 }, &notes);
        for (index, text) in wanted.iter().enumerate() {
            let shown: String = lines
                .iter()
                .filter(|l| l.block == index && l.text_len() > 0)
                .flat_map(|l| l.pieces.iter().filter(|p| !p.decoration))
                .map(|p| p.text.as_str())
                .collect();
            assert_eq!(shown.replace(' ', ""), text.replace(' ', ""), "width {width}");
            if index == 2 {
                assert_eq!(&shown, text, "width {width}");
            }
        }
    }
}
