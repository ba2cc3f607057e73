//! What is painted, before a terminal is involved.

use omalibre::annotation::{Annotation, Color, Slice};
use omalibre::doc::{Block, BlockKind, Chapter, Run, RunStyle};
use omalibre::find::{Hit, Results, Source};
use omalibre::identity::BookId;
use omalibre::journal::{BookRecord, Moment};
use omalibre::layout::{layout_full, layout_with_notes, ImagePlacement, LayoutOptions};
use omalibre::library::{Entry, Order};
use omalibre::search::Search;
use omalibre::theme::Theme;
use omalibre::ui::page::{gutter_mark, image_row, mark_span, render_line, Cell, Scene};
use omalibre::ui::panel::{
    annotation_rows, draw_hits, draw_hits_status, pad, placements, shelf_row, shorten, Sprite,
};
use omalibre::ui::{centred, panel, Area, Palette, Span};

fn text(spans: &[Span]) -> String {
    spans.iter().map(|span| span.text.as_str()).collect()
}

fn palette() -> Palette {
    Palette { theme: Theme::default(), on_marks: [(1, 1, 1); 5], on_accent: (2, 2, 2) }
}

fn chapter(text: &str) -> Chapter {
    let mut chapter = Chapter::default();
    chapter.blocks = vec![Block {
        kind: BlockKind::Paragraph,
        runs: vec![Run { text: text.to_string(), style: RunStyle::default() }],
    }];
    chapter
}

fn mark(start: usize, end: usize, note: Option<&str>) -> Annotation {
    Annotation {
        id: "m".to_string(),
        href: "c".to_string(),
        slices: vec![Slice { block: 0, start, end }],
        color: Color::Green,
        quote: "quoted".to_string(),
        note: note.map(String::from),
    }
}

#[test]
fn columns_line_up() {
    assert_eq!(pad("ab", 5), "ab   ");
    assert_eq!(pad("abcdef", 5), "abcd…");
    assert_eq!(pad("abcde", 5), "abcde");
    for width in 1..9 {
        assert_eq!(pad("some title", width).chars().count(), width);
    }
    assert_eq!(shorten("  a \n b  ", 10), "a b");
    assert_eq!(shorten("one two three", 8), "one two…");
}

#[test]
fn elapsed_time_is_rounded_down() {
    let now = Moment { seconds: 1_000_000_000, nanos: 0 };
    let ago = |seconds: i64| panel::when(Moment { seconds: now.seconds - seconds, nanos: 0 }, now);
    assert_eq!(ago(0), "1 min ago");
    assert_eq!(ago(59 * 60), "59 min ago");
    assert_eq!(ago(3600), "1 h ago");
    assert_eq!(ago(86_399), "23 h ago");
    assert_eq!(ago(86_400), "yesterday");
    assert_eq!(ago(2 * 86_400), "2 days ago");
    assert_eq!(ago(30 * 86_400), "1 months ago");
    assert_eq!(ago(365 * 86_400), "1 years ago");
    assert_eq!(ago(-86_400), "just now");
    // A part of a day ahead counts as now, a part of a second is dropped.
    assert_eq!(ago(-3600), "1 min ago");
    let half = Moment { seconds: now.seconds - 3600, nanos: 1 };
    assert_eq!(panel::when(half, now), "59 min ago");
}

#[test]
fn a_panel_stays_inside() {
    let area = Area { x: 3, y: 2, width: 80, height: 24 };
    let inside = centred(area, 60, 10);
    assert_eq!(inside, Area { x: 13, y: 9, width: 60, height: 10 });
    let inside = centred(area, 200, 200);
    assert_eq!((inside.width, inside.height), (76, 22));
    assert!(inside.x >= area.x && inside.x + inside.width <= area.x + area.width);
}

#[test]
fn a_marked_passage_is_painted_in_its_colour() {
    let palette = palette();
    let chapter = chapter("one two three");
    let lines = layout_with_notes(&chapter, 40, LayoutOptions { max_width: 30 }, &Vec::new());
    let search = Search::default();
    let annotation = mark(4, 7, None);
    let scene = Scene {
        marks: vec![&annotation],
        selection: None,
        cursor: None,
        search: &search,
        palette: &palette,
    };
    let spans = render_line(&scene, &lines[0], 0, 40);
    assert_eq!(text(&spans).trim_end(), "one two three");
    let painted: Vec<&str> = spans
        .iter()
        .filter(|span| span.paint.bg == Some(palette.theme.marks[1]))
        .map(|span| span.text.as_str())
        .collect();
    assert_eq!(painted, vec!["two"]);
}

#[test]
fn a_comment_shows_in_the_gutter() {
    let palette = palette();
    let chapter = chapter("one two three");
    let lines = layout_with_notes(&chapter, 40, LayoutOptions { max_width: 30 }, &Vec::new());
    let search = Search::default();
    let annotation = mark(4, 7, Some("why"));
    let scene = Scene {
        marks: vec![&annotation],
        selection: None,
        cursor: None,
        search: &search,
        palette: &palette,
    };
    let span = gutter_mark(&scene, &lines[0]);
    assert!(span.paint.reversed);
    assert_eq!(span.paint.underline, Some(palette.theme.marks[1]));
    let unmarked = Scene {
        marks: Vec::new(),
        selection: None,
        cursor: None,
        search: &search,
        palette: &palette,
    };
    assert_eq!(gutter_mark(&unmarked, &lines[0]).text, " ");
    assert!(!gutter_mark(&unmarked, &lines[0]).paint.reversed);
    assert_eq!(mark_span((1, 2, 3), false, "▌").text, "▌");
    assert_eq!(mark_span((1, 2, 3), false, "▌").paint.fg, Some((1, 2, 3)));
    assert_eq!(mark_span((1, 2, 3), true, "▌").text, " ");
}

#[test]
fn a_row_of_a_picture_merges_equal_cells() {
    let red = Cell { upper: (255, 0, 0), lower: (0, 0, 0) };
    let blue = Cell { upper: (0, 0, 255), lower: (0, 0, 0) };
    let row = image_row(&vec![red, red, blue], 2);
    assert_eq!(text(&row), "  ▀▀▀");
    assert_eq!(row.len(), 3);
    assert_eq!(row[1].paint.fg, Some((255, 0, 0)));
    assert_eq!(row[1].paint.bg, Some((0, 0, 0)));
    assert_eq!(row[2].text, "▀");
}

#[test]
fn pictures_stay_inside() {
    let mut chapter = chapter("text");
    chapter.blocks.push(Block { kind: BlockKind::Image { src: None }, runs: Vec::new() });
    let images = vec![ImagePlacement { block: 1, rows: 3 }];
    let lines =
        layout_full(&chapter, 40, LayoutOptions { max_width: 30 }, &Vec::new(), &images);
    let sprites = vec![Sprite { block: 1, height: 3, escape: "E".to_string() }];
    let high = Area { x: 1, y: 0, width: 40, height: 10 };
    let placed = placements(lines.as_slice(), high, &sprites);
    assert_eq!(placed.len(), 1);
    assert_eq!(placed[0].escape, "E");
    assert!(placed[0].row + 3 <= high.y + high.height);
    // Three rows do not fit below the text any more.
    let low = Area { x: 1, y: 0, width: 40, height: 3 };
    assert!(placements(lines.as_slice(), low, &sprites).is_empty());
}

#[test]
fn an_annotation_takes_a_row_and_one_for_its_comment() {
    let theme = Theme::default();
    let plain = annotation_rows(&mark(0, 3, None), 40, &theme);
    let with_note = annotation_rows(&mark(0, 3, Some("why")), 40, &theme);
    assert!(text(&plain[0]).contains("quoted"));
    assert!(with_note.len() > plain.len());
    assert!(with_note.iter().any(|row| text(row).contains("why")));
}

#[test]
fn a_shelf_row_names_title_and_author() {
    let mut record = BookRecord::new("/b/x.epub".to_string());
    record.title = Some("Anathem".to_string());
    record.authors = vec!["Stephenson".to_string()];
    let entry = Entry {
        id: BookId::from_text("sha256:x".to_string()),
        record,
        progress: None,
        last_read: None,
    };
    let now = Moment { seconds: 0, nanos: 0 };
    let row = text(&shelf_row(&entry, false, Order::Title, now, 100, &Theme::default()));
    assert!(row.contains("Anathem"));
    assert!(row.contains("Stephenson"));
}

#[test]
fn hits_are_listed_with_their_passage() {
    let results = Results {
        hits: vec![Hit {
            book_title: "A Book".to_string(),
            chapter_title: "First".to_string(),
            book: BookId::from_text("sha256:x".to_string()),
            chapter_href: None,
            passage: None,
            snippet: "the passage".to_string(),
        }],
        source: Source::Direct,
        query: "word".to_string(),
    };
    let area = Area { x: 0, y: 0, width: 60, height: 10 };
    let rows = draw_hits(&results, 0, 0, area, &Theme::default());
    assert!(text(&rows[0]).contains("A Book"));
    assert!(text(&rows[1]).contains("the passage"));
    let status = text(&draw_hits_status(&results, 60, &Theme::default()));
    assert!(status.contains("word"));
}
