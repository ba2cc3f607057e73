//! What the program does around the views: opening, listing, commenting.

use std::io::{Cursor, Write};

use omalibre::app::{EditRequest, Mode};
use omalibre::doc::{Block, BlockKind, Chapter, Link, Run, RunStyle};
use omalibre::epub::Book;
use omalibre::export::Report;
use omalibre::identity::BookId;
use omalibre::input::Key;
use omalibre::journal::{Event, Journal, Moment, Payload, State};
use omalibre::library::{entries, ScanReport};
use omalibre::mcp::json::Json;
use omalibre::session::listing::{
    dump_chapter, export_summary, inspect, library_text, list_recent, picture_line,
    picture_sources, print_books, scan_summary, truncate, Picture, Tally,
};
use omalibre::session::{
    landing_text, needs_wiping, note_from, note_opening, resolve_hit, scaffold, shellexpand,
    split_line_suffix, Pick, Picker,
};
use zip::write::SimpleFileOptions;
use zip::ZipWriter;

fn book() -> Book {
    let files = [
        (
            "META-INF/container.xml",
            r#"<container><rootfiles><rootfile full-path="book.opf"/></rootfiles></container>"#,
        ),
        (
            "book.opf",
            r#"<package xmlns:dc="http://purl.org/dc/elements/1.1/"><metadata>
               <dc:title>A Book</dc:title><dc:creator>One</dc:creator><dc:creator>Two</dc:creator>
               <dc:language>en</dc:language></metadata>
               <manifest><item id="a" href="a.xhtml"/><item id="b" href="b.xhtml"/></manifest>
               <spine><itemref idref="a"/><itemref idref="b"/></spine></package>"#,
        ),
        ("a.xhtml", "<html><body><p>x</p><p>y</p></body></html>"),
    ];
    let mut writer = ZipWriter::new(Cursor::new(Vec::new()));
    for (name, content) in files {
        writer.start_file(name, SimpleFileOptions::default()).unwrap();
        writer.write_all(content.as_bytes()).unwrap();
    }
    Book::open(writer.finish().unwrap().into_inner(), "a.epub").unwrap()
}

fn id() -> BookId {
    BookId::from_text("sha256:a".to_string())
}

fn event(seconds: i64, payload: Payload) -> Event {
    Event {
        at: Moment { seconds, nanos: 0 },
        host: "box".to_string(),
        book: "sha256:a".to_string(),
        payload,
    }
}

fn seen(title: &str, path: &str) -> Payload {
    Payload::BookSeen {
        title: Some(title.to_string()),
        authors: vec!["One".to_string()],
        path: path.to_string(),
    }
}

fn paragraph(text: &str) -> Block {
    Block {
        kind: BlockKind::Paragraph,
        runs: vec![Run { text: text.to_string(), style: RunStyle::default() }],
    }
}

#[test]
fn an_untouched_comment_comes_back() {
    let request = EditRequest {
        annotation_id: "a1".to_string(),
        initial_text: "what I thought".to_string(),
        quote: "the\npassage".to_string(),
    };
    let text = scaffold(&request);
    assert_eq!(
        text,
        "what I thought\n\n--- the highlighted passage, for reference ---\nthe passage\n"
    );
    assert_eq!(note_from(&text), "what I thought");
    assert_eq!(note_from("the note\n"), "the note");
    assert_eq!(note_from(""), "");
}

#[test]
fn opening_again_records_nothing() {
    let book = book();
    let first = note_opening(&State::new(), &id(), &book, "/books/a.epub");
    let payload = first.expect("the first opening is recorded");
    match &payload {
        Payload::BookSeen { title, authors, path } => {
            assert_eq!(title.as_deref(), Some("A Book"));
            assert_eq!(authors, &vec!["One".to_string(), "Two".to_string()]);
            assert_eq!(path, "/books/a.epub");
        }
        other => panic!("unexpected {other:?}"),
    }
    let state = Journal::replay(vec![event(1, payload)]);
    assert!(note_opening(&state, &id(), &book, "/books/a.epub").is_none());
    // Another copy of the same book is one more file.
    assert!(note_opening(&state, &id(), &book, "/other/a.epub").is_some());
}

#[test]
fn a_reference_may_end_in_a_line() {
    assert_eq!(split_line_suffix("/x/001-a.md:13"), ("/x/001-a.md".to_string(), Some(13)));
    assert_eq!(split_line_suffix("/x/001-a.md"), ("/x/001-a.md".to_string(), None));
    assert_eq!(split_line_suffix("/x/001-a.md:end"), ("/x/001-a.md:end".to_string(), None));
}

#[test]
fn the_home_directory_is_spelled_out() {
    assert_eq!(shellexpand("~/books", Some("/home/me")), "/home/me/books");
    assert_eq!(shellexpand("~/books", None), "~/books");
    assert_eq!(shellexpand("/books", Some("/home/me")), "/books");
}

#[test]
fn a_hit_is_a_file_and_a_line() {
    let place = resolve_hit("qmd://books/b/001-x.md:7", "/export", None);
    assert_eq!(place.path, "/export/b/001-x.md");
    assert_eq!(place.line, Some(7));
    let place = resolve_hit("~/b/001-x.md", "/export", Some("/home/me"));
    assert_eq!(place.path, "/home/me/b/001-x.md");
    assert_eq!(place.line, None);
}

#[test]
fn a_landing_shows_the_text_of_its_line() {
    let text = "---\nbook: \"sha256:a\"\n---\n\n# A heading\n\nSome prose to land on.\n";
    assert_eq!(landing_text(text, 7).as_deref(), Some("Some prose to land on."));
    assert_eq!(landing_text("", 3), None);
}

#[test]
fn the_picker_keeps_its_cursor_on_the_list() {
    let mut picker = Picker::new(3);
    assert!(matches!(picker.handle_key(Key::Char('k')), Pick::Stay));
    assert_eq!(picker.cursor, 0);
    for _ in 0..5 {
        picker.handle_key(Key::Char('j'));
    }
    assert_eq!(picker.cursor, 2);
    assert!(matches!(picker.handle_key(Key::Enter), Pick::Open));
    assert!(matches!(picker.handle_key(Key::Char('q')), Pick::Leave));
}

#[test]
fn the_screen_is_wiped_when_the_page_moves() {
    let shown = (0, 0, 80, Mode::Reading);
    let moved = (0, 1, 80, Mode::Reading);
    assert!(!needs_wiping(None, shown, true, true));
    assert!(!needs_wiping(Some(shown), shown, true, true));
    assert!(needs_wiping(Some(shown), moved, true, false));
    assert!(needs_wiping(Some(shown), (0, 0, 80, Mode::Help), false, true));
    assert!(!needs_wiping(Some(shown), moved, false, false));
}

#[test]
fn long_text_is_cut_with_an_ellipsis() {
    assert_eq!(truncate("short", 5), "short");
    assert_eq!(truncate("longer", 5), "long…");
    assert_eq!(truncate("x", 0), "…");
}

#[test]
fn books_are_written_as_json() {
    let state = Journal::replay(vec![
        event(1, seen("A Book", "/books/a.epub")),
        event(1_767_225_600, Payload::PositionSet { href: "a".to_string(), block: 0, offset: 0 }),
    ]);
    let list = match print_books(&list_recent(&state, 5)) {
        Json::List(list) => list,
        other => panic!("unexpected {other:?}"),
    };
    assert_eq!(list.len(), 1);
    assert_eq!(list[0].text_in("id"), Some("sha256:a"));
    assert_eq!(list[0].text_in("title"), Some("A Book"));
    assert_eq!(list[0].text_in("lastRead"), Some("2026-01-01T00:00:00Z"));
    assert_eq!(list[0].bool_in("missing"), Some(false));
    assert!(list_recent(&state, 0).is_empty());
    // A book that was never read is not a recent one.
    assert!(list_recent(&Journal::replay(vec![event(1, seen("B", "/b"))]), 5).is_empty());
}

#[test]
fn the_library_is_listed_as_text() {
    let state = Journal::replay(vec![event(1, seen("A Book", "/books/a.epub"))]);
    let list = entries(&state);
    let text = library_text(&list, "");
    assert!(text.contains("A Book"), "{text}");
    assert!(text.contains("One"), "{text}");
}

#[test]
fn a_book_is_inspected() {
    let text = inspect(&book());
    assert!(text.starts_with(
        "title:      A Book\nauthors:    One, Two\nlanguage:   en\nidentifier: -\nspine:      2 items\n\n"
    ), "{text}");
    assert!(text.contains("    1. a.xhtml                                             2 blocks  a.xhtml\n"), "{text}");
    assert!(text.contains("    2. FAILED b.xhtml: b.xhtml is missing from the container: "), "{text}");
    assert!(text.ends_with("\n2 blocks total, 1 chapters failed\n"), "{text}");
}

#[test]
fn a_chapter_is_dumped() {
    let mut chapter = Chapter::default();
    chapter.href = "a.xhtml".to_string();
    chapter.blocks = vec![
        Block { kind: BlockKind::Heading(2), runs: paragraph("Title").runs },
        Block {
            kind: BlockKind::ListItem { depth: 0, ordinal: Some(1) },
            runs: paragraph("first").runs,
        },
        Block { kind: BlockKind::Image { src: None }, runs: Vec::new() },
    ];
    chapter.links =
        vec![Link { block: 1, start: 0, end: 5, target: "b.xhtml".to_string() }];
    assert_eq!(
        dump_chapter(&chapter),
        "a.xhtml - 3 blocks, 1 links, 0 anchors\n\n  link  block    1 chars 0..5  -> b.xhtml\n\n   0 h2              5ch  Title\n   1 li d0 Some(1)    5ch  first\n   2 img -           0ch  \n"
    );
}

#[test]
fn pictures_are_listed_and_counted() {
    let mut chapter = Chapter::default();
    chapter.blocks = vec![
        paragraph("text"),
        Block { kind: BlockKind::Image { src: Some("a.png".to_string()) }, runs: Vec::new() },
        Block { kind: BlockKind::Image { src: None }, runs: Vec::new() },
    ];
    assert_eq!(
        picture_sources(&chapter),
        vec![(1, Some("a.png".to_string())), (2, None)]
    );
    let drawn =
        Picture::Shown { src: "a.png".to_string(), bytes: 70, columns: 10, rows: 5, payload: 120 };
    assert_eq!(
        picture_line(3, 12, &drawn),
        "  ch  3 block  12        70 B   10x5   cells        120 B out  a.png\n"
    );
    assert_eq!(picture_line(0, 2, &Picture::Unnamed), "  ch  0 block   2  NO SRC\n");
    let missing = Picture::Missing { src: "b.png".to_string(), reason: "gone".to_string() };
    assert_eq!(picture_line(0, 2, &missing), "  ch  0 block   2  MISSING      b.png: gone\n");
    let broken = Picture::Undecodable { src: "b.png".to_string(), reason: "bad".to_string() };
    assert_eq!(picture_line(0, 2, &broken), "  ch  0 block   2  UNDECODABLE  b.png: bad\n");
    let empty = Picture::Empty { src: "b.png".to_string() };
    assert_eq!(picture_line(0, 2, &empty), "  ch  0 block   2  EMPTY        b.png\n");
    let mut tally = Tally::new();
    for picture in [&drawn, &Picture::Unnamed, &missing, &broken, &empty] {
        tally.count(picture);
    }
    assert_eq!(tally, Tally { total: 5, readable: 3, rendered: 1, bytes_out: 120 });
}

#[test]
fn reports_say_what_happened() {
    let mut report = ScanReport::default();
    report.seen = 3;
    report.added = 2;
    report.unreadable.push(("x.epub".to_string(), "broken".to_string()));
    assert_eq!(
        scan_summary(&report),
        "\n3 files seen, 2 added, 0 moved\n\n1 could not be read:\n  x.epub: broken\n"
    );
    let mut report = Report::default();
    report.books = 1;
    report.chapters = 12;
    report.unchanged = 4;
    assert_eq!(
        export_summary(&report),
        "\n1 books, 12 chapters, 0 annotations written; 4 unchanged\n"
    );
}
