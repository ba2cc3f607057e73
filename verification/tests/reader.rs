//! The reader: a book on screen, driven by keys.

use std::io::{Cursor, Write};

use omalibre::annotation::{Color, Slice};
use omalibre::app::{App, Change, ImageSlot, Mode, Request};
use omalibre::doc::Locator;
use omalibre::epub::Book;
use omalibre::identity::BookId;
use omalibre::input::{Key, KeyPress};
use omalibre::journal::{Event, Journal, Moment, Payload, State};
use omalibre::layout::LayoutOptions;
use omalibre::theme::Theme;
use zip::write::SimpleFileOptions;
use zip::ZipWriter;

fn archive(files: &[(&str, &str)]) -> Vec<u8> {
    let mut writer = ZipWriter::new(Cursor::new(Vec::new()));
    for (name, content) in files {
        writer.start_file(*name, SimpleFileOptions::default()).unwrap();
        writer.write_all(content.as_bytes()).unwrap();
    }
    writer.finish().unwrap().into_inner()
}

const CONTAINER: &str = r#"<container xmlns="urn:oasis:names:tc:opendocument:xmlns:container">
  <rootfiles><rootfile full-path="OEBPS/book.opf"/></rootfiles></container>"#;

const PACKAGE: &str = r#"<package xmlns="http://www.idpf.org/2007/opf" version="3.0">
  <metadata xmlns:dc="http://purl.org/dc/elements/1.1/">
    <dc:title>Two Chapters</dc:title><dc:creator>A Writer</dc:creator>
  </metadata>
  <manifest>
    <item id="c1" href="ch01.xhtml" media-type="application/xhtml+xml"/>
    <item id="c2" href="ch02.xhtml" media-type="application/xhtml+xml"/>
    <item id="nav" href="nav.xhtml" properties="nav" media-type="application/xhtml+xml"/>
  </manifest>
  <spine><itemref idref="c1"/><itemref idref="c2"/></spine>
</package>"#;

const NAV: &str = r#"<html xmlns:epub="http://www.idpf.org/2007/ops"><body>
  <nav epub:type="toc"><ol><li><a href="ch01.xhtml">First</a></li>
  <li><a href="ch02.xhtml">Second</a></li></ol></nav></body></html>"#;

const FIRST: &str = r#"<html><body><p>one two <a href="ch02.xhtml#note">three</a></p>
  <p>four five six</p><p>seven</p></body></html>"#;

const SECOND: &str = r#"<html><body><p>eight</p><p id="note">nine ten two</p></body></html>"#;

fn two_chapters() -> Vec<u8> {
    archive(&[
        ("META-INF/container.xml", CONTAINER),
        ("OEBPS/book.opf", PACKAGE),
        ("OEBPS/nav.xhtml", NAV),
        ("OEBPS/ch01.xhtml", FIRST),
        ("OEBPS/ch02.xhtml", SECOND),
    ])
}

fn id() -> BookId {
    BookId::from_text("sha256:two".to_string())
}

fn reader_in(state: &State) -> App {
    let book = Book::open(two_chapters(), "two.epub").unwrap();
    let mut journal = Journal::open("box".to_string());
    journal.assume_written(state.position(&id()).map(|at| Locator {
        href: at.href.clone(),
        block: at.block,
        offset: at.offset,
    }));
    App::new(book, id(), journal, state, LayoutOptions { max_width: 60 }, Theme::default())
}

fn reader() -> App {
    let mut app = reader_in(&State::new());
    app.prepare(80, 20, Vec::new());
    app
}

fn press(app: &mut App, key: Key) {
    app.handle_key(KeyPress::plain(key), 7);
    app.prepare(80, 20, Vec::new());
}

fn types(app: &mut App, keys: &str) {
    for key in keys.chars() {
        press(app, Key::Char(key));
    }
}

/// Writes what the reader asks for, and hands the outcome back.
fn write(app: &mut App) -> Payload {
    let payload = app.request.as_ref().expect("a request").payload();
    app.settle(None);
    payload
}

fn shown(app: &App) -> Vec<String> {
    app.visible_lines()
        .iter()
        .map(|line| line.pieces.iter().map(|piece| piece.text.as_str()).collect())
        .collect()
}

#[test]
fn a_book_opens_on_its_first_chapter() {
    let app = reader();
    assert_eq!(app.title(), "Two Chapters");
    assert_eq!(app.chapter_title(), "First");
    assert_eq!(app.chapter_number(), (1, 2));
    assert_eq!(app.contents(), vec!["First", "Second"]);
    assert_eq!(shown(&app), vec!["one two three", "", "four five six", "", "seven"]);
    assert!(app.mode == Mode::Reading);
}

#[test]
fn a_book_opens_where_it_was_left() {
    let left = Event {
        at: Moment { seconds: 5, nanos: 0 },
        host: "box".to_string(),
        book: "sha256:two".to_string(),
        payload: Payload::PositionSet { href: "OEBPS/ch02.xhtml".to_string(), block: 1, offset: 0 },
    };
    let mut app = reader_in(&Journal::replay(vec![left]));
    assert_eq!(app.chapter_title(), "Second");
    // The page is so low that the remembered line can stand on top of it.
    app.prepare(80, 1, Vec::new());
    let place = app.position().unwrap();
    assert_eq!((place.href.as_str(), place.block, place.offset), ("OEBPS/ch02.xhtml", 1, 0));
}

#[test]
fn reopening_at_the_recorded_place_asks_for_nothing() {
    let left = Event {
        at: Moment { seconds: 5, nanos: 0 },
        host: "box".to_string(),
        book: "sha256:two".to_string(),
        payload: Payload::PositionSet { href: "OEBPS/ch01.xhtml".to_string(), block: 0, offset: 0 },
    };
    let mut app = reader_in(&Journal::replay(vec![left]));
    app.prepare(80, 20, Vec::new());
    app.save_position();
    assert!(app.request.is_none());
}

#[test]
fn only_q_leaves() {
    for key in "jkgGLHtAn?ivV".chars() {
        let mut app = reader();
        press(&mut app, Key::Char(key));
        assert!(!app.should_quit, "{key} must not leave");
    }
    let mut app = reader();
    press(&mut app, Key::Char('q'));
    assert!(app.should_quit);
    assert!(!app.should_quit_program);
    let mut app = reader();
    press(&mut app, Key::Char('Q'));
    assert!(app.should_quit);
    assert!(app.should_quit_program);
}

#[test]
fn moving_to_a_chapter_saves_the_position() {
    let mut app = reader();
    press(&mut app, Key::Char('L'));
    assert_eq!(app.chapter_title(), "Second");
    match write(&mut app) {
        Payload::PositionSet { href, block, offset } => {
            assert_eq!((href.as_str(), block, offset), ("OEBPS/ch01.xhtml", 0, 0));
        }
        other => panic!("unexpected {other:?}"),
    }
    press(&mut app, Key::Char('H'));
    assert_eq!(app.chapter_title(), "First");
}

#[test]
fn a_passage_is_highlighted_once_it_is_written() {
    let mut app = reader();
    types(&mut app, "vy");
    let payload = app.request.as_ref().expect("a request").payload();
    match &payload {
        Payload::HighlightAdded { id, href, slices, color, quote } => {
            assert_eq!(id, "box-7-1");
            assert_eq!(href, "OEBPS/ch01.xhtml");
            assert_eq!((slices[0].block, slices[0].start, slices[0].end), (0, 0, 1));
            assert_eq!(*color, Color::Yellow);
            assert_eq!(quote, "o");
        }
        other => panic!("unexpected {other:?}"),
    }
    assert!(app.annotations().is_empty(), "nothing is shown before it is written");
    app.settle(None);
    assert_eq!(app.annotations().len(), 1);
    assert_eq!(app.annotations_here().len(), 1);
}

#[test]
fn a_refused_write_changes_nothing_but_the_message() {
    let mut app = reader();
    types(&mut app, "vly");
    assert!(app.request.is_some());
    app.settle(Some("disk full".to_string()));
    assert!(app.annotations().is_empty());
    assert_eq!(app.status(), Some("cannot save annotation: disk full"));
    assert!(app.request.is_none());
}

#[test]
fn each_refused_change_is_named() {
    // A highlight to work on.
    let mut app = reader();
    types(&mut app, "vly");
    write(&mut app);
    for (keys, message) in [
        ("mb", "cannot change colour: no"),
        ("d", "cannot delete: no"),
    ] {
        types(&mut app, keys);
        assert!(app.request.is_some(), "{keys} asks for something");
        app.settle(Some("no".to_string()));
        assert_eq!(app.status(), Some(message));
    }
    let id = app.annotations()[0].id.clone();
    app.finish_edit(&id, " a thought \n".to_string());
    app.settle(Some("no".to_string()));
    assert_eq!(app.status(), Some("cannot save comment: no"));
    assert!(!app.annotations()[0].has_note());
}

#[test]
fn a_comment_is_trimmed_and_kept() {
    let mut app = reader();
    types(&mut app, "vly");
    write(&mut app);
    let id = app.annotations()[0].id.clone();
    app.finish_edit(&id, " a thought \n".to_string());
    match write(&mut app) {
        Payload::NoteSet { id: written, text } => {
            assert_eq!(written, id);
            assert_eq!(text, "a thought");
        }
        other => panic!("unexpected {other:?}"),
    }
    assert_eq!(app.annotations()[0].note.as_deref(), Some("a thought"));
    app.prepare(80, 20, Vec::new());
    assert!(shown(&app).iter().any(|line| line.contains("a thought")));
}

#[test]
fn annotations_are_listed_in_reading_order() {
    let mut app = reader();
    // The second paragraph first, then the first one.
    types(&mut app, "ijvy");
    write(&mut app);
    types(&mut app, "ggvy");
    write(&mut app);
    let starts: Vec<usize> = app.annotations().iter().map(|a| a.start().0).collect();
    assert_eq!(starts, vec![0, 1]);
}

#[test]
fn what_the_reader_shows_is_what_the_journal_replays() {
    let mut app = reader();
    types(&mut app, "vly");
    let mut events = Vec::new();
    let at = Moment { seconds: 1, nanos: 0 };
    events.push(app.journal.event(at, &id(), app.request.as_ref().unwrap().payload()));
    app.settle(None);
    let mark = app.annotations()[0].id.clone();
    app.finish_edit(&mark, "why".to_string());
    let at = Moment { seconds: 2, nanos: 0 };
    events.push(app.journal.event(at, &id(), app.request.as_ref().unwrap().payload()));
    app.settle(None);
    let replayed = Journal::replay(events).annotations(&id());
    assert_eq!(&replayed, app.annotations());
}

#[test]
fn a_link_is_followed_and_left_again() {
    let mut app = reader();
    types(&mut app, "iww");
    assert_eq!(app.link_at_cursor().map(|l| l.target.as_str()), Some("ch02.xhtml#note"));
    let before = app.cursor_text_position();
    press(&mut app, Key::Enter);
    assert_eq!(app.chapter_title(), "Second");
    assert_eq!(app.cursor_text_position(), Some((1, 0)));
    app.handle_key(KeyPress { key: Key::Char('o'), ctrl: true }, 7);
    app.prepare(80, 20, Vec::new());
    assert_eq!(app.chapter_title(), "First");
    assert_eq!(app.cursor_text_position(), before);
}

#[test]
fn a_search_goes_on_into_the_next_chapter() {
    let mut app = reader();
    press(&mut app, Key::Char('/'));
    types(&mut app, "two");
    assert_eq!(app.search_input(), Some("two"));
    press(&mut app, Key::Enter);
    assert_eq!(app.search().current(), Some((0, 4)));
    press(&mut app, Key::Char('n'));
    assert_eq!(app.chapter_title(), "Second");
    assert_eq!(app.search().current(), Some((1, 9)));
}

#[test]
fn the_cursor_stays_in_view() {
    let mut app = reader();
    app.prepare(80, 2, Vec::new());
    press_low(&mut app, 'i');
    for _ in 0..4 {
        press_low(&mut app, 'j');
        let (line, _) = app.cursor_position().unwrap();
        assert!(app.scroll() <= line && line < app.scroll() + 2);
    }
}

/// Presses a key while the page is two lines high.
fn press_low(app: &mut App, key: char) {
    app.handle_key(KeyPress::plain(Key::Char(key)), 7);
    app.prepare(80, 2, Vec::new());
}

#[test]
fn progress_counts_chapters_and_lines() {
    let mut app = reader();
    assert!(app.progress() <= 100);
    press(&mut app, Key::Char('L'));
    assert!(app.progress() >= 50);
}

#[test]
fn a_missing_chapter_is_told_in_its_place() {
    let bytes = archive(&[
        ("META-INF/container.xml", CONTAINER),
        ("OEBPS/book.opf", PACKAGE),
        ("OEBPS/nav.xhtml", NAV),
        ("OEBPS/ch02.xhtml", SECOND),
    ]);
    let book = Book::open(bytes, "two.epub").unwrap();
    let failure = match book.chapter(0) {
        Err(failure) => failure,
        Ok(_) => panic!("the chapter is missing"),
    };
    assert!(failure.full().starts_with("OEBPS/ch01.xhtml is missing from the container: "));
    let mut app = App::new(
        book,
        id(),
        Journal::open("box".to_string()),
        &State::new(),
        LayoutOptions::default(),
        Theme::default(),
    );
    app.prepare(200, 20, Vec::new());
    assert!(shown(&app).concat().contains("is missing from the container"));
}

#[test]
fn what_is_no_archive_does_not_open() {
    let failure = Book::open(b"plain text".to_vec(), "notes.txt").unwrap_err();
    assert_eq!(failure.short(), "notes.txt is not a zip archive");
    let failure = Book::open(archive(&[("mimetype", "x")]), "empty.epub").unwrap_err();
    assert!(failure.full().contains("META-INF/container.xml"));
}

#[test]
fn pictures_are_measured_before_the_layout() {
    let with_picture = r#"<html><body><p>text</p><img src="fig.png" alt="a figure"/></body></html>"#;
    let bytes = archive(&[
        ("META-INF/container.xml", CONTAINER),
        ("OEBPS/book.opf", PACKAGE),
        ("OEBPS/nav.xhtml", NAV),
        ("OEBPS/ch01.xhtml", with_picture),
        ("OEBPS/ch02.xhtml", SECOND),
    ]);
    let book = Book::open(bytes, "two.epub").unwrap();
    let journal = Journal::open("box".to_string());
    let mut app =
        App::new(book, id(), journal, &State::new(), LayoutOptions::default(), Theme::default());
    assert!(app.needs_layout(80, 20));
    let sources = app.image_sources();
    assert_eq!(sources, vec![(1, "OEBPS/fig.png".to_string())]);
    let slots = vec![ImageSlot { block: 1, src: "OEBPS/fig.png".to_string(), rows: 3 }];
    app.prepare(80, 20, slots);
    assert!(!app.needs_layout(80, 20));
    assert!(app.needs_layout(80, 21));
    assert!(app.needs_layout(79, 20));
    let plan = app.image_plan(&Vec::new()).expect("pictures to draw");
    assert_eq!(plan.fetch.len(), 1);
    assert_eq!(plan.fetch[0].src, "OEBPS/fig.png");
}

#[test]
fn a_request_says_what_to_record() {
    let place = || Locator { href: "a".to_string(), block: 1, offset: 2 };
    assert!(matches!(
        Request::Save { locator: place(), aloud: true }.payload(),
        Payload::PositionSet { block: 1, offset: 2, .. }
    ));
    assert!(matches!(
        Request::Write(Change::ClearNote { id: "x".to_string() }).payload(),
        Payload::NoteSet { text, .. } if text.is_empty()
    ));
    assert!(matches!(
        Request::Write(Change::Remove { id: "x".to_string() }).payload(),
        Payload::AnnotationRemoved { id } if id == "x"
    ));
    assert!(matches!(
        Request::Write(Change::Recolor { id: "x".to_string(), color: Color::Red }).payload(),
        Payload::ColorSet { color: Color::Red, .. }
    ));
}

#[test]
fn a_picture_takes_at_most_four_fifths_of_the_window() {
    let app = reader();
    for height in 1..=u16::MAX {
        let rows = ((height as f32 * 0.8).round() as u16).max(4).min(height);
        assert_eq!(app.image_box_for(80, height), (60, rows), "{height}");
    }
    assert_eq!(app.image_box_for(7, 20), (0, 0));
    assert_eq!(app.image_box_for(9, 20).0, 9);
}

#[test]
fn a_commented_passage_is_deleted_in_two_ways() {
    let mut app = reader();
    types(&mut app, "vly");
    write(&mut app);
    let id = app.annotations()[0].id.clone();
    app.finish_edit(&id, "why".to_string());
    write(&mut app);
    app.prepare(80, 20, Vec::new());
    types(&mut app, "da");
    assert!(matches!(write(&mut app), Payload::NoteSet { text, .. } if text.is_empty()));
    assert_eq!(app.annotations().len(), 1);
    assert!(!app.annotations()[0].has_note());
    app.finish_edit(&id, "why".to_string());
    write(&mut app);
    app.prepare(80, 20, Vec::new());
    types(&mut app, "dh");
    assert!(matches!(write(&mut app), Payload::AnnotationRemoved { .. }));
    assert!(app.annotations().is_empty());
}

#[test]
fn a_reading_position_survives_a_layout() {
    let event = |seconds: i64, payload: Payload| Event {
        at: Moment { seconds, nanos: 0 },
        host: "box".to_string(),
        book: "sha256:two".to_string(),
        payload,
    };
    let href = "OEBPS/ch01.xhtml".to_string();
    let state = Journal::replay(vec![
        event(
            1,
            Payload::HighlightAdded {
                id: "a".to_string(),
                href: href.clone(),
                slices: vec![Slice { block: 0, start: 0, end: 3 }],
                color: Color::Green,
                quote: "one".to_string(),
            },
        ),
        event(2, Payload::NoteSet { id: "a".to_string(), text: "well".to_string() }),
        event(3, Payload::PositionSet { href, block: 0, offset: 8 }),
    ]);
    let mut app = reader_in(&state);
    // Narrow enough to break the first paragraph in two.
    app.prepare(8, 2, Vec::new());
    assert_eq!(shown(&app)[0], "three");
    let place = app.position().unwrap();
    assert_eq!((place.block, place.offset), (0, 8));
    // The comment below the paragraph does not take its place.
    app.prepare(9, 2, Vec::new());
    let place = app.position().unwrap();
    assert_eq!((place.block, place.offset), (0, 8));
    app.prepare(9, 1, Vec::new());
    let place = app.position().unwrap();
    assert_eq!((place.block, place.offset), (0, 8));
}

#[test]
fn a_new_annotation_keeps_in_step() {
    let mut app = reader();
    let mut events = Vec::new();
    for seconds in 1..4 {
        // The same instant each time: only the running number tells them apart.
        types(&mut app, "vly");
        let at = Moment { seconds, nanos: 0 };
        events.push(app.journal.event(at, &id(), app.request.as_ref().unwrap().payload()));
        app.settle(None);
        types(&mut app, "w");
    }
    assert_eq!(app.annotations().len(), 3);
    let replayed = Journal::replay(events).annotations(&id());
    assert_eq!(&replayed, app.annotations());
}
