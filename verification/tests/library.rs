//! The list of books: its order, its filter and what a scan adds to it.

use std::io::{Cursor, Write};

use omalibre::identity::BookId;
use omalibre::journal::{BookRecord, Event, Journal, Moment, SeriesIndex, State};
use omalibre::library::{
    copy_entries, entries, filter, is_book, is_hidden, is_within_reach, scan, sort, sortable, Entry,
    Order, ScanReport, Scanned,
};
use zip::write::SimpleFileOptions;
use zip::ZipWriter;

/// Where a position in a series sorts: the total order of floating-point numbers.
fn rank(at: f32) -> i32 {
    let bits = at.to_bits() as i32;
    bits ^ (((bits >> 31) as u32) >> 1) as i32
}

fn moment(text: &str) -> Moment {
    let at = chrono::DateTime::parse_from_rfc3339(text).unwrap();
    Moment { seconds: at.timestamp(), nanos: at.timestamp_subsec_nanos() }
}

fn entry(title: &str, author: &str, series: Option<&str>, index: Option<f32>) -> Entry {
    let mut record = BookRecord::new("/tmp/x.epub".to_string());
    record.title = Some(title.into());
    record.authors = vec![author.into()];
    record.series = series.map(String::from);
    record.series_index = index.map(|at| SeriesIndex { rank: rank(at), label: at.to_string() });
    Entry {
        id: BookId::from_text(format!("sha256:{title}")),
        record,
        progress: None,
        last_read: None,
    }
}

#[test]
fn a_leading_article_does_not_decide_the_order() {
    assert_eq!(sortable("The Hobbit"), "hobbit");
    assert_eq!(sortable("Die Verwandlung"), "verwandlung");
    assert_eq!(sortable("Anathem"), "anathem");
}

#[test]
fn sorts_by_title() {
    let mut list = vec![
        entry("Zero to Sold", "Bechtel", None, None),
        entry("The Hobbit", "Tolkien", None, None),
    ];
    sort(&mut list, Order::Title);
    assert_eq!(list[0].record.title.as_deref(), Some("The Hobbit"));
}

#[test]
fn sorts_a_series_by_its_position() {
    let mut list = vec![
        entry("Third", "A", Some("Saga"), Some(3.0)),
        entry("Interlude", "A", Some("Saga"), Some(1.5)),
        entry("First", "A", Some("Saga"), Some(1.0)),
    ];
    sort(&mut list, Order::Series);
    let titles: Vec<_> = list
        .iter()
        .map(|e| e.record.title.clone().unwrap())
        .collect();
    assert_eq!(titles, ["First", "Interlude", "Third"]);
}

#[test]
fn books_without_an_author_come_last() {
    let mut nameless = entry("Zzz Anonymous", "", None, None);
    nameless.record.authors.clear();
    let mut list = vec![nameless, entry("Anathem", "Stephenson", None, None)];
    sort(&mut list, Order::Author);
    assert_eq!(
        list[0].record.authors.first().map(String::as_str),
        Some("Stephenson")
    );
}

#[test]
fn books_without_a_series_come_last() {
    let mut list = vec![
        entry("Loose", "A", None, None),
        entry("In a series", "A", Some("Saga"), Some(1.0)),
    ];
    sort(&mut list, Order::Series);
    assert_eq!(list[0].record.series.as_deref(), Some("Saga"));
}

#[test]
fn the_most_recently_read_comes_first() {
    let mut old = entry("Older", "A", None, None);
    old.last_read = Some(moment("2026-01-01T00:00:00Z"));
    let mut fresh = entry("Fresher", "B", None, None);
    fresh.last_read = Some(moment("2026-08-01T00:00:00Z"));
    let never = entry("Never opened", "C", None, None);

    let mut list = vec![old, never, fresh];
    sort(&mut list, Order::Recent);
    let titles: Vec<_> = list
        .iter()
        .map(|e| e.record.title.clone().unwrap())
        .collect();
    assert_eq!(titles, ["Fresher", "Older", "Never opened"]);
}

#[test]
fn a_match_inside_a_word_yields_to_one_at_its_start() {
    let list = vec![
        entry("Practical Fraud Prevention", "Saporta", None, None),
        entry("Understanding Eventsourcing", "Dilger", None, None),
    ];
    // "event" hides inside "Prevention", but starts a word in the other title.
    let found = filter(&list, "event");
    assert_eq!(found.len(), 1);
    assert_eq!(
        found[0].record.title.as_deref(),
        Some("Understanding Eventsourcing")
    );
}

#[test]
fn a_partial_word_still_finds_something() {
    let list = vec![entry("Understanding Eventsourcing", "Dilger", None, None)];
    // Nothing starts with "sourcing", so the inside-word match counts.
    assert_eq!(filter(&list, "sourcing").len(), 1);
}

#[test]
fn filters_across_title_author_series_and_tags() {
    let mut tagged = entry("Anathem", "Stephenson", None, None);
    tagged.record.tags = vec!["science fiction".into()];
    let list = vec![
        entry("The Hobbit", "Tolkien", Some("Middle-earth"), Some(1.0)),
        tagged,
    ];
    assert_eq!(filter(&list, "hobbit").len(), 1);
    assert_eq!(filter(&list, "tolkien").len(), 1);
    assert_eq!(filter(&list, "middle").len(), 1);
    assert_eq!(filter(&list, "science").len(), 1);
    assert_eq!(filter(&list, "").len(), 2);
    assert_eq!(filter(&list, "nothing here").len(), 0);
}

#[test]
fn a_title_falls_back_to_the_file_name() {
    let record = BookRecord::new("/books/some-book.epub".to_string());
    assert_eq!(record.display_title(), "some-book");
    assert_eq!(record.display_authors(), "-");
}

#[test]
fn a_book_can_sit_in_several_files() {
    let mut record = BookRecord::new("/a/book.epub".to_string());
    record.paths.push("/b/book.epub".to_string());
    // The first one recorded is the one to open.
    assert_eq!(record.path(), Some(&"/a/book.epub".to_string()));
    assert_eq!(record.paths.len(), 2);
}

#[test]
fn the_order_cycles_through_all_four() {
    let mut order = Order::Title;
    let mut seen = vec![order];
    for _ in 0..3 {
        order = order.next();
        seen.push(order);
    }
    assert_eq!(order.next(), Order::Title, "the cycle must close");
    assert_eq!(seen.len(), 4);
}

#[test]
fn only_epub_files_count_as_books() {
    assert!(is_book("a.epub"));
    assert!(is_book("a.EPUB"));
    assert!(!is_book("a.pdf"));
    assert!(!is_book("a.mobi"));
    assert!(!is_book("noextension"));
}

#[test]
fn what_is_missing_comes_last() {
    let mut gone = entry("Anathem", "Stephenson", None, None);
    gone.record.authors.clear();
    let mut list = vec![gone, entry("Zebra", "Zola", None, None)];
    sort(&mut list, Order::Author);
    assert_eq!(list[1].record.title.as_deref(), Some("Anathem"));
    sort(&mut list, Order::Series);
    assert_eq!(list[0].record.title.as_deref(), Some("Anathem"));
}

#[test]
fn case_and_articles_do_not_matter() {
    assert_eq!(sortable("Äpfel und Birnen"), "äpfel und birnen");
    assert_eq!(sortable("A Tale"), "tale");
    assert_eq!(sortable("Theory"), "theory");
}

#[test]
fn filtering_keeps_the_order() {
    let list = vec![
        entry("b match", "A", None, None),
        entry("other", "A", None, None),
        entry("a match", "A", None, None),
    ];
    let titles: Vec<_> =
        filter(&list, "match").iter().map(|e| e.record.title.clone().unwrap()).collect();
    assert_eq!(titles, ["b match", "a match"]);
}

fn archive(title: &str) -> Vec<u8> {
    let package = format!(
        r#"<package xmlns:dc="http://purl.org/dc/elements/1.1/"><metadata>
           <dc:title>{title}</dc:title><dc:creator>One</dc:creator></metadata>
           <manifest><item id="a" href="a.xhtml"/></manifest>
           <spine><itemref idref="a"/></spine></package>"#
    );
    let mut writer = ZipWriter::new(Cursor::new(Vec::new()));
    for (name, content) in [
        (
            "META-INF/container.xml",
            r#"<container><rootfiles><rootfile full-path="book.opf"/></rootfiles></container>"#,
        ),
        ("book.opf", package.as_str()),
    ] {
        writer.start_file(name, SimpleFileOptions::default()).unwrap();
        writer.write_all(content.as_bytes()).unwrap();
    }
    writer.finish().unwrap().into_inner()
}

#[test]
fn a_second_scan_adds_nothing() {
    let mut report = ScanReport::default();
    let first = scan(&State::new(), archive("A Book"), "a.epub", "/b/a.epub".to_string());
    report.count("/b/a.epub".to_string(), &first);
    let mut events = Vec::new();
    match first {
        Scanned::Added { id, seen, details } => {
            for payload in [Some(seen), details].into_iter().flatten() {
                events.push(Event {
                    at: Moment { seconds: events.len() as i64, nanos: 0 },
                    host: "box".to_string(),
                    book: id.as_str().to_string(),
                    payload,
                });
            }
        }
        other => panic!("expected a new book, got {other:?}"),
    }
    let state = Journal::replay(events);
    let list = entries(&state);
    assert_eq!(list.len(), 1);
    assert_eq!(list[0].record.title.as_deref(), Some("A Book"));

    let again = scan(&state, archive("A Book"), "a.epub", "/b/a.epub".to_string());
    assert!(matches!(again, Scanned::Known), "{again:?}");
    report.count("/b/a.epub".to_string(), &again);
    let moved = scan(&state, archive("A Book"), "a.epub", "/c/a.epub".to_string());
    assert!(matches!(moved, Scanned::Moved { .. }), "{moved:?}");
    report.count("/c/a.epub".to_string(), &moved);
    let broken = scan(&state, b"text".to_vec(), "x.epub", "/c/x.epub".to_string());
    assert!(matches!(broken, Scanned::Unreadable { .. }), "{broken:?}");
    report.count("/c/x.epub".to_string(), &broken);
    assert_eq!((report.seen, report.added, report.moved), (4, 1, 1));
    assert_eq!(report.unreadable[0].0, "/c/x.epub");
}

#[test]
fn hidden_and_deep_directories_are_left_out() {
    assert!(is_hidden(".cache"));
    assert!(!is_hidden("books"));
    assert!(is_within_reach(12));
    assert!(!is_within_reach(13));
}

#[test]
fn a_copied_list_is_the_same_list() {
    let list = vec![entry("Anathem", "Stephenson", Some("S"), Some(2.0))];
    let copy = copy_entries(&list);
    assert_eq!(copy[0].record, list[0].record);
    assert_eq!(copy[0].id, list[0].id);
}
