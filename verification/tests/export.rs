//! Books written out as Markdown.

use std::io::{Cursor, Write};

use omalibre::annotation::{Annotation, Color, Slice};
use omalibre::doc::{Block, BlockKind, Chapter, Run, RunStyle};
use omalibre::export::markdown::{chapter_markdown, chapter_markdown_titled, front_matter, quote};
use omalibre::export::origin::{parse_origin, slug_of, slugify, Origin};
use omalibre::export::{
    default_dir, export, is_chapter_file, jobs, newest, notes_file, step_for, Facts, Job, Report, Step,
};
use omalibre::journal::{Event, Journal, Moment, Payload};
use zip::write::SimpleFileOptions;
use zip::ZipWriter;

fn block(kind: BlockKind, text: &str) -> Block {
    Block {
        kind,
        runs: vec![Run {
            text: text.into(),
            style: RunStyle::default(),
        }],
    }
}

fn chapter(blocks: Vec<Block>) -> Chapter {
    Chapter {
        href: "OEBPS/ch01.xhtml".into(),
        blocks,
        ..Chapter::default()
    }
}

#[test]
fn one_title_line_names_book_and_chapter() {
    let md = chapter_markdown_titled(
        &chapter(vec![
            block(BlockKind::Heading(1), "34"),
            block(BlockKind::Heading(1), "Pattern: Snapshots"),
        ]),
        Some("Understanding Eventsourcing"),
        Some("34. Pattern: Snapshots"),
    );
    assert!(
        md.starts_with("# Understanding Eventsourcing · 34. Pattern: Snapshots"),
        "{md}"
    );
    // Exactly one first-level heading: the title.
    assert_eq!(
        md.lines().filter(|l| l.starts_with("# ")).count(),
        1,
        "{md}"
    );
    // The book's own headings sit below it.
    assert!(md.contains("## 34"));
    assert!(md.contains("## Pattern: Snapshots"));
}

#[test]
fn a_chapter_without_a_heading_still_has_a_title() {
    let md = chapter_markdown_titled(
        &chapter(vec![block(BlockKind::Paragraph, "just prose")]),
        Some("A Book"),
        Some("1. Beginning"),
    );
    assert!(md.starts_with("# A Book · 1. Beginning"), "{md}");
}

#[test]
fn without_a_title_the_levels_are_untouched() {
    let md = chapter_markdown(&chapter(vec![block(BlockKind::Heading(1), "Title")]));
    assert!(md.contains("# Title"));
    assert!(!md.contains("## Title"));
}

#[test]
fn headings_keep_their_level() {
    let md = chapter_markdown(&chapter(vec![
        block(BlockKind::Heading(1), "Title"),
        block(BlockKind::Heading(3), "Detail"),
    ]));
    assert!(md.contains("# Title"));
    assert!(md.contains("### Detail"));
}

#[test]
fn code_is_fenced_once_per_run() {
    let md = chapter_markdown(&chapter(vec![
        block(BlockKind::Paragraph, "before"),
        block(BlockKind::Code, "line one"),
        block(BlockKind::Code, "line two"),
        block(BlockKind::Paragraph, "after"),
    ]));
    // One fence open, one close, not one pair per line.
    assert_eq!(md.matches("```").count(), 2, "{md}");
    assert!(md.contains("line one\nline two"));
}

#[test]
fn an_unclosed_fence_is_closed_at_the_end() {
    let md = chapter_markdown(&chapter(vec![block(BlockKind::Code, "last")]));
    assert_eq!(md.matches("```").count(), 2, "{md}");
}

#[test]
fn lists_keep_their_shape() {
    let md = chapter_markdown(&chapter(vec![
        block(
            BlockKind::ListItem {
                depth: 0,
                ordinal: Some(1),
            },
            "first",
        ),
        block(
            BlockKind::ListItem {
                depth: 1,
                ordinal: None,
            },
            "nested",
        ),
    ]));
    assert!(md.contains("1. first"));
    assert!(md.contains("  - nested"));
}

#[test]
fn front_matter_survives_a_colon_in_the_title() {
    let text = format!(
        "{}\nbody",
        front_matter(&vec![
            ("book", "sha256:abc"),
            ("title", "Kamal Handbook: The missing manual"),
        ])
    );
    let origin = parse_origin(&text).expect("front matter");
    assert_eq!(origin.book, "sha256:abc");
}

#[test]
fn an_origin_is_read_back() {
    let text = format!(
        "{}\n# Body\n",
        front_matter(&vec![
            ("book", "sha256:abc"),
            ("title", "A Book"),
            ("chapter", "OEBPS/ch02.xhtml"),
        ])
    );
    assert_eq!(
        parse_origin(&text),
        Some(Origin {
            book: "sha256:abc".into(),
            chapter: Some("OEBPS/ch02.xhtml".into()),
        })
    );
}

#[test]
fn a_file_without_front_matter_has_no_origin() {
    assert!(parse_origin("# Just a heading\n").is_none());
    assert!(parse_origin("").is_none());
    // Front matter without a book reference is not an origin either.
    assert!(parse_origin("---\ntitle: \"x\"\n---\n").is_none());
}

#[test]
fn slugs_are_safe_file_names() {
    assert_eq!(
        slugify("Kamal Handbook: The missing manual"),
        "kamal-handbook-the-missing-manual"
    );
    assert_eq!(slugify("C++ für Anfänger"), "c-f-r-anf-nger");
    assert_eq!(slugify("!!!"), "untitled");
    assert!(slugify(&"x".repeat(200)).chars().count() <= 60);
}

fn archive() -> Vec<u8> {
    let mut writer = ZipWriter::new(Cursor::new(Vec::new()));
    for (name, content) in [
        (
            "META-INF/container.xml",
            r#"<container><rootfiles><rootfile full-path="book.opf"/></rootfiles></container>"#,
        ),
        (
            "book.opf",
            r#"<package><metadata/><manifest><item id="a" href="a.xhtml"/></manifest>
               <spine><itemref idref="a"/></spine></package>"#,
        ),
        ("a.xhtml", "<html><body><p>some prose</p></body></html>"),
    ] {
        writer.start_file(name, SimpleFileOptions::default()).unwrap();
        writer.write_all(content.as_bytes()).unwrap();
    }
    writer.finish().unwrap().into_inner()
}

fn job() -> Job {
    let state = Journal::replay(vec![Event {
        at: Moment { seconds: 1, nanos: 0 },
        host: "box".to_string(),
        book: "sha256:abcdef0123".to_string(),
        payload: Payload::BookSeen {
            title: Some("A Book".to_string()),
            authors: vec!["One".to_string()],
            path: "/b/a.epub".to_string(),
        },
    }]);
    jobs(&state).remove(0)
}

fn mark() -> Annotation {
    Annotation {
        id: "m".to_string(),
        href: "a.xhtml".to_string(),
        slices: vec![Slice { block: 0, start: 0, end: 4 }],
        color: Color::Green,
        quote: "some".to_string(),
        note: Some("why".to_string()),
    }
}

#[test]
fn a_chapter_file_leads_back() {
    let work = export(&job(), &vec![mark()], Step::Whole, archive()).unwrap();
    assert!(work.clear);
    assert_eq!((work.chapters, work.annotations), (1, 1));
    let chapter = &work.files[0];
    assert!(is_chapter_file(&chapter.name), "{}", chapter.name);
    assert_eq!(
        parse_origin(&chapter.text),
        Some(Origin { book: "sha256:abcdef0123".into(), chapter: Some("a.xhtml".into()) })
    );
    assert!(chapter.text.contains("some prose"));
}

#[test]
fn a_notes_file_leads_back() {
    let work = export(&job(), &vec![mark()], Step::Notes, Vec::new()).unwrap();
    assert!(!work.clear);
    assert_eq!(work.files.len(), 1);
    let notes = &work.files[0];
    assert_eq!(notes.name, notes_file());
    assert!(!is_chapter_file(&notes.name));
    assert_eq!(parse_origin(&notes.text).map(|o| o.book), Some("sha256:abcdef0123".to_string()));
    assert!(notes.text.contains("some") && notes.text.contains("why"), "{}", notes.text);
}

#[test]
fn a_book_that_does_not_open_is_skipped() {
    let job = job();
    let result = export(&job, &Vec::new(), Step::Whole, b"text".to_vec());
    assert!(result.is_err());
    let mut report = Report::default();
    report.count(&job, Step::Whole, &result);
    report.count(&job, Step::Unchanged, &export(&job, &Vec::new(), Step::Unchanged, Vec::new()));
    assert_eq!((report.books, report.unchanged, report.skipped.len()), (0, 1, 1));
}

#[test]
fn a_second_export_writes_nothing() {
    let at = |seconds: i64| Moment { seconds, nanos: 0 };
    let fresh = Facts {
        source: Some(at(5)),
        chapters: vec![at(6), at(7)],
        notes: Some(at(7)),
        notes_exist: true,
    };
    assert!(matches!(step_for(false, true, &fresh, Some(at(6))), Step::Unchanged));
    // A note was taken since.
    assert!(matches!(step_for(false, true, &fresh, Some(at(9))), Step::Notes));
    // The book was replaced since.
    let stale = Facts { source: Some(at(8)), ..fresh };
    assert!(matches!(step_for(false, true, &stale, Some(at(6))), Step::Whole));
    assert!(matches!(step_for(true, true, &stale, None), Step::Whole));
    assert_eq!(newest(&vec![at(3), at(9), at(4)]), Some(at(9)));
    assert_eq!(newest(&Vec::new()), None);
}

#[test]
fn a_directory_is_named_after_title_and_id() {
    assert_eq!(slug_of("A Book", "sha256:abcdef0123"), "a-book-abcdef01");
    assert_eq!(job().slug, "a-book-abcdef01");
    assert_eq!(default_dir(Some("/data")).unwrap(), "/data/omalibre/export");
    assert!(default_dir(None).is_err());
}

#[test]
fn quoting_escapes_what_it_has_to() {
    assert_eq!(quote("say \"hi\" \\ bye"), "\"say \\\"hi\\\" \\\\ bye\"");
}
