//! Passages found by the search index, and by reading the books themselves.

use std::io::{Cursor, Write};

use omalibre::find::{
    around, candidates, file_of, is_bookkeeping, passage_of, payload_of, search_directly,
    split_qmd_reference, strip_book_prefix, tidy, Hit,
};
use omalibre::identity::BookId;
use omalibre::journal::{Event, Journal, Moment, Payload};
use zip::write::SimpleFileOptions;
use zip::ZipWriter;

#[test]
fn a_qmd_reference_becomes_a_path_and_a_line() {
    let (path, line) = split_qmd_reference(
        "qmd://books/some-book-1234abcd/019-15-accessories.md:13",
        "/export",
    );
    assert_eq!(
        path,
        "/export/some-book-1234abcd/019-15-accessories.md"
    );
    assert_eq!(line, Some(13));
}

#[test]
fn a_reference_without_a_line_still_resolves() {
    let (path, line) = split_qmd_reference("qmd://books/b/001-x.md", "/export");
    assert_eq!(path, "/export/b/001-x.md");
    assert_eq!(line, None);
}

#[test]
fn a_plain_path_is_left_alone() {
    let (path, line) = split_qmd_reference("/tmp/a/001-x.md:7", "/export");
    assert_eq!(path, "/tmp/a/001-x.md");
    assert_eq!(line, Some(7));
}

#[test]
fn a_chapter_heading_loses_the_book_it_repeats() {
    assert_eq!(
        strip_book_prefix("Kamal Handbook · 15. Accessories", "Kamal Handbook"),
        "15. Accessories"
    );
    // A heading that does not repeat it stays whole.
    assert_eq!(
        strip_book_prefix("15. Accessories", "Kamal Handbook"),
        "15. Accessories"
    );
}

#[test]
fn a_passage_skips_the_diff_header_and_headings() {
    let snippet = "@@ -12,4 @@ (11 before, 459 after)\n\n# Some Book · 15. Accessories\n\nAn accessory is Kamal's answer to running a permanent service.";
    assert_eq!(
        passage_of(snippet).as_deref(),
        Some("An accessory is Kamal's answer to running a")
    );
}

#[test]
fn a_snippet_without_prose_yields_no_passage() {
    assert_eq!(passage_of("@@ -1,1 @@\n\n# Only a heading"), None);
    assert_eq!(passage_of(""), None);
}

#[test]
fn front_matter_is_not_mistaken_for_book_text() {
    assert!(is_bookkeeping("chapter: \"OEBPS/f_0034.xhtml\""));
    assert!(is_bookkeeping("chapter_title: \"How to Take Notes\""));
    assert!(is_bookkeeping("---"));
    assert!(is_bookkeeping("@@ -12,4 @@"));
    // A sentence with a colon is book text, not bookkeeping.
    assert!(!is_bookkeeping("There is one rule: keep it simple."));
    assert!(!is_bookkeeping("Chapter 4: Concurrency"));
    assert!(!is_bookkeeping("plain prose"));
}

#[test]
fn a_snippet_of_pure_front_matter_yields_nothing() {
    let snippet = "@@ -1,4 @@\n\n---\nbook: \"sha256:abc\"\nchapter_title: \"Notes\"\n---";
    assert_eq!(tidy(snippet), "");
    assert_eq!(passage_of(snippet), None);
}

#[test]
fn a_snippet_becomes_one_line() {
    let tidied = tidy("@@ -12,4 @@\n\nFirst line\nsecond   line\n");
    assert_eq!(tidied, "First line second line");
}

#[test]
fn context_marks_where_it_was_cut() {
    let text = "word ".repeat(80);
    let window = around(&text, 200, 4);
    assert!(window.starts_with('…'));
    assert!(window.ends_with('…'));
}

#[test]
fn the_answer_of_the_index_is_cut_out_of_its_output() {
    assert_eq!(payload_of("warming up\n[{\"a\":1}]\n").as_deref(), Some("[{\"a\":1}]\n"));
    assert_eq!(payload_of("nothing"), None);
}

#[test]
fn books_are_read_directly_up_to_the_limit() {
    let state = Journal::replay(vec![Event {
        at: Moment { seconds: 1, nanos: 0 },
        host: "box".to_string(),
        book: "sha256:a".to_string(),
        payload: Payload::BookSeen {
            title: Some("A Book".to_string()),
            authors: Vec::new(),
            path: "/b/a.epub".to_string(),
        },
    }]);
    let entries = candidates(&state);
    assert_eq!(entries.len(), 1);
    for limit in 0..4 {
        let mut hits = Vec::new();
        search_directly(&mut hits, &entries[0], book(), "a.epub", "word", limit);
        assert_eq!(hits.len(), limit.min(3));
        for hit in &hits {
            assert_eq!(hit.book.as_str(), "sha256:a");
            assert_eq!(hit.book_title, "A Book");
            assert!(hit.snippet.to_lowercase().contains("word"));
            assert_eq!(file_of(hit, &state).unwrap(), "/b/a.epub");
        }
    }
    let mut hits = Vec::new();
    search_directly(&mut hits, &entries[0], b"broken".to_vec(), "a.epub", "word", 5);
    assert!(hits.is_empty());
    assert!(file_of(
        &Hit {
            book_title: String::new(),
            chapter_title: String::new(),
            book: BookId::from_text("sha256:unknown".to_string()),
            chapter_href: None,
            passage: None,
            snippet: String::new(),
        },
        &state
    )
    .is_err());
}

fn book() -> Vec<u8> {
    let files = [
        (
            "META-INF/container.xml",
            r#"<container><rootfiles><rootfile full-path="book.opf"/></rootfiles></container>"#,
        ),
        (
            "book.opf",
            r#"<package><metadata/><manifest><item id="a" href="a.xhtml"/>
               <item id="b" href="b.xhtml"/><item id="c" href="c.xhtml"/></manifest>
               <spine><itemref idref="a"/><itemref idref="b"/><itemref idref="c"/></spine>
               </package>"#,
        ),
        ("a.xhtml", "<html><body><p>a word</p><p>two word word</p></body></html>"),
        ("b.xhtml", "<html><body><p>nothing here but one Word</p></body></html>"),
        ("c.xhtml", "<html><body><p>word</p></body></html>"),
    ];
    let mut writer = ZipWriter::new(Cursor::new(Vec::new()));
    for (name, content) in files {
        writer.start_file(name, SimpleFileOptions::default()).unwrap();
        writer.write_all(content.as_bytes()).unwrap();
    }
    writer.finish().unwrap().into_inner()
}
