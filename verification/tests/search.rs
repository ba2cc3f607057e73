//! Searching the chapter being read.

use omalibre::doc::{Block, BlockKind, Chapter, Run, RunStyle};
use omalibre::search::{find_all, Search};
use omalibre::table::Table;

fn chapter(texts: &[&str]) -> Chapter {
    Chapter {
        links: Vec::new(),
        anchors: Table::new(),
        href: "c.xhtml".into(),
        blocks: texts
            .iter()
            .map(|text| Block {
                kind: BlockKind::Paragraph,
                runs: vec![Run {
                    text: (*text).into(),
                    style: RunStyle::default(),
                }],
            })
            .collect(),
    }
}

#[test]
fn finds_every_match_in_reading_order() {
    let chapter = chapter(&["the cat sat", "no match here", "cat again, cat"]);
    assert_eq!(find_all(&chapter, "cat"), vec![(0, 4), (2, 0), (2, 11)]);
}

#[test]
fn ignores_case_on_both_sides() {
    let chapter = chapter(&["The Phoenix Framework"]);
    assert_eq!(find_all(&chapter, "phoenix"), vec![(0, 4)]);
    assert_eq!(find_all(&chapter, "PHOENIX"), vec![(0, 4)]);
}

#[test]
fn an_empty_query_matches_nothing() {
    assert!(find_all(&chapter(&["text"]), "").is_empty());
}

#[test]
fn a_query_longer_than_the_block_is_skipped() {
    assert!(find_all(&chapter(&["ab"]), "abc").is_empty());
}

#[test]
fn overlapping_matches_are_reported_once() {
    // "aaaa" holds two non-overlapping "aa".
    assert_eq!(find_all(&chapter(&["aaaa"]), "aa"), vec![(0, 0), (0, 2)]);
}

#[test]
fn steps_through_the_matches() {
    let mut search = Search::default();
    search.set_query("cat".into());
    search.scan(&chapter(&["cat", "cat"]));
    assert_eq!(search.hits().len(), 2);

    assert!(search.next_in_chapter());
    assert_eq!(search.current(), Some((0, 0)));
    assert!(search.next_in_chapter());
    assert_eq!(search.current(), Some((1, 0)));
    // Past the last one, so the caller moves to the next chapter.
    assert!(!search.next_in_chapter());
    assert_eq!(search.progress(), Some((2, 2)));
}

#[test]
fn steps_backwards() {
    let mut search = Search::default();
    search.set_query("cat".into());
    search.scan(&chapter(&["cat", "cat"]));
    assert!(search.previous_in_chapter());
    // With no current match, going back starts at the last.
    assert_eq!(search.current(), Some((1, 0)));
    assert!(search.previous_in_chapter());
    assert_eq!(search.current(), Some((0, 0)));
    assert!(!search.previous_in_chapter());
}

#[test]
fn jumps_to_the_match_after_a_position() {
    let mut search = Search::default();
    search.set_query("cat".into());
    search.scan(&chapter(&["cat", "dog", "cat"]));
    assert!(search.go_to_first_after(1, 0));
    assert_eq!(search.current(), Some((2, 0)));
    // Nothing after the last match, so the caller looks further on.
    assert!(!search.go_to_first_after(3, 0));
}

#[test]
fn jumps_to_the_match_before_a_position() {
    let mut search = Search::default();
    search.set_query("cat".into());
    search.scan(&chapter(&["cat", "dog", "cat"]));
    assert!(search.go_to_last_before(2, 0));
    assert_eq!(search.current(), Some((0, 0)));
    assert!(!search.go_to_last_before(0, 0));
}

#[test]
fn a_new_query_drops_the_old_matches() {
    let mut search = Search::default();
    search.set_query("cat".into());
    search.scan(&chapter(&["cat"]));
    assert_eq!(search.hits().len(), 1);
    search.set_query("dog".into());
    assert!(search.hits().is_empty());
    assert!(search.current().is_none());
}

#[test]
fn stepping_back_undoes_a_step() {
    let mut search = Search::default();
    search.set_query("cat".into());
    search.scan(&chapter(&["cat cat", "cat"]));
    assert!(search.next_in_chapter());
    let before = search.current();
    assert!(search.next_in_chapter());
    assert!(search.previous_in_chapter());
    assert_eq!(search.current(), before);
}

#[test]
fn letters_are_compared_without_their_case() {
    assert_eq!(find_all(&chapter(&["Größe ÄPFEL"]), "äpfel"), vec![(0, 6)]);
    assert_eq!(find_all(&chapter(&["Σίσυφος"]), "ΣΊΣΥΦΟΣ").len(), 0);
    // One character that becomes two does not move what follows.
    assert_eq!(find_all(&chapter(&["İx cat"]), "cat"), vec![(0, 3)]);
}

#[test]
fn a_cleared_search_is_inactive() {
    let mut search = Search::default();
    assert!(!search.is_active());
    search.set_query("cat".into());
    search.scan(&chapter(&["cat"]));
    assert!(search.is_active());
    assert!(search.go_to_last());
    assert!(search.is_current(0, 0) && !search.is_current(0, 1));
    search.clear();
    assert!(!search.is_active());
    assert_eq!(search.query(), "");
    assert!(!search.go_to_first());
}

#[test]
fn a_letter_with_two_lowercase_characters_matches_both() {
    // The capital I with a dot becomes an i and a combining dot.
    assert_eq!(find_all(&chapter(&["x i\u{307}y"]), "\u{130}"), vec![(0, 2)]);
    assert_eq!(find_all(&chapter(&["x \u{130}y \u{130}"]), "i\u{307}"), vec![(0, 2), (0, 5)]);
    assert_eq!(find_all(&chapter(&["\u{130}\u{130}cat"]), "\u{130}CAT"), vec![(0, 1)]);
    assert_eq!(find_all(&chapter(&["xi"]), "\u{130}"), vec![]);
}

#[test]
fn a_match_may_end_the_text() {
    assert_eq!(find_all(&chapter(&["a cat"]), "cat"), vec![(0, 2)]);
    assert_eq!(find_all(&chapter(&["a ca"]), "cat"), vec![]);
}
