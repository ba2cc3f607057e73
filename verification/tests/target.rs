//! Where a link leads, and how the cursor walks over words.

use omalibre::app::target::{next_word_start, previous_word_start, resolve_href, split_target};

#[test]
fn splits_a_target_into_file_and_fragment() {
    assert_eq!(
        split_target("ch03.xhtml#fn20"),
        ("ch03.xhtml".to_string(), Some("fn20".to_string()))
    );
    assert_eq!(split_target("#fn20"), (String::new(), Some("fn20".to_string())));
    assert_eq!(split_target("ch03.xhtml"), ("ch03.xhtml".to_string(), None));
    // A trailing hash names no target.
    assert_eq!(split_target("ch03.xhtml#"), ("ch03.xhtml".to_string(), None));
}

#[test]
fn resolves_a_target_against_its_chapter() {
    assert_eq!(
        resolve_href("OEBPS/ch01.xhtml", "ch02.xhtml"),
        "OEBPS/ch02.xhtml"
    );
    assert_eq!(
        resolve_href("OEBPS/text/ch01.xhtml", "../notes.xhtml"),
        "OEBPS/notes.xhtml"
    );
    assert_eq!(resolve_href("ch01.xhtml", "ch02.xhtml"), "ch02.xhtml");
}

#[test]
fn word_movement_walks_forward_over_gaps() {
    let chars: Vec<char> = "one two  three".chars().collect();
    assert_eq!(next_word_start(&chars, 0), Some(4));
    assert_eq!(next_word_start(&chars, 4), Some(9));
    assert_eq!(next_word_start(&chars, 9), None);
}

#[test]
fn word_movement_walks_backward() {
    let chars: Vec<char> = "one two  three".chars().collect();
    assert_eq!(previous_word_start(&chars, 9), Some(4));
    assert_eq!(previous_word_start(&chars, 4), Some(0));
    assert_eq!(previous_word_start(&chars, 0), None);
}

#[test]
fn there_is_no_word_in_front_of_the_first() {
    assert_eq!(previous_word_start(&vec![' ', 'a'], 1), None);
    assert_eq!(previous_word_start(&vec![' ', 'a'], 2), Some(1));
    assert_eq!(previous_word_start(&vec![' ', ' ', ' '], 3), None);
    assert_eq!(previous_word_start(&vec!['a', ' ', ' '], 3), Some(0));
}
