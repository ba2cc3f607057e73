//! The list of books on screen.

use omalibre::identity::BookId;
use omalibre::input::{Key, KeyPress};
use omalibre::journal::BookRecord;
use omalibre::library::{copy_entries, Entry, Order};
use omalibre::shelf::{Action, Mode, Shelf};

fn key(key: Key) -> KeyPress {
    KeyPress::plain(key)
}

fn shelf_of(titles: &[&str]) -> Shelf {
    let all: Vec<Entry> = titles
        .iter()
        .enumerate()
        .map(|(i, title)| {
            let mut record = BookRecord::new(format!("/tmp/{i}.epub"));
            record.title = Some((*title).into());
            record.authors = vec![format!("Author {i}")];
            Entry {
                id: BookId::from_text(format!("sha256:{i}")),
                record,
                progress: None,
                last_read: None,
            }
        })
        .collect();
    let mut shelf = Shelf {
        shown: copy_entries(&all),
        all,
        cursor: 0,
        order: Order::Title,
        filter: String::new(),
        filter_input: String::new(),
        mode: Mode::Browse,
        status: None,
        pending: None,
        view_height: 10,
        scroll: 0,
    };
    shelf.apply();
    shelf
}

#[test]
fn moves_the_cursor_without_running_off_the_ends() {
    let mut shelf = shelf_of(&["a", "b", "c"]);
    shelf.handle_key(key(Key::Char('k')), false);
    assert_eq!(shelf.cursor(), 0, "must not go above the first");
    for _ in 0..5 {
        shelf.handle_key(key(Key::Char('j')), false);
    }
    assert_eq!(shelf.cursor(), 2, "must not go past the last");
}

#[test]
#[allow(non_snake_case)]
fn gg_and_G_jump_to_the_ends() {
    let mut shelf = shelf_of(&["a", "b", "c"]);
    shelf.handle_key(key(Key::Char('G')), false);
    assert_eq!(shelf.cursor(), 2);
    shelf.handle_key(key(Key::Char('g')), false);
    shelf.handle_key(key(Key::Char('g')), false);
    assert_eq!(shelf.cursor(), 0);
}

#[test]
fn filtering_narrows_the_list_and_esc_restores_it() {
    let mut shelf = shelf_of(&["Anathem", "Cryptonomicon", "Seveneves"]);
    shelf.handle_key(key(Key::Char('/')), false);
    for c in "crypto".chars() {
        shelf.handle_key(key(Key::Char(c)), false);
    }
    shelf.handle_key(key(Key::Enter), false);
    assert_eq!(shelf.entries().len(), 1);

    shelf.handle_key(key(Key::Esc), false);
    assert_eq!(shelf.entries().len(), 3);
}

#[test]
fn the_cursor_stays_on_its_book_when_the_order_changes() {
    let mut shelf = shelf_of(&["Zebra", "Apple", "Mango"]);
    // Sorted by title: Apple, Mango, Zebra. Put the cursor on Mango.
    shelf.handle_key(key(Key::Char('j')), false);
    let before = shelf.entries()[shelf.cursor()].id.as_str().to_string();
    shelf.handle_key(key(Key::Char('s')), false);
    assert_eq!(shelf.entries()[shelf.cursor()].id.as_str(), before);
}

#[test]
fn a_filter_that_matches_nothing_says_so() {
    let mut shelf = shelf_of(&["Anathem"]);
    shelf.handle_key(key(Key::Char('/')), false);
    for c in "zzz".chars() {
        shelf.handle_key(key(Key::Char(c)), false);
    }
    shelf.handle_key(key(Key::Enter), false);
    assert!(shelf.entries().is_empty());
    assert!(
        shelf
            .status()
            .is_some_and(|s| s.contains("nothing matches"))
    );
}

#[test]
fn opening_a_book_whose_file_is_gone_reports_it() {
    let mut shelf = shelf_of(&["Anathem"]);
    match shelf.handle_key(key(Key::Enter), false) {
        Action::Nothing => {
            assert!(shelf.status().is_some_and(|s| s.contains("file is gone")))
        }
        other => panic!("expected no action, got {other:?}"),
    }
}

#[test]
fn q_quits() {
    let mut shelf = shelf_of(&["a"]);
    assert!(matches!(
        shelf.handle_key(key(Key::Char('q')), false),
        Action::Quit
    ));
}

#[test]
fn the_view_follows_the_cursor() {
    let mut shelf = shelf_of(&["a", "b", "c", "d", "e", "f"]);
    shelf.prepare(3);
    shelf.handle_key(key(Key::Char('G')), false);
    assert!(
        shelf.scroll() + 3 > shelf.cursor(),
        "cursor {} must be visible with scroll {}",
        shelf.cursor(),
        shelf.scroll()
    );
}

#[test]
fn a_book_whose_file_is_there_is_opened() {
    let mut shelf = shelf_of(&["Anathem"]);
    assert_eq!(shelf.selected_path().map(String::as_str), Some("/tmp/0.epub"));
    match shelf.handle_key(key(Key::Enter), true) {
        Action::Open { id, path } => {
            assert_eq!(id.as_str(), "sha256:0");
            assert_eq!(path, "/tmp/0.epub");
        }
        other => panic!("expected the book, got {other:?}"),
    }
}

#[test]
fn the_cursor_stays_on_the_list() {
    let mut shelf = shelf_of(&["Anathem", "Cryptonomicon", "Seveneves"]);
    shelf.handle_key(key(Key::Char('G')), false);
    shelf.handle_key(key(Key::Char('/')), false);
    for c in "anat".chars() {
        shelf.handle_key(key(Key::Char(c)), false);
        assert!(shelf.entries().is_empty() || shelf.cursor() < shelf.entries().len());
    }
    assert_eq!(shelf.filter_input(), Some("anat"));
    shelf.handle_key(key(Key::Backspace), false);
    assert_eq!(shelf.filter_input(), Some("ana"));
    shelf.handle_key(key(Key::Esc), false);
    assert_eq!(shelf.filter_input(), None);
    assert_eq!(shelf.total(), 3);
}

#[test]
fn an_empty_shelf_answers_every_key() {
    let mut shelf = shelf_of(&[]);
    for c in "jkGgg/rsl?".chars() {
        shelf.handle_key(key(Key::Char(c)), true);
    }
    assert_eq!(shelf.cursor(), 0);
}
