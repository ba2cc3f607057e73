//! Paths inside a book, the settings file and the places things are kept.

use omalibre::journal::{has_path, BookRecord};
use omalibre::library::is_book;
use omalibre::paths::{
    directory, hostname, is_journal_file, normalize, resolve, scratch_dir, Config,
};

#[test]
fn hostname_is_usable_in_a_filename() {
    let name = hostname("a.machine/name");
    assert!(!name.is_empty());
    assert!(
        name.chars()
            .all(|c| c.is_alphanumeric() || c == '-' || c == '_')
    );
}

#[test]
fn reads_settings_from_toml() {
    let config: Config = Config::parse("max_width = 72\njournal_dir = \"~/box\"\n", "config.toml").unwrap();
    assert_eq!(config.max_width, Some(72));
    assert_eq!(config.journal_dir, Some("~/box".to_string()));
}

#[test]
fn missing_settings_fall_back_to_defaults() {
    let config: Config = Config::parse("", "config.toml").unwrap();
    assert_eq!(config.max_width, None);
    assert_eq!(config.journal_dir, None);
}

#[test]
fn what_a_filename_cannot_hold_is_replaced() {
    assert_eq!(hostname("a.machine/name\n"), "a_machine_name");
    assert_eq!(hostname("bücher_1"), "bücher_1");
    assert_eq!(hostname(" \n"), "unknown-host");
}

#[test]
fn a_broken_settings_file_is_named() {
    let failure = Config::parse("max_width = ", "/c/config.toml").unwrap_err();
    assert!(failure.full().contains("/c/config.toml"), "{}", failure.full());
    let failure = Config::parse("max_width = \"wide\"", "/c/config.toml").unwrap_err();
    assert!(failure.full().contains("max_width"), "{}", failure.full());
    let failure = Config::parse("max_width = 70000", "/c/config.toml").unwrap_err();
    assert!(failure.full().contains("max_width"), "{}", failure.full());
}

#[test]
fn the_journal_directory_can_be_set() {
    let set = Config::parse("journal_dir = \"~/box\"", "c").unwrap();
    assert_eq!(set.journal_dir(Some("/home/me"), Some("/data")).unwrap(), "/home/me/box");
    let unset = Config::parse("", "c").unwrap();
    assert_eq!(unset.journal_dir(Some("/home/me"), Some("/data")).unwrap(), "/data/omalibre/journal");
    assert!(unset.journal_dir(None, None).is_err());
}

#[test]
fn the_scratch_directory_prefers_the_runtime_one() {
    assert_eq!(scratch_dir(Some("/run/user/1"), Some("/data")).unwrap(), "/run/user/1/omalibre");
    assert!(scratch_dir(None, Some("/data")).unwrap().starts_with("/data"));
    assert!(scratch_dir(None, None).is_err());
}

#[test]
fn tidying_leaves_no_dots() {
    assert_eq!(normalize("a/b", "../c/./d.xhtml"), "a/c/d.xhtml");
    assert_eq!(normalize("", "../../x"), "x");
    assert_eq!(normalize("OEBPS", "b%C3%BCcher%2.xhtml"), "OEBPS/bücher%2.xhtml");
    assert_eq!(resolve("OEBPS/text", "../i/p.png"), "OEBPS/i/p.png");
}

#[test]
fn only_journal_files_are_replayed() {
    assert!(is_journal_file("/j/journal-box.jsonl"));
    assert!(!is_journal_file("/j/journal-box.json"));
    assert!(!is_journal_file("/j/notes.txt"));
}

#[test]
fn a_file_name_ends_before_its_last_dot() {
    let title = |path: &str| BookRecord::new(path.to_string()).display_title();
    assert_eq!(title("/b/a.tar.gz"), "a.tar");
    assert_eq!(title("/b/.hidden"), ".hidden");
    assert_eq!(title("/b/...x"), "..");
    assert_eq!(title("/b/plain/"), "plain");
    assert_eq!(title("/b/plain//."), "plain");
    assert_eq!(title("b/.."), "Untitled");
    assert_eq!(title("/"), "Untitled");
    assert_eq!(title("."), "Untitled");
    assert!(is_book("b/x.epub/"));
    assert!(!is_book("b/.epub"));
    assert!(!is_book("b/epub"));
    assert!(!is_book("b/x.epub."));
}

#[test]
fn paths_are_compared_by_their_components() {
    let knows = |known: &str, path: &str| has_path(&vec![known.to_string()], path);
    assert!(knows("/a/b.epub", "/a//b.epub"));
    assert!(knows("/a/b.epub", "/a/./b.epub/"));
    assert!(!knows("/a/b.epub", "a/b.epub"));
    assert!(!knows("./b.epub", "b.epub"));
    assert!(knows("./b.epub", ".//b.epub"));
    assert!(!knows("/a/../b.epub", "/b.epub"));
}

#[test]
fn a_directory_has_the_components_but_the_last() {
    assert_eq!(directory("a/b/c.xhtml"), "a/b");
    assert_eq!(directory("/a"), "/");
    assert_eq!(directory("a"), "");
    assert_eq!(directory("/"), "");
    assert_eq!(directory("a//b"), "a");
}
