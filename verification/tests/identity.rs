//! What tells two books apart.

use omalibre::identity::BookId;

#[test]
fn same_content_yields_the_same_id() {
    let a = b"content of a book";
    let b = b"content of a book";
    assert_eq!(BookId::of_bytes(a), BookId::of_bytes(b));
}

#[test]
fn different_content_yields_different_ids() {
    let a = b"one book";
    let b = b"another book";
    assert_ne!(BookId::of_bytes(a), BookId::of_bytes(b));
}

#[test]
fn matches_the_reference_digest() {
    let path = b"abc";
    // Known SHA-256 of "abc".
    assert_eq!(
        BookId::of_bytes(path).as_str(),
        "sha256:ba7816bf8f01cfea414140de5dae2223b00361a396177a9cb410ff61f20015ad"
    );
}

#[test]
fn an_id_keeps_the_text_it_was_given() {
    assert_eq!(BookId::from_text("sha256:00".to_string()).as_str(), "sha256:00");
    assert_eq!(BookId::of_bytes(b"").as_str().len(), "sha256:".len() + 64);
}
