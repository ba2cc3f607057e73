//! Pictures sent with the Kitty protocol.

use base64::engine::general_purpose::STANDARD;
use base64::Engine;
use omalibre::image::kitty::{delete_all, encode_png, CHUNK};

#[test]
fn a_small_image_becomes_one_chunk() {
    let escape = encode_png(b"tiny", 10, 5, 7);
    assert_eq!(escape.matches("\x1b_G").count(), 1);
    assert!(escape.contains("i=7,f=100,a=T,c=10,r=5"));
    assert!(escape.contains("m=0"));
    assert!(escape.ends_with("\x1b\\"));
}

#[test]
fn a_large_image_is_split_and_marked() {
    // Three chunks' worth of base64.
    let png = vec![0u8; CHUNK * 3];
    let escape = encode_png(&png, 40, 20, 1);
    let parts = escape.matches("\x1b_G").count();
    assert!(parts >= 3, "{parts} chunks");
    // Only the first chunk carries the parameters.
    assert_eq!(escape.matches("f=100").count(), 1);
    // Continuations announce more data, the last one does not.
    assert!(escape.contains("m=1"));
    assert_eq!(escape.matches("m=0").count(), 1);
}

#[test]
fn the_payload_is_recoverable() {
    let png = b"\x89PNG\r\n\x1a\nsome data";
    let escape = encode_png(png, 4, 2, 3);
    let payload: String = escape
        .split("\x1b_G")
        .filter(|part| !part.is_empty())
        .map(|part| {
            let body = part.split(';').nth(1).unwrap_or("");
            body.trim_end_matches("\x1b\\").to_string()
        })
        .collect();
    assert_eq!(STANDARD.decode(payload).unwrap(), png);
}

#[test]
fn deletion_targets_every_picture() {
    assert!(delete_all().contains("d=A"));
}

#[test]
fn a_small_picture_is_sent_letter_for_letter() {
    assert_eq!(
        encode_png(b"abc", 10, 5, 7),
        "\x1b_Gi=7,f=100,a=T,c=10,r=5,C=1,q=2,m=0;YWJj\x1b\\"
    );
}
