//! Identifying a book by its content.
//!
//! The path must not be the key. A book that moves keeps its reading position,
//! and the same file sits at different paths on different machines, so the
//! identity is a hash over the file's bytes.

use vstd::prelude::*;
use sha2::Digest;
use crate::text::{push_text, text_of};

verus! {

/// The SHA-256 digest of a byte sequence.
pub uninterp spec fn sha256_of(data: Seq<u8>) -> Seq<u8>;

/// `sha2::Sha256::digest`: hashes the bytes in one go. Claims that the result is
/// the 32-byte digest of its argument, and nothing about which bytes those are.
#[verifier::external_body]
fn sha256(data: &[u8]) -> (r: Vec<u8>)
    ensures
        r@ == sha256_of(data@),
        r@.len() == 32,
{
    sha2::Sha256::digest(data).to_vec()
}

/// The lower-case hexadecimal digit for `d`.
pub open spec fn hex_digit(d: int) -> char {
    if d < 10 {
        (d + 48) as char
    } else {
        (d + 87) as char
    }
}

/// Bytes in lower-case hexadecimal, two digits each.
pub open spec fn hex_of(bytes: Seq<u8>) -> Seq<char> {
    Seq::new(
        2 * bytes.len(),
        |i: int|
            if i % 2 == 0 {
                hex_digit(bytes[i / 2] as int / 16)
            } else {
                hex_digit(bytes[i / 2] as int % 16)
            },
    )
}

/// A book's content hash, rendered as `sha256:<hex>`.
#[derive(Debug, PartialEq, Eq, Hash)]
pub struct BookId(pub String);

impl View for BookId {
    type V = Seq<char>;

    open spec fn view(&self) -> Seq<char> {
        self.0@
    }
}

fn hex_char(d: u8) -> (r: char)
    requires
        d < 16,
    ensures
        r == hex_digit(d as int),
{
    if d < 10 {
        (d + 48) as char
    } else {
        (d + 87) as char
    }
}

/// The identity of a book whose digest is known.
pub open spec fn id_of_digest(digest: Seq<u8>) -> Seq<char> {
    "sha256:"@ + hex_of(digest)
}

impl BookId {
    /// The identity of a file with this content.
    pub fn of_bytes(data: &[u8]) -> (r: Self)
        ensures
            r@ == id_of_digest(sha256_of(data@)),
    {
        let digest = sha256(data);
        BookId::of_digest(&digest)
    }

    /// The identity of a file whose content has this digest.
    pub fn of_digest(digest: &Vec<u8>) -> (r: Self)
        ensures
            r@ == id_of_digest(digest@),
    {
        let mut out: Vec<char> = Vec::new();
        push_text(&mut out, "sha256:");
        let ghost head = out@;
        let mut i: usize = 0;
        assert(hex_of(digest@.take(0)) =~= Seq::<char>::empty());
        while i < digest.len()
            invariant
                i <= digest@.len(),
                out@ == head + hex_of(digest@.take(i as int)),
            decreases digest@.len() - i,
        {
            let byte: u8 = digest[i];
            out.push(hex_char(byte / 16));
            out.push(hex_char(byte % 16));
            i += 1;
            assert(hex_of(digest@.take(i as int)) =~= hex_of(digest@.take(i - 1)).push(
                hex_digit(byte as int / 16),
            ).push(hex_digit(byte as int % 16)));
        }
        assert(digest@.take(digest@.len() as int) =~= digest@);
        BookId(text_of(&out))
    }

    pub fn as_str(&self) -> (r: &str)
        ensures
            r@ == self@,
    {
        self.0.as_str()
    }

    /// An identity as it was written down before.
    pub fn from_text(value: String) -> (r: Self)
        ensures
            r@ == value@,
    {
        BookId(value)
    }
}

impl Clone for BookId {
    fn clone(&self) -> (r: Self)
        ensures
            r@ == self@,
    {
        BookId(self.0.clone())
    }
}

/// The value of a hexadecimal digit.
pub open spec fn digit_value(c: char) -> int {
    if '0' <= c <= '9' {
        c as int - '0' as int
    } else {
        c as int - 'a' as int + 10
    }
}

/// Two digits stand for each byte, the higher half first, so the identity gives the
/// digest back and two digests never share one.
pub proof fn a_digest_can_be_read_back(digest: Seq<u8>, i: int)
    requires
        0 <= i < digest.len(),
    ensures
        hex_of(digest).len() == 2 * digest.len(),
        16 * digit_value(hex_of(digest)[2 * i]) + digit_value(hex_of(digest)[2 * i + 1])
            == digest[i],
        id_of_digest(digest) == "sha256:"@ + hex_of(digest),
        id_of_digest(digest).len() == 7 + 2 * digest.len(),
{
    reveal_strlit("sha256:");
    assert((2 * i) / 2 == i && (2 * i + 1) / 2 == i);
    assert((2 * i) % 2 == 0 && (2 * i + 1) % 2 == 1);
}

} // verus!
