//! Encoding pictures for the Kitty graphics protocol.
//!
//! The protocol takes PNG data as it is, so a book's own file can travel
//! unchanged and the terminal does the scaling. That keeps the full resolution
//! and avoids decoding altogether.
//!
//! Payloads have to be split into chunks of at most 4096 base64 characters, each
//! carrying `m=1` while more follows and `m=0` on the last one.

use vstd::prelude::*;
use base64::Engine;
use crate::text::{
    chars_of, copy_text, decimal, decimal_of, lemma_decimal_u64, push_chars, push_text, sub_chars, text_of,
};

verus! {

/// Most base64 characters that one chunk may carry.
pub const CHUNK: usize = 4096;

/// Bytes in base64, with the standard alphabet and padding.
pub uninterp spec fn base64_of(bytes: Seq<u8>) -> Seq<char>;

/// A character of the standard base64 alphabet, or the one that pads.
pub open spec fn in_base64(c: char) -> bool {
    ('A' <= c && c <= 'Z') || ('a' <= c && c <= 'z') || ('0' <= c && c <= '9') || c == '+' || c
        == '/' || c == '='
}

/// `base64::engine::general_purpose::STANDARD.encode`. Claims that the text
/// depends on the bytes alone, has four characters for every three bytes or part
/// of three, and holds nothing but the alphabet and its padding.
#[verifier::external_body]
fn to_base64(bytes: &[u8]) -> (r: String)
    ensures
        r@ == base64_of(bytes@),
        r@.len() == (bytes@.len() + 2) / 3 * 4,
        forall|i: int| 0 <= i < r@.len() ==> in_base64(#[trigger] r@[i]),
{
    base64::engine::general_purpose::STANDARD.encode(bytes)
}

/// Where the chunk that starts at `at` ends.
pub open spec fn chunk_end(payload: Seq<char>, at: int) -> int {
    if at + CHUNK < payload.len() {
        at + CHUNK
    } else {
        payload.len() as int
    }
}

/// The chunks of a payload from `at` on.
pub open spec fn chunks_from(payload: Seq<char>, at: int) -> Seq<Seq<char>>
    decreases payload.len() - at,
{
    if at < 0 || at >= payload.len() {
        Seq::empty()
    } else {
        seq![payload.subrange(at, chunk_end(payload, at))] + chunks_from(
            payload,
            chunk_end(payload, at),
        )
    }
}

/// What goes in front of a chunk. `f=100` announces PNG, `a=T` places it, `c` and
/// `r` give the cell box. `C=1` keeps the cursor where it is, so the text layout
/// is untouched.
pub open spec fn chunk_head(first: bool, more: bool, cols: u16, rows: u16, id: u32) -> Seq<char> {
    let m = if more {
        "m=1"@
    } else {
        "m=0"@
    };
    if first {
        "i="@ + decimal(id as nat) + ",f=100,a=T,c="@ + decimal(cols as nat) + ",r="@ + decimal(
            rows as nat,
        ) + ",C=1,q=2,"@ + m
    } else {
        m
    }
}

/// The escape sequences for a payload from `at` on.
pub open spec fn sequences_from(
    payload: Seq<char>,
    at: int,
    cols: u16,
    rows: u16,
    id: u32,
) -> Seq<char>
    decreases payload.len() - at,
{
    if at < 0 || at >= payload.len() {
        Seq::empty()
    } else {
        let e = chunk_end(payload, at);
        "\x1b_G"@ + chunk_head(at == 0, e < payload.len(), cols, rows, id) + ";"@
            + payload.subrange(at, e) + "\x1b\\"@ + sequences_from(payload, e, cols, rows, id)
    }
}

/// The chunks put together again.
pub open spec fn rejoined(chunks: Seq<Seq<char>>) -> Seq<char>
    decreases chunks.len(),
{
    if chunks.len() == 0 {
        Seq::empty()
    } else {
        chunks[0] + rejoined(chunks.drop_first())
    }
}

/// Nothing of the payload is lost in the chunks, and none is too long.
pub proof fn the_payload_can_be_recovered(payload: Seq<char>, at: int)
    requires
        0 <= at <= payload.len(),
    ensures
        rejoined(chunks_from(payload, at)) == payload.skip(at),
        forall|i: int|
            0 <= i < chunks_from(payload, at).len() ==> 0 < (#[trigger] chunks_from(payload, at)[i]).len()
                <= CHUNK,
    decreases payload.len() - at,
{
    let all = chunks_from(payload, at);
    if at < payload.len() {
        let e = chunk_end(payload, at);
        the_payload_can_be_recovered(payload, e);
        let rest = chunks_from(payload, e);
        assert(all.drop_first() =~= rest);
        assert(payload.skip(at) =~= payload.subrange(at, e) + payload.skip(e));
        assert forall|i: int| 0 <= i < all.len() implies 0 < (#[trigger] all[i]).len() <= CHUNK by {
            if i > 0 {
                assert(all[i] == rest[i - 1]);
            }
        }
    } else {
        assert(payload.skip(at) =~= Seq::<char>::empty());
    }
}

/// Where a character first stands; the length of the text when it does not.
pub open spec fn first_of(s: Seq<char>, c: char) -> int
    decreases s.len(),
{
    if s.len() == 0 || s[0] == c {
        0
    } else {
        1 + first_of(s.skip(1), c)
    }
}

/// The payload that a terminal reads out of the escape sequences: of each, what
/// stands between the semicolon and the escape character.
pub open spec fn received(s: Seq<char>) -> Seq<char>
    decreases s.len(),
{
    let from = first_of(s, ';');
    if from < 0 || from >= s.len() {
        Seq::empty()
    } else {
        let body = s.skip(from + 1);
        let to = first_of(body, '\x1b');
        if to < 0 || to + 2 > body.len() {
            body
        } else {
            body.take(to) + received(body.skip(to + 2))
        }
    }
}

proof fn lemma_first_of(a: Seq<char>, c: char, b: Seq<char>)
    requires
        forall|i: int| 0 <= i < a.len() ==> a[i] != c,
    ensures
        first_of(a + seq![c] + b, c) == a.len(),
    decreases a.len(),
{
    let s = a + seq![c] + b;
    if a.len() > 0 {
        assert(s[0] == a[0]);
        assert(s.skip(1) =~= a.skip(1) + seq![c] + b);
        lemma_first_of(a.skip(1), c, b);
    }
}

proof fn lemma_digits_hold_no_semicolon(n: u64)
    ensures
        forall|i: int|
            0 <= i < decimal(n as nat).len() ==> #[trigger] decimal(n as nat)[i] != ';',
{
    lemma_decimal_u64(n);
    assert forall|i: int| 0 <= i < decimal(n as nat).len() implies #[trigger] decimal(n as nat)[i]
        != ';' by {
        assert((decimal(n as nat)[i] as int) <= 57);
    }
}

proof fn lemma_heads_hold_no_semicolon(first: bool, more: bool, cols: u16, rows: u16, id: u32)
    ensures
        forall|i: int|
            0 <= i < chunk_head(first, more, cols, rows, id).len() ==> chunk_head(
                first,
                more,
                cols,
                rows,
                id,
            )[i] != ';',
{
    lemma_digits_hold_no_semicolon(cols as u64);
    lemma_digits_hold_no_semicolon(rows as u64);
    lemma_digits_hold_no_semicolon(id as u64);
    reveal_strlit("m=1");
    reveal_strlit("m=0");
    reveal_strlit("i=");
    reveal_strlit(",f=100,a=T,c=");
    reveal_strlit(",r=");
    reveal_strlit(",C=1,q=2,");
}

/// What a terminal reads out of the escape sequences is the payload, as long as
/// that holds no escape character.
pub proof fn the_terminal_receives_the_payload(
    payload: Seq<char>,
    at: int,
    cols: u16,
    rows: u16,
    id: u32,
)
    requires
        0 <= at <= payload.len(),
        forall|i: int| 0 <= i < payload.len() ==> payload[i] != '\x1b',
    ensures
        received(sequences_from(payload, at, cols, rows, id)) == payload.skip(at),
    decreases payload.len() - at,
{
    let s = sequences_from(payload, at, cols, rows, id);
    if at < payload.len() {
        let e = chunk_end(payload, at);
        let head = chunk_head(at == 0, e < payload.len(), cols, rows, id);
        let chunk = payload.subrange(at, e);
        let rest = sequences_from(payload, e, cols, rows, id);
        reveal_strlit("\x1b_G");
        reveal_strlit(";");
        reveal_strlit("\x1b\\");
        lemma_heads_hold_no_semicolon(at == 0, e < payload.len(), cols, rows, id);
        let before = "\x1b_G"@ + head;
        let after = chunk + seq!['\x1b'] + (seq!['\\'] + rest);
        assert(s =~= before + seq![';'] + after);
        lemma_first_of(before, ';', after);
        assert(s.skip(before.len() as int + 1) =~= after);
        lemma_first_of(chunk, '\x1b', seq!['\\'] + rest);
        assert(after.take(chunk.len() as int) =~= chunk);
        assert(after.skip(chunk.len() as int + 2) =~= rest);
        the_terminal_receives_the_payload(payload, e, cols, rows, id);
        assert(payload.skip(at) =~= chunk + payload.skip(e));
    } else {
        assert(payload.skip(at) =~= Seq::<char>::empty());
    }
}

fn push_number(out: &mut Vec<char>, n: u64)
    ensures
        final(out)@ == old(out)@ + decimal(n as nat),
{
    let digits = decimal_of(n);
    push_chars(out, &digits);
}

/// Builds the escape sequences for a payload that is already in base64.
pub fn encode_payload(payload: &str, cols: u16, rows: u16, id: u32) -> (r: String)
    ensures
        r@ == sequences_from(payload@, 0, cols, rows, id),
{
    let v = chars_of(payload);
    let mut out: Vec<char> = Vec::new();
    let mut at: usize = 0;
    let ghost all = sequences_from(payload@, 0, cols, rows, id);
    assert(out@ + all =~= all);
    while at < v.len()
        invariant
            at <= v@.len(),
            v@ == payload@,
            all == sequences_from(payload@, 0, cols, rows, id),
            out@ + sequences_from(payload@, at as int, cols, rows, id) == all,
        decreases v@.len() - at,
    {
        let ghost before = out@;
        let ghost here = at as int;
        let total = v.len();
        let end: usize = if total - at > CHUNK {
            at + CHUNK
        } else {
            total
        };
        let more = end < total;
        push_text(&mut out, "\x1b_G");
        let mut head: Vec<char> = Vec::new();
        if at == 0 {
            push_text(&mut head, "i=");
            assert(head@ =~= "i="@);
            push_number(&mut head, id as u64);
            push_text(&mut head, ",f=100,a=T,c=");
            push_number(&mut head, cols as u64);
            push_text(&mut head, ",r=");
            push_number(&mut head, rows as u64);
            push_text(&mut head, ",C=1,q=2,");
        }
        let ghost lead = head@;
        push_text(
            &mut head,
            if more {
                "m=1"
            } else {
                "m=0"
            },
        );
        assert(head@ =~= chunk_head(here == 0, end < payload@.len(), cols, rows, id));
        push_chars(&mut out, &head);
        push_text(&mut out, ";");
        let chunk = sub_chars(&v, at, end);
        push_chars(&mut out, &chunk);
        push_text(&mut out, "\x1b\\");
        at = end;
        assert(before + sequences_from(payload@, here, cols, rows, id) =~= out@ + sequences_from(
            payload@,
            at as int,
            cols,
            rows,
            id,
        ));
    }
    assert(out@ + Seq::<char>::empty() =~= out@);
    text_of(&out)
}

/// Builds the escape sequence that places a PNG at the cursor, scaled into
/// `cols` by `rows` cells.
pub fn encode_png(png: &[u8], cols: u16, rows: u16, id: u32) -> (r: String)
    ensures
        r@ == sequences_from(base64_of(png@), 0, cols, rows, id),
        received(r@) == base64_of(png@),
{
    let payload = to_base64(png);
    proof {
        assert forall|i: int| 0 <= i < payload@.len() implies payload@[i] != '\x1b' by {
            assert(in_base64(payload@[i]));
        }
        the_terminal_receives_the_payload(payload@, 0, cols, rows, id);
        assert(payload@.skip(0) =~= payload@);
    }
    encode_payload(&payload, cols, rows, id)
}

/// Removes every picture this reader placed.
pub fn delete_all() -> (r: String)
    ensures
        r@ == "\x1b_Ga=d,d=A,q=2\x1b\\"@,
{
    copy_text("\x1b_Ga=d,d=A,q=2\x1b\\")
}

} // verus!
