//! Finding out what the terminal can draw.
//!
//! The user picks the terminal, not us, so the reader asks instead of assuming.
//! Two questions go out and the answers decide: the Kitty graphics query and the
//! primary device attributes, whose answer lists Sixel support as feature 4.
//!
//! Anything unanswered means no. A terminal that stays silent must not hold up
//! the start, so the wait is short and failure is ordinary.

use vstd::prelude::*;
use crate::text::{
    ascii_lowered, char_views, chars_are, chars_of, contains_text, find_chars, find_from, has_text,
    lemma_find_from, lower_ascii_all, occurs_at, split, split_at, stands_at, sub_chars, trim,
    trimmed,
};

verus! {

#[derive(Debug, Clone, Copy, PartialEq, Eq, Structural)]
pub enum Backend {
    /// Two pixels per cell. Works in every terminal and through tmux.
    HalfBlocks,
    /// Real pixels, supported by foot among others.
    Sixel,
    /// Real pixels, supported by Ghostty and kitty.
    Kitty,
}

/// The backend a setting names, if it names one.
pub open spec fn backend_named(text: Seq<char>) -> Option<Backend> {
    let t = ascii_lowered(trim(text));
    if t == "halfblocks"@ || t == "half-blocks"@ || t == "half_blocks"@ || t == "blocks"@ {
        Some(Backend::HalfBlocks)
    } else if t == "sixel"@ {
        Some(Backend::Sixel)
    } else if t == "kitty"@ {
        Some(Backend::Kitty)
    } else {
        None
    }
}

impl Backend {
    pub fn name(self) -> (r: &'static str)
        ensures
            r@ == (match self {
                Backend::HalfBlocks => "half blocks"@,
                Backend::Sixel => "sixel"@,
                Backend::Kitty => "kitty graphics"@,
            }),
    {
        match self {
            Backend::HalfBlocks => "half blocks",
            Backend::Sixel => "sixel",
            Backend::Kitty => "kitty graphics",
        }
    }

    pub fn parse(text: &str) -> (r: Option<Self>)
        ensures
            r == backend_named(text@),
    {
        let v = chars_of(text);
        let t = trimmed(&v);
        let t = lower_ascii_all(&t);
        if chars_are(&t, "halfblocks") || chars_are(&t, "half-blocks") || chars_are(
            &t,
            "half_blocks",
        ) || chars_are(&t, "blocks") {
            Some(Backend::HalfBlocks)
        } else if chars_are(&t, "sixel") {
            Some(Backend::Sixel)
        } else if chars_are(&t, "kitty") {
            Some(Backend::Kitty)
        } else {
            None
        }
    }
}

/// The start of a primary device attributes answer.
pub open spec fn attributes_start() -> Seq<char> {
    "\x1b[?"@
}

/// The features a primary device attributes answer lists: the
/// semicolon-separated texts between `?` and `c`.
pub open spec fn features_of(reply: Seq<char>) -> Option<Seq<Seq<char>>> {
    match find_from(reply, attributes_start(), 0) {
        None => None,
        Some(start) => {
            let rest = reply.skip(start + attributes_start().len());
            match find_from(rest, "c"@, 0) {
                None => None,
                Some(end) => Some(split_at(rest.take(end), ';')),
            }
        },
    }
}

/// Feature 4, which is Sixel, is among the features.
pub open spec fn has_sixel(features: Seq<Seq<char>>) -> bool {
    exists|i: int| 0 <= i < features.len() && trim(#[trigger] features[i]) == "4"@
}

/// The answer lists feature 4, which is Sixel.
pub open spec fn lists_sixel(reply: Seq<char>) -> bool {
    features_of(reply) matches Some(features) && has_sixel(features)
}

/// Looks for feature 4 in a primary device attributes answer, which is Sixel.
///
/// The answer looks like `ESC [ ? 62 ; 4 ; 22 c`, so the features are the
/// semicolon-separated numbers between `?` and `c`.
pub fn supports_sixel(reply: &str) -> (r: bool)
    ensures
        r == lists_sixel(reply@),
{
    let v = chars_of(reply);
    let start_text = chars_of("\x1b[?");
    let start = match find_chars(&v, &start_text, 0) {
        Some(i) => i,
        None => {
            return false;
        },
    };
    assert(v@.len() == v.len());
    let from = start + start_text.len();
    let rest = sub_chars(&v, from, v.len());
    assert(rest@ =~= reply@.skip(from as int));
    let c = chars_of("c");
    let end = match find_chars(&rest, &c, 0) {
        Some(i) => i,
        None => {
            return false;
        },
    };
    let list = sub_chars(&rest, 0, end);
    assert(list@ =~= rest@.take(end as int));
    let features = split(&list, ';');
    let ghost all = char_views(features@);
    let mut i: usize = 0;
    while i < features.len()
        invariant
            i <= features@.len(),
            all == char_views(features@),
            features_of(reply@) == Some(all),
            forall|k: int| 0 <= k < i ==> trim(#[trigger] all[k]) != "4"@,
        decreases features@.len() - i,
    {
        assert(all[i as int] == features@[i as int]@);
        let t = trimmed(&features[i]);
        if chars_are(&t, "4") {
            assert(trim(all[i as int]) == "4"@);
            assert(has_sixel(all));
            return true;
        }
        i += 1;
    }
    false
}

/// What a terminal's answers say.
pub open spec fn classified(reply: Seq<char>) -> Backend {
    if contains_text(reply, "_Gi=1;OK"@) || contains_text(reply, "_Gi=1;ok"@) {
        Backend::Kitty
    } else if lists_sixel(reply) {
        Backend::Sixel
    } else {
        Backend::HalfBlocks
    }
}

/// Reads a terminal's answers. Kitty support outranks Sixel, because it carries
/// full colour while Sixel is limited to a palette.
pub fn classify(reply: &str) -> (r: Backend)
    ensures
        r == classified(reply@),
{
    let v = chars_of(reply);
    if has_text(&v, "_Gi=1;OK") || has_text(&v, "_Gi=1;ok") {
        return Backend::Kitty;
    }
    if supports_sixel(reply) {
        return Backend::Sixel;
    }
    Backend::HalfBlocks
}

/// Whether everything that was asked has been answered: the device attributes
/// answer ends in `c` and comes last.
pub fn reply_is_complete(reply: &str) -> (r: bool)
    ensures
        r == (contains_text(reply@, "c"@) && contains_text(reply@, attributes_start())),
{
    let v = chars_of(reply);
    has_text(&v, "c") && has_text(&v, "\x1b[?")
}

/// Whether the pixel protocols are out of reach because of a multiplexer.
///
/// tmux manages the screen itself and knows nothing about the pixels a
/// passthrough would put there, so a picture would survive scrolling and cover
/// the text. Half blocks are ordinary cells and behave.
pub fn is_multiplexed(in_tmux: bool, term: Option<&str>) -> (r: bool)
    ensures
        r == (in_tmux || (term matches Some(t) && occurs_at(t@, "screen"@, 0))),
{
    if in_tmux {
        return true;
    }
    match term {
        Some(t) => {
            let v = chars_of(t);
            let p = chars_of("screen");
            stands_at(&v, &p, 0)
        },
        None => false,
    }
}

/// Picks the best backend the terminal admits to supporting. `reply` is what it
/// answered, if anything.
pub fn choose_backend(multiplexed: bool, reply: Option<&str>) -> (r: Backend)
    ensures
        r == (if multiplexed {
            Backend::HalfBlocks
        } else {
            match reply {
                Some(t) => classified(t@),
                None => Backend::HalfBlocks,
            }
        }),
{
    if multiplexed {
        return Backend::HalfBlocks;
    }
    match reply {
        Some(t) => classify(t),
        None => Backend::HalfBlocks,
    }
}

/// A terminal that grants the graphics protocol gets it; one that lists Sixel among its
/// features gets that; any other gets half blocks.
pub proof fn terminals_get_what_they_offer(features: Seq<char>, rest: Seq<char>, k: int)
    requires
        !features.contains('c'),
        0 <= k < split_at(features, ';').len(),
        trim(split_at(features, ';')[k]) == seq!['4'],
    ensures
        ({
            let reply = seq!['\x1b', '[', '?'] + features + seq!['c'] + rest;
            classified(reply) is Kitty || classified(reply) is Sixel
        }),
        forall|reply: Seq<char>| #[trigger]
            contains_text(reply, "_Gi=1;OK"@) ==> classified(reply) is Kitty,
        forall|reply: Seq<char>|
            !contains_text(reply, seq!['\x1b', '[', '?']) && !contains_text(reply, "_Gi=1;OK"@)
                && !contains_text(reply, "_Gi=1;ok"@) ==> #[trigger] classified(reply) is HalfBlocks,
{
    reveal_strlit("\x1b[?");
    reveal_strlit("c");
    reveal_strlit("4");
    let start = seq!['\x1b', '[', '?'];
    assert(attributes_start() =~= start);
    assert("c"@ =~= seq!['c']);
    assert("4"@ =~= seq!['4']);
    let reply = start + features + seq!['c'] + rest;
    assert(reply.subrange(0, 3) =~= start);
    assert(find_from(reply, start, 0) == Some(0int));
    let tail = reply.skip(3);
    assert(tail =~= features + seq!['c'] + rest);
    lemma_first_c(features, seq!['c'] + rest, 0);
    assert(features + (seq!['c'] + rest) =~= tail);
    assert(tail.take(features.len() as int) =~= features);
    assert(features_of(reply) == Some(split_at(features, ';')));
    assert(has_sixel(split_at(features, ';')));
    assert forall|reply: Seq<char>|
        !contains_text(reply, start) && !contains_text(reply, "_Gi=1;OK"@) && !contains_text(
            reply,
            "_Gi=1;ok"@,
        ) implies #[trigger] classified(reply) is HalfBlocks by {
        lemma_find_from(reply, start, 0);
    }
}

proof fn lemma_first_c(a: Seq<char>, b: Seq<char>, i: int)
    requires
        0 <= i <= a.len(),
        !a.contains('c'),
        b.len() > 0,
        b[0] == 'c',
    ensures
        find_from(a + b, seq!['c'], i) == Some(a.len() as int),
    decreases a.len() - i,
{
    let s = a + b;
    if i < a.len() {
        assert(a.contains(a[i]));
        assert(s.subrange(i, i + 1)[0] == a[i]);
        lemma_first_c(a, b, i + 1);
    } else {
        assert(s.subrange(i, i + 1) =~= seq!['c']);
    }
}

/// A backend is named in any case, with room around it, and nothing else names one.
pub proof fn a_backend_is_named_in_any_case(text: Seq<char>, other: Seq<char>)
    requires
        ascii_lowered(trim(text)) == ascii_lowered(trim(other)),
    ensures
        backend_named(text) == backend_named(other),
        ascii_lowered(trim(text)) == "kitty"@ ==> backend_named(text) == Some(Backend::Kitty),
        ascii_lowered(trim(text)) == "sixel"@ ==> backend_named(text) == Some(Backend::Sixel),
        ascii_lowered(trim(text)) == "blocks"@ ==> backend_named(text) == Some(Backend::HalfBlocks),
        backend_named(text) is Some ==> ascii_lowered(trim(text)).len() > 0,
{
    reveal_strlit("kitty");
    reveal_strlit("sixel");
    reveal_strlit("blocks");
    reveal_strlit("halfblocks");
    reveal_strlit("half-blocks");
    reveal_strlit("half_blocks");
    assert("kitty"@[0] == 'k' && "sixel"@[0] == 's' && "blocks"@[0] == 'b');
    assert("halfblocks"@[0] == 'h' && "half-blocks"@[0] == 'h' && "half_blocks"@[0] == 'h');
}

} // verus!
