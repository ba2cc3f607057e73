//! White space in markup.

use vstd::prelude::*;
use crate::text::{
    ascii_white, is_white, keep_end, lemma_keep_end, lemma_skip_white, skip_white, trim,
    trim_start,
};

verus! {

/// A character that takes no space but breaks the layout.
///
/// Zero-width spaces are used as line anchors in some books. They are invisible,
/// yet they keep a block from counting as empty, which would leave a stray blank
/// line between every line of a listing.
pub open spec fn breaks_layout(c: char) -> bool {
    c == '\u{200b}' || c == '\u{200c}' || c == '\u{200d}' || c == '\u{feff}' || c == '\r'
}

/// A text without the characters that break the layout.
pub open spec fn stripped(s: Seq<char>) -> Seq<char>
    decreases s.len(),
{
    if s.len() == 0 {
        s
    } else if breaks_layout(s.last()) {
        stripped(s.drop_last())
    } else {
        stripped(s.drop_last()).push(s.last())
    }
}

/// Runs of ASCII white space as single spaces.
pub open spec fn spaces_merged(s: Seq<char>) -> Seq<char>
    decreases s.len(),
{
    if s.len() == 0 {
        s
    } else {
        let front = spaces_merged(s.drop_last());
        if !ascii_white(s.last()) {
            front.push(s.last())
        } else if s.len() > 1 && ascii_white(s[s.len() - 2]) {
            front
        } else {
            front.push(' ')
        }
    }
}

/// Runs of white space collapsed into single spaces, as HTML rendering does.
///
/// Only ASCII white space collapses. A no-break space is content: it must stay a
/// distinct character so the line breaker does not split there.
pub open spec fn collapsed(s: Seq<char>) -> Seq<char> {
    spaces_merged(stripped(s))
}

/// Removes characters that take no space but break the layout.
pub fn strip_invisibles(text: &Vec<char>) -> (r: Vec<char>)
    ensures
        r@ == stripped(text@),
{
    let mut out: Vec<char> = Vec::new();
    let mut i: usize = 0;
    assert(text@.take(0) =~= Seq::<char>::empty());
    while i < text.len()
        invariant
            i <= text@.len(),
            out@ == stripped(text@.take(i as int)),
        decreases text@.len() - i,
    {
        let c = text[i];
        if !(c == '\u{200b}' || c == '\u{200c}' || c == '\u{200d}' || c == '\u{feff}' || c == '\r') {
            out.push(c);
        }
        i += 1;
        assert(text@.take(i as int).drop_last() =~= text@.take(i - 1));
    }
    assert(text@.take(text@.len() as int) =~= text@);
    out
}

/// Collapses runs of white space into single spaces.
pub fn collapse_whitespace(text: &Vec<char>) -> (r: Vec<char>)
    ensures
        r@ == collapsed(text@),
{
    let plain = strip_invisibles(text);
    let mut out: Vec<char> = Vec::new();
    let mut in_space = false;
    let mut i: usize = 0;
    assert(plain@.take(0) =~= Seq::<char>::empty());
    while i < plain.len()
        invariant
            i <= plain@.len(),
            out@ == spaces_merged(plain@.take(i as int)),
            in_space == (i > 0 && ascii_white(plain@[i - 1])),
        decreases plain@.len() - i,
    {
        let c = plain[i];
        assert(plain@.take(i + 1).drop_last() =~= plain@.take(i as int));
        if c == ' ' || c == '\t' || c == '\n' || c == '\x0c' || c == '\r' {
            if !in_space {
                out.push(' ');
                in_space = true;
            }
        } else {
            out.push(c);
            in_space = false;
        }
        i += 1;
    }
    assert(plain@.take(plain@.len() as int) =~= plain@);
    out
}

/// The only ASCII white space left is single spaces.
pub open spec fn is_collapsed(s: Seq<char>) -> bool {
    &&& forall|i: int| 0 <= i < s.len() ==> (ascii_white(#[trigger] s[i]) ==> s[i] == ' ')
    &&& forall|i: int, j: int|
        0 <= i && j == i + 1 && j < s.len() ==> !(ascii_white(#[trigger] s[i]) && ascii_white(
            #[trigger] s[j],
        ))
}

/// Collapsing leaves no two white space characters in a row, and no white space
/// of the ASCII range other than the space itself.
pub proof fn collapsing_leaves_single_spaces(s: Seq<char>)
    ensures
        is_collapsed(collapsed(s)),
{
    lemma_merged(stripped(s));
}

proof fn lemma_merged(s: Seq<char>)
    ensures
        is_collapsed(spaces_merged(s)),
        s.len() > 0 ==> spaces_merged(s).len() > 0 && ascii_white(spaces_merged(s).last())
            == ascii_white(s.last()),
    decreases s.len(),
{
    if s.len() > 0 {
        lemma_merged(s.drop_last());
        if s.len() > 1 {
            assert(s.drop_last().last() == s[s.len() - 2]);
        }
    }
}

/// Collapsing what is already collapsed changes nothing more.
pub proof fn collapsing_twice_changes_nothing(s: Seq<char>)
    ensures
        collapsed(collapsed(s)) == collapsed(s),
{
    let c = collapsed(s);
    lemma_stripped_clean(s);
    lemma_merged_clean(stripped(s));
    lemma_stripped_fixed(c);
    lemma_merged(stripped(s));
    lemma_merged_fixed(c);
}

spec fn clean(s: Seq<char>) -> bool {
    forall|i: int| 0 <= i < s.len() ==> !breaks_layout(#[trigger] s[i])
}

proof fn lemma_stripped_clean(s: Seq<char>)
    ensures
        clean(stripped(s)),
    decreases s.len(),
{
    if s.len() > 0 {
        lemma_stripped_clean(s.drop_last());
    }
}

proof fn lemma_merged_clean(s: Seq<char>)
    requires
        clean(s),
    ensures
        clean(spaces_merged(s)),
    decreases s.len(),
{
    if s.len() > 0 {
        assert forall|i: int| 0 <= i < s.drop_last().len() implies !breaks_layout(
            #[trigger] s.drop_last()[i],
        ) by {
            assert(s.drop_last()[i] == s[i]);
        }
        lemma_merged_clean(s.drop_last());
    }
}

proof fn lemma_stripped_fixed(s: Seq<char>)
    requires
        clean(s),
    ensures
        stripped(s) == s,
    decreases s.len(),
{
    if s.len() > 0 {
        assert forall|i: int| 0 <= i < s.drop_last().len() implies !breaks_layout(
            #[trigger] s.drop_last()[i],
        ) by {
            assert(s.drop_last()[i] == s[i]);
        }
        lemma_stripped_fixed(s.drop_last());
        assert(s =~= s.drop_last().push(s.last()));
    }
}

proof fn lemma_merged_fixed(s: Seq<char>)
    requires
        is_collapsed(s),
    ensures
        spaces_merged(s) == s,
    decreases s.len(),
{
    if s.len() > 0 {
        let d = s.drop_last();
        assert(is_collapsed(d)) by {
            assert forall|i: int| 0 <= i < d.len() && ascii_white(#[trigger] d[i]) implies d[i]
                == ' ' by {
                assert(d[i] == s[i]);
            }
            assert forall|i: int, j: int| 0 <= i && j == i + 1 && j < d.len() implies !(ascii_white(
                #[trigger] d[i],
            ) && ascii_white(#[trigger] d[j])) by {
                assert(d[i] == s[i] && d[j] == s[j]);
            }
        }
        lemma_merged_fixed(d);
        assert(s =~= d.push(s.last()));
        if s.len() > 1 {
            assert(!(ascii_white(s[s.len() - 2]) && ascii_white(s[s.len() - 1])));
        }
    }
}

// ---------------------------------------------------------------------------
// What white space leaves alone
// ---------------------------------------------------------------------------
/// A character that leaves a mark on the page.
pub open spec fn is_ink(c: char) -> bool {
    !is_white(c) && c != '\u{200b}' && c != '\u{200c}' && c != '\u{200d}' && c != '\u{feff}'
}

/// What a text leaves on the page, its white space aside.
pub open spec fn ink(s: Seq<char>) -> Seq<char> {
    s.filter(|c: char| is_ink(c))
}

pub proof fn lemma_ink_add(a: Seq<char>, b: Seq<char>)
    ensures
        ink(a + b) == ink(a) + ink(b),
{
    Seq::filter_distributes_over_add(a, b, |c: char| is_ink(c));
}

pub proof fn lemma_ink_push(s: Seq<char>, c: char)
    ensures
        ink(s.push(c)) == (if is_ink(c) {
            ink(s).push(c)
        } else {
            ink(s)
        }),
{
    reveal(Seq::filter);
    assert(s.push(c).drop_last() =~= s);
}

pub proof fn lemma_ink_last(s: Seq<char>)
    requires
        s.len() > 0,
    ensures
        ink(s) == (if is_ink(s.last()) {
            ink(s.drop_last()).push(s.last())
        } else {
            ink(s.drop_last())
        }),
{
    reveal(Seq::filter);
}

pub proof fn lemma_no_ink(s: Seq<char>)
    requires
        forall|i: int| 0 <= i < s.len() ==> !is_ink(#[trigger] s[i]),
    ensures
        ink(s) == Seq::<char>::empty(),
    decreases s.len(),
{
    reveal(Seq::filter);
    if s.len() > 0 {
        assert forall|i: int| 0 <= i < s.drop_last().len() implies !is_ink(
            #[trigger] s.drop_last()[i],
        ) by {
            assert(s.drop_last()[i] == s[i]);
        }
        lemma_no_ink(s.drop_last());
    }
}

/// Trimming takes no ink away.
pub proof fn lemma_ink_trim(s: Seq<char>)
    ensures
        ink(trim(s)) == ink(s),
{
    lemma_skip_white(s, 0);
    let a = skip_white(s, 0);
    let t = trim_start(s);
    let n = t.len() as int;
    lemma_keep_end(t, n);
    let z = keep_end(t, n);
    let left = s.subrange(0, a);
    let right = t.subrange(z, n);
    assert forall|i: int| 0 <= i < left.len() implies !is_ink(#[trigger] left[i]) by {
        assert(left[i] == s[i]);
    }
    assert forall|i: int| 0 <= i < right.len() implies !is_ink(#[trigger] right[i]) by {
        assert(right[i] == t[z + i]);
    }
    lemma_no_ink(left);
    lemma_no_ink(right);
    assert(s =~= left + t);
    assert(t =~= trim(s) + right);
    lemma_ink_add(left, t);
    lemma_ink_add(trim(s), right);
    assert(ink(s) =~= ink(trim(s)));
}

/// A text without zero-width characters and carriage returns, all else as it is.
pub open spec fn unbroken(s: Seq<char>) -> Seq<char> {
    s.filter(
        |c: char|
            c != '\u{200b}' && c != '\u{200c}' && c != '\u{200d}' && c != '\u{feff}' && c != '\r',
    )
}

pub proof fn lemma_unbroken_add(a: Seq<char>, b: Seq<char>)
    ensures
        unbroken(a + b) == unbroken(a) + unbroken(b),
{
    Seq::filter_distributes_over_add(
        a,
        b,
        |c: char|
            c != '\u{200b}' && c != '\u{200c}' && c != '\u{200d}' && c != '\u{feff}' && c != '\r',
    );
}

/// Of a text without the characters that break the layout, every other character
/// is still there, white space and all.
pub proof fn stripping_keeps_all_else(s: Seq<char>)
    ensures
        stripped(s) == unbroken(s),
    decreases s.len(),
{
    reveal(Seq::filter);
    if s.len() > 0 {
        stripping_keeps_all_else(s.drop_last());
    }
}

/// Collapsing takes no ink away and adds none.
pub proof fn collapsing_keeps_the_ink(s: Seq<char>)
    ensures
        ink(collapsed(s)) == ink(s),
{
    lemma_stripped_ink(s);
    lemma_merged_ink(stripped(s));
}

pub proof fn lemma_stripped_ink(s: Seq<char>)
    ensures
        ink(stripped(s)) == ink(s),
    decreases s.len(),
{
    if s.len() > 0 {
        lemma_stripped_ink(s.drop_last());
        lemma_ink_last(s);
        lemma_ink_push(stripped(s.drop_last()), s.last());
    }
}

proof fn lemma_merged_ink(s: Seq<char>)
    ensures
        ink(spaces_merged(s)) == ink(s),
    decreases s.len(),
{
    if s.len() > 0 {
        let front = spaces_merged(s.drop_last());
        lemma_merged_ink(s.drop_last());
        lemma_ink_last(s);
        lemma_ink_push(front, s.last());
        lemma_ink_push(front, ' ');
    }
}

/// Words stay apart: white space between two texts is one space once it is
/// collapsed.
pub proof fn collapsing_keeps_words_apart(a: Seq<char>, w: Seq<char>, b: Seq<char>)
    requires
        a.len() > 0,
        is_ink(a.last()),
        b.len() > 0,
        is_ink(b[0]),
        w.len() > 0,
        forall|i: int| 0 <= i < w.len() ==> #[trigger] w[i] == ' ' || w[i] == '\t' || w[i] == '\n',
    ensures
        collapsed(a + w + b) == collapsed(a) + seq![' '] + collapsed(b),
    decreases b.len(),
{
    let s = a + w + b;
    let d = b.drop_last();
    assert(s.drop_last() =~= a + w + d);
    if b.len() == 1 {
        lemma_space_run(a, w);
        assert(a + w + d =~= a + w);
        assert(stripped(s) == stripped(a + w).push(b[0]));
        lemma_merged_push(stripped(a + w), b[0]);
        assert(stripped(d) =~= Seq::<char>::empty());
        assert(stripped(b) =~= seq![b[0]]);
        assert(collapsed(b) =~= seq![b[0]]) by {
            lemma_merged_push(Seq::empty(), b[0]);
            assert(Seq::<char>::empty().push(b[0]) =~= seq![b[0]]);
        }
        assert(collapsed(s) =~= collapsed(a) + seq![' '] + collapsed(b));
    } else {
        assert(d[0] == b[0]);
        collapsing_keeps_words_apart(a, w, d);
        let c = b.last();
        if !breaks_layout(c) {
            let x = stripped(a + w + d);
            let y = stripped(d);
            assert(stripped(s) =~= x.push(c));
            assert(stripped(b) =~= y.push(c));
            lemma_merged_push(x, c);
            lemma_merged_push(y, c);
            lemma_stripped_last(a + w, d);
        }
        assert(collapsed(s) =~= collapsed(a) + seq![' '] + collapsed(b));
    }
}

proof fn lemma_merged_push(s: Seq<char>, c: char)
    ensures
        spaces_merged(s.push(c)) == (if !ascii_white(c) {
            spaces_merged(s).push(c)
        } else if s.len() > 0 && ascii_white(s.last()) {
            spaces_merged(s)
        } else {
            spaces_merged(s).push(' ')
        }),
{
    assert(s.push(c).drop_last() =~= s);
    if s.len() > 0 {
        assert(s.push(c)[s.len() - 1] == s.last());
    }
}

/// The stripped text of one that begins with ink ends as it does behind any other.
proof fn lemma_stripped_last(a: Seq<char>, d: Seq<char>)
    requires
        d.len() > 0,
        is_ink(d[0]),
    ensures
        stripped(d).len() > 0,
        stripped(a + d).len() > 0,
        stripped(a + d).last() == stripped(d).last(),
    decreases d.len(),
{
    assert((a + d).drop_last() =~= a + d.drop_last());
    if breaks_layout(d.last()) {
        assert(d.len() > 1);
        assert(d.drop_last()[0] == d[0]);
        lemma_stripped_last(a, d.drop_last());
    }
}

/// White space behind ink is one space once it is collapsed.
proof fn lemma_space_run(a: Seq<char>, w: Seq<char>)
    requires
        a.len() > 0,
        is_ink(a.last()),
        w.len() > 0,
        forall|i: int| 0 <= i < w.len() ==> #[trigger] w[i] == ' ' || w[i] == '\t' || w[i] == '\n',
    ensures
        collapsed(a + w) == collapsed(a).push(' '),
        stripped(a + w).len() > 0,
        ascii_white(stripped(a + w).last()),
    decreases w.len(),
{
    let d = w.drop_last();
    let c = w.last();
    assert((a + w).drop_last() =~= a + d);
    assert(stripped(a + w) == stripped(a + d).push(c));
    lemma_merged_push(stripped(a + d), c);
    if d.len() == 0 {
        assert(a + d =~= a);
        assert(stripped(a).len() > 0 && stripped(a).last() == a.last());
    } else {
        assert forall|i: int| 0 <= i < d.len() implies #[trigger] d[i] == ' ' || d[i] == '\t'
            || d[i] == '\n' by {
            assert(d[i] == w[i]);
        }
        lemma_space_run(a, d);
    }
}

} // verus!
