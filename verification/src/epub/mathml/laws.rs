//! What holds of every formula set on one line.

use vstd::prelude::*;
use crate::epub::mathml::{
    atomic, cells_rendered, counterpart, dense, first_kid_rendered, formula, grouped,
    has_element, index_text, invisible, is_token, kid_rendered, node_rendered, only_marks,
    operator_pushed, out_new, range_rendered, root_mark, rows_rendered, script_of, scripted,
    scripted_char, scripts_joined, text_pushed, visible, wrapped, OutView,
};
use crate::epub::space::{
    collapsed, collapsing_keeps_the_ink, ink, is_ink, lemma_ink_last, lemma_ink_trim,
};
use crate::failure::{joined, joining_keeps_every_part};
use crate::text::{alphanumeric, blank, is_white, lemma_trim_empty, occurs_at, trim};
use crate::xml::{raw_text, subtree_end, NodeKind, NodeView};

verus! {

// ---------------------------------------------------------------------------
// Indices
// ---------------------------------------------------------------------------
/// Every character of a text can be raised or lowered.
pub open spec fn is_settable(s: Seq<char>, sub: bool) -> bool {
    forall|i: int| 0 <= i < s.len() ==> (#[trigger] scripted_char(s[i], sub)) is Some
}

/// The raised or lowered form of every character of a text.
pub open spec fn forms(s: Seq<char>, sub: bool) -> Seq<char> {
    Seq::new(s.len(), |i: int| scripted_char(s[i], sub)->0)
}

proof fn lemma_scripted(s: Seq<char>, sub: bool)
    ensures
        scripted(s, sub) == (if is_settable(s, sub) {
            Some(forms(s, sub))
        } else {
            None
        }),
    decreases s.len(),
{
    if s.len() == 0 {
        assert(forms(s, sub) =~= s);
    } else {
        let d = s.drop_last();
        lemma_scripted(d, sub);
        if is_settable(s, sub) {
            assert forall|i: int| 0 <= i < d.len() implies (#[trigger] scripted_char(
                d[i],
                sub,
            )) is Some by {
                assert(scripted_char(s[i], sub) is Some);
            }
            assert(scripted_char(s[s.len() - 1], sub) is Some);
            assert(forms(s, sub) =~= forms(d, sub).push(scripted_char(s.last(), sub)->0));
        } else {
            let i = choose|i: int| 0 <= i < s.len() && !((#[trigger] scripted_char(s[i], sub)) is Some);
            if i < d.len() {
                assert(!(scripted_char(d[i], sub) is Some));
            }
        }
    }
}

/// `t` is a base with what stands below and above it. The base comes first. Where
/// both indices can be set, the lowered form of every character of the lower one
/// follows, and then the raised form of every character of the upper one. Where
/// not, both follow as they are, each behind its mark.
pub open spec fn is_script(t: Seq<char>, base: Seq<char>, below: Seq<char>, above: Seq<char>) -> bool {
    let n = base.len() as int;
    &&& base.is_prefix_of(t)
    &&& t.len() >= base.len() + below.len() + above.len()
    &&& is_settable(below, true) && is_settable(above, false) ==> t == base + forms(below, true)
        + forms(above, false)
    &&& !(is_settable(below, true) && is_settable(above, false)) ==> exists|p: int, q: int|
        #![trigger occurs_at(t, below, p), occurs_at(t, above, q)]
        n <= p && occurs_at(t, below, p) && p + below.len() <= q && occurs_at(t, above, q) && (
        below.len() > 0 ==> p > n && t[n] == '_') && (above.len() > 0 ==> q > n && (t[q - 1] == '^'
            || (t[q - 1] == '(' && t[q - 2] == '^')))
}

/// No index is dropped: a base with what stands below and above it has all three,
/// in that order.
pub proof fn no_index_is_dropped(base: Seq<char>, below: Seq<char>, above: Seq<char>)
    ensures
        is_script(scripts_joined(base, below, above), base, below, above),
        below.len() == 0 && above.len() == 0 ==> scripts_joined(base, below, above) == base,
{
    let t = scripts_joined(base, below, above);
    let n = base.len() as int;
    lemma_scripted(below, true);
    lemma_scripted(above, false);
    reveal_strlit("_(");
    reveal_strlit("^(");
    reveal_strlit("(");
    reveal_strlit(")");
    if is_settable(below, true) && is_settable(above, false) {
        assert(t =~= base + forms(below, true) + forms(above, false));
    } else if above.len() == 0 {
        assert(!is_settable(below, true));
        let q = t.len() as int;
        let p = if below.len() == 1 {
            n + 1
        } else {
            n + 2
        };
        assert(t.subrange(p, p + below.len()) =~= below);
        assert(t.subrange(q, q + above.len()) =~= above);
        assert(occurs_at(t, below, p) && occurs_at(t, above, q));
    } else if below.len() == 0 {
        let q = if above.len() == 1 {
            n + 1
        } else {
            n + 2
        };
        assert(t.subrange(n, n + below.len()) =~= below);
        assert(t.subrange(q, q + above.len()) =~= above);
        assert(occurs_at(t, below, n) && occurs_at(t, above, q));
    } else {
        let p = n + 2;
        let q = p + below.len() + 3;
        assert(t.subrange(p, p + below.len()) =~= below);
        assert(t.subrange(q, q + above.len()) =~= above);
        assert(occurs_at(t, below, p) && occurs_at(t, above, q));
    }
}

/// An index on its own is the form of every character where each has one. Where
/// not, it is the text itself behind the mark, in parentheses if it is longer than
/// one character.
pub proof fn an_index_keeps_its_text(text: Seq<char>, sub: bool)
    ensures
        is_settable(text, sub) ==> index_text(text, sub) == forms(text, sub),
        !is_settable(text, sub) ==> ({
            let t = index_text(text, sub);
            let mark = if sub {
                '_'
            } else {
                '^'
            };
            if text.len() == 1 {
                t == seq![mark, text[0]]
            } else {
                t == seq![mark, '('] + text + seq![')']
            }
        }),
{
    lemma_scripted(text, sub);
    reveal_strlit("(");
    reveal_strlit(")");
    if !is_settable(text, sub) {
        let mark = if sub {
            '_'
        } else {
            '^'
        };
        if text.len() == 1 {
            assert(index_text(text, sub) =~= seq![mark, text[0]]);
        } else {
            assert(index_text(text, sub) =~= seq![mark, '('] + text + seq![')']);
        }
    }
}

/// The digit of a character code.
pub open spec fn is_digit(c: char) -> bool {
    '0' <= c <= '9'
}

/// Every digit can be set: lowered it is the subscript digit of the same value,
/// raised the superscript digit.
#[verifier::rlimit(50)]
pub proof fn digits_keep_their_value(c: char)
    requires
        is_digit(c),
    ensures
        ({
            let value = c as int - '0' as int;
            &&& scripted_char(c, true) is Some
            &&& scripted_char(c, true)->0 as int == 0x2080 + value
            &&& scripted_char(c, false) is Some
            &&& scripted_char(c, false)->0 as int == (if value == 1 {
                0xb9
            } else if value == 2 {
                0xb2
            } else if value == 3 {
                0xb3
            } else {
                0x2070 + value
            })
        }),
{
    reveal_strlit("0123456789+-−=()abcdefghijklmnoprstuvwxyz");
    reveal_strlit("⁰¹²³⁴⁵⁶⁷⁸⁹⁺⁻⁻⁼⁽⁾ᵃᵇᶜᵈᵉᶠᵍʰⁱʲᵏˡᵐⁿᵒᵖʳˢᵗᵘᵛʷˣʸᶻ");
    reveal_strlit("0123456789+-−=()aehijklmnoprstuvx");
    reveal_strlit("₀₁₂₃₄₅₆₇₈₉₊₋₋₌₍₎ₐₑₕᵢⱼₖₗₘₙₒₚᵣₛₜᵤᵥₓ");
    reveal_with_fuel(counterpart, 11);
}

/// What cannot be set is a letter, a digit or white space; any other symbol can,
/// as it is where it has no form of its own.
pub proof fn symbols_can_always_be_set(c: char, sub: bool)
    ensures
        scripted_char(c, sub) is None ==> alphanumeric(c) || is_white(c),
{
}

// ---------------------------------------------------------------------------
// Writing
// ---------------------------------------------------------------------------
/// A text was written: behind what was there, after the space that was owed, and
/// without any white space where the line is tight.
pub open spec fn gains(before: OutView, after: OutView, t: Seq<char>) -> bool {
    let p = if before.tight {
        t.filter(|c: char| !is_white(c))
    } else {
        t
    };
    let gap = if p.len() > 0 && before.pending && before.text.len() > 0 {
        seq![' ']
    } else {
        Seq::empty()
    };
    after.text == before.text + gap + p && after.tight == before.tight
}

proof fn lemma_dense_filter(s: Seq<char>)
    ensures
        dense(s) == s.filter(|c: char| !is_white(c)),
    decreases s.len(),
{
    reveal(Seq::filter);
    if s.len() > 0 {
        lemma_dense_filter(s.drop_last());
    }
}

proof fn lemma_gains(out: OutView, t: Seq<char>)
    ensures
        gains(out, out.pushed(t), t),
{
    lemma_dense_filter(t);
    assert(out.pushed(t).text =~= out.text + (if out.fitted(t).len() > 0 && out.pending
        && out.text.len() > 0 {
        seq![' ']
    } else {
        Seq::empty()
    }) + out.fitted(t));
}

/// The `k`-th element among siblings, as where it begins and ends.
pub open spec fn nth_element(d: Seq<NodeView>, from: int, to: int, k: nat) -> Option<(int, int)>
    decreases to - from,
{
    if from < 0 || from >= to || to > d.len() {
        None
    } else {
        let e = subtree_end(d, from, to);
        if d[from].kind != NodeKind::Element {
            nth_element(d, e, to, k)
        } else if k == 0 {
            Some((from, e))
        } else {
            nth_element(d, e, to, (k - 1) as nat)
        }
    }
}

/// The `k`-th element among siblings, rendered on a line of its own.
pub open spec fn nth_text(d: Seq<NodeView>, from: int, to: int, k: nat, tight: bool) -> Seq<char> {
    match nth_element(d, from, to, k) {
        Some((i, e)) => trim(node_rendered(d, i, e, out_new(tight)).text),
        None => Seq::empty(),
    }
}

proof fn lemma_nth(d: Seq<NodeView>, from: int, to: int, k: nat, tight: bool)
    ensures
        kid_rendered(d, from, to, k, tight) == nth_text(d, from, to, k, tight),
    decreases to - from,
{
    if 0 <= from < to && to <= d.len() {
        let e = subtree_end(d, from, to);
        if d[from].kind != NodeKind::Element {
            lemma_nth(d, e, to, k, tight);
        } else if k > 0 {
            lemma_nth(d, e, to, (k - 1) as nat, tight);
        }
    }
}

/// The names of the elements that the laws below tell apart are all different.
proof fn lemma_names()
    ensures
        "semantics"@.len() == 9,
        "annotation"@.len() == 10,
        "annotation-xml"@.len() == 14,
        "mphantom"@.len() == 8,
        "mspace"@.len() == 6 && "mspace"@[1] == 's' && "mspace"@[2] == 'p',
        "mi"@.len() == 2,
        "mn"@.len() == 2,
        "ms"@.len() == 2,
        "mo"@.len() == 2,
        "mi"@[1] == 'i',
        "mn"@[1] == 'n',
        "ms"@[1] == 's',
        "mo"@[1] == 'o',
        "mtext"@.len() == 5 && "mtext"@[1] == 't',
        "msub"@.len() == 4 && "msub"@[1] == 's' && "msub"@[3] == 'b',
        "msup"@.len() == 4 && "msup"@[1] == 's' && "msup"@[3] == 'p',
        "munder"@.len() == 6 && "munder"@[1] == 'u',
        "mover"@.len() == 5 && "mover"@[1] == 'o',
        "msubsup"@.len() == 7,
        "munderover"@.len() == 10 && "munderover"@[0] == 'm',
        "annotation"@[0] == 'a',
        "mfrac"@.len() == 5 && "mfrac"@[1] == 'f',
        "msqrt"@.len() == 5 && "msqrt"@[1] == 's',
        "mroot"@.len() == 5 && "mroot"@[1] == 'r',
        "mtable"@.len() == 6 && "mtable"@[1] == 't',
{
    reveal_strlit("semantics");
    reveal_strlit("annotation");
    reveal_strlit("annotation-xml");
    reveal_strlit("mphantom");
    reveal_strlit("mspace");
    reveal_strlit("mi");
    reveal_strlit("mn");
    reveal_strlit("ms");
    reveal_strlit("mo");
    reveal_strlit("mtext");
    reveal_strlit("msub");
    reveal_strlit("msup");
    reveal_strlit("munder");
    reveal_strlit("mover");
    reveal_strlit("msubsup");
    reveal_strlit("munderover");
    reveal_strlit("mfrac");
    reveal_strlit("msqrt");
    reveal_strlit("mroot");
    reveal_strlit("mtable");
}

/// What an element with indices writes is its first element with the second one
/// below it.
pub proof fn a_lower_index_is_set_below(d: Seq<NodeView>, i: int, end: int, out: OutView)
    requires
        0 <= i < end <= d.len(),
        d[i].kind == NodeKind::Element,
        d[i].name == "msub"@ || d[i].name == "munder"@,
    ensures
        exists|t: Seq<char>| #[trigger]
            gains(out, node_rendered(d, i, end, out), t) && is_script(
                t,
                nth_text(d, i + 1, end, 0, out.tight),
                nth_text(d, i + 1, end, 1, true),
                Seq::empty(),
            ),
{
    lemma_names();
    lemma_nth(d, i + 1, end, 0, out.tight);
    lemma_nth(d, i + 1, end, 1, true);
    let base = nth_text(d, i + 1, end, 0, out.tight);
    let low = nth_text(d, i + 1, end, 1, true);
    let t = scripts_joined(base, low, Seq::empty());
    no_index_is_dropped(base, low, Seq::empty());
    lemma_gains(out, t);
    assert(gains(out, node_rendered(d, i, end, out), t));
}

/// What an element with an upper index writes is its first element with the second
/// one above it.
pub proof fn an_upper_index_is_set_above(d: Seq<NodeView>, i: int, end: int, out: OutView)
    requires
        0 <= i < end <= d.len(),
        d[i].kind == NodeKind::Element,
        d[i].name == "msup"@ || d[i].name == "mover"@,
    ensures
        exists|t: Seq<char>| #[trigger]
            gains(out, node_rendered(d, i, end, out), t) && is_script(
                t,
                nth_text(d, i + 1, end, 0, out.tight),
                Seq::empty(),
                nth_text(d, i + 1, end, 1, true),
            ),
{
    lemma_names();
    lemma_nth(d, i + 1, end, 0, out.tight);
    lemma_nth(d, i + 1, end, 1, true);
    let base = nth_text(d, i + 1, end, 0, out.tight);
    let high = nth_text(d, i + 1, end, 1, true);
    let t = scripts_joined(base, Seq::empty(), high);
    no_index_is_dropped(base, Seq::empty(), high);
    lemma_gains(out, t);
    assert(gains(out, node_rendered(d, i, end, out), t));
}

/// What an element with two indices writes is its first element with the second
/// one below and the third one above it.
pub proof fn both_indices_are_set(d: Seq<NodeView>, i: int, end: int, out: OutView)
    requires
        0 <= i < end <= d.len(),
        d[i].kind == NodeKind::Element,
        d[i].name == "msubsup"@ || d[i].name == "munderover"@,
    ensures
        exists|t: Seq<char>| #[trigger]
            gains(out, node_rendered(d, i, end, out), t) && is_script(
                t,
                nth_text(d, i + 1, end, 0, out.tight),
                nth_text(d, i + 1, end, 1, true),
                nth_text(d, i + 1, end, 2, true),
            ),
{
    lemma_names();
    lemma_nth(d, i + 1, end, 0, out.tight);
    lemma_nth(d, i + 1, end, 1, true);
    lemma_nth(d, i + 1, end, 2, true);
    let base = nth_text(d, i + 1, end, 0, out.tight);
    let low = nth_text(d, i + 1, end, 1, true);
    let high = nth_text(d, i + 1, end, 2, true);
    let t = scripts_joined(base, low, high);
    no_index_is_dropped(base, low, high);
    lemma_gains(out, t);
    assert(gains(out, node_rendered(d, i, end, out), t));
}

/// `g` is an expression that reads as one: itself where it is empty, a number or
/// a word; in parentheses, its own or added ones, otherwise.
pub open spec fn reads_as_one(g: Seq<char>, s: Seq<char>) -> bool {
    &&& g == s || g == seq!['('] + s + seq![')']
    &&& (forall|i: int| 0 <= i < s.len() ==> alphanumeric(#[trigger] s[i]) || s[i] == '.') ==> g
        == s
    &&& !(forall|i: int| 0 <= i < s.len() ==> alphanumeric(#[trigger] s[i]) || s[i] == '.')
        ==> g.len() >= 2 && g[0] == '(' && g.last() == ')'
}

proof fn lemma_closing(s: Seq<char>, i: int, depth: int)
    requires
        0 <= i,
    ensures
        crate::epub::mathml::closing(s, i, depth) matches Some(k) ==> i <= k < s.len() && s[k]
            == ')',
    decreases s.len() - i,
{
    if i < s.len() {
        lemma_closing(s, i + 1, depth + 1);
        lemma_closing(s, i + 1, depth - 1);
        lemma_closing(s, i + 1, depth);
    }
}

/// Grouping keeps the expression and makes it read as one.
pub proof fn grouping_keeps_the_expression(s: Seq<char>)
    ensures
        reads_as_one(grouped(s), s),
{
    reveal_strlit("(");
    reveal_strlit(")");
    lemma_closing(s, 1, 1);
    if s.len() > 0 && !atomic(s) && !wrapped(s) {
        assert(grouped(s) =~= seq!['('] + s + seq![')']);
    }
}

/// A fraction writes its numerator, a stroke and its denominator.
pub proof fn a_fraction_has_both_parts(d: Seq<NodeView>, i: int, end: int, out: OutView)
    requires
        0 <= i < end <= d.len(),
        d[i].kind == NodeKind::Element,
        d[i].name == "mfrac"@,
    ensures
        exists|x: Seq<char>, y: Seq<char>| #[trigger]
            gains(out, node_rendered(d, i, end, out), x + seq!['/'] + y) && reads_as_one(
                x,
                nth_text(d, i + 1, end, 0, out.tight),
            ) && reads_as_one(y, nth_text(d, i + 1, end, 1, out.tight)),
{
    lemma_names();
    lemma_nth(d, i + 1, end, 0, out.tight);
    lemma_nth(d, i + 1, end, 1, out.tight);
    let x = grouped(nth_text(d, i + 1, end, 0, out.tight));
    let y = grouped(nth_text(d, i + 1, end, 1, out.tight));
    grouping_keeps_the_expression(nth_text(d, i + 1, end, 0, out.tight));
    grouping_keeps_the_expression(nth_text(d, i + 1, end, 1, out.tight));
    reveal_strlit("/");
    assert("/"@ =~= seq!['/']);
    lemma_gains(out, x + seq!['/'] + y);
    assert(gains(out, node_rendered(d, i, end, out), x + seq!['/'] + y));
}

/// A square root writes its sign and what stands under it.
pub proof fn a_root_covers_its_radicand(d: Seq<NodeView>, i: int, end: int, out: OutView)
    requires
        0 <= i < end <= d.len(),
        d[i].kind == NodeKind::Element,
        d[i].name == "msqrt"@,
    ensures
        exists|y: Seq<char>| #[trigger]
            gains(out, node_rendered(d, i, end, out), seq!['√'] + y) && reads_as_one(
                y,
                trim(range_rendered(d, i + 1, end, out_new(out.tight)).text),
            ),
{
    lemma_names();
    let s = trim(range_rendered(d, i + 1, end, out_new(out.tight)).text);
    let y = grouped(s);
    grouping_keeps_the_expression(s);
    reveal_strlit("√");
    assert("√"@ =~= seq!['√']);
    lemma_gains(out, seq!['√'] + y);
    assert(gains(out, node_rendered(d, i, end, out), seq!['√'] + y));
}

/// The sign of a root with its degree.
pub open spec fn degree_mark(degree: Seq<char>) -> Seq<char> {
    if is_settable(degree, false) {
        forms(degree, false) + seq!['√']
    } else {
        seq!['√', '['] + degree + seq![']']
    }
}

/// A root with a degree writes the degree, raised in front of the sign or in
/// brackets behind it, and what stands under it.
pub proof fn a_root_has_its_degree(d: Seq<NodeView>, i: int, end: int, out: OutView)
    requires
        0 <= i < end <= d.len(),
        d[i].kind == NodeKind::Element,
        d[i].name == "mroot"@,
    ensures
        exists|y: Seq<char>| #[trigger]
            gains(
                out,
                node_rendered(d, i, end, out),
                degree_mark(nth_text(d, i + 1, end, 1, true)) + y,
            ) && reads_as_one(y, nth_text(d, i + 1, end, 0, out.tight)),
{
    lemma_names();
    lemma_nth(d, i + 1, end, 0, out.tight);
    lemma_nth(d, i + 1, end, 1, true);
    let degree = nth_text(d, i + 1, end, 1, true);
    let mark = degree_mark(degree);
    lemma_scripted(degree, false);
    reveal_strlit("√");
    reveal_strlit("√[");
    reveal_strlit("]");
    assert(root_mark(degree) =~= mark);
    let s = nth_text(d, i + 1, end, 0, out.tight);
    let y = grouped(s);
    grouping_keeps_the_expression(s);
    lemma_gains(out, mark + y);
    assert(gains(out, node_rendered(d, i, end, out), mark + y));
}

/// Of an annotated expression only the expression is shown, and a phantom shows
/// nothing.
pub proof fn only_the_expression_is_shown(d: Seq<NodeView>, i: int, end: int, out: OutView)
    requires
        0 <= i < end <= d.len(),
        d[i].kind == NodeKind::Element,
    ensures
        d[i].name == "semantics"@ ==> node_rendered(d, i, end, out) == (match nth_element(
            d,
            i + 1,
            end,
            0,
        ) {
            Some((k, e)) => node_rendered(d, k, e, out),
            None => out,
        }),
        d[i].name == "annotation"@ || d[i].name == "annotation-xml"@ ==> node_rendered(
            d,
            i,
            end,
            out,
        ) == out,
        d[i].name == "mphantom"@ || d[i].name == "mspace"@ ==> node_rendered(d, i, end, out).text
            == out.text,
{
    lemma_names();
    lemma_first(d, i + 1, end, out);
}

proof fn lemma_first(d: Seq<NodeView>, from: int, to: int, out: OutView)
    ensures
        first_kid_rendered(d, from, to, out) == (match nth_element(d, from, to, 0) {
            Some((k, e)) => node_rendered(d, k, e, out),
            None => out,
        }),
    decreases to - from,
{
    if 0 <= from < to && to <= d.len() && d[from].kind != NodeKind::Element {
        lemma_first(d, subtree_end(d, from, to), to, out);
    }
}

proof fn lemma_single(c: char)
    requires
        !is_white(c),
        is_shown(c),
    ensures
        collapsed(seq![c]) == seq![c],
        trim(visible(seq![c])) == seq![c],
        !only_marks(seq![c]),
{
    let s = seq![c];
    let e = Seq::<char>::empty();
    assert(s.drop_last() =~= e);
    assert(c != '\r');
    assert(s.last() == c);
    assert(crate::epub::space::stripped(e) =~= e);
    assert(crate::epub::space::stripped(s) =~= e.push(c));
    assert(e.push(c) =~= s);
    assert(crate::epub::space::spaces_merged(e) =~= e);
    assert(crate::epub::space::spaces_merged(s) =~= e.push(c));
    assert(collapsed(s) =~= s);
    assert(visible(e) =~= e);
    assert(visible(s) =~= s);
    assert(trim(s) =~= s) by {
        assert(crate::text::skip_white(s, 0) == 0);
        assert(crate::text::keep_end(s, 1) == 1);
        assert(crate::text::trim_start(s) =~= s);
    }
    assert(!invisible(s[0]));
}

/// A relation or an operation between two things.
pub open spec fn is_operation(c: char) -> bool {
    c == '=' || c == '≠' || c == '<' || c == '>' || c == '≤' || c == '≥' || c == '+' || c == '-' || c
        == '−' || c == '×' || c == '→' || c == '∈'
}

/// A sign, where nothing stands in front of it that it could be taken with.
pub open spec fn is_sign_char(c: char) -> bool {
    c == '+' || c == '-' || c == '−'
}

proof fn lemma_lists(c: char)
    ensures
        is_operation(c) ==> crate::epub::mathml::SPACED@.contains(c),
        is_sign_char(c) ==> crate::epub::mathml::SIGNS@.contains(c),
        crate::epub::mathml::SIGNS@.contains(c) && is_operation(c) ==> is_sign_char(c),
{
    reveal_strlit("+-−±∓");
    reveal_strlit("=≠<>≤≥≈≡≅∼∝→←↔⇒⇐⇔↦≪≫+-−±∓×÷⋅·∗∘∪∩∈∉⊂⊃⊆⊇∧∨*…⋯⋮⋱⋰");
    let s = crate::epub::mathml::SPACED@;
    assert(s[0] == '=' && s[1] == '≠' && s[2] == '<' && s[3] == '>' && s[4] == '≤' && s[5] == '≥'
        && s[11] == '→' && s[20] == '+' && s[21] == '-' && s[22] == '−' && s[25] == '×' && s[33]
        == '∈');
    let g = crate::epub::mathml::SIGNS@;
    assert(g[0] == '+' && g[1] == '-' && g[2] == '−' && g[3] == '±' && g[4] == '∓' && g.len()
        == 5);
}

/// An operation stands between two spaces. What follows an operator or an opening
/// fence is a sign instead, and stands at its number.
pub proof fn operations_have_air_and_signs_have_none(c: char, out: OutView, t: Seq<char>)
    requires
        !out.tight,
        out.text.len() > 0,
        is_operation(c),
        t.len() > 0,
    ensures
        !(is_sign_char(c) && out.after_operator) ==> operator_pushed(seq![c], out).pushed(t).text
            == out.text + seq![' ', c, ' '] + t,
        is_sign_char(c) && out.after_operator ==> operator_pushed(seq![c], out).pushed(t).text
            == out.text + (if out.pending {
            seq![' ']
        } else {
            Seq::empty()
        }) + seq![c] + t,
        operator_pushed(seq![c], out).after_operator,
{
    let op = seq![c];
    lemma_single(c);
    lemma_lists(c);
    let r = operator_pushed(op, out).pushed(t).text;
    if is_sign_char(c) && out.after_operator {
        assert(r =~= out.text + (if out.pending {
            seq![' ']
        } else {
            Seq::empty()
        }) + op + t);
    } else {
        assert(r =~= out.text + seq![' ', c, ' '] + t);
    }
}

/// A comma stands at what it follows, with a space behind it.
pub proof fn a_comma_binds_to_what_it_follows(out: OutView, t: Seq<char>)
    requires
        !out.tight,
        out.text.len() > 0,
        t.len() > 0,
    ensures
        operator_pushed(seq![','], out).pushed(t).text == out.text + seq![',', ' '] + t,
{
    let op = seq![','];
    lemma_single(',');
    reveal_strlit(",");
    assert(","@ =~= op);
    assert(!crate::epub::mathml::SPACED@.contains(',')) by {
        reveal_strlit("=≠<>≤≥≈≡≅∼∝→←↔⇒⇐⇔↦≪≫+-−±∓×÷⋅·∗∘∪∩∈∉⊂⊃⊆⊇∧∨*…⋯⋮⋱⋰");
    }
    assert(!crate::epub::mathml::SIGNS@.contains(',')) by {
        reveal_strlit("+-−±∓");
    }
    assert(!crate::epub::mathml::OPENERS@.contains(',')) by {
        reveal_strlit("([{⌈⌊⟨");
    }
    assert(operator_pushed(op, out).pushed(t).text =~= out.text + seq![',', ' '] + t);
}

/// A closing fence stands at what it follows.
pub proof fn a_closing_fence_binds_to_what_it_follows(out: OutView)
    requires
        !out.tight,
    ensures
        operator_pushed(seq![')'], out).text == out.text + seq![')'],
{
    let op = seq![')'];
    lemma_single(')');
    reveal_strlit(",");
    reveal_strlit(";");
    assert(","@[0] != op[0]);
    assert(";"@[0] != op[0]);
    assert(!crate::epub::mathml::SPACED@.contains(')')) by {
        reveal_strlit("=≠<>≤≥≈≡≅∼∝→←↔⇒⇐⇔↦≪≫+-−±∓×÷⋅·∗∘∪∩∈∉⊂⊃⊆⊇∧∨*…⋯⋮⋱⋰");
    }
    assert(!crate::epub::mathml::SIGNS@.contains(')')) by {
        reveal_strlit("+-−±∓");
    }
    assert(!crate::epub::mathml::OPENERS@.contains(')')) by {
        reveal_strlit("([{⌈⌊⟨");
    }
    assert(operator_pushed(op, out).text =~= out.text + op);
}

// ---------------------------------------------------------------------------
// Tables
// ---------------------------------------------------------------------------
proof fn lemma_cell(d: Seq<NodeView>, from: int, to: int, k: nat, tight: bool)
    requires
        nth_text(d, from, to, k, tight).len() > 0,
    ensures
        cells_rendered(d, from, to, tight).contains(nth_text(d, from, to, k, tight)),
    decreases to - from,
{
    let all = cells_rendered(d, from, to, tight);
    let cell = nth_text(d, from, to, k, tight);
    if 0 <= from < to && to <= d.len() {
        let e = subtree_end(d, from, to);
        let here = node_rendered(d, from, e, out_new(tight)).finished();
        let rest = cells_rendered(d, e, to, tight);
        if d[from].kind == NodeKind::Element && k == 0 {
            assert(all[0] == cell);
        } else {
            let m = if d[from].kind == NodeKind::Element {
                (k - 1) as nat
            } else {
                k
            };
            lemma_cell(d, e, to, m, tight);
            let i = choose|i: int| 0 <= i < rest.len() && rest[i] == cell;
            if d[from].kind == NodeKind::Element && here.len() > 0 {
                assert(all[i + 1] == cell);
            } else {
                assert(all[i] == cell);
            }
        }
    }
}

proof fn lemma_row_kept(d: Seq<NodeView>, from: int, to: int, k: nat, tight: bool)
    requires
        nth_element(d, from, to, k) is Some,
        ({
            let (r, e) = nth_element(d, from, to, k)->0;
            (d[r].name == "mtr"@ || d[r].name == "mlabeledtr"@) && joined(
                cells_rendered(d, r + 1, e, tight),
                " "@,
            ).len() > 0
        }),
    ensures
        ({
            let (r, e) = nth_element(d, from, to, k)->0;
            rows_rendered(d, from, to, tight).contains(
                joined(cells_rendered(d, r + 1, e, tight), " "@),
            )
        }),
    decreases to - from,
{
    let (r, re) = nth_element(d, from, to, k)->0;
    let row = joined(cells_rendered(d, r + 1, re, tight), " "@);
    let all = rows_rendered(d, from, to, tight);
    let e = subtree_end(d, from, to);
    let rest = rows_rendered(d, e, to, tight);
    if d[from].kind == NodeKind::Element && k == 0 {
        assert(all[0] == row);
    } else {
        let m = if d[from].kind == NodeKind::Element {
            (k - 1) as nat
        } else {
            k
        };
        lemma_row_kept(d, e, to, m, tight);
        let i = choose|i: int| 0 <= i < rest.len() && rest[i] == row;
        let here = joined(cells_rendered(d, from + 1, e, tight), " "@);
        if (d[from].is_named("mtr"@) || d[from].is_named("mlabeledtr"@)) && here.len() > 0 {
            assert(all[i + 1] == row);
        } else {
            assert(all[i] == row);
        }
    }
}

/// A table writes every cell of every row.
pub proof fn a_table_keeps_every_cell(
    d: Seq<NodeView>,
    i: int,
    end: int,
    out: OutView,
    row: nat,
    cell: nat,
)
    requires
        0 <= i < end <= d.len(),
        d[i].kind == NodeKind::Element,
        d[i].name == "mtable"@,
        nth_element(d, i + 1, end, row) is Some,
        ({
            let r = (nth_element(d, i + 1, end, row)->0).0;
            d[r].name == "mtr"@ || d[r].name == "mlabeledtr"@
        }),
    ensures
        ({
            let (r, e) = nth_element(d, i + 1, end, row)->0;
            exists|t: Seq<char>, p: int| #[trigger]
                gains(out, node_rendered(d, i, end, out), t) && #[trigger] occurs_at(
                    t,
                    nth_text(d, r + 1, e, cell, out.tight),
                    p,
                )
        }),
{
    lemma_names();
    let (r, e) = nth_element(d, i + 1, end, row)->0;
    let text = nth_text(d, r + 1, e, cell, out.tight);
    let rows = rows_rendered(d, i + 1, end, out.tight);
    let t = joined(rows, "; "@);
    lemma_gains(out, t);
    assert(gains(out, node_rendered(d, i, end, out), t));
    if text.len() == 0 {
        assert(t.subrange(0, 0) =~= text);
        assert(occurs_at(t, text, 0));
    } else {
        let cells = cells_rendered(d, r + 1, e, out.tight);
        lemma_cell(d, r + 1, e, cell, out.tight);
        let k = choose|k: int| 0 <= k < cells.len() && cells[k] == text;
        let line = joined(cells, " "@);
        let a = joining_keeps_every_part(cells, " "@);
        assert(occurs_at(line, cells[k], a[k]));
        lemma_row_kept(d, i + 1, end, row, out.tight);
        let m = choose|m: int| 0 <= m < rows.len() && rows[m] == line;
        let b = joining_keeps_every_part(rows, "; "@);
        assert(occurs_at(t, rows[m], b[m]));
        let p = b[m] + a[k];
        assert(t.subrange(p, p + text.len()) =~= line.subrange(a[k], a[k] + text.len())) by {
            assert forall|x: int| 0 <= x < text.len() implies t.subrange(
                p,
                p + text.len(),
            )[x] == #[trigger] line.subrange(a[k], a[k] + text.len())[x] by {
                assert(t.subrange(b[m], b[m] + line.len())[a[k] + x] == line[a[k] + x]);
            }
        }
        assert(occurs_at(t, text, p));
    }
}

// ---------------------------------------------------------------------------
// Nothing is lost
// ---------------------------------------------------------------------------
proof fn lemma_prefix_trans(a: Seq<char>, b: Seq<char>, c: Seq<char>)
    requires
        a.is_prefix_of(b),
        b.is_prefix_of(c),
    ensures
        a.is_prefix_of(c),
{
    assert(a =~= c.take(a.len() as int));
}

proof fn lemma_range_adds(d: Seq<NodeView>, from: int, to: int, out: OutView)
    ensures
        out.text.is_prefix_of(range_rendered(d, from, to, out).text),
    decreases to - from, 1int,
{
    if 0 <= from < to && to <= d.len() {
        let e = subtree_end(d, from, to);
        let mid = node_rendered(d, from, e, out);
        rendering_only_adds(d, from, e, out);
        lemma_range_adds(d, e, to, mid);
        lemma_prefix_trans(out.text, mid.text, range_rendered(d, from, to, out).text);
    }
}

proof fn lemma_first_adds(d: Seq<NodeView>, from: int, to: int, out: OutView)
    ensures
        out.text.is_prefix_of(first_kid_rendered(d, from, to, out).text),
    decreases to - from, 1int,
{
    if 0 <= from < to && to <= d.len() {
        let e = subtree_end(d, from, to);
        if d[from].kind == NodeKind::Element {
            rendering_only_adds(d, from, e, out);
        } else {
            lemma_first_adds(d, e, to, out);
        }
    }
}

/// Whatever a formula holds, what was already written stays.
pub proof fn rendering_only_adds(d: Seq<NodeView>, i: int, end: int, out: OutView)
    ensures
        out.text.is_prefix_of(node_rendered(d, i, end, out).text),
    decreases end - i, 0int,
{
    if 0 <= i < end && end <= d.len() {
        assert forall|t: Seq<char>| out.text.is_prefix_of((#[trigger] out.pushed(t)).text) by {}
        let s = out.spaced();
        assert forall|t: Seq<char>| out.text.is_prefix_of((#[trigger] s.pushed(t)).text) by {}
        let u = out.unspaced();
        assert forall|t: Seq<char>| out.text.is_prefix_of((#[trigger] u.pushed(t)).text) by {}
        lemma_first_adds(d, i + 1, end, out);
        lemma_range_adds(d, i + 1, end, out);
    }
}

/// A character of a formula that leaves a mark on the page.
pub open spec fn is_shown(c: char) -> bool {
    is_ink(c) && c != '\u{2061}' && c != '\u{2062}' && c != '\u{2063}' && c != '\u{2064}'
}

/// What a text of a formula leaves on the page, its white space aside.
pub open spec fn shown(s: Seq<char>) -> Seq<char> {
    s.filter(|c: char| is_shown(c))
}

proof fn lemma_shown_add(a: Seq<char>, b: Seq<char>)
    ensures
        shown(a + b) == shown(a) + shown(b),
{
    Seq::filter_distributes_over_add(a, b, |c: char| is_shown(c));
}

proof fn lemma_shown_push(s: Seq<char>, c: char)
    ensures
        shown(s.push(c)) == (if is_shown(c) {
            shown(s).push(c)
        } else {
            shown(s)
        }),
{
    reveal(Seq::filter);
    assert(s.push(c).drop_last() =~= s);
}

/// What is shown depends on the ink alone.
proof fn lemma_shown_ink(s: Seq<char>)
    ensures
        shown(ink(s)) == shown(s),
    decreases s.len(),
{
    reveal(Seq::filter);
    if s.len() > 0 {
        lemma_shown_ink(s.drop_last());
        lemma_ink_last(s);
        lemma_shown_push(ink(s.drop_last()), s.last());
    }
}

proof fn lemma_shown_visible(s: Seq<char>)
    ensures
        shown(visible(s)) == shown(s),
    decreases s.len(),
{
    reveal(Seq::filter);
    if s.len() > 0 {
        lemma_shown_visible(s.drop_last());
        lemma_shown_push(visible(s.drop_last()), s.last());
    }
}

proof fn lemma_shown_dense(s: Seq<char>)
    ensures
        shown(dense(s)) == shown(s),
    decreases s.len(),
{
    reveal(Seq::filter);
    if s.len() > 0 {
        lemma_shown_dense(s.drop_last());
        lemma_shown_push(dense(s.drop_last()), s.last());
    }
}

proof fn lemma_none_shown(s: Seq<char>)
    requires
        forall|i: int| 0 <= i < s.len() ==> !is_shown(#[trigger] s[i]),
    ensures
        shown(s) == Seq::<char>::empty(),
    decreases s.len(),
{
    reveal(Seq::filter);
    if s.len() > 0 {
        let d = s.drop_last();
        assert forall|i: int| 0 <= i < d.len() implies !is_shown(#[trigger] d[i]) by {
            assert(d[i] == s[i]);
        }
        lemma_none_shown(d);
    }
}

proof fn lemma_shown_trim(s: Seq<char>)
    ensures
        shown(trim(s)) == shown(s),
{
    lemma_ink_trim(s);
    lemma_shown_ink(s);
    lemma_shown_ink(trim(s));
}

proof fn lemma_shown_collapsed(s: Seq<char>)
    ensures
        shown(collapsed(s)) == shown(s),
{
    collapsing_keeps_the_ink(s);
    lemma_shown_ink(s);
    lemma_shown_ink(collapsed(s));
}

proof fn lemma_pushed_shown(out: OutView, t: Seq<char>)
    ensures
        shown(out.pushed(t).text) == shown(out.text) + shown(t),
{
    let p = out.fitted(t);
    lemma_shown_dense(t);
    lemma_shown_push(out.text, ' ');
    lemma_shown_add(out.text, p);
    lemma_shown_add(out.text.push(' '), p);
    if p.len() == 0 {
        lemma_none_shown(p);
        assert(shown(out.text) + shown(t) =~= shown(out.text));
    }
}

proof fn lemma_text_shown(s: Seq<char>, out: OutView)
    ensures
        shown(text_pushed(s, out).text) == shown(out.text) + shown(s),
{
    let c = collapsed(s);
    let t = trim(c);
    lemma_shown_collapsed(s);
    lemma_shown_trim(c);
    if t.len() == 0 {
        lemma_none_shown(t);
        assert(shown(out.text) + shown(s) =~= shown(out.text));
    } else {
        let a = if c[0] == ' ' {
            out.spaced()
        } else {
            out
        };
        lemma_pushed_shown(a, t);
    }
}

proof fn lemma_operator_shown(s: Seq<char>, out: OutView)
    ensures
        shown(operator_pushed(s, out).text) == shown(out.text) + shown(s),
{
    let c = collapsed(s);
    let op = trim(visible(c));
    lemma_shown_collapsed(s);
    lemma_shown_visible(c);
    lemma_shown_trim(visible(c));
    if only_marks(c) {
        lemma_none_shown(c);
        assert(shown(out.text) + shown(s) =~= shown(out.text));
    } else if op.len() == 0 {
        lemma_none_shown(op);
        assert(shown(out.text) + shown(s) =~= shown(out.text));
    } else {
        lemma_pushed_shown(out, op);
        lemma_pushed_shown(out.spaced(), op);
        lemma_pushed_shown(out.unspaced(), op);
    }
}

/// Elements that set their content apart from the line, or hide it.
pub open spec fn has_a_shape(name: Seq<char>) -> bool {
    ||| name == "semantics"@
    ||| name == "annotation"@
    ||| name == "annotation-xml"@
    ||| name == "mphantom"@
    ||| name == "mspace"@
    ||| name == "msub"@
    ||| name == "munder"@
    ||| name == "msup"@
    ||| name == "mover"@
    ||| name == "msubsup"@
    ||| name == "munderover"@
    ||| name == "mfrac"@
    ||| name == "msqrt"@
    ||| name == "mroot"@
    ||| name == "mtable"@
}

/// Nodes that stand on the line one after the other.
pub open spec fn in_line(d: Seq<NodeView>, from: int, to: int) -> bool {
    forall|k: int|
        from <= k < to ==> (if (#[trigger] d[k]).kind == NodeKind::Element {
            !has_a_shape(d[k].name)
        } else {
            d[k].size <= 1
        })
}

proof fn lemma_raw_split(d: Seq<NodeView>, a: int, b: int, c: int)
    requires
        0 <= a <= b <= c <= d.len(),
    ensures
        raw_text(d, a, c) == raw_text(d, a, b) + raw_text(d, b, c),
    decreases c - b,
{
    if b < c {
        lemma_raw_split(d, a, b, c - 1);
        assert(raw_text(d, a, c) =~= raw_text(d, a, b) + raw_text(d, b, c));
    } else {
        assert(raw_text(d, a, b) + raw_text(d, b, c) =~= raw_text(d, a, b));
    }
}

/// Text on the line is written out in full and in order: of what the nodes hold
/// nothing is dropped but white space and invisible marks, and nothing is added but
/// spaces.
pub proof fn text_on_the_line_is_kept(d: Seq<NodeView>, from: int, to: int, out: OutView)
    requires
        0 <= from <= to <= d.len(),
        in_line(d, from, to),
    ensures
        shown(range_rendered(d, from, to, out).text) == shown(out.text) + shown(
            raw_text(d, from, to),
        ),
    decreases to - from, 1int,
{
    if from < to {
        let e = subtree_end(d, from, to);
        let mid = node_rendered(d, from, e, out);
        lemma_node_on_the_line(d, from, e, to, out);
        text_on_the_line_is_kept(d, e, to, mid);
        lemma_raw_split(d, from, e, to);
        lemma_shown_add(raw_text(d, from, e), raw_text(d, e, to));
        assert(shown(range_rendered(d, from, to, out).text) =~= shown(out.text) + shown(
            raw_text(d, from, to),
        ));
    } else {
        lemma_none_shown(raw_text(d, from, to));
        assert(shown(out.text) + shown(raw_text(d, from, to)) =~= shown(out.text));
    }
}

proof fn lemma_node_on_the_line(d: Seq<NodeView>, i: int, end: int, to: int, out: OutView)
    requires
        0 <= i < end <= to <= d.len(),
        end == subtree_end(d, i, to),
        in_line(d, i, to),
    ensures
        shown(node_rendered(d, i, end, out).text) == shown(out.text) + shown(raw_text(d, i, end)),
    decreases end - i, 0int,
{
    let n = d[i];
    let raw = raw_text(d, i, end);
    if n.kind == NodeKind::Text {
        assert(end == i + 1);
        assert(raw_text(d, i, i) =~= Seq::<char>::empty());
        assert(raw =~= n.text);
        if blank(n.text) {
            lemma_none_shown(n.text);
            assert(shown(out.text) + shown(raw) =~= shown(out.text));
        } else {
            lemma_text_shown(n.text, out);
        }
    } else if n.kind != NodeKind::Element {
        assert(end == i + 1);
        assert(raw_text(d, i, i) =~= Seq::<char>::empty());
        assert(raw =~= Seq::<char>::empty());
        lemma_none_shown(raw);
        assert(shown(out.text) + shown(raw) =~= shown(out.text));
    } else {
        assert(!has_a_shape(n.name));
        if is_token(n.name) {
            lemma_text_shown(raw, out);
        } else if n.name == "mo"@ {
            lemma_operator_shown(raw, out);
        } else {
            text_on_the_line_is_kept(d, i + 1, end, out);
            lemma_raw_split(d, i, i + 1, end);
            assert(raw_text(d, i, i) =~= Seq::<char>::empty());
            assert(raw_text(d, i, i + 1) =~= Seq::<char>::empty());
            assert(raw =~= raw_text(d, i + 1, end));
        }
    }
}

/// A formula on one line has every character of its content, in order.
pub proof fn a_formula_keeps_its_content(d: Seq<NodeView>, i: int, end: int)
    requires
        0 <= i < end <= d.len(),
        in_line(d, i + 1, end),
    ensures
        shown(formula(d, i, end)) == shown(raw_text(d, i + 1, end)),
{
    let out = out_new(false);
    text_on_the_line_is_kept(d, i + 1, end, out);
    lemma_none_shown(out.text);
    lemma_shown_trim(range_rendered(d, i + 1, end, out).text);
    assert(shown(formula(d, i, end)) =~= shown(raw_text(d, i + 1, end)));
}

/// A raised or lowered passage of plain text becomes the index of that text; one
/// with markup inside, or with nothing in it, does not become an index.
pub proof fn a_raised_passage_is_its_text(d: Seq<NodeView>, i: int, end: int, sub: bool)
    requires
        0 <= i < end <= d.len(),
    ensures
        nth_element(d, i + 1, end, 0) is Some ==> script_of(d, i, end, sub) is None,
        blank(collapsed(raw_text(d, i, end))) ==> script_of(d, i, end, sub) is None,
        nth_element(d, i + 1, end, 0) is None && !blank(collapsed(raw_text(d, i, end))) ==> ({
            let text = trim(collapsed(raw_text(d, i, end)));
            script_of(d, i, end, sub) matches Some(t) && (is_settable(text, sub) ==> t == forms(
                text,
                sub,
            )) && (!is_settable(text, sub) ==> t.len() > text.len() && t[0] == (if sub {
                '_'
            } else {
                '^'
            }) && occurs_at(
                t,
                text,
                if text.len() == 1 {
                    1
                } else {
                    2
                },
            ))
        }),
{
    lemma_first_element(d, i + 1, end);
    let text = trim(collapsed(raw_text(d, i, end)));
    lemma_trim_empty(collapsed(raw_text(d, i, end)));
    an_index_keeps_its_text(text, sub);
    let t = index_text(text, sub);
    if !is_settable(text, sub) {
        let p = if text.len() == 1 {
            1int
        } else {
            2int
        };
        assert(t.subrange(p, p + text.len()) =~= text);
    }
}

proof fn lemma_first_element(d: Seq<NodeView>, from: int, to: int)
    ensures
        has_element(d, from, to) == (nth_element(d, from, to, 0) is Some),
    decreases to - from,
{
    if 0 <= from < to && to <= d.len() && d[from].kind != NodeKind::Element {
        lemma_first_element(d, subtree_end(d, from, to), to);
    }
}

} // verus!
