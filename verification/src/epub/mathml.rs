//! Turns a MathML subtree into one line of text.
//!
//! A chapter is a flat list of blocks of styled runs. Nothing in that model can
//! stack one expression over another, so a formula has to arrive as a single
//! line. Indices become Unicode sub- and superscripts wherever every character
//! of the index has one, and fall back to `_x` and `^(x)` otherwise. That is the
//! notation a reader already knows from plain-text mathematics, and it never
//! hides which part is the index.
//!
//! Subscripts exist for lowercase letters only, so superscripts are limited to
//! the same range. Otherwise `Q^A` would be set as `Qᴬ` while `Q_A` fell back to
//! `Q_A`, and the two would no longer look like a pair.

pub mod laws;

use vstd::prelude::*;
use super::space::{collapse_whitespace, collapsed};
use crate::failure::{join, joined};
use crate::text::{
    alphabetic, alphanumeric, blank, chars_are, chars_of, is_blank_text, is_white, lemma_keep_end,
    lemma_skip_white, lemma_trim_empty, push_chars, push_text as append_text, same, skip_white,
    sub_chars, text_of, texts, trim, trim_start, trimmed, white,
};
use crate::xml::{raw_text, subtree_end, Document, NodeKind, NodeView};

verus! {

// ---------------------------------------------------------------------------
// Raised and lowered characters
// ---------------------------------------------------------------------------
/// Characters that have a raised form, and those forms in the same order.
pub const RAISED_FROM: &'static str = "0123456789+-−=()abcdefghijklmnoprstuvwxyz";

pub const RAISED_TO: &'static str = "⁰¹²³⁴⁵⁶⁷⁸⁹⁺⁻⁻⁼⁽⁾ᵃᵇᶜᵈᵉᶠᵍʰⁱʲᵏˡᵐⁿᵒᵖʳˢᵗᵘᵛʷˣʸᶻ";

/// Characters that have a lowered form, and those forms in the same order.
pub const LOWERED_FROM: &'static str = "0123456789+-−=()aehijklmnoprstuvx";

pub const LOWERED_TO: &'static str = "₀₁₂₃₄₅₆₇₈₉₊₋₋₌₍₎ₐₑₕᵢⱼₖₗₘₙₒₚᵣₛₜᵤᵥₓ";

/// The character of `to` at the place where `c` stands in `from`.
pub open spec fn counterpart(c: char, from: Seq<char>, to: Seq<char>, i: int) -> Option<char>
    decreases from.len() - i,
{
    if i < 0 || i >= from.len() || i >= to.len() {
        None
    } else if from[i] == c {
        Some(to[i])
    } else {
        counterpart(c, from, to, i + 1)
    }
}

fn find_counterpart(c: char, from: &str, to: &str) -> (r: Option<char>)
    ensures
        r == counterpart(c, from@, to@, 0),
{
    let a = chars_of(from);
    let b = chars_of(to);
    let mut i: usize = 0;
    while i < a.len() && i < b.len()
        invariant
            i <= a@.len(),
            a@ == from@,
            b@ == to@,
            counterpart(c, from@, to@, 0) == counterpart(c, from@, to@, i as int),
        decreases a@.len() - i,
    {
        if a[i] == c {
            return Some(b[i]);
        }
        i += 1;
    }
    None
}

/// A symbol that has no raised or lowered form is written as it stands.
///
/// `<sup>®</sup>` is the common case: the font sets the sign high already, and
/// `GDPR For Dummies^®` would be worse than `GDPR For Dummies®`. Letters and
/// digits are excluded, because for those the marker is the only thing that
/// says they are an index. So is whitespace, which would make a footnote read
/// as part of the sentence.
pub open spec fn shape_kept(c: char) -> bool {
    !alphanumeric(c) && !is_white(c)
}

/// One character of an index.
pub open spec fn scripted_char(c: char, sub: bool) -> Option<char> {
    let form = if sub {
        counterpart(c, LOWERED_FROM@, LOWERED_TO@, 0)
    } else {
        counterpart(c, RAISED_FROM@, RAISED_TO@, 0)
    };
    if form is Some {
        form
    } else if shape_kept(c) {
        Some(c)
    } else {
        None
    }
}

/// A text raised or lowered, if every character can be.
pub open spec fn scripted(s: Seq<char>, sub: bool) -> Option<Seq<char>>
    decreases s.len(),
{
    if s.len() == 0 {
        Some(s)
    } else {
        match (scripted(s.drop_last(), sub), scripted_char(s.last(), sub)) {
            (Some(front), Some(c)) => Some(front.push(c)),
            _ => None,
        }
    }
}

pub open spec fn chars_opt(o: Option<Vec<char>>) -> Option<Seq<char>> {
    match o {
        Some(v) => Some(v@),
        None => None,
    }
}

proof fn lemma_scripted_prefix(s: Seq<char>, n: int, sub: bool)
    requires
        0 <= n <= s.len(),
        scripted(s.take(n), sub) is None,
    ensures
        scripted(s, sub) is None,
    decreases s.len() - n,
{
    if n < s.len() {
        assert(s.take(n + 1).drop_last() =~= s.take(n));
        lemma_scripted_prefix(s, n + 1, sub);
    } else {
        assert(s.take(n) =~= s);
    }
}

/// A text as an index, if every character has such a form.
fn to_script(text: &Vec<char>, sub: bool) -> (r: Option<Vec<char>>)
    ensures
        chars_opt(r) == scripted(text@, sub),
{
    let mut out: Vec<char> = Vec::new();
    let mut i: usize = 0;
    assert(text@.take(0) =~= Seq::<char>::empty());
    while i < text.len()
        invariant
            i <= text@.len(),
            scripted(text@.take(i as int), sub) == Some(out@),
        decreases text@.len() - i,
    {
        let c = text[i];
        assert(text@.take(i + 1).drop_last() =~= text@.take(i as int));
        let form = if sub {
            find_counterpart(c, LOWERED_FROM, LOWERED_TO)
        } else {
            find_counterpart(c, RAISED_FROM, RAISED_TO)
        };
        match form {
            Some(f) => {
                out.push(f);
            },
            None => {
                if c.is_alphanumeric() || white(c) {
                    proof {
                        lemma_scripted_prefix(text@, i + 1, sub);
                    }
                    return None;
                }
                out.push(c);
            },
        }
        i += 1;
    }
    assert(text@.take(text@.len() as int) =~= text@);
    Some(out)
}

/// A text as superscript, if every character has such a form.
pub fn to_superscript(text: &Vec<char>) -> (r: Option<Vec<char>>)
    ensures
        chars_opt(r) == scripted(text@, false),
{
    to_script(text, false)
}

/// A text as subscript, if every character has such a form.
pub fn to_subscript(text: &Vec<char>) -> (r: Option<Vec<char>>)
    ensures
        chars_opt(r) == scripted(text@, true),
{
    to_script(text, true)
}

/// Notation for an index that has no Unicode form. A single character needs no
/// parentheses; anything longer does, or its end would be unreadable.
pub open spec fn marked(marker: char, text: Seq<char>) -> Seq<char> {
    if text.len() == 1 {
        seq![marker] + text
    } else {
        seq![marker] + "("@ + text + ")"@
    }
}

pub fn fallback(marker: char, text: &Vec<char>) -> (r: Vec<char>)
    ensures
        r@ == marked(marker, text@),
{
    let mut out: Vec<char> = Vec::new();
    out.push(marker);
    assert(out@ =~= seq![marker]);
    if text.len() == 1 {
        push_chars(&mut out, text);
    } else {
        append_text(&mut out, "(");
        push_chars(&mut out, text);
        append_text(&mut out, ")");
    }
    out
}

/// An index on its own: raised or lowered where that is possible, marked where
/// it is not.
pub open spec fn index_text(text: Seq<char>, sub: bool) -> Seq<char> {
    match scripted(text, sub) {
        Some(s) => s,
        None => marked(
            if sub {
                '_'
            } else {
                '^'
            },
            text,
        ),
    }
}

fn write_index(text: &Vec<char>, sub: bool) -> (r: Vec<char>)
    ensures
        r@ == index_text(text@, sub),
{
    match to_script(text, sub) {
        Some(s) => s,
        None => fallback(
            if sub {
                '_'
            } else {
                '^'
            },
            text,
        ),
    }
}

// ---------------------------------------------------------------------------
// Grouping
// ---------------------------------------------------------------------------
/// Nothing but letters, digits and dots.
pub open spec fn atomic(s: Seq<char>) -> bool {
    forall|i: int| 0 <= i < s.len() ==> alphanumeric(#[trigger] s[i]) || s[i] == '.'
}

/// Where the parentheses opened so far are closed, reading on from `i` with
/// `depth` of them open.
pub open spec fn closing(s: Seq<char>, i: int, depth: int) -> Option<int>
    decreases s.len() - i,
{
    if i < 0 || i >= s.len() {
        None
    } else if s[i] == '(' {
        closing(s, i + 1, depth + 1)
    } else if s[i] == ')' {
        if depth == 1 {
            Some(i)
        } else {
            closing(s, i + 1, depth - 1)
        }
    } else {
        closing(s, i + 1, depth)
    }
}

/// Wrapped in one pair of parentheses: the opening parenthesis is the one that
/// the last character closes, so `(a)/(b)` does not count.
pub open spec fn wrapped(s: Seq<char>) -> bool {
    s.len() > 0 && s[0] == '(' && closing(s, 1, 1) == Some(s.len() - 1)
}

pub fn is_wrapped(text: &Vec<char>) -> (r: bool)
    ensures
        r == wrapped(text@),
{
    if text.len() == 0 || text[0] != '(' {
        return false;
    }
    let mut depth: usize = 1;
    let mut i: usize = 1;
    while i < text.len()
        invariant
            1 <= i <= text@.len(),
            1 <= depth <= i,
            text@[0] == '(',
            closing(text@, 1, 1) == closing(text@, i as int, depth as int),
        decreases text@.len() - i,
    {
        let c = text[i];
        if c == '(' {
            depth += 1;
        } else if c == ')' {
            if depth == 1 {
                return i == text.len() - 1;
            }
            depth -= 1;
        }
        i += 1;
    }
    false
}

/// Wraps an expression in parentheses unless it is a single symbol already, or
/// already carries its own.
pub open spec fn grouped(s: Seq<char>) -> Seq<char> {
    if s.len() == 0 || atomic(s) || wrapped(s) {
        s
    } else {
        "("@ + s + ")"@
    }
}

pub fn group(text: &Vec<char>) -> (r: Vec<char>)
    ensures
        r@ == grouped(text@),
{
    let mut all = true;
    let mut i: usize = 0;
    while i < text.len()
        invariant
            i <= text@.len(),
            all == atomic(text@.take(i as int)),
        decreases text@.len() - i,
    {
        let c = text[i];
        assert forall|k: int| 0 <= k < i implies text@.take(i + 1)[k] == #[trigger] text@.take(i as int)[k] by {}
        let ok = c.is_alphanumeric() || c == '.';
        proof {
            let a = text@.take(i as int);
            let b = text@.take(i + 1);
            assert(b[i as int] == c);
            if all && ok {
                assert forall|k: int| 0 <= k < b.len() implies alphanumeric(#[trigger] b[k]) || b[k]
                    == '.' by {
                    if k < i {
                        assert(b[k] == a[k]);
                    }
                }
            } else if !all {
                let w = choose|k: int|
                    0 <= k < a.len() && !(alphanumeric(#[trigger] a[k]) || a[k] == '.');
                assert(b[w] == a[w]);
            }
        }
        all = all && ok;
        i += 1;
    }
    assert(text@.take(text@.len() as int) =~= text@);
    if text.len() == 0 || all || is_wrapped(text) {
        sub_all(text)
    } else {
        let mut out: Vec<char> = Vec::new();
        append_text(&mut out, "(");
        assert(out@ =~= "("@);
        push_chars(&mut out, text);
        append_text(&mut out, ")");
        out
    }
}

fn sub_all(text: &Vec<char>) -> (r: Vec<char>)
    ensures
        r@ == text@,
{
    assert(text@.subrange(0, text@.len() as int) =~= text@);
    sub_chars(text, 0, text.len())
}

// ---------------------------------------------------------------------------
// Collecting the line
// ---------------------------------------------------------------------------
/// Collects the rendered text, inserting the spacing a typesetter would set
/// around an operator.
pub struct Out {
    pub text: Vec<char>,
    /// Inside an index every space is dropped: `∏` carries `i=1`, not `i = 1`.
    pub tight: bool,
    /// A space is owed before whatever comes next. Held back so that a trailing
    /// space never reaches the output.
    pub pending: bool,
    /// True while the last thing written was an operator or an opening fence.
    /// A `+` or `−` in that position is a sign, not an operation, and is set
    /// without spaces.
    pub after_operator: bool,
}

#[verifier::ext_equal]
pub struct OutView {
    pub text: Seq<char>,
    pub tight: bool,
    pub pending: bool,
    pub after_operator: bool,
}

impl View for Out {
    type V = OutView;

    open spec fn view(&self) -> OutView {
        OutView {
            text: self.text@,
            tight: self.tight,
            pending: self.pending,
            after_operator: self.after_operator,
        }
    }
}

pub open spec fn out_new(tight: bool) -> OutView {
    OutView { text: Seq::empty(), tight, pending: false, after_operator: true }
}

/// A text without any white space.
pub open spec fn dense(s: Seq<char>) -> Seq<char>
    decreases s.len(),
{
    if s.len() == 0 {
        s
    } else if is_white(s.last()) {
        dense(s.drop_last())
    } else {
        dense(s.drop_last()).push(s.last())
    }
}

/// No white space in a text.
pub open spec fn is_dense(s: Seq<char>) -> bool {
    forall|i: int| 0 <= i < s.len() ==> !is_white(#[trigger] s[i])
}

proof fn lemma_dense(s: Seq<char>)
    ensures
        is_dense(dense(s)),
    decreases s.len(),
{
    if s.len() > 0 {
        lemma_dense(s.drop_last());
    }
}

fn drop_white(v: &Vec<char>) -> (r: Vec<char>)
    ensures
        r@ == dense(v@),
{
    let mut out: Vec<char> = Vec::new();
    let mut i: usize = 0;
    assert(v@.take(0) =~= Seq::<char>::empty());
    while i < v.len()
        invariant
            i <= v@.len(),
            out@ == dense(v@.take(i as int)),
        decreases v@.len() - i,
    {
        let c = v[i];
        if !white(c) {
            out.push(c);
        }
        i += 1;
        assert(v@.take(i as int).drop_last() =~= v@.take(i - 1));
    }
    assert(v@.take(v@.len() as int) =~= v@);
    out
}

impl OutView {
    /// What is written of a text. Inside an index every space is dropped.
    pub open spec fn fitted(self, t: Seq<char>) -> Seq<char> {
        if self.tight {
            dense(t)
        } else {
            t
        }
    }

    pub open spec fn pushed(self, t: Seq<char>) -> OutView {
        let t = self.fitted(t);
        if t.len() == 0 {
            self
        } else {
            OutView {
                text: if self.pending && self.text.len() > 0 {
                    self.text.push(' ') + t
                } else {
                    self.text + t
                },
                pending: false,
                after_operator: false,
                ..self
            }
        }
    }

    pub open spec fn spaced(self) -> OutView {
        if !self.tight && self.text.len() > 0 {
            OutView { pending: true, ..self }
        } else {
            self
        }
    }

    pub open spec fn unspaced(self) -> OutView {
        OutView { pending: false, ..self }
    }

    pub open spec fn operated(self) -> OutView {
        OutView { after_operator: true, ..self }
    }

    pub open spec fn finished(self) -> Seq<char> {
        trim(self.text)
    }
}

impl Out {
    pub fn new(tight: bool) -> (r: Self)
        ensures
            r@ == out_new(tight),
    {
        let r = Out { text: Vec::new(), tight, pending: false, after_operator: true };
        assert(r@ =~= out_new(tight));
        r
    }

    pub fn push(&mut self, text: &Vec<char>)
        ensures
            final(self)@ == old(self)@.pushed(text@),
    {
        if self.tight {
            let dense = drop_white(text);
            self.write(&dense);
        } else {
            self.write(text);
        }
    }

    fn write(&mut self, text: &Vec<char>)
        ensures
            final(self)@ == ({
                let o = old(self)@;
                if text@.len() == 0 {
                    o
                } else {
                    OutView {
                        text: if o.pending && o.text.len() > 0 {
                            o.text.push(' ') + text@
                        } else {
                            o.text + text@
                        },
                        pending: false,
                        after_operator: false,
                        ..o
                    }
                }
            }),
    {
        if text.len() == 0 {
            return;
        }
        if self.pending && self.text.len() > 0 {
            self.text.push(' ');
        }
        self.pending = false;
        self.after_operator = false;
        push_chars(&mut self.text, text);
        assert(self@.text =~= (if old(self)@.pending && old(self)@.text.len() > 0 {
            old(self)@.text.push(' ') + text@
        } else {
            old(self)@.text + text@
        }));
    }

    pub fn space(&mut self)
        ensures
            final(self)@ == old(self)@.spaced(),
    {
        if !self.tight && self.text.len() > 0 {
            self.pending = true;
        }
    }

    /// Takes back a space that is owed. A comma and a closing fence bind to
    /// what stands before them, even when that was a spaced operator: an
    /// enumeration must read `P₁, P₂, ⋯, Pₘ`, not `P₁, P₂, ⋯ , Pₘ`.
    pub fn drop_space(&mut self)
        ensures
            final(self)@ == old(self)@.unspaced(),
    {
        self.pending = false;
    }

    pub fn finish(self) -> (r: Vec<char>)
        ensures
            r@ == self@.finished(),
    {
        trimmed(&self.text)
    }
}

// ---------------------------------------------------------------------------
// Text and operators
// ---------------------------------------------------------------------------
/// Text of a token: edge spaces become spacing, the rest is written.
pub open spec fn text_pushed(s: Seq<char>, out: OutView) -> OutView {
    let c = collapsed(s);
    let t = trim(c);
    if t.len() == 0 {
        if c.len() == 0 {
            out
        } else {
            out.spaced()
        }
    } else {
        let a = if c[0] == ' ' {
            out.spaced()
        } else {
            out
        };
        let b = a.pushed(t);
        if c.last() == ' ' {
            b.spaced()
        } else {
            b
        }
    }
}

fn push_text(text: &Vec<char>, out: &mut Out)
    ensures
        final(out)@ == text_pushed(text@, old(out)@),
{
    let c = collapse_whitespace(text);
    let t = trimmed(&c);
    if t.len() == 0 {
        if c.len() > 0 {
            out.space();
        }
        return;
    }
    proof {
        lemma_trim_empty(c@);
    }
    assert(c@.len() > 0) by {
        if c@.len() == 0 {
            assert(blank(c@));
        }
    }
    if c[0] == ' ' {
        out.space();
    }
    out.push(&t);
    if c[c.len() - 1] == ' ' {
        out.space();
    }
}

/// Characters that occupy no space and mark structure a reader cannot see.
pub open spec fn invisible(c: char) -> bool {
    c == '\u{2061}' || c == '\u{2062}' || c == '\u{2063}' || c == '\u{2064}'
}

pub fn is_invisible(c: char) -> (r: bool)
    ensures
        r == invisible(c),
{
    c == '\u{2061}' || c == '\u{2062}' || c == '\u{2063}' || c == '\u{2064}'
}

/// A text without invisible marks.
pub open spec fn visible(s: Seq<char>) -> Seq<char>
    decreases s.len(),
{
    if s.len() == 0 {
        s
    } else if invisible(s.last()) {
        visible(s.drop_last())
    } else {
        visible(s.drop_last()).push(s.last())
    }
}

/// Built from invisible marks, with at most spaces besides.
pub open spec fn only_marks(s: Seq<char>) -> bool {
    &&& exists|i: int| 0 <= i < s.len() && invisible(#[trigger] s[i])
    &&& forall|i: int| 0 <= i < s.len() ==> invisible(#[trigger] s[i]) || s[i] == ' '
}

pub const SIGNS: &'static str = "+-−±∓";

/// Operators that read as a relation or a binary operation, and a run of dots
/// standing for the omitted middle of a sequence.
pub const SPACED: &'static str = "=≠<>≤≥≈≡≅∼∝→←↔⇒⇐⇔↦≪≫+-−±∓×÷⋅·∗∘∪∩∈∉⊂⊃⊆⊇∧∨*…⋯⋮⋱⋰";

pub const OPENERS: &'static str = "([{⌈⌊⟨";

/// One of the characters of a list, standing alone.
pub open spec fn one_of(op: Seq<char>, list: Seq<char>) -> bool {
    op.len() == 1 && list.contains(op[0])
}

fn is_one_of(op: &Vec<char>, list: &str) -> (r: bool)
    ensures
        r == one_of(op@, list@),
{
    if op.len() != 1 {
        return false;
    }
    let v = chars_of(list);
    let mut i: usize = 0;
    while i < v.len()
        invariant
            i <= v@.len(),
            v@ == list@,
            op@.len() == 1,
            forall|k: int| 0 <= k < i ==> v@[k] != op@[0],
        decreases v@.len() - i,
    {
        if v[i] == op[0] {
            return true;
        }
        i += 1;
    }
    false
}

/// A word: named operators such as `mod`, `max` or `lim` need air.
pub open spec fn is_word(op: Seq<char>) -> bool {
    op.len() > 1 && forall|i: int| 0 <= i < op.len() ==> alphabetic(#[trigger] op[i])
}

/// Operators with a space on both sides.
pub open spec fn set_with_spaces(op: Seq<char>) -> bool {
    one_of(op, SPACED@) || is_word(op)
}

pub fn is_sign(op: &Vec<char>) -> (r: bool)
    ensures
        r == one_of(op@, SIGNS@),
{
    is_one_of(op, SIGNS)
}

pub fn is_spaced(op: &Vec<char>) -> (r: bool)
    ensures
        r == set_with_spaces(op@),
{
    if is_one_of(op, SPACED) {
        return true;
    }
    if op.len() <= 1 {
        return false;
    }
    let mut i: usize = 0;
    while i < op.len()
        invariant
            i <= op@.len(),
            !one_of(op@, SPACED@),
            forall|k: int| 0 <= k < i ==> alphabetic(#[trigger] op@[k]),
        decreases op@.len() - i,
    {
        let c = op[i];
        if !c.is_alphabetic() {
            assert(!alphabetic(op@[i as int]));
            return false;
        }
        i += 1;
    }
    true
}

pub fn is_open_fence(op: &Vec<char>) -> (r: bool)
    ensures
        r == one_of(op@, OPENERS@),
{
    is_one_of(op, OPENERS)
}

/// An operator with the spacing that belongs to it.
pub open spec fn operator_pushed(s: Seq<char>, out: OutView) -> OutView {
    let c = collapsed(s);
    let op = trim(visible(c));
    if only_marks(c) {
        out
    } else if op.len() == 0 {
        if c.len() == 0 {
            out
        } else {
            out.spaced()
        }
    } else if one_of(op, SIGNS@) && out.after_operator {
        out.pushed(op).operated()
    } else if set_with_spaces(op) {
        out.spaced().pushed(op).spaced().operated()
    } else if one_of(op, OPENERS@) {
        out.pushed(op).operated()
    } else if op == ","@ || op == ";"@ {
        out.unspaced().pushed(op).spaced().operated()
    } else {
        out.unspaced().pushed(op)
    }
}

fn push_operator(text: &Vec<char>, out: &mut Out)
    ensures
        final(out)@ == operator_pushed(text@, old(out)@),
{
    let c = collapse_whitespace(text);
    let mut any_mark = false;
    let mut all_marks = true;
    let mut seen: Vec<char> = Vec::new();
    let mut i: usize = 0;
    assert(c@.take(0) =~= Seq::<char>::empty());
    while i < c.len()
        invariant
            i <= c@.len(),
            any_mark == exists|k: int| 0 <= k < i && invisible(#[trigger] c@[k]),
            all_marks == forall|k: int|
                0 <= k < i ==> invisible(#[trigger] c@[k]) || c@[k] == ' ',
            seen@ == visible(c@.take(i as int)),
        decreases c@.len() - i,
    {
        let ch = c[i];
        let mark = is_invisible(ch);
        assert(c@.take(i + 1).drop_last() =~= c@.take(i as int));
        if mark {
            assert(invisible(c@[i as int]));
            any_mark = true;
        } else {
            seen.push(ch);
        }
        if !(mark || ch == ' ') {
            assert(!(invisible(c@[i as int]) || c@[i as int] == ' '));
            all_marks = false;
        }
        i += 1;
    }
    assert(c@.take(c@.len() as int) =~= c@);
    if any_mark && all_marks {
        return;
    }
    let op = trimmed(&seen);
    if op.len() == 0 {
        if c.len() > 0 {
            out.space();
        }
        return;
    }
    if is_sign(&op) && out.after_operator {
        out.push(&op);
        out.after_operator = true;
        return;
    }
    if is_spaced(&op) {
        out.space();
        out.push(&op);
        out.space();
        out.after_operator = true;
        return;
    }
    if is_open_fence(&op) {
        out.push(&op);
        out.after_operator = true;
        return;
    }
    if chars_are(&op, ",") || chars_are(&op, ";") {
        out.drop_space();
        out.push(&op);
        out.space();
        out.after_operator = true;
        return;
    }
    // Closing fences, dots and primes bind to what stands before them.
    out.drop_space();
    out.push(&op);
}

// ---------------------------------------------------------------------------
// Elements
// ---------------------------------------------------------------------------
/// Elements whose children are shown as they come.
pub open spec fn is_token(name: Seq<char>) -> bool {
    name == "mi"@ || name == "mn"@ || name == "ms"@ || name == "mtext"@
}

/// A base with an index below, above or both, as one text.
pub open spec fn scripts_joined(base: Seq<char>, below: Seq<char>, above: Seq<char>) -> Seq<char> {
    if below.len() == 0 && above.len() == 0 {
        base
    } else if above.len() == 0 {
        base + index_text(below, true)
    } else if below.len() == 0 {
        base + index_text(above, false)
    } else {
        match (scripted(below, true), scripted(above, false)) {
            (Some(low), Some(high)) => base + low + high,
            // Both indices belong to one symbol. If either has to fall back,
            // both do, so that the pair keeps one notation.
            _ => base + "_("@ + below + ")"@ + "^("@ + above + ")"@,
        }
    }
}

fn join_scripts(base: Vec<char>, below: &Vec<char>, above: &Vec<char>) -> (r: Vec<char>)
    ensures
        r@ == scripts_joined(base@, below@, above@),
{
    let mut out = base;
    if below.len() == 0 && above.len() == 0 {
        return out;
    }
    if above.len() == 0 {
        let low = write_index(below, true);
        push_chars(&mut out, &low);
        return out;
    }
    if below.len() == 0 {
        let high = write_index(above, false);
        push_chars(&mut out, &high);
        return out;
    }
    match (to_script(below, true), to_script(above, false)) {
        (Some(low), Some(high)) => {
            push_chars(&mut out, &low);
            push_chars(&mut out, &high);
        },
        _ => {
            append_text(&mut out, "_(");
            push_chars(&mut out, below);
            append_text(&mut out, ")");
            append_text(&mut out, "^(");
            push_chars(&mut out, above);
            append_text(&mut out, ")");
        },
    }
    out
}

/// The mark of a root with its degree.
pub open spec fn root_mark(degree: Seq<char>) -> Seq<char> {
    match scripted(degree, false) {
        Some(s) => s + "√"@,
        None => "√["@ + degree + "]"@,
    }
}

fn write_root_mark(degree: &Vec<char>) -> (r: Vec<char>)
    ensures
        r@ == root_mark(degree@),
{
    match to_script(degree, false) {
        Some(s) => {
            let mut out = s;
            append_text(&mut out, "√");
            out
        },
        None => {
            let mut out: Vec<char> = Vec::new();
            append_text(&mut out, "√[");
            assert(out@ =~= "√["@);
            push_chars(&mut out, degree);
            append_text(&mut out, "]");
            out
        },
    }
}

/// Siblings from `from` up to `to`, one after the other.
pub open spec fn range_rendered(d: Seq<NodeView>, from: int, to: int, out: OutView) -> OutView
    decreases to - from, 1int,
{
    if from < 0 || from >= to || to > d.len() {
        out
    } else {
        let e = subtree_end(d, from, to);
        range_rendered(d, e, to, node_rendered(d, from, e, out))
    }
}

/// The element that stands `k`-th among siblings, rendered on its own. Nothing
/// when there are not that many.
pub open spec fn kid_rendered(d: Seq<NodeView>, from: int, to: int, k: nat, tight: bool) -> Seq<char>
    decreases to - from, 1int,
{
    if from < 0 || from >= to || to > d.len() {
        Seq::empty()
    } else {
        let e = subtree_end(d, from, to);
        if d[from].kind != NodeKind::Element {
            kid_rendered(d, e, to, k, tight)
        } else if k == 0 {
            node_rendered(d, from, e, out_new(tight)).finished()
        } else {
            kid_rendered(d, e, to, (k - 1) as nat, tight)
        }
    }
}

/// The first element among siblings, rendered in place.
pub open spec fn first_kid_rendered(d: Seq<NodeView>, from: int, to: int, out: OutView) -> OutView
    decreases to - from, 1int,
{
    if from < 0 || from >= to || to > d.len() {
        out
    } else {
        let e = subtree_end(d, from, to);
        if d[from].kind == NodeKind::Element {
            node_rendered(d, from, e, out)
        } else {
            first_kid_rendered(d, e, to, out)
        }
    }
}

/// The cells of a table row that show anything.
pub open spec fn cells_rendered(d: Seq<NodeView>, from: int, to: int, tight: bool) -> Seq<Seq<char>>
    decreases to - from, 1int,
{
    if from < 0 || from >= to || to > d.len() {
        Seq::empty()
    } else {
        let e = subtree_end(d, from, to);
        let cell = node_rendered(d, from, e, out_new(tight)).finished();
        if d[from].kind == NodeKind::Element && cell.len() > 0 {
            seq![cell] + cells_rendered(d, e, to, tight)
        } else {
            cells_rendered(d, e, to, tight)
        }
    }
}

/// The rows of a table that show anything.
pub open spec fn rows_rendered(d: Seq<NodeView>, from: int, to: int, tight: bool) -> Seq<Seq<char>>
    decreases to - from, 1int,
{
    if from < 0 || from >= to || to > d.len() {
        Seq::empty()
    } else {
        let e = subtree_end(d, from, to);
        let row = joined(cells_rendered(d, from + 1, e, tight), " "@);
        if (d[from].is_named("mtr"@) || d[from].is_named("mlabeledtr"@)) && row.len() > 0 {
            seq![row] + rows_rendered(d, e, to, tight)
        } else {
            rows_rendered(d, e, to, tight)
        }
    }
}

/// One node with its subtree, which ends before `end`.
pub open spec fn node_rendered(d: Seq<NodeView>, i: int, end: int, out: OutView) -> OutView
    decreases end - i, 0int,
{
    if i < 0 || i >= end || end > d.len() {
        out
    } else {
        let n = d[i];
        let a = i + 1;
        if n.kind == NodeKind::Text {
            // In MathML only a token element carries text. White space between
            // elements is indentation and means nothing, unlike in HTML.
            if blank(n.text) {
                out
            } else {
                text_pushed(n.text, out)
            }
        } else if n.kind != NodeKind::Element {
            out
        } else if n.name == "semantics"@ {
            // Only the presentation branch of an annotated expression is shown.
            first_kid_rendered(d, a, end, out)
        } else if n.name == "annotation"@ || n.name == "annotation-xml"@ {
            out
        } else if n.name == "mphantom"@ || n.name == "mspace"@ {
            // A phantom reserves space without showing anything.
            out.spaced()
        } else if is_token(n.name) {
            text_pushed(raw_text(d, i, end), out)
        } else if n.name == "mo"@ {
            operator_pushed(raw_text(d, i, end), out)
        } else if n.name == "msub"@ || n.name == "munder"@ {
            out.pushed(
                scripts_joined(
                    kid_rendered(d, a, end, 0, out.tight),
                    kid_rendered(d, a, end, 1, true),
                    Seq::empty(),
                ),
            )
        } else if n.name == "msup"@ || n.name == "mover"@ {
            out.pushed(
                scripts_joined(
                    kid_rendered(d, a, end, 0, out.tight),
                    Seq::empty(),
                    kid_rendered(d, a, end, 1, true),
                ),
            )
        } else if n.name == "msubsup"@ || n.name == "munderover"@ {
            out.pushed(
                scripts_joined(
                    kid_rendered(d, a, end, 0, out.tight),
                    kid_rendered(d, a, end, 1, true),
                    kid_rendered(d, a, end, 2, true),
                ),
            )
        } else if n.name == "mfrac"@ {
            out.pushed(
                grouped(kid_rendered(d, a, end, 0, out.tight)) + "/"@ + grouped(
                    kid_rendered(d, a, end, 1, out.tight),
                ),
            )
        } else if n.name == "msqrt"@ {
            out.pushed("√"@ + grouped(range_rendered(d, a, end, out_new(out.tight)).finished()))
        } else if n.name == "mroot"@ {
            out.pushed(
                root_mark(kid_rendered(d, a, end, 1, true)) + grouped(
                    kid_rendered(d, a, end, 0, out.tight),
                ),
            )
        } else if n.name == "mtable"@ {
            // A table is the one construct that truly needs more than a line.
            // Its rows are separated by a semicolon, which at least keeps them
            // apart.
            out.pushed(joined(rows_rendered(d, a, end, out.tight), "; "@))
        } else {
            // Grouping and styling elements carry no meaning of their own, and
            // an unknown one keeps what it holds.
            range_rendered(d, a, end, out)
        }
    }
}

fn render_range(d: &Document, from: usize, to: usize, out: &mut Out)
    requires
        from <= to <= d@.len(),
    ensures
        final(out)@ == range_rendered(d@, from as int, to as int, old(out)@),
    decreases to - from, 1int,
{
    if from < to {
        let e = d.end_of(from, to);
        render_node(d, from, e, out);
        render_range(d, e, to, out);
    }
}

fn render_kid(d: &Document, from: usize, to: usize, k: usize, tight: bool) -> (r: Vec<char>)
    requires
        from <= to <= d@.len(),
    ensures
        r@ == kid_rendered(d@, from as int, to as int, k as nat, tight),
    decreases to - from, 1int,
{
    if from >= to {
        return Vec::new();
    }
    let e = d.end_of(from, to);
    assert(d@[from as int] == d.nodes@[from as int]@);
    if d.nodes[from].kind != NodeKind::Element {
        render_kid(d, e, to, k, tight)
    } else if k == 0 {
        let mut out = Out::new(tight);
        render_node(d, from, e, &mut out);
        out.finish()
    } else {
        render_kid(d, e, to, k - 1, tight)
    }
}

fn render_first_kid(d: &Document, from: usize, to: usize, out: &mut Out)
    requires
        from <= to <= d@.len(),
    ensures
        final(out)@ == first_kid_rendered(d@, from as int, to as int, old(out)@),
    decreases to - from, 1int,
{
    if from < to {
        let e = d.end_of(from, to);
        assert(d@[from as int] == d.nodes@[from as int]@);
        if d.nodes[from].kind == NodeKind::Element {
            render_node(d, from, e, out);
        } else {
            render_first_kid(d, e, to, out);
        }
    }
}

fn render_cells(d: &Document, from: usize, to: usize, tight: bool, cells: &mut Vec<String>)
    requires
        from <= to <= d@.len(),
    ensures
        texts(final(cells)@) == texts(old(cells)@) + cells_rendered(
            d@,
            from as int,
            to as int,
            tight,
        ),
    decreases to - from, 1int,
{
    if from < to {
        let e = d.end_of(from, to);
        let ghost before = texts(cells@);
        assert(d@[from as int] == d.nodes@[from as int]@);
        if d.nodes[from].kind == NodeKind::Element {
            let mut out = Out::new(tight);
            render_node(d, from, e, &mut out);
            let cell = out.finish();
            if cell.len() > 0 {
                let s = text_of(&cell);
                cells.push(s);
                assert(texts(cells@) =~= before.push(s@));
            }
        }
        render_cells(d, e, to, tight, cells);
        assert(texts(cells@) =~= before + cells_rendered(
            d@,
            from as int,
            to as int,
            tight,
        ));
    } else {
        assert(texts(cells@) + Seq::<Seq<char>>::empty() =~= texts(cells@));
    }
}

fn render_rows(d: &Document, from: usize, to: usize, tight: bool, rows: &mut Vec<String>)
    requires
        from <= to <= d@.len(),
    ensures
        texts(final(rows)@) == texts(old(rows)@) + rows_rendered(
            d@,
            from as int,
            to as int,
            tight,
        ),
    decreases to - from, 1int,
{
    if from < to {
        let e = d.end_of(from, to);
        let ghost before = texts(rows@);
        assert(d@[from as int] == d.nodes@[from as int]@);
        if d.nodes[from].is_named("mtr") || d.nodes[from].is_named("mlabeledtr") {
            let mut cells: Vec<String> = Vec::new();
            assert(texts(cells@) =~= Seq::<Seq<char>>::empty());
            render_cells(d, from + 1, e, tight, &mut cells);
            assert(texts(cells@) =~= cells_rendered(d@, from + 1, e as int, tight));
            let row = join(&cells, " ");
            if !row.as_str().is_empty() {
                rows.push(row);
                assert(texts(rows@) =~= before.push(row@));
            }
        }
        render_rows(d, e, to, tight, rows);
        assert(texts(rows@) =~= before + rows_rendered(
            d@,
            from as int,
            to as int,
            tight,
        ));
    } else {
        assert(texts(rows@) + Seq::<Seq<char>>::empty() =~= texts(rows@));
    }
}

fn render_node(d: &Document, i: usize, end: usize, out: &mut Out)
    requires
        i < end <= d@.len(),
    ensures
        final(out)@ == node_rendered(d@, i as int, end as int, old(out)@),
    decreases end - i, 0int,
{
    assert(d@[i as int] == d.nodes@[i as int]@);
    let kind = d.nodes[i].kind;
    let name: &str = d.nodes[i].name.as_str();
    let a: usize = i + 1;
    let tight = out.tight;
    if kind == NodeKind::Text {
        if !is_blank_text(&d.nodes[i].text) {
            let text = chars_of(&d.nodes[i].text);
            push_text(&text, out);
        }
        return;
    }
    if kind != NodeKind::Element {
        return;
    }
    if same(name, "semantics") {
        render_first_kid(d, a, end, out);
    } else if same(name, "annotation") || same(name, "annotation-xml") {
    } else if same(name, "mphantom") || same(name, "mspace") {
        out.space();
    } else if same(name, "mi") || same(name, "mn") || same(name, "ms") || same(name, "mtext") {
        let text = d.raw_text(i, end);
        push_text(&text, out);
    } else if same(name, "mo") {
        let text = d.raw_text(i, end);
        push_operator(&text, out);
    } else if same(name, "msub") || same(name, "munder") {
        let base = render_kid(d, a, end, 0, tight);
        let below = render_kid(d, a, end, 1, true);
        let above: Vec<char> = Vec::new();
        assert(above@ =~= Seq::<char>::empty());
        let all = join_scripts(base, &below, &above);
        out.push(&all);
    } else if same(name, "msup") || same(name, "mover") {
        let base = render_kid(d, a, end, 0, tight);
        let below: Vec<char> = Vec::new();
        assert(below@ =~= Seq::<char>::empty());
        let above = render_kid(d, a, end, 1, true);
        let all = join_scripts(base, &below, &above);
        out.push(&all);
    } else if same(name, "msubsup") || same(name, "munderover") {
        let base = render_kid(d, a, end, 0, tight);
        let below = render_kid(d, a, end, 1, true);
        let above = render_kid(d, a, end, 2, true);
        let all = join_scripts(base, &below, &above);
        out.push(&all);
    } else if same(name, "mfrac") {
        let numerator = render_kid(d, a, end, 0, tight);
        let denominator = render_kid(d, a, end, 1, tight);
        let mut all = group(&numerator);
        append_text(&mut all, "/");
        let low = group(&denominator);
        push_chars(&mut all, &low);
        out.push(&all);
    } else if same(name, "msqrt") {
        let mut inner = Out::new(tight);
        render_range(d, a, end, &mut inner);
        let radicand = inner.finish();
        let mut all: Vec<char> = Vec::new();
        append_text(&mut all, "√");
        assert(all@ =~= "√"@);
        let g = group(&radicand);
        push_chars(&mut all, &g);
        out.push(&all);
    } else if same(name, "mroot") {
        let radicand = render_kid(d, a, end, 0, tight);
        let degree = render_kid(d, a, end, 1, true);
        let mut all = write_root_mark(&degree);
        let g = group(&radicand);
        push_chars(&mut all, &g);
        out.push(&all);
    } else if same(name, "mtable") {
        let mut rows: Vec<String> = Vec::new();
        assert(texts(rows@) =~= Seq::<Seq<char>>::empty());
        render_rows(d, a, end, tight, &mut rows);
        assert(texts(rows@) =~= rows_rendered(d@, a as int, end as int, tight));
        let all = join(&rows, "; ");
        let v = chars_of(&all);
        out.push(&v);
    } else {
        render_range(d, a, end, out);
    }
}

/// An index under way: no space was written and none is owed.
spec fn is_tight(out: OutView) -> bool {
    out.tight && !out.pending && is_dense(out.text)
}

proof fn lemma_pushed_tight(out: OutView, t: Seq<char>)
    requires
        is_tight(out),
    ensures
        is_tight(out.pushed(t)),
{
    lemma_dense(t);
}

proof fn lemma_text_tight(s: Seq<char>, out: OutView)
    requires
        is_tight(out),
    ensures
        is_tight(text_pushed(s, out)),
{
    lemma_pushed_tight(out, trim(collapsed(s)));
}

proof fn lemma_operator_tight(s: Seq<char>, out: OutView)
    requires
        is_tight(out),
    ensures
        is_tight(operator_pushed(s, out)),
{
    let op = trim(visible(collapsed(s)));
    lemma_pushed_tight(out, op);
    assert(out.unspaced() == out);
}

proof fn lemma_range_tight(d: Seq<NodeView>, from: int, to: int, out: OutView)
    requires
        is_tight(out),
    ensures
        is_tight(range_rendered(d, from, to, out)),
    decreases to - from, 1int,
{
    if 0 <= from < to <= d.len() {
        let e = subtree_end(d, from, to);
        lemma_node_tight(d, from, e, out);
        lemma_range_tight(d, e, to, node_rendered(d, from, e, out));
    }
}

proof fn lemma_first_kid_tight(d: Seq<NodeView>, from: int, to: int, out: OutView)
    requires
        is_tight(out),
    ensures
        is_tight(first_kid_rendered(d, from, to, out)),
    decreases to - from, 1int,
{
    if 0 <= from < to <= d.len() {
        let e = subtree_end(d, from, to);
        if d[from].kind == NodeKind::Element {
            lemma_node_tight(d, from, e, out);
        } else {
            lemma_first_kid_tight(d, e, to, out);
        }
    }
}

proof fn lemma_node_tight(d: Seq<NodeView>, i: int, end: int, out: OutView)
    requires
        is_tight(out),
    ensures
        is_tight(node_rendered(d, i, end, out)),
    decreases end - i, 0int,
{
    if 0 <= i < end && end <= d.len() {
        let a = i + 1;
        assert forall|t: Seq<char>| is_tight(#[trigger] out.pushed(t)) by {
            lemma_pushed_tight(out, t);
        }
        lemma_text_tight(d[i].text, out);
        lemma_text_tight(raw_text(d, i, end), out);
        lemma_operator_tight(raw_text(d, i, end), out);
        lemma_first_kid_tight(d, a, end, out);
        lemma_range_tight(d, a, end, out);
    }
}

/// No space survives in an index.
pub proof fn an_index_holds_no_space(d: Seq<NodeView>, from: int, to: int, k: nat)
    ensures
        is_dense(kid_rendered(d, from, to, k, true)),
    decreases to - from,
{
    if 0 <= from < to <= d.len() {
        let e = subtree_end(d, from, to);
        if d[from].kind != NodeKind::Element {
            an_index_holds_no_space(d, e, to, k);
        } else if k == 0 {
            let out = node_rendered(d, from, e, out_new(true));
            lemma_node_tight(d, from, e, out_new(true));
            lemma_keep_end(trim_start(out.text), trim_start(out.text).len() as int);
            lemma_skip_white(out.text, 0);
            assert forall|i: int| 0 <= i < out.finished().len() implies !is_white(
                #[trigger] out.finished()[i],
            ) by {
                assert(out.finished()[i] == out.text[skip_white(out.text, 0) + i]);
            }
        } else {
            an_index_holds_no_space(d, e, to, (k - 1) as nat);
        }
    }
}

/// A formula as one line: what its children render to.
pub open spec fn formula(d: Seq<NodeView>, i: int, end: int) -> Seq<char> {
    range_rendered(d, i + 1, end, out_new(false)).finished()
}

/// Renders a `<math>` element into one line. Empty when the element holds
/// nothing that can be shown.
pub fn render_within(d: &Document, i: usize, end: usize) -> (r: Vec<char>)
    requires
        i < end <= d@.len(),
    ensures
        r@ == formula(d@, i as int, end as int),
{
    let mut out = Out::new(false);
    render_range(d, i + 1, end, &mut out);
    out.finish()
}

/// Renders the `<math>` element at a position.
pub fn render(d: &Document, i: usize) -> (r: String)
    requires
        i < d@.len(),
    ensures
        r@ == formula(d@, i as int, subtree_end(d@, i as int, d@.len() as int)),
{
    let end = d.end_of(i, d.nodes.len());
    let v = render_within(d, i, end);
    text_of(&v)
}

/// Whether an element stands among siblings.
pub open spec fn has_element(d: Seq<NodeView>, from: int, to: int) -> bool {
    crate::xml::first_element(d, from, to) is Some
}

fn any_element(d: &Document, from: usize, to: usize) -> (r: bool)
    requires
        from <= to <= d@.len(),
    ensures
        r == has_element(d@, from as int, to as int),
{
    let mut i: usize = from;
    while i < to
        invariant
            from <= i <= to <= d@.len(),
            crate::xml::first_element(d@, from as int, to as int) == crate::xml::first_element(
                d@,
                i as int,
                to as int,
            ),
        decreases to - i,
    {
        assert(d@[i as int] == d.nodes@[i as int]@);
        if d.nodes[i].kind == NodeKind::Element {
            return true;
        }
        i = d.end_of(i, to);
    }
    false
}

/// Text for an HTML `<sub>` or `<sup>`, if the element can be set as one: it
/// holds plain text rather than markup, and some of it.
pub open spec fn script_of(d: Seq<NodeView>, i: int, end: int, sub: bool) -> Option<Seq<char>> {
    let text = trim(collapsed(raw_text(d, i, end)));
    if has_element(d, i + 1, end) || text.len() == 0 {
        None
    } else {
        Some(index_text(text, sub))
    }
}

/// Text for an HTML `<sub>` or `<sup>`, if the element can be set as one.
///
/// Returns `None` when the element holds markup rather than plain text. A
/// footnote marker is written `<sup><a href="...">1</a></sup>`; converting it
/// would drop the link, so such an element is left to the normal walk.
pub fn script_text(d: &Document, i: usize, end: usize, sub: bool) -> (r: Option<Vec<char>>)
    requires
        i < end <= d@.len(),
    ensures
        chars_opt(r) == script_of(d@, i as int, end as int, sub),
{
    if any_element(d, i + 1, end) {
        return None;
    }
    let raw = d.raw_text(i, end);
    let c = collapse_whitespace(&raw);
    let text = trimmed(&c);
    if text.len() == 0 {
        return None;
    }
    Some(write_index(&text, sub))
}

} // verus!
