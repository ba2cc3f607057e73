//! What holds of every chapter taken out of its markup.

use vstd::prelude::*;
use crate::doc::{
    both_styles, dropping_empty_runs_keeps_the_text, finishing_trims_the_edges, in_style,
    non_empty_runs, plain_style, pushing_appends_the_text, runs_pushed, runs_styled, runs_text,
    BlockView, KindView, LinkView, RunStyle, RunView,
};
use crate::epub::mathml::{formula, script_of};
use crate::epub::space::{
    collapsed, collapsing_keeps_the_ink, ink, lemma_ink_add, lemma_ink_last, lemma_ink_push,
    lemma_ink_trim, lemma_no_ink, lemma_stripped_ink, lemma_unbroken_add, stripped,
    stripping_keeps_all_else, unbroken,
};
use crate::epub::xhtml::{
    all_blank, body_of, chapter_of, code_block, first_ordinal, image_block, image_source, is_gutter,
    is_listing, item_counted, item_kind, kind_of_name, link_target, linked, node_walked, outer,
    plain_walked, range_walked, starts_block, style_of_name, walk_begun, ListState, WalkView,
};
use crate::paths::resolved;
use crate::text::{blank, is_white, lemma_trim_empty, lines_of, split_at, trim, without_return};
use crate::xml::{raw_text, subtree_end, NodeKind, NodeView};

verus! {

// ---------------------------------------------------------------------------
// Names
// ---------------------------------------------------------------------------
/// Elements that stand as a block of text.
pub open spec fn is_text_block(name: Seq<char>) -> bool {
    ||| name == "p"@
    ||| name == "div"@
    ||| name == "section"@
    ||| name == "article"@
    ||| name == "header"@
    ||| name == "footer"@
    ||| name == "figcaption"@
    ||| name == "dd"@
    ||| name == "dt"@
    ||| name == "td"@
    ||| name == "th"@
    ||| name == "caption"@
    ||| name == "h1"@
    ||| name == "h2"@
    ||| name == "h3"@
    ||| name == "h4"@
    ||| name == "h5"@
    ||| name == "h6"@
    ||| name == "blockquote"@
}

/// Elements whose content is not for the reader.
pub open spec fn is_hidden(name: Seq<char>) -> bool {
    name == "head"@ || name == "script"@ || name == "style"@ || name == "title"@ || name
        == "template"@
}

/// Elements that are more than their text: pictures, formulas and indices.
pub open spec fn is_drawn(name: Seq<char>) -> bool {
    name == "img"@ || name == "image"@ || name == "math"@ || name == "sub"@ || name == "sup"@
}

/// A node that stands in the running text: text, or an element that at most styles
/// what it holds.
pub open spec fn runs_along(n: NodeView, in_code: bool) -> bool {
    if n.kind == NodeKind::Element {
        &&& !is_text_block(n.name) && !is_hidden(n.name) && !is_drawn(n.name)
        &&& n.name != "br"@ && n.name != "hr"@ && n.name != "ul"@ && n.name != "ol"@ && n.name
            != "li"@ && n.name != "pre"@
        &&& if in_code {
            !is_gutter(n)
        } else {
            !is_listing(n)
        }
    } else {
        n.size <= 1
    }
}

/// Nothing but running text from `from` up to `to`.
pub open spec fn all_run_along(d: Seq<NodeView>, from: int, to: int, in_code: bool) -> bool {
    forall|k: int| from <= k < to ==> runs_along(#[trigger] d[k], in_code)
}

// ---------------------------------------------------------------------------
// Running text
// ---------------------------------------------------------------------------
/// The text of the text nodes, each with its white space collapsed.
pub open spec fn flowing(d: Seq<NodeView>, from: int, to: int) -> Seq<char>
    decreases to - from,
{
    if from >= to || from < 0 || to > d.len() {
        Seq::empty()
    } else {
        flowing(d, from, to - 1) + (if d[to - 1].kind == NodeKind::Text {
            collapsed(d[to - 1].text)
        } else {
            Seq::empty()
        })
    }
}

/// What running text reads: in a listing every character but those that break the
/// layout, elsewhere with its white space collapsed.
pub open spec fn reading(d: Seq<NodeView>, from: int, to: int, in_code: bool) -> Seq<char> {
    if in_code {
        unbroken(raw_text(d, from, to))
    } else {
        flowing(d, from, to)
    }
}

pub proof fn lemma_raw_split(d: Seq<NodeView>, a: int, b: int, c: int)
    requires
        0 <= a <= b <= c <= d.len(),
    ensures
        raw_text(d, a, c) == raw_text(d, a, b) + raw_text(d, b, c),
        flowing(d, a, c) == flowing(d, a, b) + flowing(d, b, c),
    decreases c - b,
{
    if b < c {
        lemma_raw_split(d, a, b, c - 1);
        assert(raw_text(d, a, c) =~= raw_text(d, a, b) + raw_text(d, b, c));
        assert(flowing(d, a, c) =~= flowing(d, a, b) + flowing(d, b, c));
    } else {
        assert(raw_text(d, a, b) + raw_text(d, b, c) =~= raw_text(d, a, b));
        assert(flowing(d, a, b) + flowing(d, b, c) =~= flowing(d, a, b));
    }
}

proof fn lemma_unbroken_empty()
    ensures
        unbroken(Seq::empty()) == Seq::<char>::empty(),
{
    reveal(Seq::filter);
}

proof fn lemma_reading_split(d: Seq<NodeView>, a: int, b: int, c: int, in_code: bool)
    requires
        0 <= a <= b <= c <= d.len(),
    ensures
        reading(d, a, c, in_code) == reading(d, a, b, in_code) + reading(d, b, c, in_code),
{
    lemma_raw_split(d, a, b, c);
    lemma_unbroken_add(raw_text(d, a, b), raw_text(d, b, c));
}

proof fn lemma_reading_one(d: Seq<NodeView>, i: int, in_code: bool)
    requires
        0 <= i < d.len(),
    ensures
        reading(d, i, i, in_code) == Seq::<char>::empty(),
        d[i].kind != NodeKind::Text ==> reading(d, i, i + 1, in_code) == Seq::<char>::empty(),
        d[i].kind == NodeKind::Text ==> reading(d, i, i + 1, in_code) == (if in_code {
            stripped(d[i].text)
        } else {
            collapsed(d[i].text)
        }),
{
    lemma_unbroken_empty();
    assert(raw_text(d, i, i) =~= Seq::<char>::empty());
    assert(flowing(d, i, i) =~= Seq::<char>::empty());
    if d[i].kind == NodeKind::Text {
        assert(raw_text(d, i, i + 1) =~= d[i].text);
        assert(flowing(d, i, i + 1) =~= collapsed(d[i].text));
        stripping_keeps_all_else(d[i].text);
    } else {
        assert(raw_text(d, i, i + 1) =~= Seq::<char>::empty());
        assert(flowing(d, i, i + 1) =~= Seq::<char>::empty());
    }
}

/// Two walks that differ in nothing but the open block's text, links and link
/// targets.
pub open spec fn same_place(a: WalkView, b: WalkView) -> bool {
    &&& a.base == b.base
    &&& a.blocks == b.blocks
    &&& a.kind == b.kind
    &&& a.lists == b.lists
    &&& a.in_code == b.in_code
}

/// Running text is added to the open block in full and in order, and ends no block.
/// In a listing it keeps every space.
pub proof fn running_text_is_kept(
    d: Seq<NodeView>,
    from: int,
    to: int,
    style: RunStyle,
    w: WalkView,
)
    requires
        0 <= from <= to <= d.len(),
        all_run_along(d, from, to, w.in_code),
    ensures
        ({
            let after = range_walked(d, from, to, style, w);
            &&& runs_text(after.current) == runs_text(w.current) + reading(d, from, to, w.in_code)
            &&& same_place(w, after)
            &&& after.ended == w.ended
        }),
    decreases to - from, 1int,
{
    if from < to {
        let e = subtree_end(d, from, to);
        let mid = node_walked(d, from, e, style, w);
        lemma_running_node(d, from, e, to, style, w);
        running_text_is_kept(d, e, to, style, mid);
        lemma_reading_split(d, from, e, to, w.in_code);
        let after = range_walked(d, from, to, style, w);
        assert(runs_text(after.current) =~= runs_text(w.current) + reading(
            d,
            from,
            to,
            w.in_code,
        ));
    } else {
        lemma_unbroken_empty();
        assert(raw_text(d, from, to) =~= Seq::<char>::empty());
        assert(runs_text(w.current) + reading(d, from, to, w.in_code) =~= runs_text(w.current));
    }
}

proof fn lemma_running_node(
    d: Seq<NodeView>,
    i: int,
    end: int,
    to: int,
    style: RunStyle,
    w: WalkView,
)
    requires
        0 <= i < end <= to <= d.len(),
        end == subtree_end(d, i, to),
        all_run_along(d, i, to, w.in_code),
    ensures
        ({
            let after = node_walked(d, i, end, style, w);
            &&& runs_text(after.current) == runs_text(w.current) + reading(d, i, end, w.in_code)
            &&& same_place(w, after)
            &&& after.ended == w.ended
        }),
    decreases end - i, 0int,
{
    let n = d[i];
    let code = w.in_code;
    assert(runs_along(d[i], code));
    lemma_reading_one(d, i, code);
    if n.kind == NodeKind::Text {
        let t = if code {
            stripped(n.text)
        } else {
            collapsed(n.text)
        };
        pushing_appends_the_text(w.current, t, style);
    } else if n.kind != NodeKind::Element {
        assert(runs_text(w.current) + reading(d, i, end, code) =~= runs_text(w.current));
    } else {
        assert(kind_of_name(n.name) is None);
        assert(!starts_block(d, i, end, code));
        let v = w.anchored(n.attribute("id"@));
        lemma_reading_split(d, i, i + 1, end, code);
        assert(reading(d, i, end, code) =~= reading(d, i + 1, end, code));
        assert(node_walked(d, i, end, style, w) == plain_walked(d, i, end, style, v));
        if style_of_name(n.name) is Some {
            let inner = both_styles(style, style_of_name(n.name)->0);
            let fresh = WalkView { ended: false, ..v };
            running_text_is_kept(d, i + 1, end, inner, v);
            running_text_is_kept(d, i + 1, end, inner, fresh);
        } else {
            running_text_is_kept(d, i + 1, end, style, v);
        }
    }
}

/// Styling adds up: the characters of running text, each with every style of the
/// elements around it.
pub open spec fn styled(
    d: Seq<NodeView>,
    from: int,
    to: int,
    in_code: bool,
    style: RunStyle,
) -> Seq<(char, RunStyle)>
    decreases to - from,
{
    if from < 0 || from >= to || to > d.len() {
        Seq::empty()
    } else {
        let n = d[from];
        let e = subtree_end(d, from, to);
        let here = if n.kind == NodeKind::Text {
            in_style(
                if in_code {
                    unbroken(n.text)
                } else {
                    collapsed(n.text)
                },
                style,
            )
        } else if n.kind != NodeKind::Element {
            Seq::empty()
        } else if n.name == "b"@ || n.name == "strong"@ {
            styled(d, from + 1, e, in_code, RunStyle { bold: true, ..style })
        } else if n.name == "i"@ || n.name == "em"@ || n.name == "cite"@ || n.name == "dfn"@
            || n.name == "var"@ {
            styled(d, from + 1, e, in_code, RunStyle { italic: true, ..style })
        } else if n.name == "code"@ || n.name == "kbd"@ || n.name == "samp"@ || n.name == "tt"@ {
            styled(d, from + 1, e, in_code, RunStyle { code: true, ..style })
        } else if n.name == "a"@ {
            styled(d, from + 1, e, in_code, RunStyle { link: true, ..style })
        } else {
            styled(d, from + 1, e, in_code, style)
        };
        here + styled(d, e, to, in_code, style)
    }
}

proof fn lemma_pushed_styled(s: Seq<RunView>, text: Seq<char>, style: RunStyle)
    ensures
        runs_styled(runs_pushed(s, text, style)) == runs_styled(s) + in_style(text, style),
{
    let t = runs_pushed(s, text, style);
    if text.len() == 0 {
        assert(runs_styled(s) + in_style(text, style) =~= runs_styled(s));
    } else if s.len() > 0 && s.last().style == style {
        assert(t.drop_last() =~= s.drop_last());
        assert(in_style(s.last().text + text, style) =~= in_style(s.last().text, style) + in_style(
            text,
            style,
        ));
        assert(runs_styled(t) =~= runs_styled(s) + in_style(text, style));
    } else {
        assert(t.drop_last() =~= s);
    }
}

/// Running text has the style of every element around it, and no other.
pub proof fn running_text_is_styled(
    d: Seq<NodeView>,
    from: int,
    to: int,
    style: RunStyle,
    w: WalkView,
)
    requires
        0 <= from <= to <= d.len(),
        all_run_along(d, from, to, w.in_code),
    ensures
        runs_styled(range_walked(d, from, to, style, w).current) == runs_styled(w.current)
            + styled(d, from, to, w.in_code, style),
    decreases to - from, 1int,
{
    if from < to {
        let e = subtree_end(d, from, to);
        let mid = node_walked(d, from, e, style, w);
        lemma_running_node(d, from, e, to, style, w);
        lemma_styled_node(d, from, e, to, style, w);
        running_text_is_styled(d, e, to, style, mid);
        assert(styled(d, e, e, w.in_code, style) =~= Seq::empty());
        let after = range_walked(d, from, to, style, w);
        let one = styled(d, from, e, w.in_code, style);
        assert(subtree_end(d, from, e) == e);
        assert(styled(d, from, to, w.in_code, style) =~= one + styled(d, e, to, w.in_code, style));
        assert(runs_styled(after.current) =~= runs_styled(w.current) + styled(
            d,
            from,
            to,
            w.in_code,
            style,
        ));
    } else {
        assert(runs_styled(w.current) + styled(d, from, to, w.in_code, style) =~= runs_styled(
            w.current,
        ));
    }
}

proof fn lemma_styled_node(
    d: Seq<NodeView>,
    i: int,
    end: int,
    to: int,
    style: RunStyle,
    w: WalkView,
)
    requires
        0 <= i < end <= to <= d.len(),
        end == subtree_end(d, i, to),
        all_run_along(d, i, to, w.in_code),
    ensures
        runs_styled(node_walked(d, i, end, style, w).current) == runs_styled(w.current) + styled(
            d,
            i,
            end,
            w.in_code,
            style,
        ),
    decreases end - i, 0int,
{
    let n = d[i];
    let code = w.in_code;
    assert(runs_along(d[i], code));
    assert(subtree_end(d, i, end) == end);
    assert(styled(d, end, end, code, style) =~= Seq::empty());
    if n.kind == NodeKind::Text {
        let t = if code {
            stripped(n.text)
        } else {
            collapsed(n.text)
        };
        stripping_keeps_all_else(n.text);
        lemma_pushed_styled(w.current, t, style);
        assert(styled(d, i, end, code, style) =~= in_style(t, style));
    } else if n.kind != NodeKind::Element {
        assert(runs_styled(w.current) + styled(d, i, end, code, style) =~= runs_styled(w.current));
    } else {
        assert(kind_of_name(n.name) is None);
        assert(!starts_block(d, i, end, code));
        let v = w.anchored(n.attribute("id"@));
        assert(node_walked(d, i, end, style, w) == plain_walked(d, i, end, style, v));
        if style_of_name(n.name) is Some {
            let inner = both_styles(style, style_of_name(n.name)->0);
            let fresh = WalkView { ended: false, ..v };
            running_text_is_styled(d, i + 1, end, inner, v);
            running_text_is_styled(d, i + 1, end, inner, fresh);
            lemma_style_names();
            assert(styled(d, i, end, code, style) =~= styled(d, i + 1, end, code, inner));
        } else {
            running_text_is_styled(d, i + 1, end, style, v);
            assert(styled(d, i, end, code, style) =~= styled(d, i + 1, end, code, style));
        }
    }
}

/// The names of the styling elements are different.
proof fn lemma_style_names()
    ensures
        "b"@.len() == 1 && "i"@.len() == 1 && "a"@.len() == 1,
        "b"@[0] == 'b' && "i"@[0] == 'i' && "a"@[0] == 'a',
        "em"@.len() == 2 && "tt"@.len() == 2 && "em"@[0] == 'e' && "tt"@[0] == 't',
        "dfn"@.len() == 3 && "var"@.len() == 3 && "kbd"@.len() == 3,
        "dfn"@[0] == 'd' && "var"@[0] == 'v' && "kbd"@[0] == 'k',
        "cite"@.len() == 4 && "code"@.len() == 4 && "samp"@.len() == 4,
        "cite"@[1] == 'i' && "code"@[1] == 'o' && "samp"@[1] == 'a',
        "strong"@.len() == 6,
{
    reveal_strlit("b");
    reveal_strlit("i");
    reveal_strlit("a");
    reveal_strlit("em");
    reveal_strlit("tt");
    reveal_strlit("dfn");
    reveal_strlit("var");
    reveal_strlit("kbd");
    reveal_strlit("cite");
    reveal_strlit("code");
    reveal_strlit("samp");
    reveal_strlit("strong");
}

// ---------------------------------------------------------------------------
// Blocks
// ---------------------------------------------------------------------------
proof fn lemma_blank_runs(s: Seq<RunView>)
    ensures
        all_blank(s) == blank(runs_text(s)),
    decreases s.len(),
{
    if s.len() > 0 {
        let d = s.drop_last();
        let front = runs_text(d);
        let back = s.last().text;
        let all = runs_text(s);
        lemma_blank_runs(d);
        if all_blank(s) {
            assert forall|i: int| 0 <= i < d.len() implies blank((#[trigger] d[i]).text) by {
                assert(d[i] == s[i]);
            }
            assert(blank(s[s.len() - 1].text));
            assert forall|i: int| 0 <= i < all.len() implies is_white(#[trigger] all[i]) by {
                if i < front.len() {
                    assert(all[i] == front[i]);
                } else {
                    assert(all[i] == back[i - front.len()]);
                }
            }
        }
        if blank(all) {
            assert forall|i: int| 0 <= i < front.len() implies is_white(#[trigger] front[i]) by {
                assert(all[i] == front[i]);
            }
            assert forall|i: int| 0 <= i < back.len() implies is_white(#[trigger] back[i]) by {
                assert(all[front.len() + i] == back[i]);
            }
            assert forall|i: int| 0 <= i < s.len() implies blank((#[trigger] s[i]).text) by {
                if i < d.len() {
                    assert(d[i] == s[i]);
                }
            }
        }
    }
}

/// A block of that kind with that text.
pub open spec fn is_block(b: BlockView, kind: KindView, text: Seq<char>) -> bool {
    b.kind == kind && b.plain() == text
}

/// The blocks with one more of that kind and text, unless the text is blank.
pub open spec fn gains_block(
    before: Seq<BlockView>,
    after: Seq<BlockView>,
    kind: KindView,
    text: Seq<char>,
) -> bool {
    if blank(text) {
        after == before
    } else {
        after.len() == before.len() + 1 && after.take(before.len() as int) == before && is_block(
            after.last(),
            kind,
            text,
        )
    }
}

/// A block that ends is kept unless it is blank, in full where it is code and
/// without the white space around it elsewhere.
pub proof fn a_block_that_ends_is_kept(w: WalkView)
    ensures
        gains_block(
            w.blocks,
            w.flushed().blocks,
            w.kind,
            if w.kind == KindView::Code {
                runs_text(w.current)
            } else {
                trim(runs_text(w.current))
            },
        ),
        w.flushed().current.len() == 0,
        w.flushed().in_code == w.in_code,
        w.flushed().lists == w.lists,
        w.flushed().base == w.base,
{
    let t = runs_text(w.current);
    lemma_blank_runs(w.current);
    lemma_trim_empty(t);
    finishing_trims_the_edges(w.current);
    dropping_empty_runs_keeps_the_text(w.current);
    let text = if w.kind == KindView::Code {
        t
    } else {
        trim(t)
    };
    assert(blank(text) == blank(t)) by {
        if blank(t) {
            assert(trim(t).len() == 0);
        } else {
            crate::text::lemma_skip_white(t, 0);
            let s = crate::text::trim_start(t);
            crate::text::lemma_keep_end(s, s.len() as int);
            assert(trim(t).len() > 0);
            let k = trim(t).len() - 1;
            assert(trim(t)[k] == s[k]);
            assert(!is_white(trim(t)[k]));
        }
    }
    if !blank(t) {
        assert(w.ended_runs().len() > 0) by {
            if w.ended_runs().len() == 0 {
                assert(runs_text(w.ended_runs()) =~= Seq::<char>::empty());
            }
        }
        let b = BlockView { kind: w.kind, runs: w.ended_runs() };
        assert(w.flushed().blocks == w.blocks.push(b));
        assert(w.blocks.push(b).take(w.blocks.len() as int) =~= w.blocks);
    }
}

/// Ending a block a second time adds nothing.
proof fn lemma_ended_twice(w: WalkView, v: WalkView)
    requires
        v.blocks == w.flushed().blocks,
        v.current.len() == 0,
    ensures
        v.flushed().blocks == w.flushed().blocks,
{
    assert(runs_text(v.current) =~= Seq::<char>::empty());
    assert(trim(runs_text(v.current)).len() == 0) by {
        lemma_trim_empty(runs_text(v.current));
    }
    a_block_that_ends_is_kept(v);
}

/// The kind of block that an element of that name makes outside of listings.
pub open spec fn block_kind_of(name: Seq<char>) -> KindView {
    if name == "h1"@ {
        KindView::Heading(1)
    } else if name == "h2"@ {
        KindView::Heading(2)
    } else if name == "h3"@ {
        KindView::Heading(3)
    } else if name == "h4"@ {
        KindView::Heading(4)
    } else if name == "h5"@ {
        KindView::Heading(5)
    } else if name == "h6"@ {
        KindView::Heading(6)
    } else if name == "blockquote"@ {
        KindView::Quote
    } else {
        KindView::Paragraph
    }
}

proof fn lemma_block_names(name: Seq<char>)
    requires
        is_text_block(name),
    ensures
        kind_of_name(name) == Some(block_kind_of(name)),
        style_of_name(name) is None,
        !is_hidden(name) && !is_drawn(name),
        !crate::epub::xhtml::is_set_apart(name),
        name != "br"@,
{
    reveal_strlit("p");
    reveal_strlit("div");
    reveal_strlit("section");
    reveal_strlit("article");
    reveal_strlit("header");
    reveal_strlit("footer");
    reveal_strlit("figcaption");
    reveal_strlit("dd");
    reveal_strlit("dt");
    reveal_strlit("td");
    reveal_strlit("th");
    reveal_strlit("caption");
    reveal_strlit("h1");
    reveal_strlit("h2");
    reveal_strlit("h3");
    reveal_strlit("h4");
    reveal_strlit("h5");
    reveal_strlit("h6");
    reveal_strlit("blockquote");
    reveal_strlit("pre");
    reveal_strlit("head");
    reveal_strlit("script");
    reveal_strlit("style");
    reveal_strlit("title");
    reveal_strlit("template");
    reveal_strlit("img");
    reveal_strlit("image");
    reveal_strlit("math");
    reveal_strlit("sub");
    reveal_strlit("sup");
    reveal_strlit("br");
    reveal_strlit("hr");
    reveal_strlit("ul");
    reveal_strlit("ol");
    reveal_strlit("li");
    lemma_style_names();
    assert("dfn"@[1] == 'f' && "tt"@[1] == 't') by {
        reveal_strlit("dfn");
        reveal_strlit("tt");
    }
    assert("strong"@[0] == 's') by {
        reveal_strlit("strong");
    }
    assert("script"@[0] == 's' && "img"@[0] == 'i' && "sub"@[0] == 's' && "sup"@[0] == 's'
        && "pre"@[0] == 'p');
    assert("hr"@[0] == 'h' && "hr"@[1] == 'r' && "br"@[0] == 'b' && "ul"@[0] == 'u' && "ol"@[0]
        == 'o' && "li"@[0] == 'l');
    assert("h1"@[1] == '1' && "h2"@[1] == '2' && "h3"@[1] == '3' && "h4"@[1] == '4' && "h5"@[1]
        == '5' && "h6"@[1] == '6');
    assert("td"@[0] == 't' && "th"@[0] == 't');
    assert("p"@[0] == 'p' && "div"@[0] == 'd' && "div"@[1] == 'i');
    assert("header"@[0] == 'h' && "footer"@[0] == 'f');
    assert("dd"@[0] == 'd' && "dt"@[0] == 'd' && "td"@[1] == 'd' && "th"@[1] == 'h');
    assert("blockquote"@[0] == 'b' && "figcaption"@[0] == 'f');
    assert("h1"@[0] == 'h' && "h2"@[0] == 'h' && "h3"@[0] == 'h' && "h4"@[0] == 'h' && "h5"@[0]
        == 'h' && "h6"@[0] == 'h');
    assert("p"@.len() == 1 && "div"@.len() == 3 && "section"@.len() == 7 && "article"@.len() == 7
        && "header"@.len() == 6 && "footer"@.len() == 6 && "figcaption"@.len() == 10 && "dd"@.len() == 2
        && "dt"@.len() == 2 && "td"@.len() == 2 && "th"@.len() == 2 && "caption"@.len() == 7
        && "h1"@.len() == 2 && "h2"@.len() == 2 && "h3"@.len() == 2 && "h4"@.len() == 2
        && "h5"@.len() == 2 && "h6"@.len() == 2 && "blockquote"@.len() == 10 && "head"@.len() == 4
        && "script"@.len() == 6 && "style"@.len() == 5 && "title"@.len() == 5 && "template"@.len() == 8
        && "img"@.len() == 3 && "image"@.len() == 5 && "math"@.len() == 4 && "sub"@.len() == 3
        && "sup"@.len() == 3 && "hr"@.len() == 2 && "ul"@.len() == 2 && "ol"@.len() == 2
        && "li"@.len() == 2 && "pre"@.len() == 3 && "br"@.len() == 2);
}

/// A block element of running text becomes one block. In a listing that is a line
/// of code with every character of the markup's text but those that break the
/// layout: indentation and every other run of spaces keep their length. Elsewhere
/// it is a block of the element's kind with white space collapsed.
#[verifier::rlimit(40)]
pub proof fn a_block_keeps_its_text(
    d: Seq<NodeView>,
    i: int,
    end: int,
    style: RunStyle,
    w: WalkView,
)
    requires
        0 <= i < end <= d.len(),
        d[i].kind == NodeKind::Element,
        is_text_block(d[i].name),
        if w.in_code {
            !is_gutter(d[i])
        } else {
            !is_listing(d[i])
        },
        all_run_along(d, i + 1, end, w.in_code),
    ensures
        ({
            let after = node_walked(d, i, end, style, w);
            &&& gains_block(
                w.flushed().blocks,
                after.blocks,
                if w.in_code {
                    KindView::Code
                } else {
                    block_kind_of(d[i].name)
                },
                if w.in_code {
                    unbroken(raw_text(d, i + 1, end))
                } else {
                    trim(flowing(d, i + 1, end))
                },
            )
            &&& after.current.len() == 0
            &&& after.in_code == w.in_code
            &&& after.lists == w.lists
            &&& after.base == w.base
        }),
{
    let n = d[i];
    lemma_block_names(n.name);
    a_block_that_ends_is_kept(w);
    let v = w.flushed().anchored(n.attribute("id"@));
    assert(starts_block(d, i, end, w.in_code));
    let kind = if w.in_code {
        KindView::Code
    } else {
        block_kind_of(n.name)
    };
    lemma_ended_twice(w, v);
    a_block_that_ends_is_kept(v);
    let inside = v.opened(kind);
    assert(node_walked(d, i, end, style, w) == plain_walked(d, i, end, style, v));
    running_text_is_kept(d, i + 1, end, style, inside);
    let done = range_walked(d, i + 1, end, style, inside);
    assert(inside.current.len() == 0);
    assert(runs_text(inside.current) =~= Seq::<char>::empty());
    assert(runs_text(done.current) =~= reading(d, i + 1, end, w.in_code));
    a_block_that_ends_is_kept(done);
    if !w.in_code {
        assert(kind != KindView::Code);
    }
}

/// The lines of a listing whose lines are block elements: the text of every one
/// that is not blank, with nothing left out but what breaks the layout.
pub open spec fn listing_lines(d: Seq<NodeView>, from: int, to: int) -> Seq<Seq<char>>
    decreases to - from,
{
    if from < 0 || from >= to || to > d.len() {
        Seq::empty()
    } else {
        let e = subtree_end(d, from, to);
        let line = unbroken(raw_text(d, from + 1, e));
        if d[from].kind == NodeKind::Element && !blank(line) {
            seq![line] + listing_lines(d, e, to)
        } else {
            listing_lines(d, e, to)
        }
    }
}

/// Nothing but block elements of running text, with blank text between them.
pub open spec fn are_lines(d: Seq<NodeView>, from: int, to: int) -> bool
    decreases to - from,
{
    if from < 0 || from >= to || to > d.len() {
        true
    } else {
        let e = subtree_end(d, from, to);
        &&& if d[from].kind == NodeKind::Element {
            is_text_block(d[from].name) && !is_gutter(d[from]) && all_run_along(
                d,
                from + 1,
                e,
                true,
            )
        } else {
            d[from].size <= 1 && (d[from].kind == NodeKind::Text ==> blank(
                unbroken(d[from].text),
            ))
        }
        &&& are_lines(d, e, to)
    }
}

/// Blocks that are the lines of a listing.
pub open spec fn are_code(blocks: Seq<BlockView>, lines: Seq<Seq<char>>) -> bool {
    &&& blocks.len() == lines.len()
    &&& forall|k: int|
        0 <= k < lines.len() ==> is_block(#[trigger] blocks[k], KindView::Code, lines[k])
}

proof fn lemma_blank_add(a: Seq<char>, b: Seq<char>)
    requires
        blank(a),
        blank(b),
    ensures
        blank(a + b),
{
    assert forall|i: int| 0 <= i < (a + b).len() implies is_white(#[trigger] (a + b)[i]) by {
        if i < a.len() {
            assert((a + b)[i] == a[i]);
        } else {
            assert((a + b)[i] == b[i - a.len()]);
        }
    }
}

/// The lines of a listing, from a walk whose open block is blank.
#[verifier::rlimit(40)]
proof fn lemma_lines(d: Seq<NodeView>, from: int, to: int, style: RunStyle, w: WalkView) -> (added:
    Seq<BlockView>)
    requires
        0 <= from <= to <= d.len(),
        w.in_code,
        blank(runs_text(w.current)),
        are_lines(d, from, to),
    ensures
        ({
            let after = range_walked(d, from, to, style, w);
            &&& after.blocks == w.blocks + added
            &&& are_code(added, listing_lines(d, from, to))
            &&& blank(runs_text(after.current))
            &&& after.in_code
            &&& after.lists == w.lists
            &&& after.base == w.base
        }),
    decreases to - from,
{
    if from >= to {
        assert(w.blocks + Seq::<BlockView>::empty() =~= w.blocks);
        Seq::empty()
    } else {
        let e = subtree_end(d, from, to);
        let mid = node_walked(d, from, e, style, w);
        if d[from].kind == NodeKind::Element {
            a_block_keeps_its_text(d, from, e, style, w);
            a_block_that_ends_is_kept(w);
            lemma_trim_empty(runs_text(w.current));
            assert(w.flushed().blocks == w.blocks);
            assert(runs_text(mid.current) =~= Seq::<char>::empty());
            let rest = lemma_lines(d, e, to, style, mid);
            let line = unbroken(raw_text(d, from + 1, e));
            if blank(line) {
                rest
            } else {
                let b = mid.blocks.last();
                assert(mid.blocks =~= w.blocks.push(b)) by {
                    assert(mid.blocks.take(w.blocks.len() as int) =~= w.blocks);
                    assert forall|k: int| 0 <= k < w.blocks.len() implies mid.blocks[k]
                        == w.blocks[k] by {
                        assert(mid.blocks.take(w.blocks.len() as int)[k] == mid.blocks[k]);
                    }
                }
                let added = seq![b] + rest;
                let lines = listing_lines(d, from, to);
                let after = range_walked(d, from, to, style, w);
                assert(after.blocks =~= w.blocks + added);
                assert forall|k: int| 0 <= k < lines.len() implies is_block(
                    #[trigger] added[k],
                    KindView::Code,
                    lines[k],
                ) by {
                    if k > 0 {
                        assert(added[k] == rest[k - 1]);
                        assert(lines[k] == listing_lines(d, e, to)[k - 1]);
                    }
                }
                added
            }
        } else {
            if d[from].kind == NodeKind::Text {
                let t = stripped(d[from].text);
                stripping_keeps_all_else(d[from].text);
                pushing_appends_the_text(w.current, t, style);
                lemma_blank_add(runs_text(w.current), t);
            }
            lemma_lines(d, e, to, style, mid)
        }
    }
}

/// A listing container whose lines are block elements becomes one block of code
/// per line that is not blank, in order, each with the text of its markup: only
/// what breaks the layout is missing, and every run of spaces keeps its length.
pub proof fn a_listing_keeps_its_lines(
    d: Seq<NodeView>,
    i: int,
    end: int,
    style: RunStyle,
    w: WalkView,
)
    requires
        0 <= i < end <= d.len(),
        d[i].kind == NodeKind::Element,
        !is_hidden(d[i].name),
        !w.in_code,
        is_listing(d[i]),
        are_lines(d, i + 1, end),
    ensures
        ({
            let after = node_walked(d, i, end, style, w);
            &&& exists|added: Seq<BlockView>|
                after.blocks == w.flushed().blocks + added && #[trigger] are_code(
                    added,
                    listing_lines(d, i + 1, end),
                )
            &&& !after.in_code
            &&& after.lists == w.lists
        }),
{
    let n = d[i];
    a_block_that_ends_is_kept(w);
    let v = w.flushed().anchored(n.attribute("id"@));
    assert(starts_block(d, i, end, w.in_code));
    lemma_ended_twice(w, v);
    a_block_that_ends_is_kept(v);
    let inside = WalkView { in_code: true, kind: KindView::Code, ..v.flushed() };
    assert(runs_text(inside.current) =~= Seq::<char>::empty());
    let added = lemma_lines(d, i + 1, end, style, inside);
    let done = range_walked(d, i + 1, end, style, inside);
    a_block_that_ends_is_kept(done);
    lemma_trim_empty(runs_text(done.current));
    assert(done.flushed().blocks == done.blocks);
    let after = node_walked(d, i, end, style, w);
    assert(after == (WalkView { in_code: false, ..done.flushed() }));
    assert(are_code(added, listing_lines(d, i + 1, end)));
}

/// A listing container of running text becomes one block of code with that text.
pub proof fn a_listing_keeps_its_text(
    d: Seq<NodeView>,
    i: int,
    end: int,
    style: RunStyle,
    w: WalkView,
)
    requires
        0 <= i < end <= d.len(),
        d[i].kind == NodeKind::Element,
        !is_hidden(d[i].name),
        !w.in_code,
        is_listing(d[i]),
        all_run_along(d, i + 1, end, true),
    ensures
        gains_block(
            w.flushed().blocks,
            node_walked(d, i, end, style, w).blocks,
            KindView::Code,
            unbroken(raw_text(d, i + 1, end)),
        ),
{
    let n = d[i];
    a_block_that_ends_is_kept(w);
    let v = w.flushed().anchored(n.attribute("id"@));
    assert(starts_block(d, i, end, w.in_code));
    lemma_ended_twice(w, v);
    a_block_that_ends_is_kept(v);
    let inside = WalkView { in_code: true, kind: KindView::Code, ..v.flushed() };
    assert(runs_text(inside.current) =~= Seq::<char>::empty());
    running_text_is_kept(d, i + 1, end, style, inside);
    let done = range_walked(d, i + 1, end, style, inside);
    assert(runs_text(done.current) =~= unbroken(raw_text(d, i + 1, end)));
    a_block_that_ends_is_kept(done);
    let after = node_walked(d, i, end, style, w);
    assert(after == (WalkView { in_code: false, ..done.flushed() }));
}

// ---------------------------------------------------------------------------
// Nothing is lost
// ---------------------------------------------------------------------------
/// The text of some blocks, one after the other.
pub open spec fn blocks_text(blocks: Seq<BlockView>) -> Seq<char>
    decreases blocks.len(),
{
    if blocks.len() == 0 {
        Seq::empty()
    } else {
        blocks_text(blocks.drop_last()) + blocks.last().plain()
    }
}

/// What a walk has put on the page so far, its white space aside.
pub open spec fn page(w: WalkView) -> Seq<char> {
    ink(blocks_text(w.blocks)) + ink(runs_text(w.current))
}

/// A node whose text is for the reader and is nothing but text.
pub open spec fn is_prose(n: NodeView) -> bool {
    if n.kind == NodeKind::Element {
        &&& !is_hidden(n.name) && !is_drawn(n.name) && !is_gutter(n)
        &&& n.name == "br"@ || n.name == "hr"@ ==> n.size <= 1
    } else {
        n.size <= 1
    }
}

pub open spec fn all_prose(d: Seq<NodeView>, from: int, to: int) -> bool {
    forall|k: int| from <= k < to ==> is_prose(#[trigger] d[k])
}

proof fn lemma_ink_empty()
    ensures
        ink(Seq::empty()) == Seq::<char>::empty(),
{
    lemma_no_ink(Seq::empty());
}

proof fn lemma_blocks_push(blocks: Seq<BlockView>, b: BlockView)
    ensures
        blocks_text(blocks.push(b)) == blocks_text(blocks) + b.plain(),
{
    assert(blocks.push(b).drop_last() =~= blocks);
}

/// Ending a block changes nothing on the page.
proof fn lemma_ended_page(w: WalkView)
    ensures
        page(w.flushed()) == page(w),
        w.flushed().current.len() == 0,
        ink(runs_text(w.flushed().current)) == Seq::<char>::empty(),
{
    let t = runs_text(w.current);
    let f = w.flushed();
    lemma_ink_empty();
    a_block_that_ends_is_kept(w);
    lemma_ink_trim(t);
    assert(runs_text(f.current) =~= Seq::<char>::empty());
    let text = if w.kind == KindView::Code {
        t
    } else {
        trim(t)
    };
    if blank(text) {
        lemma_no_ink(text);
        assert(page(f) =~= page(w));
    } else {
        let b = f.blocks.last();
        assert(f.blocks =~= w.blocks.push(b)) by {
            assert forall|k: int| 0 <= k < w.blocks.len() implies f.blocks[k] == w.blocks[k] by {
                assert(f.blocks.take(w.blocks.len() as int)[k] == f.blocks[k]);
            }
        }
        lemma_blocks_push(w.blocks, b);
        lemma_ink_add(blocks_text(w.blocks), text);
        assert(page(f) =~= page(w));
    }
}

proof fn lemma_written_page(w: WalkView, t: Seq<char>, style: RunStyle)
    ensures
        page(w.written(t, style)) == page(w) + ink(t),
{
    pushing_appends_the_text(w.current, t, style);
    lemma_ink_add(runs_text(w.current), t);
    assert(page(w.written(t, style)) =~= page(w) + ink(t));
}

/// Texts one after the other.
spec fn run_together(s: Seq<Seq<char>>) -> Seq<char>
    decreases s.len(),
{
    if s.len() == 0 {
        Seq::empty()
    } else {
        run_together(s.drop_last()) + s.last()
    }
}

proof fn lemma_split_ink(s: Seq<char>)
    ensures
        ink(run_together(split_at(s, '\n'))) == ink(s),
        split_at(s, '\n').len() >= 1,
    decreases s.len(),
{
    let parts = split_at(s, '\n');
    lemma_ink_empty();
    if s.len() == 0 {
        assert(parts.drop_last() =~= Seq::<Seq<char>>::empty());
        assert(run_together(parts.drop_last()) =~= Seq::<char>::empty());
        assert(run_together(parts) =~= Seq::<char>::empty());
        assert(s =~= Seq::<char>::empty());
    } else {
        let d = s.drop_last();
        let front = split_at(d, '\n');
        lemma_split_ink(d);
        lemma_ink_last(s);
        if s.last() == '\n' {
            assert(parts.drop_last() =~= front);
            assert(run_together(parts) =~= run_together(front));
        } else {
            let a = front.drop_last();
            let l = front.last();
            assert(parts.drop_last() =~= a);
            assert(run_together(parts) =~= run_together(front).push(s.last()));
            lemma_ink_push(run_together(front), s.last());
        }
    }
}

proof fn lemma_returns_ink(parts: Seq<Seq<char>>)
    ensures
        ink(run_together(parts.map_values(|p: Seq<char>| without_return(p)))) == ink(
            run_together(parts),
        ),
    decreases parts.len(),
{
    let cut = parts.map_values(|p: Seq<char>| without_return(p));
    if parts.len() > 0 {
        let d = parts.drop_last();
        let l = parts.last();
        lemma_returns_ink(d);
        assert(cut.drop_last() =~= d.map_values(|p: Seq<char>| without_return(p)));
        assert(cut.last() == without_return(l));
        lemma_ink_add(run_together(d), l);
        lemma_ink_add(run_together(cut.drop_last()), cut.last());
        if l.len() > 0 && l.last() == '\r' {
            lemma_ink_last(l);
            assert(without_return(l) =~= l.drop_last());
        } else {
            assert(without_return(l) =~= l);
        }
    } else {
        assert(cut =~= parts);
    }
}

proof fn lemma_lines_ink(s: Seq<char>)
    ensures
        ink(run_together(lines_of(s))) == ink(s),
{
    let parts = split_at(s, '\n');
    let d = parts.drop_last();
    let ended = d.map_values(|p: Seq<char>| without_return(p));
    lemma_split_ink(s);
    lemma_returns_ink(d);
    lemma_ink_add(run_together(d), parts.last());
    if parts.last().len() == 0 {
        lemma_ink_empty();
        assert(parts.last() =~= Seq::<char>::empty());
        assert(ink(s) =~= ink(run_together(d)));
    } else {
        assert(ended.push(parts.last()).drop_last() =~= ended);
        lemma_ink_add(run_together(ended), parts.last());
    }
}

/// A line of preformatted text is its text.
proof fn lemma_code_block(l: Seq<char>, style: RunStyle)
    ensures
        code_block(l, style).plain() == l,
        code_block(l, style).kind == KindView::Code,
{
    let e = Seq::<RunView>::empty();
    let s = both_styles(style, crate::epub::xhtml::code_style());
    let runs = runs_pushed(e, l, s);
    pushing_appends_the_text(e, l, s);
    dropping_empty_runs_keeps_the_text(runs);
    assert(runs_text(e) =~= Seq::<char>::empty());
    assert(runs_text(runs) =~= l);
    let kept = non_empty_runs(runs);
    if kept.len() == 0 {
        assert(runs_text(kept) =~= Seq::<char>::empty());
        let one = seq![RunView { text: Seq::<char>::empty(), style: crate::epub::xhtml::code_style() }];
        assert(one.drop_last() =~= e);
        assert(runs_text(one) =~= Seq::<char>::empty());
    }
}

proof fn lemma_code_blocks(before: Seq<BlockView>, s: Seq<Seq<char>>, style: RunStyle)
    ensures
        blocks_text(before + s.map_values(|l: Seq<char>| code_block(l, style))) == blocks_text(
            before,
        ) + run_together(s),
    decreases s.len(),
{
    let all = s.map_values(|l: Seq<char>| code_block(l, style));
    if s.len() == 0 {
        assert(before + all =~= before);
        assert(blocks_text(before) + run_together(s) =~= blocks_text(before));
    } else {
        let d = s.drop_last();
        lemma_code_blocks(before, d, style);
        lemma_code_block(s.last(), style);
        assert((before + all).drop_last() =~= before + d.map_values(
            |l: Seq<char>| code_block(l, style),
        ));
        assert((before + all).last() == code_block(s.last(), style));
        assert(blocks_text(before + all) =~= blocks_text(before) + run_together(s));
    }
}

/// Whatever the markup, no text of it is lost, doubled or put in another place: the
/// blocks and the open text hold what they held, and then the text of every text
/// node, in order.
pub proof fn no_text_is_lost(
    d: Seq<NodeView>,
    from: int,
    to: int,
    style: RunStyle,
    w: WalkView,
)
    requires
        0 <= from <= to <= d.len(),
        all_prose(d, from, to),
    ensures
        page(range_walked(d, from, to, style, w)) == page(w) + ink(raw_text(d, from, to)),
    decreases to - from, 2int,
{
    lemma_ink_empty();
    if from < to {
        let e = subtree_end(d, from, to);
        let mid = node_walked(d, from, e, style, w);
        lemma_node_kept(d, from, e, to, style, w);
        no_text_is_lost(d, e, to, style, mid);
        lemma_raw_split(d, from, e, to);
        lemma_ink_add(raw_text(d, from, e), raw_text(d, e, to));
        assert(page(range_walked(d, from, to, style, w)) =~= page(w) + ink(
            raw_text(d, from, to),
        ));
    } else {
        assert(raw_text(d, from, to) =~= Seq::<char>::empty());
        assert(page(w) + ink(raw_text(d, from, to)) =~= page(w));
    }
}

proof fn lemma_page_frame(a: WalkView, b: WalkView)
    requires
        a.blocks == b.blocks,
        a.current == b.current,
    ensures
        page(a) == page(b),
{
}

#[verifier::rlimit(40)]
proof fn lemma_node_kept(
    d: Seq<NodeView>,
    i: int,
    end: int,
    to: int,
    style: RunStyle,
    w: WalkView,
)
    requires
        0 <= i < end <= to <= d.len(),
        end == subtree_end(d, i, to),
        all_prose(d, i, to),
    ensures
        page(node_walked(d, i, end, style, w)) == page(w) + ink(raw_text(d, i, end)),
    decreases end - i, 1int,
{
    let n = d[i];
    assert(is_prose(d[i]));
    lemma_ink_empty();
    lemma_raw_split(d, i, i + 1, end);
    assert(raw_text(d, i, i) =~= Seq::<char>::empty());
    if n.kind == NodeKind::Text {
        assert(raw_text(d, i, end) =~= n.text);
        lemma_stripped_ink(n.text);
        collapsing_keeps_the_ink(n.text);
        let t = if w.in_code {
            stripped(n.text)
        } else {
            collapsed(n.text)
        };
        lemma_written_page(w, t, style);
    } else if n.kind != NodeKind::Element {
        assert(raw_text(d, i, end) =~= Seq::<char>::empty());
        assert(page(w) + ink(raw_text(d, i, end)) =~= page(w));
    } else {
        assert(raw_text(d, i, i + 1) =~= Seq::<char>::empty());
        assert(raw_text(d, i, end) =~= raw_text(d, i + 1, end));
        lemma_ended_page(w);
        let begun = if starts_block(d, i, end, w.in_code) {
            w.flushed()
        } else {
            w
        };
        let v = begun.anchored(n.attribute("id"@));
        lemma_page_frame(v, begun);
        assert(page(v) == page(w));
        lemma_element_kept(d, i, end, style, w, v);
    }
}

/// An element once its block, if it starts one, has ended and its target was
/// recorded.
#[verifier::rlimit(60)]
proof fn lemma_element_kept(
    d: Seq<NodeView>,
    i: int,
    end: int,
    style: RunStyle,
    before: WalkView,
    w: WalkView,
)
    requires
        0 <= i < end <= d.len(),
        all_prose(d, i, end),
        d[i].kind == NodeKind::Element,
        d[i].size <= 1 ==> end == i + 1,
        raw_text(d, i, end) == raw_text(d, i + 1, end),
        w == (if starts_block(d, i, end, before.in_code) {
            before.flushed()
        } else {
            before
        }).anchored(d[i].attribute("id"@)),
    ensures
        page(node_walked(d, i, end, style, before)) == page(w) + ink(raw_text(d, i, end)),
    decreases end - i, 0int,
{
    let n = d[i];
    let a = i + 1;
    let raw = raw_text(d, i, end);
    let result = node_walked(d, i, end, style, before);
    assert(is_prose(d[i]));
    lemma_ink_empty();
    lemma_ended_page(w);
    if !w.in_code && is_listing(n) {
        let inside = WalkView { in_code: true, kind: KindView::Code, ..w.flushed() };
        lemma_page_frame(inside, w.flushed());
        no_text_is_lost(d, a, end, style, inside);
        let done = range_walked(d, a, end, style, inside);
        lemma_ended_page(done);
        lemma_page_frame(result, done.flushed());
    } else if n.name == "br"@ {
        assert(raw =~= Seq::<char>::empty());
        reveal_strlit(" ");
        lemma_written_page(w, " "@, style);
        lemma_no_ink(" "@);
        assert(page(w) + ink(raw) =~= page(w));
        assert(page(w) + ink(" "@) =~= page(w));
    } else if n.name == "hr"@ {
        assert(raw =~= Seq::<char>::empty());
        let b = BlockView { kind: KindView::Rule, runs: Seq::<RunView>::empty() };
        lemma_blocks_push(w.flushed().blocks, b);
        assert(b.plain() =~= Seq::<char>::empty());
        assert(blocks_text(w.flushed().blocks) + b.plain() =~= blocks_text(w.flushed().blocks));
        assert(page(w) + ink(raw) =~= page(w));
    } else if n.name == "ul"@ || n.name == "ol"@ {
        let f = w.flushed();
        let inside = WalkView {
            lists: f.lists.push(
                ListState { ordered: n.name == "ol"@, next_ordinal: first_ordinal(n) },
            ),
            ..f
        };
        lemma_page_frame(inside, f);
        no_text_is_lost(d, a, end, style, inside);
        lemma_page_frame(result, range_walked(d, a, end, style, inside));
    } else if n.name == "li"@ {
        let counted = WalkView { lists: item_counted(w.lists), ..w };
        lemma_page_frame(counted, w);
        lemma_ended_page(counted);
        let inside = counted.opened(item_kind(w.lists));
        lemma_page_frame(inside, counted.flushed());
        no_text_is_lost(d, a, end, style, inside);
        lemma_ended_page(range_walked(d, a, end, style, inside));
    } else if n.name == "pre"@ {
        let f = w.flushed();
        let s = lines_of(raw);
        lemma_code_blocks(f.blocks, s, style);
        lemma_lines_ink(raw);
        lemma_ink_add(blocks_text(f.blocks), run_together(s));
        assert(page(result) =~= page(w) + ink(raw));
    } else {
        assert(result == plain_walked(d, i, end, style, w));
        if style_of_name(n.name) is Some {
            let inner = both_styles(style, style_of_name(n.name)->0);
            let fresh = WalkView { ended: false, ..w };
            lemma_page_frame(fresh, w);
            no_text_is_lost(d, a, end, inner, w);
            no_text_is_lost(d, a, end, inner, fresh);
            if link_target(n) is Some {
                lemma_page_frame(result, range_walked(d, a, end, inner, fresh));
            }
        } else if kind_of_name(n.name) is Some {
            let kind = if w.in_code {
                KindView::Code
            } else {
                kind_of_name(n.name)->0
            };
            let inside = w.opened(kind);
            lemma_page_frame(inside, w.flushed());
            no_text_is_lost(d, a, end, style, inside);
            lemma_ended_page(range_walked(d, a, end, style, inside));
        } else {
            no_text_is_lost(d, a, end, style, w);
        }
    }
}

/// A chapter holds the text of its body in full and in order.
pub proof fn a_chapter_holds_its_text(d: Seq<NodeView>, base: Seq<char>)
    requires
        d.len() > 0,
        0 <= body_of(d) < d.len(),
        all_prose(d, body_of(d) + 1, subtree_end(d, body_of(d), d.len() as int)),
    ensures
        ink(blocks_text(chapter_of(d, base).blocks)) == ink(
            raw_text(d, body_of(d) + 1, subtree_end(d, body_of(d), d.len() as int)),
        ),
{
    let a = body_of(d) + 1;
    let e = subtree_end(d, body_of(d), d.len() as int);
    let w = walk_begun(base);
    lemma_ink_empty();
    assert(blocks_text(w.blocks) =~= Seq::<char>::empty());
    assert(runs_text(w.current) =~= Seq::<char>::empty());
    no_text_is_lost(d, a, e, plain_style(), w);
    let done = range_walked(d, a, e, plain_style(), w);
    lemma_ended_page(done);
    assert(page(w) + ink(raw_text(d, a, e)) =~= ink(raw_text(d, a, e)));
    assert(page(done.flushed()) =~= ink(blocks_text(done.flushed().blocks)));
}

// ---------------------------------------------------------------------------
// Elements of their own
// ---------------------------------------------------------------------------
/// What is not for the reader leaves no trace, and neither does a gutter beside the
/// lines of a listing but for its link target.
pub proof fn hidden_content_stays_out(
    d: Seq<NodeView>,
    i: int,
    end: int,
    style: RunStyle,
    w: WalkView,
)
    requires
        0 <= i < end <= d.len(),
        d[i].kind == NodeKind::Element,
    ensures
        is_hidden(d[i].name) ==> node_walked(d, i, end, style, w) == w,
        w.in_code && is_gutter(d[i]) ==> same_place(w, node_walked(d, i, end, style, w))
            && node_walked(d, i, end, style, w).current == w.current,
{
}

/// Preformatted text becomes one block of code per line, each with all of its text.
pub proof fn preformatted_lines_are_kept(
    d: Seq<NodeView>,
    i: int,
    end: int,
    style: RunStyle,
    w: WalkView,
)
    requires
        0 <= i < end <= d.len(),
        d[i].kind == NodeKind::Element,
        d[i].name == "pre"@,
        w.in_code ==> !is_gutter(d[i]),
        !w.in_code ==> !is_listing(d[i]),
    ensures
        exists|added: Seq<BlockView>|
            node_walked(d, i, end, style, w).blocks == w.flushed().blocks + added
                && #[trigger] are_code(added, lines_of(raw_text(d, i, end))),
{
    lemma_list_names();
    let lines = lines_of(raw_text(d, i, end));
    let added = lines.map_values(|l: Seq<char>| code_block(l, style));
    let v = w.flushed().anchored(d[i].attribute("id"@));
    a_block_that_ends_is_kept(w);
    lemma_ended_twice(w, v);
    assert forall|k: int| 0 <= k < lines.len() implies is_block(
        #[trigger] added[k],
        KindView::Code,
        lines[k],
    ) by {
        lemma_code_block(lines[k], style);
    }
    assert(are_code(added, lines));
}

/// The names of the elements set apart are different.
proof fn lemma_list_names()
    ensures
        "br"@.len() == 2 && "hr"@.len() == 2 && "ul"@.len() == 2 && "ol"@.len() == 2 && "li"@.len()
            == 2,
        "br"@[0] == 'b' && "hr"@[0] == 'h' && "ul"@[0] == 'u' && "ol"@[0] == 'o' && "li"@[0] == 'l',
        "img"@.len() == 3 && "pre"@.len() == 3 && "img"@[0] == 'i' && "pre"@[0] == 'p',
        "image"@.len() == 5 && "image"@[0] == 'i',
        "math"@.len() == 4 && "math"@[0] == 'm',
        "head"@.len() == 4 && "head"@[0] == 'h',
        "script"@.len() == 6,
        "style"@.len() == 5 && "style"@[0] == 's',
        "title"@.len() == 5 && "title"@[0] == 't',
        "template"@.len() == 8,
{
    reveal_strlit("br");
    reveal_strlit("hr");
    reveal_strlit("ul");
    reveal_strlit("ol");
    reveal_strlit("li");
    reveal_strlit("img");
    reveal_strlit("pre");
    reveal_strlit("image");
    reveal_strlit("math");
    reveal_strlit("head");
    reveal_strlit("script");
    reveal_strlit("style");
    reveal_strlit("title");
    reveal_strlit("template");
}

/// A picture becomes a block of its own that names the file, resolved against the
/// chapter's directory, and reads as its description, or as that file's name where
/// there is none. A rule becomes a block of its own.
pub proof fn pictures_and_rules_stand_alone(
    d: Seq<NodeView>,
    i: int,
    end: int,
    style: RunStyle,
    w: WalkView,
)
    requires
        0 <= i < end <= d.len(),
        d[i].kind == NodeKind::Element,
        w.in_code ==> !is_gutter(d[i]),
        !w.in_code ==> !is_listing(d[i]),
    ensures
        d[i].name == "img"@ || d[i].name == "image"@ ==> ({
            let after = node_walked(d, i, end, style, w).blocks;
            let n = d[i];
            &&& after.len() == w.flushed().blocks.len() + 1
            &&& after.drop_last() == w.flushed().blocks
            &&& n.attribute("src"@) matches Some(s) ==> after.last().kind == (KindView::Image {
                src: Some(resolved(w.base, s)),
            })
            &&& after.last().kind is Image
            &&& n.attribute("alt"@) is Some && !blank(n.attribute("alt"@)->0)
                ==> after.last().plain() == trim(n.attribute("alt"@)->0)
            &&& (n.attribute("alt"@) is None || blank(n.attribute("alt"@)->0)) && n.attribute(
                "src"@,
            ) is Some ==> after.last().plain() == trim(resolved(w.base, n.attribute("src"@)->0))
        }),
        d[i].name == "hr"@ ==> node_walked(d, i, end, style, w).blocks == w.flushed().blocks.push(
            BlockView { kind: KindView::Rule, runs: Seq::empty() },
        ),
{
    lemma_list_names();
    let n = d[i];
    let v = w.flushed().anchored(n.attribute("id"@));
    a_block_that_ends_is_kept(w);
    lemma_ended_twice(w, v);
    if n.name == "img"@ || n.name == "image"@ {
        let b = image_block(n, v.base);
        assert(node_walked(d, i, end, style, w).blocks == w.flushed().blocks.push(b));
        assert(w.flushed().blocks.push(b).drop_last() =~= w.flushed().blocks);
        let e = Seq::<RunView>::empty();
        assert(runs_text(e) =~= Seq::<char>::empty());
        let alt = match n.attribute("alt"@) {
            Some(a) => trim(a),
            None => Seq::empty(),
        };
        if let Some(a) = n.attribute("alt"@) {
            lemma_trim_empty(a);
            lemma_trim_twice(a);
        }
        let src = match image_source(n) {
            Some(s) => Some(resolved(v.base, s)),
            None => None,
        };
        let label = if alt.len() > 0 {
            alt
        } else {
            match src {
                Some(s) => s,
                None => "image"@,
            }
        };
        pushing_appends_the_text(e, label, plain_style());
        finishing_trims_the_edges(runs_pushed(e, label, plain_style()));
        assert(runs_text(e) + label =~= label);
        assert(b.plain() == trim(label));
    }
}

proof fn lemma_trim_twice(s: Seq<char>)
    ensures
        trim(trim(s)) == trim(s),
{
    let t = trim(s);
    crate::text::lemma_skip_white(s, 0);
    let u = crate::text::trim_start(s);
    crate::text::lemma_keep_end(u, u.len() as int);
    if t.len() > 0 {
        assert(t[0] == u[0] && u[0] == s[crate::text::skip_white(s, 0)]);
        assert(crate::text::skip_white(t, 0) == 0);
        assert(crate::text::trim_start(t) =~= t);
        assert(t[t.len() - 1] == u[t.len() - 1]);
        assert(crate::text::keep_end(t, t.len() as int) == t.len());
    } else {
        lemma_trim_empty(t);
    }
}

/// A line break reads as a space, a formula as its line, and a raised or lowered
/// passage as its index; a displayed formula is a paragraph of its own.
pub proof fn what_is_drawn_is_written(
    d: Seq<NodeView>,
    i: int,
    end: int,
    style: RunStyle,
    w: WalkView,
)
    requires
        0 <= i < end <= d.len(),
        d[i].kind == NodeKind::Element,
        w.in_code ==> !is_gutter(d[i]),
        !w.in_code ==> !is_listing(d[i]),
    ensures
        d[i].name == "br"@ ==> runs_text(node_walked(d, i, end, style, w).current) == runs_text(
            w.current,
        ) + seq![' '] && node_walked(d, i, end, style, w).blocks == w.blocks,
        d[i].name == "math"@ && (d[i].attribute("display"@) != Some("block"@) || w.in_code) ==> ({
            let after = node_walked(d, i, end, style, w);
            runs_text(after.current) == runs_text(w.current) + formula(d, i, end) && after.blocks
                == w.blocks
        }),
        d[i].name == "math"@ && d[i].attribute("display"@) == Some("block"@) && !w.in_code
            && formula(d, i, end).len() > 0 ==> gains_block(
            w.flushed().blocks,
            node_walked(d, i, end, style, w).blocks,
            KindView::Paragraph,
            trim(formula(d, i, end)),
        ),
        d[i].name == "sub"@ && script_of(d, i, end, true) is Some ==> runs_text(
            node_walked(d, i, end, style, w).current,
        ) == runs_text(w.current) + script_of(d, i, end, true)->0,
        d[i].name == "sup"@ && script_of(d, i, end, false) is Some ==> runs_text(
            node_walked(d, i, end, style, w).current,
        ) == runs_text(w.current) + script_of(d, i, end, false)->0,
{
    lemma_list_names();
    lemma_index_names();
    let n = d[i];
    let v = w.anchored(n.attribute("id"@));
    reveal_strlit(" ");
    assert(" "@ =~= seq![' ']);
    pushing_appends_the_text(w.current, " "@, style);
    pushing_appends_the_text(w.current, formula(d, i, end), style);
    assert(runs_text(w.current) + Seq::<char>::empty() =~= runs_text(w.current));
    if script_of(d, i, end, true) is Some {
        pushing_appends_the_text(w.current, script_of(d, i, end, true)->0, style);
    }
    if script_of(d, i, end, false) is Some {
        pushing_appends_the_text(w.current, script_of(d, i, end, false)->0, style);
    }
    if n.name == "math"@ {
        assert(formula(d, i, end).len() == 0 ==> formula(d, i, end) =~= Seq::<char>::empty());
        if n.attribute("display"@) == Some("block"@) && !w.in_code && formula(d, i, end).len()
            > 0 {
            let f = w.flushed().anchored(n.attribute("id"@));
            a_block_that_ends_is_kept(w);
            lemma_ended_twice(w, f);
            a_block_that_ends_is_kept(f);
            let inside = f.opened(KindView::Paragraph);
            assert(runs_text(inside.current) =~= Seq::<char>::empty());
            pushing_appends_the_text(inside.current, formula(d, i, end), style);
            let done = inside.written(formula(d, i, end), style);
            assert(runs_text(done.current) =~= formula(d, i, end));
            a_block_that_ends_is_kept(done);
        }
    }
}

proof fn lemma_index_names()
    ensures
        "sub"@.len() == 3 && "sup"@.len() == 3 && "sub"@[2] == 'b' && "sup"@[2] == 'p' && "sub"@[0]
            == 's' && "sup"@[0] == 's',
        forall|name: Seq<char>|
            name == "sub"@ || name == "sup"@ || name == "br"@ || name == "math"@ ==> #[trigger]
                kind_of_name(name) is None && style_of_name(name) is None,
{
    reveal_strlit("sub");
    reveal_strlit("sup");
    lemma_list_names();
    lemma_style_names();
    reveal_strlit("p");
    reveal_strlit("div");
    reveal_strlit("section");
    reveal_strlit("article");
    reveal_strlit("header");
    reveal_strlit("footer");
    reveal_strlit("figcaption");
    reveal_strlit("dd");
    reveal_strlit("dt");
    reveal_strlit("td");
    reveal_strlit("th");
    reveal_strlit("caption");
    reveal_strlit("h1");
    reveal_strlit("h2");
    reveal_strlit("h3");
    reveal_strlit("h4");
    reveal_strlit("h5");
    reveal_strlit("h6");
    reveal_strlit("blockquote");
    assert("p"@.len() == 1 && "div"@.len() == 3 && "section"@.len() == 7 && "article"@.len() == 7
        && "header"@.len() == 6 && "footer"@.len() == 6 && "figcaption"@.len() == 10 && "dd"@.len()
        == 2 && "dt"@.len() == 2 && "td"@.len() == 2 && "th"@.len() == 2 && "caption"@.len() == 7
        && "h1"@.len() == 2 && "h2"@.len() == 2 && "h3"@.len() == 2 && "h4"@.len() == 2
        && "h5"@.len() == 2 && "h6"@.len() == 2 && "blockquote"@.len() == 10);
    assert("div"@[0] == 'd' && "dd"@[0] == 'd' && "dt"@[0] == 'd' && "td"@[0] == 't' && "th"@[0]
        == 't' && "h1"@[0] == 'h' && "h2"@[0] == 'h' && "h3"@[0] == 'h' && "h4"@[0] == 'h'
        && "h5"@[0] == 'h' && "h6"@[0] == 'h');
    assert("cite"@[0] == 'c' && "code"@[0] == 'c' && "samp"@[0] == 's') by {
        reveal_strlit("cite");
        reveal_strlit("code");
        reveal_strlit("samp");
    }
}

// ---------------------------------------------------------------------------
// Lists
// ---------------------------------------------------------------------------
/// The lists around a walk are the same, but for the number the innermost one has
/// come to.
pub open spec fn same_lists(a: Seq<ListState>, b: Seq<ListState>) -> bool {
    &&& a.len() == b.len()
    &&& forall|k: int| 0 <= k < a.len() - 1 ==> #[trigger] a[k] == b[k]
    &&& a.len() > 0 ==> a.last().ordered == b.last().ordered
}

proof fn lemma_same_lists(a: Seq<ListState>, b: Seq<ListState>, c: Seq<ListState>)
    requires
        same_lists(a, b),
        same_lists(b, c),
    ensures
        same_lists(a, c),
{
    assert forall|k: int| 0 <= k < a.len() - 1 implies #[trigger] a[k] == c[k] by {
        assert(b[k] == c[k]);
    }
}

/// Whatever an element holds, the walk comes back to the lists and to the listing it
/// was in.
pub proof fn a_walk_comes_back(
    d: Seq<NodeView>,
    from: int,
    to: int,
    style: RunStyle,
    w: WalkView,
)
    ensures
        same_lists(w.lists, range_walked(d, from, to, style, w).lists),
        range_walked(d, from, to, style, w).in_code == w.in_code,
        range_walked(d, from, to, style, w).base == w.base,
    decreases to - from, 2int,
{
    if 0 <= from < to && to <= d.len() {
        let e = subtree_end(d, from, to);
        let mid = node_walked(d, from, e, style, w);
        lemma_node_back(d, from, e, style, w);
        a_walk_comes_back(d, e, to, style, mid);
        lemma_same_lists(w.lists, mid.lists, range_walked(d, from, to, style, w).lists);
    }
}

#[verifier::rlimit(40)]
proof fn lemma_node_back(d: Seq<NodeView>, i: int, end: int, style: RunStyle, w: WalkView)
    requires
        0 <= i < end <= d.len(),
    ensures
        same_lists(w.lists, node_walked(d, i, end, style, w).lists),
        node_walked(d, i, end, style, w).in_code == w.in_code,
        node_walked(d, i, end, style, w).base == w.base,
    decreases end - i, 1int,
{
    let n = d[i];
    let a = i + 1;
    let begun = if starts_block(d, i, end, w.in_code) {
        w.flushed()
    } else {
        w
    };
    let v = begun.anchored(n.attribute("id"@));
    if n.kind == NodeKind::Element && !is_hidden(n.name) {
        if v.in_code && is_gutter(n) {
        } else if !v.in_code && is_listing(n) {
            let inside = WalkView { in_code: true, kind: KindView::Code, ..v.flushed() };
            a_walk_comes_back(d, a, end, style, inside);
        } else if n.name == "ul"@ || n.name == "ol"@ {
            let f = v.flushed();
            let inside = WalkView {
                lists: f.lists.push(
                    ListState { ordered: n.name == "ol"@, next_ordinal: first_ordinal(n) },
                ),
                ..f
            };
            a_walk_comes_back(d, a, end, style, inside);
            let after = range_walked(d, a, end, style, inside);
            assert(outer(after.lists) =~= f.lists) by {
                assert forall|k: int| 0 <= k < f.lists.len() implies after.lists[k]
                    == f.lists[k] by {
                    assert(inside.lists[k] == after.lists[k]);
                    assert(inside.lists[k] == f.lists[k]);
                }
            }
        } else if n.name == "li"@ {
            let counted = WalkView { lists: item_counted(v.lists), ..v };
            let inside = counted.opened(item_kind(v.lists));
            a_walk_comes_back(d, a, end, style, inside);
            assert(same_lists(v.lists, counted.lists));
            lemma_same_lists(
                v.lists,
                counted.lists,
                range_walked(d, a, end, style, inside).lists,
            );
        } else {
            lemma_plain_back(d, i, end, style, v);
        }
    }
}

proof fn lemma_plain_back(d: Seq<NodeView>, i: int, end: int, style: RunStyle, w: WalkView)
    requires
        0 <= i < end <= d.len(),
    ensures
        same_lists(w.lists, plain_walked(d, i, end, style, w).lists),
        plain_walked(d, i, end, style, w).in_code == w.in_code,
        plain_walked(d, i, end, style, w).base == w.base,
    decreases end - i, 0int,
{
    let n = d[i];
    let a = i + 1;
    if style_of_name(n.name) is Some {
        let inner = both_styles(style, style_of_name(n.name)->0);
        a_walk_comes_back(d, a, end, inner, w);
        a_walk_comes_back(d, a, end, inner, WalkView { ended: false, ..w });
    } else if kind_of_name(n.name) is Some {
        let kind = if w.in_code {
            KindView::Code
        } else {
            kind_of_name(n.name)->0
        };
        a_walk_comes_back(d, a, end, style, w.opened(kind));
    } else {
        a_walk_comes_back(d, a, end, style, w);
    }
}

/// An item of a list becomes one block that says how deep it stands and, in an
/// ordered list, its number; the next item gets the next number.
#[verifier::rlimit(40)]
pub proof fn items_are_numbered(
    d: Seq<NodeView>,
    i: int,
    end: int,
    style: RunStyle,
    w: WalkView,
)
    requires
        0 <= i < end <= d.len(),
        d[i].kind == NodeKind::Element,
        d[i].name == "li"@,
        !w.in_code,
        !is_listing(d[i]),
        all_run_along(d, i + 1, end, false),
        0 < w.lists.len() <= 256,
        w.lists.last().next_ordinal < usize::MAX,
    ensures
        ({
            let after = node_walked(d, i, end, style, w);
            let list = w.lists.last();
            let ordinal = if list.ordered {
                Some(list.next_ordinal)
            } else {
                None
            };
            &&& gains_block(
                w.flushed().blocks,
                after.blocks,
                KindView::ListItem { depth: (w.lists.len() - 1) as u8, ordinal },
                trim(flowing(d, i + 1, end)),
            )
            &&& after.lists.drop_last() == w.lists.drop_last()
            &&& after.lists.last().ordered == list.ordered
            &&& list.ordered ==> after.lists.last().next_ordinal == list.next_ordinal + 1
        }),
{
    lemma_list_names();
    let n = d[i];
    let v = w.flushed().anchored(n.attribute("id"@));
    a_block_that_ends_is_kept(w);
    let counted = WalkView { lists: item_counted(v.lists), ..v };
    lemma_ended_twice(w, counted);
    a_block_that_ends_is_kept(counted);
    let inside = counted.opened(item_kind(v.lists));
    assert(runs_text(inside.current) =~= Seq::<char>::empty());
    running_text_is_kept(d, i + 1, end, style, inside);
    let done = range_walked(d, i + 1, end, style, inside);
    assert(runs_text(done.current) =~= flowing(d, i + 1, end));
    a_block_that_ends_is_kept(done);
    assert((w.lists.len() - 1) % 256 == w.lists.len() - 1);
    let after = node_walked(d, i, end, style, w);
    assert(after.lists == item_counted(w.lists));
    assert(item_counted(w.lists).drop_last() =~= w.lists.drop_last());
}

// ---------------------------------------------------------------------------
// Links and their targets
// ---------------------------------------------------------------------------
/// A link of running text covers exactly that text, in its block, and leads where
/// the markup says; a link without text is none.
pub proof fn a_link_covers_its_text(
    d: Seq<NodeView>,
    i: int,
    end: int,
    style: RunStyle,
    w: WalkView,
    href: Seq<char>,
)
    requires
        0 <= i < end <= d.len(),
        d[i].kind == NodeKind::Element,
        d[i].name == "a"@,
        d[i].attribute("href"@) == Some(href),
        !blank(href),
        all_run_along(d, i, end, w.in_code),
        (runs_text(w.current) + reading(d, i, end, w.in_code)).len() <= usize::MAX,
    ensures
        ({
            let after = node_walked(d, i, end, style, w);
            let inner = range_walked(
                d,
                i + 1,
                end,
                both_styles(style, RunStyle { link: true, ..plain_style() }),
                WalkView { ended: false, ..w.anchored(d[i].attribute("id"@)) },
            );
            let start = runs_text(w.current).len() as int;
            if reading(d, i, end, w.in_code).len() > 0 {
                after.links == inner.links.push(
                    LinkView {
                        block: w.blocks.len() as int,
                        start,
                        end: start + reading(d, i, end, w.in_code).len(),
                        target: trim(href),
                    },
                )
            } else {
                after.links == inner.links
            }
        }),
{
    let n = d[i];
    let code = w.in_code;
    assert(runs_along(d[i], code));
    lemma_style_names();
    assert(style_of_name(n.name) == Some(RunStyle { link: true, ..plain_style() }));
    assert(kind_of_name(n.name) is None);
    assert(!starts_block(d, i, end, code));
    let v = w.anchored(n.attribute("id"@));
    let style_in = both_styles(style, RunStyle { link: true, ..plain_style() });
    let fresh = WalkView { ended: false, ..v };
    running_text_is_kept(d, i + 1, end, style_in, fresh);
    lemma_reading_one(d, i, code);
    lemma_reading_split(d, i, i + 1, end, code);
    assert(reading(d, i, end, code) =~= reading(d, i + 1, end, code));
    let inner = range_walked(d, i + 1, end, style_in, fresh);
    assert(node_walked(d, i, end, style, w) == plain_walked(d, i, end, style, v));
    assert(node_walked(d, i, end, style, w) == linked(v, inner, trim(href)));
}

/// Link targets are only ever added: none that was recorded is forgotten, and the
/// target of every element that is for the reader is recorded.
pub proof fn targets_are_recorded(
    d: Seq<NodeView>,
    i: int,
    end: int,
    style: RunStyle,
    w: WalkView,
    id: Seq<char>,
)
    requires
        0 <= i < end <= d.len(),
    ensures
        w.anchors.contains_key(id) ==> node_walked(d, i, end, style, w).anchors.contains_key(id),
        d[i].kind == NodeKind::Element && !is_hidden(d[i].name) && d[i].attribute("id"@) == Some(
            id,
        ) ==> node_walked(d, i, end, style, w).anchors.contains_key(id),
    decreases end - i, 1int,
{
    let n = d[i];
    let a = i + 1;
    let begun = if starts_block(d, i, end, w.in_code) {
        w.flushed()
    } else {
        w
    };
    let v = begun.anchored(n.attribute("id"@));
    if n.kind == NodeKind::Element && !is_hidden(n.name) {
        assert(w.anchors.contains_key(id) ==> v.anchors.contains_key(id));
        if v.in_code && is_gutter(n) {
        } else if !v.in_code && is_listing(n) {
            let inside = WalkView { in_code: true, kind: KindView::Code, ..v.flushed() };
            lemma_targets(d, a, end, style, inside, id);
        } else if n.name == "ul"@ || n.name == "ol"@ {
            let f = v.flushed();
            let inside = WalkView {
                lists: f.lists.push(
                    ListState { ordered: n.name == "ol"@, next_ordinal: first_ordinal(n) },
                ),
                ..f
            };
            lemma_targets(d, a, end, style, inside, id);
        } else if n.name == "li"@ {
            let counted = WalkView { lists: item_counted(v.lists), ..v };
            lemma_targets(d, a, end, style, counted.opened(item_kind(v.lists)), id);
        } else {
            lemma_plain_targets(d, i, end, style, v, id);
        }
    }
}

proof fn lemma_plain_targets(
    d: Seq<NodeView>,
    i: int,
    end: int,
    style: RunStyle,
    w: WalkView,
    id: Seq<char>,
)
    requires
        0 <= i < end <= d.len(),
    ensures
        w.anchors.contains_key(id) ==> plain_walked(d, i, end, style, w).anchors.contains_key(id),
    decreases end - i, 0int,
{
    let n = d[i];
    let a = i + 1;
    if style_of_name(n.name) is Some {
        let inner = both_styles(style, style_of_name(n.name)->0);
        lemma_targets(d, a, end, inner, w, id);
        lemma_targets(d, a, end, inner, WalkView { ended: false, ..w }, id);
    } else if kind_of_name(n.name) is Some {
        let kind = if w.in_code {
            KindView::Code
        } else {
            kind_of_name(n.name)->0
        };
        lemma_targets(d, a, end, style, w.opened(kind), id);
    } else {
        lemma_targets(d, a, end, style, w, id);
    }
}

proof fn lemma_targets(
    d: Seq<NodeView>,
    from: int,
    to: int,
    style: RunStyle,
    w: WalkView,
    id: Seq<char>,
)
    ensures
        w.anchors.contains_key(id) ==> range_walked(d, from, to, style, w).anchors.contains_key(id),
    decreases to - from, 2int,
{
    if 0 <= from < to && to <= d.len() {
        let e = subtree_end(d, from, to);
        targets_are_recorded(d, from, e, style, w, id);
        lemma_targets(d, e, to, style, node_walked(d, from, e, style, w), id);
    }
}

/// A target points at where its element's content begins, and the first of two with
/// one name wins.
pub proof fn a_target_points_at_its_content(w: WalkView, id: Seq<char>)
    requires
        w.blocks.len() <= usize::MAX,
        runs_text(w.current).len() <= usize::MAX,
    ensures
        !w.anchors.contains_key(id) ==> w.anchored(Some(id)).anchors[id] == (
            w.blocks.len() as usize,
            runs_text(w.current).len() as usize,
        ),
        w.anchors.contains_key(id) ==> w.anchored(Some(id)).anchors == w.anchors,
{
}

} // verus!
