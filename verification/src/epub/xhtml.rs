//! Turns a chapter's XHTML into a flat list of blocks.
//!
//! EPUB requires chapter documents to be well-formed XML, so an XML parser
//! carries almost all of the load and we avoid pulling in a full HTML5 parser.
//! Measured across a large library, all but one chapter in a hundred parses; the
//! rest carry genuinely broken markup, such as `<strong><code></strong></code>`,
//! which no XML parser can accept. Those are reported to the caller.

pub mod laws;

use vstd::prelude::*;
use super::mathml::{formula, render_within, script_of, script_text};
use super::space::{collapse_whitespace, collapsed, strip_invisibles, stripped};
use crate::doc::{
    block_views, both_styles, clipped, link_views, non_empty_runs, plain_style,
    pushing_appends_the_text, run_views, runs_finished, runs_pushed, runs_text, Block, BlockKind,
    BlockView, KindView, Link, LinkView, Run, RunBuilder, RunStyle, RunView,
};
use crate::failure::Failure;
use crate::paths::{resolve, resolved};
use crate::table::{lemma_values, Table};
use crate::text::{
    ascii_lowered, blank, char_views, chars_are, chars_of, copy_text, is_blank_text, leading_white,
    lemma_skip_white, lines, lines_of, lower_ascii_all, number_value, read_number, replace,
    replaced, same, skip_white, text_of, text_opt, trim, trimmed, words, words_of,
};
use crate::xml::{
    find_named, parsed_xml, raw_text, root_of, slice_opt, subtree_end, Document, Node, NodeKind,
    NodeView,
};

verus! {

// ---------------------------------------------------------------------------
// Names
// ---------------------------------------------------------------------------
/// Elements whose content never reaches the reader.
pub open spec fn is_skipped(name: Seq<char>) -> bool {
    name == "head"@
        || name == "script"@
        || name == "style"@
        || name == "title"@
        || name == "template"@
}

fn skips(name: &str) -> (r: bool)
    ensures
        r == is_skipped(name@),
{
    same(name, "head")
        || same(name, "script")
        || same(name, "style")
        || same(name, "title")
        || same(name, "template")
}

/// Class names that mark a code listing.
///
/// `<pre>` is the tag for it, but few books use it. Pragmatic Bookshelf titles,
/// for one, wrap listings in `<div class="code">` and put every line in its own
/// `<p>`; others build them as tables of class `processedcode`, one row per
/// line, with a number cell beside the code cell. Without recognising that, code
/// arrives as prose: indentation collapsed and a blank line between every line
/// of it.
pub open spec fn is_code_class(name: Seq<char>) -> bool {
    name == "code"@
        || name == "codeblock"@
        || name == "listing"@
        || name == "programlisting"@
        || name == "processedcode"@
        || name == "sourcecode"@
        || name == "source-code"@
        || name == "highlight"@
        || name == "terminal"@
        || name == "console"@
        || name == "screen"@
}

/// Cells that carry line numbers or gutter marks rather than code. Their content
/// is not part of the listing.
pub open spec fn is_gutter_class(name: Seq<char>) -> bool {
    name == "codeinfo"@
        || name == "codeprefix"@
        || name == "lineno"@
        || name == "linenos"@
        || name == "linenum"@
        || name == "linenumber"@
        || name == "gutter"@
}

fn code_class(name: &Vec<char>) -> (r: bool)
    ensures
        r == is_code_class(name@),
{
    chars_are(name, "code")
        || chars_are(name, "codeblock")
        || chars_are(name, "listing")
        || chars_are(name, "programlisting")
        || chars_are(name, "processedcode")
        || chars_are(name, "sourcecode")
        || chars_are(name, "source-code")
        || chars_are(name, "highlight")
        || chars_are(name, "terminal")
        || chars_are(name, "console")
        || chars_are(name, "screen")
}

fn gutter_class(name: &Vec<char>) -> (r: bool)
    ensures
        r == is_gutter_class(name@),
{
    chars_are(name, "codeinfo")
        || chars_are(name, "codeprefix")
        || chars_are(name, "lineno")
        || chars_are(name, "linenos")
        || chars_are(name, "linenum")
        || chars_are(name, "linenumber")
        || chars_are(name, "gutter")
}

/// The class names of an element, in small letters.
pub open spec fn classes_of(n: NodeView) -> Seq<Seq<char>> {
    match n.attribute("class"@) {
        Some(c) => words_of(ascii_lowered(c)),
        None => Seq::empty(),
    }
}

/// A listing container.
pub open spec fn is_listing(n: NodeView) -> bool {
    exists|i: int| 0 <= i < classes_of(n).len() && is_code_class(#[trigger] classes_of(n)[i])
}

/// A cell beside the code of a listing.
pub open spec fn is_gutter(n: NodeView) -> bool {
    exists|i: int| 0 <= i < classes_of(n).len() && is_gutter_class(#[trigger] classes_of(n)[i])
}

fn node_classes(n: &Node) -> (r: Vec<Vec<char>>)
    ensures
        char_views(r@) == classes_of(n@),
{
    match n.attribute("class") {
        Some(c) => {
            let v = chars_of(c);
            let lower = lower_ascii_all(&v);
            words(&lower)
        },
        None => {
            let r: Vec<Vec<char>> = Vec::new();
            assert(char_views(r@) =~= Seq::<Seq<char>>::empty());
            r
        },
    }
}

fn is_code_container(n: &Node) -> (r: bool)
    ensures
        r == is_listing(n@),
{
    let names = node_classes(n);
    let ghost all = classes_of(n@);
    let mut i: usize = 0;
    while i < names.len()
        invariant
            i <= names@.len(),
            char_views(names@) == all,
            all == classes_of(n@),
            forall|k: int| 0 <= k < i ==> !is_code_class(#[trigger] all[k]),
        decreases names@.len() - i,
    {
        assert(all[i as int] == names@[i as int]@);
        if code_class(&names[i]) {
            assert(is_code_class(classes_of(n@)[i as int]));
            return true;
        }
        i += 1;
    }
    false
}

fn is_gutter_cell(n: &Node) -> (r: bool)
    ensures
        r == is_gutter(n@),
{
    let names = node_classes(n);
    let ghost all = classes_of(n@);
    let mut i: usize = 0;
    while i < names.len()
        invariant
            i <= names@.len(),
            char_views(names@) == all,
            all == classes_of(n@),
            forall|k: int| 0 <= k < i ==> !is_gutter_class(#[trigger] all[k]),
        decreases names@.len() - i,
    {
        assert(all[i as int] == names@[i as int]@);
        if gutter_class(&names[i]) {
            assert(is_gutter_class(classes_of(n@)[i as int]));
            return true;
        }
        i += 1;
    }
    false
}

/// Elements that hold a paragraph.
pub open spec fn is_paragraph_name(name: Seq<char>) -> bool {
    name == "p"@
        || name == "div"@
        || name == "section"@
        || name == "article"@
        || name == "header"@
        || name == "footer"@
        || name == "figcaption"@
        || name == "dd"@
        || name == "dt"@
        || name == "td"@
        || name == "th"@
        || name == "caption"@
}

/// Block-level elements and the block kind they produce.
pub open spec fn kind_of_name(name: Seq<char>) -> Option<KindView> {
    if name == "h1"@ {
        Some(KindView::Heading(1))
    } else if name == "h2"@ {
        Some(KindView::Heading(2))
    } else if name == "h3"@ {
        Some(KindView::Heading(3))
    } else if name == "h4"@ {
        Some(KindView::Heading(4))
    } else if name == "h5"@ {
        Some(KindView::Heading(5))
    } else if name == "h6"@ {
        Some(KindView::Heading(6))
    } else if is_paragraph_name(name) {
        Some(KindView::Paragraph)
    } else if name == "blockquote"@ {
        Some(KindView::Quote)
    } else if name == "pre"@ {
        Some(KindView::Code)
    } else {
        None
    }
}

pub open spec fn kind_opt(o: Option<BlockKind>) -> Option<KindView> {
    match o {
        Some(k) => Some(k@),
        None => None,
    }
}

/// Block-level elements and the block kind they produce.
pub fn block_kind(name: &str) -> (r: Option<BlockKind>)
    ensures
        kind_opt(r) == kind_of_name(name@),
{
    if same(name, "h1") {
        Some(BlockKind::Heading(1))
    } else if same(name, "h2") {
        Some(BlockKind::Heading(2))
    } else if same(name, "h3") {
        Some(BlockKind::Heading(3))
    } else if same(name, "h4") {
        Some(BlockKind::Heading(4))
    } else if same(name, "h5") {
        Some(BlockKind::Heading(5))
    } else if same(name, "h6") {
        Some(BlockKind::Heading(6))
    } else if same(name, "p")
        || same(name, "div")
        || same(name, "section")
        || same(name, "article")
        || same(name, "header")
        || same(name, "footer")
        || same(name, "figcaption")
        || same(name, "dd")
        || same(name, "dt")
        || same(name, "td")
        || same(name, "th")
        || same(name, "caption")
    {
        Some(BlockKind::Paragraph)
    } else if same(name, "blockquote") {
        Some(BlockKind::Quote)
    } else if same(name, "pre") {
        Some(BlockKind::Code)
    } else {
        None
    }
}

/// The styling that code gets.
pub open spec fn code_style() -> RunStyle {
    RunStyle { code: true, ..plain_style() }
}

/// Elements that style the text inside them.
pub open spec fn style_of_name(name: Seq<char>) -> Option<RunStyle> {
    if name == "b"@ || name == "strong"@ {
        Some(RunStyle { bold: true, ..plain_style() })
    } else if name == "i"@ || name == "em"@ || name == "cite"@ || name == "dfn"@ || name == "var"@ {
        Some(RunStyle { italic: true, ..plain_style() })
    } else if name == "code"@ || name == "kbd"@ || name == "samp"@ || name == "tt"@ {
        Some(code_style())
    } else if name == "a"@ {
        Some(RunStyle { link: true, ..plain_style() })
    } else {
        None
    }
}

/// Elements that style the text inside them.
pub fn inline_style(name: &str) -> (r: Option<RunStyle>)
    ensures
        r == style_of_name(name@),
{
    let plain = RunStyle { bold: false, italic: false, code: false, link: false };
    if same(name, "b") || same(name, "strong") {
        Some(RunStyle { bold: true, ..plain })
    } else if same(name, "i") || same(name, "em") || same(name, "cite") || same(name, "dfn") || same(
        name,
        "var",
    ) {
        Some(RunStyle { italic: true, ..plain })
    } else if same(name, "code") || same(name, "kbd") || same(name, "samp") || same(name, "tt") {
        Some(RunStyle { code: true, ..plain })
    } else if same(name, "a") {
        Some(RunStyle { link: true, ..plain })
    } else {
        None
    }
}

/// Replaces named HTML entities that XML does not define. Entities declared in a
/// document's own internal subset are left to the parser; this only covers the
/// common ones that EPUB files use without declaring them. `&amp;`, `&lt;`,
/// `&gt;`, `&quot;` and `&apos;` are left to the parser too.
pub open spec fn entities_resolved(s: Seq<char>) -> Seq<char> {
    let s = replaced(s, "&nbsp;"@, "\u{00a0}"@);
    let s = replaced(s, "&ndash;"@, "\u{2013}"@);
    let s = replaced(s, "&mdash;"@, "\u{2014}"@);
    let s = replaced(s, "&lsquo;"@, "\u{2018}"@);
    let s = replaced(s, "&rsquo;"@, "\u{2019}"@);
    let s = replaced(s, "&ldquo;"@, "\u{201c}"@);
    let s = replaced(s, "&rdquo;"@, "\u{201d}"@);
    let s = replaced(s, "&hellip;"@, "\u{2026}"@);
    let s = replaced(s, "&copy;"@, "\u{00a9}"@);
    let s = replaced(s, "&reg;"@, "\u{00ae}"@);
    let s = replaced(s, "&trade;"@, "\u{2122}"@);
    let s = replaced(s, "&deg;"@, "\u{00b0}"@);
    let s = replaced(s, "&middot;"@, "\u{00b7}"@);
    let s = replaced(s, "&bull;"@, "\u{2022}"@);
    let s = replaced(s, "&dagger;"@, "\u{2020}"@);
    let s = replaced(s, "&eacute;"@, "\u{00e9}"@);
    let s = replaced(s, "&egrave;"@, "\u{00e8}"@);
    let s = replaced(s, "&auml;"@, "\u{00e4}"@);
    let s = replaced(s, "&ouml;"@, "\u{00f6}"@);
    let s = replaced(s, "&uuml;"@, "\u{00fc}"@);
    let s = replaced(s, "&Auml;"@, "\u{00c4}"@);
    let s = replaced(s, "&Ouml;"@, "\u{00d6}"@);
    let s = replaced(s, "&Uuml;"@, "\u{00dc}"@);
    let s = replaced(s, "&szlig;"@, "\u{00df}"@);
    let s = replaced(s, "&euro;"@, "\u{20ac}"@);
    let s = replaced(s, "&pound;"@, "\u{00a3}"@);
    let s = replaced(s, "&times;"@, "\u{00d7}"@);
    let s = replaced(s, "&frac12;"@, "\u{00bd}"@);
    let s = replaced(s, "&thinsp;"@, "\u{2009}"@);
    let s = replaced(s, "&shy;"@, "\u{00ad}"@);
    let s = replaced(s, "&ensp;"@, "\u{2002}"@);
    let s = replaced(s, "&emsp;"@, "\u{2003}"@);
    s
}

/// Replaces the named entities that XML does not define.
pub fn resolve_named_entities(xml: &str) -> (r: String)
    ensures
        r@ == entities_resolved(xml@),
{
    let v = chars_of(xml);
    let v = replace(&v, "&nbsp;", "\u{00a0}");
    let v = replace(&v, "&ndash;", "\u{2013}");
    let v = replace(&v, "&mdash;", "\u{2014}");
    let v = replace(&v, "&lsquo;", "\u{2018}");
    let v = replace(&v, "&rsquo;", "\u{2019}");
    let v = replace(&v, "&ldquo;", "\u{201c}");
    let v = replace(&v, "&rdquo;", "\u{201d}");
    let v = replace(&v, "&hellip;", "\u{2026}");
    let v = replace(&v, "&copy;", "\u{00a9}");
    let v = replace(&v, "&reg;", "\u{00ae}");
    let v = replace(&v, "&trade;", "\u{2122}");
    let v = replace(&v, "&deg;", "\u{00b0}");
    let v = replace(&v, "&middot;", "\u{00b7}");
    let v = replace(&v, "&bull;", "\u{2022}");
    let v = replace(&v, "&dagger;", "\u{2020}");
    let v = replace(&v, "&eacute;", "\u{00e9}");
    let v = replace(&v, "&egrave;", "\u{00e8}");
    let v = replace(&v, "&auml;", "\u{00e4}");
    let v = replace(&v, "&ouml;", "\u{00f6}");
    let v = replace(&v, "&uuml;", "\u{00fc}");
    let v = replace(&v, "&Auml;", "\u{00c4}");
    let v = replace(&v, "&Ouml;", "\u{00d6}");
    let v = replace(&v, "&Uuml;", "\u{00dc}");
    let v = replace(&v, "&szlig;", "\u{00df}");
    let v = replace(&v, "&euro;", "\u{20ac}");
    let v = replace(&v, "&pound;", "\u{00a3}");
    let v = replace(&v, "&times;", "\u{00d7}");
    let v = replace(&v, "&frac12;", "\u{00bd}");
    let v = replace(&v, "&thinsp;", "\u{2009}");
    let v = replace(&v, "&shy;", "\u{00ad}");
    let v = replace(&v, "&ensp;", "\u{2002}");
    let v = replace(&v, "&emsp;", "\u{2003}");
    text_of(&v)
}

// ---------------------------------------------------------------------------
// The walk
// ---------------------------------------------------------------------------
#[derive(Debug, Clone, Copy, PartialEq, Eq, Structural)]
pub struct ListState {
    pub ordered: bool,
    pub next_ordinal: usize,
}

/// Collects blocks while a chapter is walked.
pub struct Walker {
    /// Directory of the chapter, for resolving image paths.
    pub base: String,
    pub blocks: Vec<Block>,
    pub current: RunBuilder,
    /// Kind the buffered text belongs to. A nested list must not turn the text
    /// of its enclosing list item into a paragraph, so the kind travels with the
    /// buffer instead of being passed at flush time.
    pub current_kind: BlockKind,
    /// The enclosing lists, outermost first.
    pub lists: Vec<ListState>,
    /// Inside a code container whitespace is significant and every block becomes
    /// a code line.
    pub in_code: bool,
    /// A block ended since the innermost open link began.
    pub ended: bool,
    pub links: Vec<Link>,
    pub anchors: Table<(usize, usize)>,
}

#[verifier::ext_equal]
pub struct WalkView {
    pub base: Seq<char>,
    pub blocks: Seq<BlockView>,
    pub current: Seq<RunView>,
    pub kind: KindView,
    pub lists: Seq<ListState>,
    pub in_code: bool,
    pub ended: bool,
    pub links: Seq<LinkView>,
    pub anchors: Map<Seq<char>, (usize, usize)>,
}

impl View for Walker {
    type V = WalkView;

    open spec fn view(&self) -> WalkView {
        WalkView {
            base: self.base@,
            blocks: block_views(self.blocks@),
            current: self.current@,
            kind: self.current_kind@,
            lists: self.lists@,
            in_code: self.in_code,
            ended: self.ended,
            links: link_views(self.links@),
            anchors: self.anchors@,
        }
    }
}

/// A walk that has seen nothing yet.
pub open spec fn walk_begun(base: Seq<char>) -> WalkView {
    WalkView {
        base,
        blocks: Seq::empty(),
        current: Seq::empty(),
        kind: KindView::Paragraph,
        lists: Seq::empty(),
        in_code: false,
        ended: false,
        links: Seq::empty(),
        anchors: Map::empty(),
    }
}

/// Nothing but white space was collected.
pub open spec fn all_blank(runs: Seq<RunView>) -> bool {
    forall|i: int| 0 <= i < runs.len() ==> blank((#[trigger] runs[i]).text)
}

/// Where a place in the collected text lies once `lead` characters are dropped
/// in front and `len` are left.
pub open spec fn placed(at: int, lead: int, len: int) -> int {
    if at <= lead {
        0
    } else if at - lead > len {
        len
    } else {
        at - lead
    }
}

/// A link, once its block ended.
pub open spec fn link_settled(l: LinkView, block: int, lead: int, len: int) -> LinkView {
    if l.block == block {
        LinkView { start: placed(l.start, lead, len), end: placed(l.end, lead, len), ..l }
    } else {
        l
    }
}

/// The links, once a block ended. One that covers no text any more is dropped.
pub open spec fn links_settled(links: Seq<LinkView>, block: int, lead: int, len: int) -> Seq<
    LinkView,
>
    decreases links.len(),
{
    if links.len() == 0 {
        links
    } else {
        let front = links_settled(links.drop_last(), block, lead, len);
        let l = link_settled(links.last(), block, lead, len);
        if l.start < l.end {
            front.push(l)
        } else {
            front
        }
    }
}

/// A link target, once its block ended.
pub open spec fn anchor_settled(a: (usize, usize), block: int, lead: int, len: int) -> (
    usize,
    usize,
) {
    if a.0 == block {
        (a.0, placed(a.1 as int, lead, len) as usize)
    } else {
        a
    }
}

pub open spec fn anchors_settled(
    anchors: Map<Seq<char>, (usize, usize)>,
    block: int,
    lead: int,
    len: int,
) -> Map<Seq<char>, (usize, usize)> {
    anchors.map_values(|a: (usize, usize)| anchor_settled(a, block, lead, len))
}

/// How much text a block has to point into. The one past the last is still open.
pub open spec fn room(blocks: Seq<BlockView>, current: Seq<RunView>, block: int) -> int {
    if block < blocks.len() {
        blocks[block].plain().len() as int
    } else {
        clipped(runs_text(current).len() as int)
    }
}

pub open spec fn link_fits(blocks: Seq<BlockView>, current: Seq<RunView>, l: LinkView) -> bool {
    &&& 0 <= l.block <= blocks.len()
    &&& 0 <= l.start < l.end <= room(blocks, current, l.block)
}

pub open spec fn anchor_fits(
    blocks: Seq<BlockView>,
    current: Seq<RunView>,
    a: (usize, usize),
) -> bool {
    a.0 <= blocks.len() && a.1 <= room(blocks, current, a.0 as int)
}

/// A link does not end behind another.
pub open spec fn ends_by(a: LinkView, b: LinkView) -> bool {
    a.block < b.block || (a.block == b.block && a.end <= b.end)
}

/// Every link covers text, links come in the order in which they end, and every
/// link target lies within its block.
#[verifier::opaque]
pub open spec fn all_fit(
    blocks: Seq<BlockView>,
    current: Seq<RunView>,
    links: Seq<LinkView>,
    anchors: Map<Seq<char>, (usize, usize)>,
) -> bool {
    &&& forall|i: int| 0 <= i < links.len() ==> link_fits(blocks, current, #[trigger] links[i])
    &&& forall|i: int, j: int|
        0 <= i < j < links.len() ==> ends_by(#[trigger] links[i], #[trigger] links[j])
    &&& forall|k: Seq<char>|
        anchors.contains_key(k) ==> anchor_fits(blocks, current, #[trigger] anchors[k])
}

impl WalkView {
    /// Characters collected in the open block.
    pub open spec fn count(self) -> int {
        clipped(runs_text(self.current).len() as int)
    }

    /// The runs of the open block once it ends. A code line keeps its leading
    /// spaces: that is its indentation.
    pub open spec fn ended_runs(self) -> Seq<RunView> {
        if self.kind == KindView::Code {
            non_empty_runs(self.current)
        } else {
            runs_finished(self.current)
        }
    }

    /// Whether the open block holds text and is kept.
    pub open spec fn kept(self) -> bool {
        !all_blank(self.current) && self.ended_runs().len() > 0
    }

    /// White space that is dropped in front of the open block's text.
    pub open spec fn lead(self) -> int {
        if self.kind == KindView::Code {
            0
        } else {
            skip_white(runs_text(self.current), 0)
        }
    }

    /// Characters that are left of the open block's text.
    pub open spec fn left(self) -> int {
        if self.kept() {
            runs_text(self.ended_runs()).len() as int
        } else {
            0
        }
    }

    /// Ends the current block, discarding it when it holds no text. What points
    /// into it moves along with the text.
    pub open spec fn flushed(self) -> WalkView {
        let block = self.blocks.len() as int;
        WalkView {
            blocks: if self.kept() {
                self.blocks.push(BlockView { kind: self.kind, runs: self.ended_runs() })
            } else {
                self.blocks
            },
            current: Seq::empty(),
            kind: KindView::Paragraph,
            ended: true,
            links: links_settled(self.links, block, self.lead(), self.left()),
            anchors: anchors_settled(self.anchors, block, self.lead(), self.left()),
            ..self
        }
    }

    /// Ends the current block and opens one of the given kind.
    pub open spec fn opened(self, kind: KindView) -> WalkView {
        WalkView { kind, ..self.flushed() }
    }

    pub open spec fn written(self, text: Seq<char>, style: RunStyle) -> WalkView {
        WalkView { current: runs_pushed(self.current, text, style), ..self }
    }

    pub open spec fn with_block(self, block: BlockView) -> WalkView {
        WalkView { blocks: self.blocks.push(block), ..self }
    }

    /// Records a link target, unless the same one was seen before.
    pub open spec fn anchored(self, id: Option<Seq<char>>) -> WalkView {
        match id {
            Some(id) => if self.anchors.contains_key(id) {
                self
            } else {
                WalkView {
                    anchors: self.anchors.insert(
                        id,
                        (self.blocks.len() as usize, self.count() as usize),
                    ),
                    ..self
                }
            },
            None => self,
        }
    }
}

/// Where an image lies, as its element says. `xlink:href` covers SVG's
/// `<image>`, which some books use.
pub open spec fn image_source(n: NodeView) -> Option<Seq<char>> {
    match n.attribute("src"@) {
        Some(s) => Some(s),
        None => match n.qualified("http://www.w3.org/1999/xlink"@, "href"@) {
            Some(s) => Some(s),
            None => n.attribute("href"@),
        },
    }
}

/// The block an image becomes. Its text is the alt text, or the path where there
/// is none.
pub open spec fn image_block(n: NodeView, base: Seq<char>) -> BlockView {
    let src = match image_source(n) {
        Some(s) => Some(resolved(base, s)),
        None => None,
    };
    let alt = match n.attribute("alt"@) {
        Some(a) => trim(a),
        None => Seq::empty(),
    };
    let label = if alt.len() > 0 {
        alt
    } else {
        match src {
            Some(s) => s,
            None => "image"@,
        }
    };
    BlockView {
        kind: KindView::Image { src },
        runs: runs_finished(runs_pushed(Seq::empty(), label, plain_style())),
    }
}

/// One source line of preformatted text. Its leading spaces are its indentation.
pub open spec fn code_block(line: Seq<char>, style: RunStyle) -> BlockView {
    let runs = non_empty_runs(runs_pushed(Seq::empty(), line, both_styles(style, code_style())));
    BlockView {
        kind: KindView::Code,
        runs: if runs.len() == 0 {
            seq![RunView { text: Seq::empty(), style: code_style() }]
        } else {
            runs
        },
    }
}

/// The first number of an ordered list.
pub open spec fn first_ordinal(n: NodeView) -> usize {
    match n.attribute("start"@) {
        Some(s) => match number_value(trim(s)) {
            Some(v) => if v <= usize::MAX {
                v as usize
            } else {
                1
            },
            None => 1,
        },
        None => 1,
    }
}

/// The kind of a list item, and the lists after it took its number.
pub open spec fn item_kind(lists: Seq<ListState>) -> KindView {
    let depth = if lists.len() == 0 {
        0int
    } else {
        lists.len() - 1
    };
    KindView::ListItem {
        depth: (depth % 256) as u8,
        ordinal: if lists.len() > 0 && lists.last().ordered {
            Some(lists.last().next_ordinal)
        } else {
            None
        },
    }
}

pub open spec fn item_counted(lists: Seq<ListState>) -> Seq<ListState> {
    if lists.len() > 0 && lists.last().ordered {
        let n = lists.last().next_ordinal;
        lists.drop_last().push(
            ListState {
                ordered: true,
                next_ordinal: if n == usize::MAX {
                    0
                } else {
                    (n + 1) as usize
                },
            },
        )
    } else {
        lists
    }
}

/// The lists around the innermost one.
pub open spec fn outer(lists: Seq<ListState>) -> Seq<ListState> {
    if lists.len() == 0 {
        lists
    } else {
        lists.drop_last()
    }
}

/// The target of a link, when the element is one.
pub open spec fn link_target(n: NodeView) -> Option<Seq<char>> {
    match n.attribute("href"@) {
        Some(h) => if n.name == "a"@ && !blank(h) {
            Some(trim(h))
        } else {
            None
        },
        None => None,
    }
}

/// Where the text of a link begins that was opened in `before`. A block that
/// ended since took the text in front of it along.
pub open spec fn link_start(before: WalkView, after: WalkView) -> int {
    if after.ended {
        0
    } else {
        before.count()
    }
}

/// A link over the text written since `before`. One that spans a block boundary
/// cannot be addressed as one range, so it is left out.
pub open spec fn linked(before: WalkView, after: WalkView, target: Seq<char>) -> WalkView {
    let start = link_start(before, after);
    let ended = before.ended || after.ended;
    if after.count() > start && before.blocks.len() == after.blocks.len() {
        WalkView {
            ended,
            links: after.links.push(
                LinkView { block: before.blocks.len() as int, start, end: after.count(), target },
            ),
            ..after
        }
    } else {
        WalkView { ended, ..after }
    }
}

/// Whether an element ends the block in front of it, so that its content begins
/// in the next one.
pub open spec fn starts_block(d: Seq<NodeView>, i: int, end: int, in_code: bool) -> bool {
    let n = d[i];
    if in_code && is_gutter(n) {
        false
    } else if !in_code && is_listing(n) {
        true
    } else if n.name == "math"@ {
        !in_code && n.attribute("display"@) == Some("block"@) && formula(d, i, end).len() > 0
    } else {
        is_set_apart(n.name) || (kind_of_name(n.name) is Some && style_of_name(n.name) is None)
    }
}

/// Elements other than the plain text blocks that end the block in front of them.
pub open spec fn is_set_apart(name: Seq<char>) -> bool {
    name == "hr"@ || name == "img"@ || name == "image"@ || name == "ul"@ || name == "ol"@ || name
        == "li"@ || name == "pre"@
}

/// Siblings from `from` up to `to`, one after the other.
pub open spec fn range_walked(
    d: Seq<NodeView>,
    from: int,
    to: int,
    style: RunStyle,
    w: WalkView,
) -> WalkView
    decreases to - from, 2int,
{
    if from < 0 || from >= to || to > d.len() {
        w
    } else {
        let e = subtree_end(d, from, to);
        range_walked(d, e, to, style, node_walked(d, from, e, style, w))
    }
}

/// One node with its subtree, which ends before `end`.
pub open spec fn node_walked(
    d: Seq<NodeView>,
    i: int,
    end: int,
    style: RunStyle,
    w: WalkView,
) -> WalkView
    decreases end - i, 1int,
{
    if i < 0 || i >= end || end > d.len() {
        w
    } else {
        let n = d[i];
        let a = i + 1;
        if n.kind == NodeKind::Text {
            // Inside a listing, spaces carry meaning and must survive.
            w.written(
                if w.in_code {
                    stripped(n.text)
                } else {
                    collapsed(n.text)
                },
                style,
            )
        } else if n.kind != NodeKind::Element || is_skipped(n.name) {
            w
        } else {
            // An id is a link target. Recorded before the element's content, so
            // it points at where that content begins.
            let begun = if starts_block(d, i, end, w.in_code) {
                w.flushed()
            } else {
                w
            };
            let w = begun.anchored(n.attribute("id"@));
            if w.in_code && is_gutter(n) {
                w
            } else if !w.in_code && is_listing(n) {
                // A listing container turns everything inside it into code.
                let inside = WalkView { in_code: true, kind: KindView::Code, ..w.flushed() };
                let after = range_walked(d, a, end, style, inside).flushed();
                WalkView { in_code: false, ..after }
            } else if n.name == "br"@ {
                w.written(" "@, style)
            } else if n.name == "hr"@ {
                w.flushed().with_block(BlockView { kind: KindView::Rule, runs: Seq::empty() })
            } else if n.name == "img"@ || n.name == "image"@ {
                w.flushed().with_block(image_block(n, w.base))
            } else if n.name == "ul"@ || n.name == "ol"@ {
                // Flushing keeps the enclosing list item's own text intact.
                let f = w.flushed();
                let inside = WalkView {
                    lists: f.lists.push(
                        ListState { ordered: n.name == "ol"@, next_ordinal: first_ordinal(n) },
                    ),
                    ..f
                };
                let after = range_walked(d, a, end, style, inside);
                WalkView { lists: outer(after.lists), ..after }
            } else if n.name == "li"@ {
                let counted = WalkView { lists: item_counted(w.lists), ..w };
                range_walked(d, a, end, style, counted.opened(item_kind(w.lists))).flushed()
            } else if n.name == "pre"@ {
                let f = w.flushed();
                WalkView {
                    blocks: f.blocks + lines_of(raw_text(d, i, end)).map_values(
                        |l: Seq<char>| code_block(l, style),
                    ),
                    ..f
                }
            } else if n.name == "math"@ {
                // A displayed formula gets a block of its own, the way the book
                // sets it off from the prose; an inline one joins the running
                // text, and so does one inside a listing.
                let text = formula(d, i, end);
                if text.len() == 0 {
                    w
                } else if n.attribute("display"@) == Some("block"@) && !w.in_code {
                    w.opened(KindView::Paragraph).written(text, style).flushed()
                } else {
                    w.written(text, style)
                }
            } else {
                plain_walked(d, i, end, style, w)
            }
        }
    }
}

/// An element without a meaning of its own beyond styling or a block.
pub open spec fn plain_walked(
    d: Seq<NodeView>,
    i: int,
    end: int,
    style: RunStyle,
    w: WalkView,
) -> WalkView
    decreases end - i, 0int,
{
    if i < 0 || i >= end || end > d.len() {
        w
    } else {
        let n = d[i];
        let a = i + 1;
        let script = script_of(d, i, end, n.name == "sub"@);
        if (n.name == "sub"@ || n.name == "sup"@) && script is Some {
            // A marker that carries a link is left to the normal walk, so the
            // link survives. Everything else is set as an index.
            w.written(script->0, style)
        } else if style_of_name(n.name) is Some {
            let inner = both_styles(style, style_of_name(n.name)->0);
            match link_target(n) {
                Some(target) => {
                    let fresh = WalkView { ended: false, ..w };
                    linked(w, range_walked(d, a, end, inner, fresh), target)
                },
                None => range_walked(d, a, end, inner, w),
            }
        } else if kind_of_name(n.name) is Some {
            // Inside a listing every block is a line of code, whatever tag the
            // book used for it.
            let kind = if w.in_code {
                KindView::Code
            } else {
                kind_of_name(n.name)->0
            };
            range_walked(d, a, end, style, w.opened(kind)).flushed()
        } else {
            // Unknown element: keep its text, do not open a block.
            range_walked(d, a, end, style, w)
        }
    }
}

fn start_ordinal(n: &Node) -> (r: usize)
    ensures
        r == first_ordinal(n@),
{
    match n.attribute("start") {
        Some(s) => {
            let v = chars_of(s);
            let t = trimmed(&v);
            let limit: u64 = usize::MAX as u64;
            assert(limit == usize::MAX);
            match read_number(&t, limit) {
                Some(n) => n as usize,
                None => 1,
            }
        },
        None => 1,
    }
}

proof fn lemma_pushed_block(s: Seq<Block>, b: Block)
    ensures
        block_views(s.push(b)) == block_views(s).push(b@),
{
    assert(block_views(s.push(b)) =~= block_views(s).push(b@));
}

proof fn lemma_settled(links: Seq<LinkView>, block: int, lead: int, len: int)
    requires
        0 <= lead,
        0 <= len,
        forall|i: int, j: int|
            0 <= i < j < links.len() ==> ends_by(#[trigger] links[i], #[trigger] links[j]),
    ensures
        forall|i: int|
            0 <= i < links_settled(links, block, lead, len).len() ==> {
                let l = #[trigger] links_settled(links, block, lead, len)[i];
                l.start < l.end && exists|j: int|
                    0 <= j < links.len() && l == link_settled(#[trigger] links[j], block, lead, len)
            },
        forall|i: int, j: int|
            0 <= i < j < links_settled(links, block, lead, len).len() ==> ends_by(
                #[trigger] links_settled(links, block, lead, len)[i],
                #[trigger] links_settled(links, block, lead, len)[j],
            ),
    decreases links.len(),
{
    let r = links_settled(links, block, lead, len);
    if links.len() > 0 {
        let d = links.drop_last();
        let front = links_settled(d, block, lead, len);
        assert forall|i: int, j: int| 0 <= i < j < d.len() implies ends_by(
            #[trigger] d[i],
            #[trigger] d[j],
        ) by {
            assert(d[i] == links[i] && d[j] == links[j]);
        }
        lemma_settled(d, block, lead, len);
        assert forall|i: int| 0 <= i < r.len() implies (#[trigger] r[i]).start < r[i].end && exists|
            j: int,
        |
            0 <= j < links.len() && r[i] == link_settled(#[trigger] links[j], block, lead, len) by {
            if i < front.len() {
                assert(r[i] == front[i]);
                let j = choose|j: int|
                    0 <= j < d.len() && front[i] == link_settled(#[trigger] d[j], block, lead, len);
                assert(d[j] == links[j]);
            } else {
                assert(r[i] == link_settled(links[links.len() - 1], block, lead, len));
            }
        }
        assert forall|i: int, j: int| 0 <= i < j < r.len() implies ends_by(
            #[trigger] r[i],
            #[trigger] r[j],
        ) by {
            assert(r[i] == front[i]);
            if j < front.len() {
                assert(r[j] == front[j]);
            } else {
                let k = choose|k: int|
                    0 <= k < d.len() && front[i] == link_settled(#[trigger] d[k], block, lead, len);
                assert(d[k] == links[k]);
                assert(ends_by(links[k], links[links.len() - 1]));
            }
        }
    }
}

/// Ending a block leaves everything in place that pointed into it.
proof fn lemma_flushed_fits(w: WalkView)
    requires
        all_fit(w.blocks, w.current, w.links, w.anchors),
    ensures
        all_fit(w.flushed().blocks, w.flushed().current, w.flushed().links, w.flushed().anchors),
{
    reveal(all_fit);
    let f = w.flushed();
    let n = w.blocks.len() as int;
    lemma_skip_white(runs_text(w.current), 0);
    lemma_settled(w.links, n, w.lead(), w.left());
    assert forall|b: int| 0 <= b < n implies room(f.blocks, f.current, b) == room(
        w.blocks,
        w.current,
        b,
    ) by {
        assert(f.blocks[b] == w.blocks[b]);
    }
    assert(room(f.blocks, f.current, n) == w.left());
    assert forall|i: int| 0 <= i < f.links.len() implies link_fits(
        f.blocks,
        f.current,
        #[trigger] f.links[i],
    ) by {
        let j = choose|j: int|
            0 <= j < w.links.len() && f.links[i] == link_settled(
                #[trigger] w.links[j],
                n,
                w.lead(),
                w.left(),
            );
        assert(link_fits(w.blocks, w.current, w.links[j]));
    }
    assert forall|k: Seq<char>| f.anchors.contains_key(k) implies anchor_fits(
        f.blocks,
        f.current,
        #[trigger] f.anchors[k],
    ) by {
        assert(anchor_fits(w.blocks, w.current, w.anchors[k]));
    }
}

/// More text in the open block leaves everything in place.
proof fn lemma_written_fits(w: WalkView, text: Seq<char>, style: RunStyle)
    requires
        all_fit(w.blocks, w.current, w.links, w.anchors),
    ensures
        all_fit(w.blocks, w.written(text, style).current, w.links, w.anchors),
{
    reveal(all_fit);
    pushing_appends_the_text(w.current, text, style);
    let c = w.written(text, style).current;
    assert forall|b: int| 0 <= b <= w.blocks.len() implies room(w.blocks, w.current, b) <= room(
        w.blocks,
        c,
        b,
    ) by {}
    assert forall|i: int| 0 <= i < w.links.len() implies link_fits(
        w.blocks,
        c,
        #[trigger] w.links[i],
    ) by {
        assert(link_fits(w.blocks, w.current, w.links[i]));
    }
    assert forall|k: Seq<char>| w.anchors.contains_key(k) implies anchor_fits(
        w.blocks,
        c,
        #[trigger] w.anchors[k],
    ) by {
        assert(anchor_fits(w.blocks, w.current, w.anchors[k]));
    }
}

/// A finished block added while none is open leaves everything in place.
proof fn lemma_block_fits(w: WalkView, block: BlockView)
    requires
        w.current.len() == 0,
        all_fit(w.blocks, w.current, w.links, w.anchors),
    ensures
        all_fit(w.blocks.push(block), w.current, w.links, w.anchors),
{
    reveal(all_fit);
    let n = w.blocks.len() as int;
    let b = w.blocks.push(block);
    assert(room(w.blocks, w.current, n) == 0);
    assert forall|i: int| 0 <= i < w.links.len() implies link_fits(
        b,
        w.current,
        #[trigger] w.links[i],
    ) by {
        assert(link_fits(w.blocks, w.current, w.links[i]));
        assert(b[w.links[i].block] == w.blocks[w.links[i].block]);
    }
    assert forall|k: Seq<char>| w.anchors.contains_key(k) implies anchor_fits(
        b,
        w.current,
        #[trigger] w.anchors[k],
    ) by {
        assert(anchor_fits(w.blocks, w.current, w.anchors[k]));
        if w.anchors[k].0 < n {
            assert(b[w.anchors[k].0 as int] == w.blocks[w.anchors[k].0 as int]);
        }
    }
}

/// Moves a place in the collected text to where it lies in the finished block.
fn place(at: usize, lead: usize, len: usize) -> (r: usize)
    ensures
        r == placed(at as int, lead as int, len as int),
{
    if at <= lead {
        0
    } else if at - lead > len {
        len
    } else {
        at - lead
    }
}

fn settle_links(links: &Vec<Link>, block: usize, lead: usize, len: usize) -> (r: Vec<Link>)
    ensures
        link_views(r@) == links_settled(
            link_views(links@),
            block as int,
            lead as int,
            len as int,
        ),
{
    let ghost views = link_views(links@);
    let mut out: Vec<Link> = Vec::new();
    let mut i: usize = 0;
    assert(link_views(out@) =~= views.take(0));
    while i < links.len()
        invariant
            i <= links@.len(),
            views == link_views(links@),
            link_views(out@) == links_settled(
                views.take(i as int),
                block as int,
                lead as int,
                len as int,
            ),
        decreases links@.len() - i,
    {
        let ghost before = link_views(out@);
        let target = links[i].target.clone();
        let link = if links[i].block == block {
            Link {
                block,
                start: place(links[i].start, lead, len),
                end: place(links[i].end, lead, len),
                target,
            }
        } else {
            Link { block: links[i].block, start: links[i].start, end: links[i].end, target }
        };
        assert(link@ =~= link_settled(views[i as int], block as int, lead as int, len as int));
        i += 1;
        assert(views.take(i as int).drop_last() =~= views.take(i - 1));
        if link.start < link.end {
            out.push(link);
            assert(link_views(out@) =~= before.push(link@));
        }
    }
    assert(views.take(views.len() as int) =~= views);
    out
}

fn settle_anchors(
    anchors: &Table<(usize, usize)>,
    block: usize,
    lead: usize,
    len: usize,
) -> (r: Table<(usize, usize)>)
    requires
        anchors.wf(),
    ensures
        r.wf(),
        r@ == anchors_settled(anchors@, block as int, lead as int, len as int),
{
    let ghost g = |a: (usize, usize)| anchor_settled(a, block as int, lead as int, len as int);
    let mut entries: Vec<(String, (usize, usize))> = Vec::new();
    let mut i: usize = 0;
    while i < anchors.entries.len()
        invariant
            i <= anchors.entries@.len(),
            entries@.len() == i,
            g == |a: (usize, usize)| anchor_settled(a, block as int, lead as int, len as int),
            forall|k: int|
                0 <= k < i ==> (#[trigger] entries@[k]).0@ == anchors.entries@[k].0@
                    && entries@[k].1 == g(anchors.entries@[k].1),
        decreases anchors.entries@.len() - i,
    {
        let at = anchors.entries[i].1;
        let settled = if at.0 == block {
            (at.0, place(at.1, lead, len))
        } else {
            at
        };
        entries.push((anchors.entries[i].0.clone(), settled));
        i += 1;
    }
    proof {
        lemma_values(anchors.entries@, entries@, g);
    }
    Table { entries }
}

/// Tells whether an element ends the block in front of it.
fn begins_block(d: &Document, i: usize, end: usize, in_code: bool) -> (r: bool)
    requires
        i < end <= d@.len(),
    ensures
        r == starts_block(d@, i as int, end as int, in_code),
{
    let n = &d.nodes[i];
    assert(d@[i as int] == n@);
    let name: &str = n.name.as_str();
    if in_code && is_gutter_cell(n) {
        return false;
    }
    if !in_code && is_code_container(n) {
        return true;
    }
    if same(name, "math") {
        let displayed = match n.attribute("display") {
            Some(v) => same(v, "block"),
            None => false,
        };
        return !in_code && displayed && render_within(d, i, end).len() > 0;
    }
    same(name, "hr") || same(name, "img") || same(name, "image") || same(name, "ul") || same(
        name,
        "ol",
    ) || same(name, "li") || same(name, "pre") || (block_kind(name).is_some() && inline_style(
        name,
    ).is_none())
}

impl Walker {
    /// Names occur once, and what points into a block lies within it.
    pub open spec fn wf(&self) -> bool {
        self.anchors.wf() && all_fit(self@.blocks, self@.current, self@.links, self@.anchors)
    }

    pub fn new(base: String) -> (r: Self)
        ensures
            r.wf(),
            r@ == walk_begun(base@),
    {
        let r = Walker {
            base,
            blocks: Vec::new(),
            current: RunBuilder::new(),
            current_kind: BlockKind::Paragraph,
            lists: Vec::new(),
            in_code: false,
            ended: false,
            links: Vec::new(),
            anchors: Table::new(),
        };
        assert(r@ =~= walk_begun(base@));
        proof {
            reveal(all_fit);
        }
        r
    }

    /// Ends the current block, discarding it when it holds no text.
    pub fn flush(&mut self)
        requires
            old(self).wf(),
        ensures
            final(self).wf(),
            final(self)@ == old(self)@.flushed(),
    {
        proof {
            lemma_flushed_fits(self@);
        }
        let block = self.blocks.len();
        let text = self.current.collected();
        let mut builder = RunBuilder::new();
        std::mem::swap(&mut builder, &mut self.current);
        let mut kind = BlockKind::Paragraph;
        std::mem::swap(&mut kind, &mut self.current_kind);
        let is_code = match kind {
            BlockKind::Code => true,
            _ => false,
        };
        let lead: usize = if is_code {
            0
        } else {
            leading_white(&text)
        };
        let mut left: usize = 0;
        if !builder.is_blank() {
            let runs = if is_code {
                builder.finish_verbatim()
            } else {
                builder.finish()
            };
            if runs.len() > 0 {
                let block = Block { kind, runs };
                left = block.plain_chars().len();
                proof {
                    lemma_pushed_block(self.blocks@, block);
                }
                self.blocks.push(block);
            }
        }
        assert(left == old(self)@.left());
        self.ended = true;
        self.links = settle_links(&self.links, block, lead, left);
        self.anchors = settle_anchors(&self.anchors, block, lead, left);
        assert(self@ =~= old(self)@.flushed());
    }

    /// Ends the current block and opens one of the given kind.
    pub fn open(&mut self, kind: BlockKind)
        requires
            old(self).wf(),
        ensures
            final(self).wf(),
            final(self)@ == old(self)@.opened(kind@),
    {
        self.flush();
        self.current_kind = kind;
    }

    fn write(&mut self, text: &Vec<char>, style: RunStyle)
        requires
            old(self).wf(),
        ensures
            final(self).wf(),
            final(self)@ == old(self)@.written(text@, style),
    {
        proof {
            lemma_written_fits(self@, text@, style);
        }
        let s = text_of(text);
        self.current.push(&s, style);
    }

    fn anchor(&mut self, id: Option<&str>)
        requires
            old(self).wf(),
        ensures
            final(self).wf(),
            final(self)@ == old(self)@.anchored(slice_opt(id)),
    {
        if let Some(id) = id {
            if self.anchors.find(id).is_none() {
                proof {
                    reveal(all_fit);
                }
                let at = (self.blocks.len(), self.current.char_count());
                self.anchors.insert(copy_text(id), at);
            }
        }
    }

    fn walk_range(&mut self, d: &Document, from: usize, to: usize, style: RunStyle)
        requires
            old(self).wf(),
            from <= to <= d@.len(),
        ensures
            final(self).wf(),
            final(self)@ == range_walked(d@, from as int, to as int, style, old(self)@),
        decreases to - from, 3int,
    {
        if from < to {
            let e = d.end_of(from, to);
            self.walk(d, from, e, style);
            self.walk_range(d, e, to, style);
        }
    }

    /// Writes a formula. A displayed one gets a block of its own, the way the
    /// book sets it off from the prose; an inline one joins the running text.
    fn push_math(&mut self, d: &Document, i: usize, end: usize, style: RunStyle)
        requires
            old(self).wf(),
            i < end <= d@.len(),
        ensures
            final(self).wf(),
            final(self)@ == ({
                let w = old(self)@;
                let text = formula(d@, i as int, end as int);
                if text.len() == 0 {
                    w
                } else if d@[i as int].attribute("display"@) == Some("block"@) && !w.in_code {
                    w.opened(KindView::Paragraph).written(text, style).flushed()
                } else {
                    w.written(text, style)
                }
            }),
    {
        let text = render_within(d, i, end);
        if text.len() == 0 {
            return;
        }
        assert(d@[i as int] == d.nodes@[i as int]@);
        let displayed = match d.nodes[i].attribute("display") {
            Some(v) => same(v, "block"),
            None => false,
        };
        if displayed && !self.in_code {
            self.open(BlockKind::Paragraph);
            self.write(&text, style);
            self.flush();
            return;
        }
        self.write(&text, style);
    }

    fn push_image(&mut self, n: &Node)
        requires
            old(self).wf(),
        ensures
            final(self).wf(),
            final(self)@ == old(self)@.flushed().with_block(image_block(n@, old(self)@.base)),
    {
        let source = match n.attribute("src") {
            Some(s) => Some(s),
            None => match n.qualified("http://www.w3.org/1999/xlink", "href") {
                Some(s) => Some(s),
                None => n.attribute("href"),
            },
        };
        let src = match source {
            Some(s) => Some(resolve(&self.base, s)),
            None => None,
        };
        let alt: Vec<char> = match n.attribute("alt") {
            Some(a) => {
                let v = chars_of(a);
                trimmed(&v)
            },
            None => Vec::new(),
        };
        let label = if alt.len() > 0 {
            text_of(&alt)
        } else {
            match &src {
                Some(s) => s.clone(),
                None => copy_text("image"),
            }
        };
        self.flush();
        let mut runs = RunBuilder::new();
        runs.push(&label, RunStyle { bold: false, italic: false, code: false, link: false });
        let block = Block { kind: BlockKind::Image { src }, runs: runs.finish() };
        assert(block@ =~= image_block(n@, old(self)@.base));
        proof {
            lemma_block_fits(self@, block@);
            lemma_pushed_block(self.blocks@, block);
        }
        self.blocks.push(block);
    }

    /// Preformatted text keeps its line breaks, so each source line becomes its
    /// own block.
    fn push_preformatted(&mut self, d: &Document, i: usize, end: usize, style: RunStyle)
        requires
            old(self).wf(),
            old(self)@.current.len() == 0,
            i < end <= d@.len(),
        ensures
            final(self).wf(),
            final(self)@ == (WalkView {
                blocks: old(self)@.blocks + lines_of(
                    raw_text(d@, i as int, end as int),
                ).map_values(|l: Seq<char>| code_block(l, style)),
                ..old(self)@
            }),
    {
        let text = d.raw_text(i, end);
        let all = lines(&text);
        let plain_code = RunStyle { bold: false, italic: false, code: true, link: false };
        let merged = style.merged(plain_code);
        let ghost wanted = lines_of(raw_text(d@, i as int, end as int)).map_values(
            |l: Seq<char>| code_block(l, style),
        );
        let mut k: usize = 0;
        let ghost start = self@;
        assert(start.blocks + wanted.take(0) =~= start.blocks);
        while k < all.len()
            invariant
                k <= all@.len(),
                self.wf(),
                char_views(all@) == lines_of(raw_text(d@, i as int, end as int)),
                wanted == lines_of(raw_text(d@, i as int, end as int)).map_values(
                    |l: Seq<char>| code_block(l, style),
                ),
                merged == both_styles(style, code_style()),
                plain_code == code_style(),
                start.current.len() == 0,
                self@ == (WalkView { blocks: start.blocks + wanted.take(k as int), ..start }),
            decreases all@.len() - k,
        {
            let line = text_of(&all[k]);
            assert(char_views(all@)[k as int] == line@);
            let mut builder = RunBuilder::new();
            builder.push(&line, merged);
            let runs = builder.finish_verbatim();
            let runs = if runs.len() == 0 {
                let mut one: Vec<Run> = Vec::new();
                one.push(Run { text: String::new(), style: plain_code });
                assert(run_views(one@) =~= seq![
                    RunView { text: Seq::empty(), style: code_style() },
                ]);
                one
            } else {
                runs
            };
            let block = Block { kind: BlockKind::Code, runs };
            assert(block@ =~= code_block(line@, style));
            proof {
                lemma_block_fits(self@, block@);
                lemma_pushed_block(self.blocks@, block);
            }
            self.blocks.push(block);
            k += 1;
            assert(wanted.take(k as int) =~= wanted.take(k - 1).push(block@));
            assert(self@.blocks =~= start.blocks + wanted.take(k as int));
        }
        assert(wanted.take(wanted.len() as int) =~= wanted);
    }

    /// Takes the number of a list item.
    fn count_item(&mut self) -> (r: BlockKind)
        requires
            old(self).wf(),
        ensures
            final(self).wf(),
            final(self)@ == (WalkView { lists: item_counted(old(self)@.lists), ..old(self)@ }),
            r@ == item_kind(old(self)@.lists),
    {
        let n = self.lists.len();
        let depth: usize = if n == 0 {
            0
        } else {
            n - 1
        };
        let level = (depth % 256) as u8;
        if n > 0 && self.lists[n - 1].ordered {
            let ordinal = self.lists[n - 1].next_ordinal;
            let next: usize = if ordinal == usize::MAX {
                0
            } else {
                ordinal + 1
            };
            self.lists.pop();
            self.lists.push(ListState { ordered: true, next_ordinal: next });
            assert(self@.lists =~= item_counted(old(self)@.lists));
            BlockKind::ListItem { depth: level, ordinal: Some(ordinal) }
        } else {
            BlockKind::ListItem { depth: level, ordinal: None }
        }
    }

    fn push_link(&mut self, block: usize, start: usize, end: usize, target: String)
        requires
            old(self).wf(),
            block == old(self)@.blocks.len(),
            start < end == old(self)@.count(),
        ensures
            final(self).wf(),
            final(self)@ == (WalkView {
                links: old(self)@.links.push(
                    LinkView {
                        block: block as int,
                        start: start as int,
                        end: end as int,
                        target: target@,
                    },
                ),
                ..old(self)@
            }),
    {
        let link = Link { block, start, end, target };
        let ghost before = link_views(self.links@);
        self.links.push(link);
        assert(link_views(self.links@) =~= before.push(link@));
        proof {
            reveal(all_fit);
        }
    }

    #[verifier::rlimit(40)]
    fn walk(&mut self, d: &Document, i: usize, end: usize, style: RunStyle)
        requires
            old(self).wf(),
            i < end <= d@.len(),
        ensures
            final(self).wf(),
            final(self)@ == node_walked(d@, i as int, end as int, style, old(self)@),
        decreases end - i, 2int,
    {
        let n = &d.nodes[i];
        assert(d@[i as int] == n@);
        let a: usize = i + 1;
        if n.kind == NodeKind::Text {
            let raw = chars_of(&n.text);
            let text = if self.in_code {
                strip_invisibles(&raw)
            } else {
                collapse_whitespace(&raw)
            };
            self.write(&text, style);
            return;
        }
        if n.kind != NodeKind::Element {
            return;
        }
        let name: &str = n.name.as_str();
        if skips(name) {
            return;
        }
        if begins_block(d, i, end, self.in_code) {
            self.flush();
        }
        self.anchor(n.attribute("id"));
        if self.in_code && is_gutter_cell(n) {
            return;
        }
        if !self.in_code && is_code_container(n) {
            self.flush();
            self.in_code = true;
            self.current_kind = BlockKind::Code;
            self.walk_range(d, a, end, style);
            self.flush();
            self.in_code = false;
            return;
        }
        if same(name, "br") {
            let space = chars_of(" ");
            self.write(&space, style);
        } else if same(name, "hr") {
            self.flush();
            let block = Block { kind: BlockKind::Rule, runs: Vec::new() };
            assert(run_views(block.runs@) =~= Seq::<RunView>::empty());
            proof {
                lemma_block_fits(self@, block@);
                lemma_pushed_block(self.blocks@, block);
            }
            self.blocks.push(block);
        } else if same(name, "img") || same(name, "image") {
            self.push_image(n);
        } else if same(name, "ul") || same(name, "ol") {
            self.flush();
            let ordered = same(name, "ol");
            let first = start_ordinal(n);
            self.lists.push(ListState { ordered, next_ordinal: first });
            self.walk_range(d, a, end, style);
            self.lists.pop();
            assert(self@ =~= node_walked(d@, i as int, end as int, style, old(self)@));
        } else if same(name, "li") {
            let kind = self.count_item();
            self.open(kind);
            self.walk_range(d, a, end, style);
            self.flush();
        } else if same(name, "pre") {
            self.flush();
            self.push_preformatted(d, i, end, style);
        } else if same(name, "math") {
            self.push_math(d, i, end, style);
        } else {
            self.walk_plain(d, i, end, style);
        }
    }

    /// The content of a link, and the link over it.
    fn walk_link(&mut self, d: &Document, i: usize, end: usize, style: RunStyle, target: String)
        requires
            old(self).wf(),
            i < end <= d@.len(),
        ensures
            final(self).wf(),
            final(self)@ == linked(
                old(self)@,
                range_walked(
                    d@,
                    i + 1,
                    end as int,
                    style,
                    WalkView { ended: false, ..old(self)@ },
                ),
                target@,
            ),
        decreases end - i, 0int,
    {
        let outer = self.ended;
        let block = self.blocks.len();
        let before = self.current.char_count();
        self.ended = false;
        self.walk_range(d, i + 1, end, style);
        let start = if self.ended {
            0
        } else {
            before
        };
        let stop = self.current.char_count();
        self.ended = outer || self.ended;
        if stop > start && block == self.blocks.len() {
            self.push_link(block, start, stop, target);
        }
    }

    /// An element without a meaning of its own beyond styling or a block.
    fn walk_plain(&mut self, d: &Document, i: usize, end: usize, style: RunStyle)
        requires
            old(self).wf(),
            i < end <= d@.len(),
        ensures
            final(self).wf(),
            final(self)@ == plain_walked(d@, i as int, end as int, style, old(self)@),
        decreases end - i, 1int,
    {
        let n = &d.nodes[i];
        assert(d@[i as int] == n@);
        let a: usize = i + 1;
        let name: &str = n.name.as_str();
        let sub = same(name, "sub");
        if sub || same(name, "sup") {
            if let Some(text) = script_text(d, i, end, sub) {
                self.write(&text, style);
                return;
            }
        }
        if let Some(inline) = inline_style(name) {
            let target: Option<String> = if same(name, "a") {
                match n.attribute("href") {
                    Some(h) => if is_blank_text(h) {
                        None
                    } else {
                        let v = chars_of(h);
                        let t = trimmed(&v);
                        Some(text_of(&t))
                    },
                    None => None,
                }
            } else {
                None
            };
            assert(text_opt(target) == link_target(n@));
            match target {
                Some(target) => self.walk_link(d, i, end, style.merged(inline), target),
                None => self.walk_range(d, a, end, style.merged(inline)),
            }
            return;
        }
        match block_kind(name) {
            Some(kind) => {
                let kind = if self.in_code {
                    BlockKind::Code
                } else {
                    kind
                };
                self.open(kind);
                self.walk_range(d, a, end, style);
                self.flush();
            },
            None => {
                self.walk_range(d, a, end, style);
            },
        }
    }
}

/// What one chapter's markup yields.
#[derive(Debug)]
pub struct Parsed {
    pub blocks: Vec<Block>,
    pub links: Vec<Link>,
    pub anchors: Table<(usize, usize)>,
}

#[verifier::ext_equal]
pub struct ParsedView {
    pub blocks: Seq<BlockView>,
    pub links: Seq<LinkView>,
    pub anchors: Map<Seq<char>, (usize, usize)>,
}

impl View for Parsed {
    type V = ParsedView;

    open spec fn view(&self) -> ParsedView {
        ParsedView {
            blocks: block_views(self.blocks@),
            links: link_views(self.links@),
            anchors: self.anchors@,
        }
    }
}

/// Every link covers text of its block, and the links come in reading order, by
/// where they end. Every link target lies within its block, or where the next
/// block would begin.
pub open spec fn all_in_place(
    blocks: Seq<BlockView>,
    links: Seq<LinkView>,
    anchors: Map<Seq<char>, (usize, usize)>,
) -> bool {
    &&& forall|i: int|
        0 <= i < links.len() ==> {
            let l = #[trigger] links[i];
            &&& 0 <= l.block < blocks.len()
            &&& 0 <= l.start < l.end <= blocks[l.block].plain().len()
        }
    &&& forall|i: int, j: int|
        0 <= i < j < links.len() ==> ends_by(#[trigger] links[i], #[trigger] links[j])
    &&& forall|k: Seq<char>|
        anchors.contains_key(k) ==> {
            let a = #[trigger] anchors[k];
            if a.0 < blocks.len() {
                a.1 <= blocks[a.0 as int].plain().len()
            } else {
                a.0 == blocks.len() && a.1 == 0
            }
        }
}

/// Where a chapter's text stands: in its body, or in the whole document when it
/// has none.
pub open spec fn body_of(d: Seq<NodeView>) -> int {
    match find_named(d, "body"@, 0, d.len() as int) {
        Some(i) => i,
        None => root_of(d),
    }
}

/// What a parsed document yields.
pub open spec fn chapter_of(d: Seq<NodeView>, base: Seq<char>) -> ParsedView {
    let body = body_of(d);
    let w = if d.len() == 0 {
        walk_begun(base)
    } else {
        range_walked(
            d,
            body + 1,
            subtree_end(d, body, d.len() as int),
            plain_style(),
            walk_begun(base),
        ).flushed()
    };
    ParsedView { blocks: w.blocks, links: w.links, anchors: w.anchors }
}

/// Takes a chapter out of its parsed document.
pub fn walk_document(d: &Document, base: &str) -> (r: Parsed)
    ensures
        r.anchors.wf(),
        r@ == chapter_of(d@, base@),
        all_in_place(r@.blocks, r@.links, r@.anchors),
{
    let mut walker = Walker::new(copy_text(base));
    let n = d.nodes.len();
    if n > 0 {
        let body = match d.find_named("body", 0, n) {
            Some(i) => i,
            None => d.root_element(),
        };
        let end = d.end_of(body, n);
        walker.walk_range(
            d,
            body + 1,
            end,
            RunStyle { bold: false, italic: false, code: false, link: false },
        );
        walker.flush();
    }
    proof {
        reveal(all_fit);
        assert forall|i: int| 0 <= i < walker@.links.len() implies 0 <= (
        #[trigger] walker@.links[i]).block < walker@.blocks.len() by {
            assert(link_fits(walker@.blocks, walker@.current, walker@.links[i]));
        }
    }
    Parsed { blocks: walker.blocks, links: walker.links, anchors: walker.anchors }
}

/// Parses a chapter that lives at `base` inside the container, so image paths
/// can be resolved relative to it.
pub fn parse_in(xml: &str, base: &str) -> (r: Result<Parsed, Failure>)
    ensures
        match parsed_xml(entities_resolved(xml@), true) {
            Ok(d) => r matches Ok(p) && p.anchors.wf() && p@ == chapter_of(d, base@)
                && all_in_place(p@.blocks, p@.links, p@.anchors),
            Err(message) => r matches Err(e) && e@ == seq![
                "chapter is not well-formed XML"@,
                message,
            ],
        },
{
    let cleaned = resolve_named_entities(xml);
    match Document::parse(&cleaned) {
        Ok(d) => Ok(walk_document(&d, base)),
        Err(message) => {
            let e = Failure::new(message).context(copy_text("chapter is not well-formed XML"));
            assert(e@ =~= seq!["chapter is not well-formed XML"@, message@]);
            Err(e)
        },
    }
}

/// Parses a chapter at the top of the container and returns its blocks.
pub fn parse(xml: &str) -> (r: Result<Vec<Block>, Failure>)
    ensures
        match parsed_xml(entities_resolved(xml@), true) {
            Ok(d) => r matches Ok(b) && block_views(b@) == chapter_of(d, Seq::empty()).blocks,
            Err(message) => r matches Err(e) && e@ == seq![
                "chapter is not well-formed XML"@,
                message,
            ],
        },
{
    proof {
        reveal_strlit("");
    }
    assert(""@ =~= Seq::<char>::empty());
    match parse_in(xml, "") {
        Ok(parsed) => Ok(parsed.blocks),
        Err(e) => Err(e),
    }
}

} // verus!
