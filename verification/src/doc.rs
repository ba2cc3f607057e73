//! Document model for a single chapter.
//!
//! A chapter parses into a flat list of blocks. A block's index in that list is
//! its address. Annotations and reading positions anchor to it, so parsing must
//! stay deterministic: same file, same block list.

use vstd::prelude::*;
use crate::table::Table;
use crate::text::{
    blank, chars_of, is_blank_text, keep_end, lemma_keep_end, lemma_keep_suffix, lemma_keep_tail,
    lemma_skip_blank, lemma_skip_prefix, lemma_skip_white, lemma_trim_empty, push_text, skip_white,
    text_of, text_opt, trim, trim_end, trim_start, trimmed_end, trimmed_start,
};

verus! {

/// Inline styling of a text run.
#[derive(Debug, Clone, Copy, PartialEq, Eq, Structural)]
pub struct RunStyle {
    pub bold: bool,
    pub italic: bool,
    pub code: bool,
    pub link: bool,
}

/// No styling at all.
pub open spec fn plain_style() -> RunStyle {
    RunStyle { bold: false, italic: false, code: false, link: false }
}

/// Both stylings at once.
pub open spec fn both_styles(a: RunStyle, b: RunStyle) -> RunStyle {
    RunStyle {
        bold: a.bold || b.bold,
        italic: a.italic || b.italic,
        code: a.code || b.code,
        link: a.link || b.link,
    }
}

impl Default for RunStyle {
    fn default() -> (r: Self)
        ensures
            r == plain_style(),
    {
        RunStyle { bold: false, italic: false, code: false, link: false }
    }
}

impl RunStyle {
    pub fn merged(self, other: RunStyle) -> (r: Self)
        ensures
            r == both_styles(self, other),
    {
        RunStyle {
            bold: self.bold || other.bold,
            italic: self.italic || other.italic,
            code: self.code || other.code,
            link: self.link || other.link,
        }
    }
}

/// A stretch of text with uniform styling.
#[derive(Debug)]
pub struct Run {
    pub text: String,
    pub style: RunStyle,
}

#[verifier::ext_equal]
pub struct RunView {
    pub text: Seq<char>,
    pub style: RunStyle,
}

impl View for Run {
    type V = RunView;

    open spec fn view(&self) -> RunView {
        RunView { text: self.text@, style: self.style }
    }
}

impl Clone for Run {
    fn clone(&self) -> (r: Self)
        ensures
            r@ == self@,
    {
        Run { text: self.text.clone(), style: self.style }
    }
}

/// The views of a sequence of runs.
pub open spec fn run_views(s: Seq<Run>) -> Seq<RunView> {
    s.map_values(|r: Run| r@)
}

/// The text of a sequence of runs, one after the other.
pub open spec fn runs_text(s: Seq<RunView>) -> Seq<char>
    decreases s.len(),
{
    if s.len() == 0 {
        Seq::empty()
    } else {
        runs_text(s.drop_last()) + s.last().text
    }
}

#[derive(Debug, PartialEq, Eq)]
pub enum BlockKind {
    Heading(u8),
    Paragraph,
    Quote,
    /// Preformatted text. Line breaks are significant.
    Code,
    ListItem { depth: u8, ordinal: Option<usize> },
    /// Horizontal rule from `<hr>`.
    Rule,
    /// An image. The runs hold its alt text, `src` the path inside the
    /// container, already resolved against the chapter.
    Image { src: Option<String> },
}

#[verifier::ext_equal]
pub enum KindView {
    Heading(u8),
    Paragraph,
    Quote,
    Code,
    ListItem { depth: u8, ordinal: Option<usize> },
    Rule,
    Image { src: Option<Seq<char>> },
}

impl View for BlockKind {
    type V = KindView;

    open spec fn view(&self) -> KindView {
        match *self {
            BlockKind::Heading(n) => KindView::Heading(n),
            BlockKind::Paragraph => KindView::Paragraph,
            BlockKind::Quote => KindView::Quote,
            BlockKind::Code => KindView::Code,
            BlockKind::ListItem { depth, ordinal } => KindView::ListItem { depth, ordinal },
            BlockKind::Rule => KindView::Rule,
            BlockKind::Image { src } => KindView::Image { src: text_opt(src) },
        }
    }
}

impl Clone for BlockKind {
    fn clone(&self) -> (r: Self)
        ensures
            r@ == self@,
    {
        match self {
            BlockKind::Heading(n) => BlockKind::Heading(*n),
            BlockKind::Paragraph => BlockKind::Paragraph,
            BlockKind::Quote => BlockKind::Quote,
            BlockKind::Code => BlockKind::Code,
            BlockKind::ListItem { depth, ordinal } => BlockKind::ListItem {
                depth: *depth,
                ordinal: *ordinal,
            },
            BlockKind::Rule => BlockKind::Rule,
            BlockKind::Image { src } => BlockKind::Image { src: src.clone() },
        }
    }
}

#[derive(Debug)]
pub struct Block {
    pub kind: BlockKind,
    pub runs: Vec<Run>,
}

#[verifier::ext_equal]
pub struct BlockView {
    pub kind: KindView,
    pub runs: Seq<RunView>,
}

impl View for Block {
    type V = BlockView;

    open spec fn view(&self) -> BlockView {
        BlockView { kind: self.kind@, runs: run_views(self.runs@) }
    }
}

impl BlockView {
    /// The text that character offsets into the block count.
    pub open spec fn plain(self) -> Seq<char> {
        runs_text(self.runs)
    }
}

/// The views of a sequence of blocks.
pub open spec fn block_views(s: Seq<Block>) -> Seq<BlockView> {
    s.map_values(|b: Block| b@)
}

impl Clone for Block {
    fn clone(&self) -> (r: Self)
        ensures
            r@ == self@,
    {
        let r = Block { kind: self.kind.clone(), runs: self.runs.clone() };
        assert(run_views(r.runs@) =~= run_views(self.runs@));
        r
    }
}

/// The characters of some runs.
fn runs_chars(runs: &Vec<Run>) -> (r: Vec<char>)
    ensures
        r@ == runs_text(run_views(runs@)),
{
    let mut out: Vec<char> = Vec::new();
    let mut i: usize = 0;
    let ghost views = run_views(runs@);
    assert(views.take(0) =~= Seq::<RunView>::empty());
    while i < runs.len()
        invariant
            i <= runs@.len(),
            views == run_views(runs@),
            out@ == runs_text(views.take(i as int)),
        decreases runs@.len() - i,
    {
        push_text(&mut out, &runs[i].text);
        i += 1;
        assert(views.take(i as int).drop_last() =~= views.take(i - 1));
    }
    assert(views.take(views.len() as int) =~= views);
    out
}

impl Block {
    /// The block's characters without styling.
    pub fn plain_chars(&self) -> (r: Vec<char>)
        ensures
            r@ == self@.plain(),
    {
        runs_chars(&self.runs)
    }

    /// The block's text without styling. Character offsets into this string are
    /// addresses within the block.
    pub fn plain_text(&self) -> (r: String)
        ensures
            r@ == self@.plain(),
    {
        let v = self.plain_chars();
        text_of(&v)
    }
}

/// A link in the text, with the range it covers.
#[derive(Debug, PartialEq, Eq)]
pub struct Link {
    pub block: usize,
    /// First character, inclusive.
    pub start: usize,
    /// Last character, exclusive.
    pub end: usize,
    /// The href as written in the book, still relative.
    pub target: String,
}

#[verifier::ext_equal]
pub struct LinkView {
    pub block: int,
    pub start: int,
    pub end: int,
    pub target: Seq<char>,
}

impl View for Link {
    type V = LinkView;

    open spec fn view(&self) -> LinkView {
        LinkView {
            block: self.block as int,
            start: self.start as int,
            end: self.end as int,
            target: self.target@,
        }
    }
}

/// The views of a sequence of links.
pub open spec fn link_views(s: Seq<Link>) -> Seq<LinkView> {
    s.map_values(|l: Link| l@)
}

impl LinkView {
    pub open spec fn holds(self, block: int, offset: int) -> bool {
        self.block == block && self.start <= offset < self.end
    }
}

impl Clone for Link {
    fn clone(&self) -> (r: Self)
        ensures
            r@ == self@,
    {
        Link {
            block: self.block,
            start: self.start,
            end: self.end,
            target: self.target.clone(),
        }
    }
}

impl Link {
    pub fn covers(&self, block: usize, offset: usize) -> (r: bool)
        ensures
            r == self@.holds(block as int, offset as int),
    {
        self.block == block && offset >= self.start && offset < self.end
    }
}

/// A parsed chapter.
#[derive(Debug)]
pub struct Chapter {
    /// Spine href addressing this chapter inside the book.
    pub href: String,
    pub blocks: Vec<Block>,
    /// Links found in the text, in reading order.
    pub links: Vec<Link>,
    /// Element ids and where they sit, so a link can land on the right line
    /// rather than at the top of a chapter.
    pub anchors: Table<(usize, usize)>,
}

#[verifier::ext_equal]
pub struct ChapterView {
    pub href: Seq<char>,
    pub blocks: Seq<BlockView>,
    pub links: Seq<LinkView>,
    pub anchors: Map<Seq<char>, (usize, usize)>,
}

impl View for Chapter {
    type V = ChapterView;

    open spec fn view(&self) -> ChapterView {
        ChapterView {
            href: self.href@,
            blocks: block_views(self.blocks@),
            links: link_views(self.links@),
            anchors: self.anchors@,
        }
    }
}

impl Default for Chapter {
    /// A chapter without text.
    fn default() -> (r: Self)
        ensures
            r.wf(),
            r@ == (ChapterView {
                href: Seq::empty(),
                blocks: Seq::empty(),
                links: Seq::empty(),
                anchors: Map::empty(),
            }),
    {
        let r = Chapter {
            href: String::new(),
            blocks: Vec::new(),
            links: Vec::new(),
            anchors: Table::new(),
        };
        assert(block_views(r.blocks@) =~= Seq::empty());
        assert(link_views(r.links@) =~= Seq::empty());
        r
    }
}

impl ChapterView {
    /// The position in `links` of the first link over a place in the text.
    pub open spec fn first_link(self, block: int, offset: int, from: int) -> Option<int>
        decreases self.links.len() - from,
    {
        if from < 0 || from >= self.links.len() {
            None
        } else if self.links[from].holds(block, offset) {
            Some(from)
        } else {
            self.first_link(block, offset, from + 1)
        }
    }
}

impl Chapter {
    /// Every anchor is recorded once.
    pub open spec fn wf(&self) -> bool {
        self.anchors.wf()
    }

    /// The link covering a position, if any: the first one in reading order.
    pub fn link_at(&self, block: usize, offset: usize) -> (r: Option<&Link>)
        ensures
            match self@.first_link(block as int, offset as int, 0) {
                Some(i) => r matches Some(l) && l@ == self@.links[i],
                None => r is None,
            },
    {
        let mut i: usize = 0;
        while i < self.links.len()
            invariant
                i <= self.links@.len(),
                self@.first_link(block as int, offset as int, 0) == self@.first_link(
                    block as int,
                    offset as int,
                    i as int,
                ),
            decreases self.links@.len() - i,
        {
            assert(self@.links[i as int] == self.links@[i as int]@);
            if self.links[i].covers(block, offset) {
                return Some(&self.links[i]);
            }
            i += 1;
        }
        None
    }
}

/// Address of a text position in a book. Basis for reading positions and
/// annotations.
#[derive(Debug, PartialEq, Eq)]
pub struct Locator {
    pub href: String,
    pub block: usize,
    /// Character offset into the block's `plain_text()`.
    pub offset: usize,
}

#[verifier::ext_equal]
pub struct LocatorView {
    pub href: Seq<char>,
    pub block: usize,
    pub offset: usize,
}

impl View for Locator {
    type V = LocatorView;

    open spec fn view(&self) -> LocatorView {
        LocatorView { href: self.href@, block: self.block, offset: self.offset }
    }
}

impl Clone for Locator {
    fn clone(&self) -> (r: Self)
        ensures
            r@ == self@,
    {
        Locator { href: self.href.clone(), block: self.block, offset: self.offset }
    }
}

/// Collects runs, merging adjacent ones that share a style.
pub struct RunBuilder {
    pub runs: Vec<Run>,
}

/// Text added behind runs: it joins the last run where the style is the same.
pub open spec fn runs_pushed(s: Seq<RunView>, text: Seq<char>, style: RunStyle) -> Seq<RunView> {
    if text.len() == 0 {
        s
    } else if s.len() > 0 && s.last().style == style {
        s.update(s.len() - 1, RunView { text: s.last().text + text, style })
    } else {
        s.push(RunView { text, style })
    }
}

/// Adding text appends it, whether or not it starts a run of its own.
pub proof fn pushing_appends_the_text(s: Seq<RunView>, text: Seq<char>, style: RunStyle)
    ensures
        runs_text(runs_pushed(s, text, style)) == runs_text(s) + text,
{
    let t = runs_pushed(s, text, style);
    if text.len() == 0 {
        assert(runs_text(s) + text =~= runs_text(s));
    } else {
        if s.len() > 0 && s.last().style == style {
            assert(t.drop_last() =~= s.drop_last());
        } else {
            assert(t.drop_last() =~= s);
        }
        assert(runs_text(t) =~= runs_text(s) + text);
    }
}

/// No two neighbours share a style, and no run is empty.
pub open spec fn runs_merged(s: Seq<RunView>) -> bool {
    &&& forall|i: int| 0 <= i < s.len() ==> (#[trigger] s[i]).text.len() > 0
    &&& forall|i: int, j: int|
        0 <= i && j == i + 1 && j < s.len() ==> (#[trigger] s[i]).style != (#[trigger] s[j]).style
}

/// Adding text keeps neighbours of one style merged.
pub proof fn pushing_keeps_runs_merged(s: Seq<RunView>, text: Seq<char>, style: RunStyle)
    requires
        runs_merged(s),
    ensures
        runs_merged(runs_pushed(s, text, style)),
{
}

/// The runs that hold any text.
pub open spec fn non_empty_runs(s: Seq<RunView>) -> Seq<RunView>
    decreases s.len(),
{
    if s.len() == 0 {
        s
    } else {
        let front = non_empty_runs(s.drop_last());
        if s.last().text.len() == 0 {
            front
        } else {
            front.push(s.last())
        }
    }
}

/// Runs without the white space in front of their text.
pub open spec fn runs_led(s: Seq<RunView>) -> Seq<RunView>
    decreases s.len(),
{
    if s.len() == 0 {
        s
    } else if blank(s[0].text) {
        runs_led(s.skip(1))
    } else {
        s.update(0, RunView { text: trim_start(s[0].text), style: s[0].style })
    }
}

/// Runs without the white space behind their text.
pub open spec fn runs_tailed(s: Seq<RunView>) -> Seq<RunView>
    decreases s.len(),
{
    if s.len() == 0 {
        s
    } else if blank(s.last().text) {
        runs_tailed(s.drop_last())
    } else {
        s.update(
            s.len() - 1,
            RunView { text: trim_end(s.last().text), style: s.last().style },
        )
    }
}

/// Runs with white space at the two ends of the whole dropped.
pub open spec fn runs_finished(s: Seq<RunView>) -> Seq<RunView> {
    non_empty_runs(runs_tailed(runs_led(s)))
}

/// A character with the style it is shown in.
pub open spec fn in_style(text: Seq<char>, style: RunStyle) -> Seq<(char, RunStyle)> {
    text.map_values(|c: char| (c, style))
}

/// The characters of some runs, each with its style.
pub open spec fn runs_styled(s: Seq<RunView>) -> Seq<(char, RunStyle)>
    decreases s.len(),
{
    if s.len() == 0 {
        Seq::empty()
    } else {
        runs_styled(s.drop_last()) + in_style(s.last().text, s.last().style)
    }
}

proof fn lemma_styled_len(s: Seq<RunView>)
    ensures
        runs_styled(s).len() == runs_text(s).len(),
    decreases s.len(),
{
    if s.len() > 0 {
        lemma_styled_len(s.drop_last());
    }
}

proof fn lemma_first_run(s: Seq<RunView>)
    requires
        s.len() > 0,
    ensures
        runs_text(s) == s[0].text + runs_text(s.skip(1)),
        runs_styled(s) == in_style(s[0].text, s[0].style) + runs_styled(s.skip(1)),
    decreases s.len(),
{
    if s.len() == 1 {
        assert(s.drop_last() =~= Seq::<RunView>::empty());
        assert(s.skip(1) =~= Seq::<RunView>::empty());
        assert(runs_text(s) =~= s[0].text + runs_text(s.skip(1)));
        assert(runs_styled(s) =~= in_style(s[0].text, s[0].style) + runs_styled(s.skip(1)));
    } else {
        lemma_first_run(s.drop_last());
        assert(s.drop_last().skip(1) =~= s.skip(1).drop_last());
        assert(runs_text(s) =~= s[0].text + runs_text(s.skip(1)));
        assert(runs_styled(s) =~= in_style(s[0].text, s[0].style) + runs_styled(s.skip(1)));
    }
}

proof fn lemma_led(s: Seq<RunView>)
    ensures
        runs_text(runs_led(s)) == trim_start(runs_text(s)),
        runs_styled(runs_led(s)) == runs_styled(s).skip(skip_white(runs_text(s), 0)),
    decreases s.len(),
{
    let text = runs_text(s);
    let led = runs_led(s);
    lemma_styled_len(s);
    lemma_skip_white(text, 0);
    if s.len() == 0 {
        assert(runs_text(led) =~= trim_start(text));
        assert(runs_styled(led) =~= runs_styled(s).skip(skip_white(text, 0)));
    } else {
        let head = s[0].text;
        let rest = runs_text(s.skip(1));
        lemma_first_run(s);
        lemma_styled_len(s.skip(1));
        if blank(head) {
            lemma_led(s.skip(1));
            lemma_skip_white(rest, 0);
            lemma_skip_blank(head, rest, 0);
            assert(runs_text(led) =~= trim_start(text));
            assert(runs_styled(led) =~= runs_styled(s).skip(skip_white(text, 0)));
        } else {
            lemma_trim_empty(head);
            lemma_skip_white(head, 0);
            lemma_skip_prefix(head, rest, 0);
            assert(led.skip(1) =~= s.skip(1));
            lemma_first_run(led);
            assert(runs_text(led) =~= trim_start(text));
            assert(runs_styled(led) =~= runs_styled(s).skip(skip_white(text, 0)));
        }
    }
}

proof fn lemma_tailed(s: Seq<RunView>)
    ensures
        runs_text(runs_tailed(s)) == trim_end(runs_text(s)),
        runs_styled(runs_tailed(s)) == runs_styled(s).take(
            keep_end(runs_text(s), runs_text(s).len() as int),
        ),
    decreases s.len(),
{
    let text = runs_text(s);
    let tailed = runs_tailed(s);
    lemma_styled_len(s);
    lemma_keep_end(text, text.len() as int);
    if s.len() == 0 {
        assert(runs_text(tailed) =~= trim_end(text));
        assert(runs_styled(tailed) =~= runs_styled(s).take(keep_end(text, text.len() as int)));
    } else {
        let front = runs_text(s.drop_last());
        let end = s.last().text;
        lemma_styled_len(s.drop_last());
        if blank(end) {
            lemma_tailed(s.drop_last());
            lemma_keep_end(front, front.len() as int);
            lemma_keep_tail(front, end, text.len() as int);
            assert(runs_text(tailed) =~= trim_end(text));
            assert(runs_styled(tailed) =~= runs_styled(s).take(keep_end(text, text.len() as int)));
        } else {
            lemma_trim_empty(end);
            lemma_keep_end(end, end.len() as int);
            lemma_keep_suffix(front, end, end.len() as int);
            assert(tailed.drop_last() =~= s.drop_last());
            assert(runs_text(tailed) =~= trim_end(text));
            assert(runs_styled(tailed) =~= runs_styled(s).take(keep_end(text, text.len() as int)));
        }
    }
}

proof fn lemma_non_empty(s: Seq<RunView>)
    ensures
        runs_styled(non_empty_runs(s)) == runs_styled(s),
        forall|i: int|
            0 <= i < non_empty_runs(s).len() ==> (#[trigger] non_empty_runs(s)[i]).text.len() > 0,
    decreases s.len(),
{
    if s.len() > 0 {
        lemma_non_empty(s.drop_last());
        let front = non_empty_runs(s.drop_last());
        if s.last().text.len() == 0 {
            assert(runs_styled(s) =~= runs_styled(s.drop_last()));
        } else {
            assert(front.push(s.last()).drop_last() =~= front);
        }
    }
}

/// Finishing a block trims its text at both edges, whichever runs they lie in.
/// What is left keeps its style, and no run is empty.
pub proof fn finishing_trims_the_edges(s: Seq<RunView>)
    ensures
        runs_text(runs_finished(s)) == trim(runs_text(s)),
        runs_styled(runs_finished(s)) == runs_styled(s).skip(skip_white(runs_text(s), 0)).take(
            trim(runs_text(s)).len() as int,
        ),
        forall|i: int|
            0 <= i < runs_finished(s).len() ==> (#[trigger] runs_finished(s)[i]).text.len() > 0,
{
    let led = runs_led(s);
    lemma_led(s);
    lemma_tailed(led);
    lemma_non_empty(runs_tailed(led));
    dropping_empty_runs_keeps_the_text(runs_tailed(led));
    lemma_keep_end(runs_text(led), runs_text(led).len() as int);
}

/// Dropping runs without text drops no text.
pub proof fn dropping_empty_runs_keeps_the_text(s: Seq<RunView>)
    ensures
        runs_text(non_empty_runs(s)) == runs_text(s),
    decreases s.len(),
{
    if s.len() > 0 {
        dropping_empty_runs_keeps_the_text(s.drop_last());
        let front = non_empty_runs(s.drop_last());
        if s.last().text.len() == 0 {
            assert(runs_text(s.drop_last()) + s.last().text =~= runs_text(s.drop_last()));
        } else {
            assert(front.push(s.last()).drop_last() =~= front);
        }
    }
}

/// A count as far as `usize` reaches.
pub open spec fn clipped(n: int) -> int {
    if n > usize::MAX {
        usize::MAX as int
    } else {
        n
    }
}

pub proof fn lemma_text_grows(s: Seq<RunView>, i: int)
    requires
        0 <= i <= s.len(),
    ensures
        runs_text(s.take(i)).len() <= runs_text(s).len(),
    decreases s.len() - i,
{
    if i < s.len() {
        lemma_text_grows(s, i + 1);
        assert(s.take(i + 1).drop_last() =~= s.take(i));
    } else {
        assert(s.take(i) =~= s);
    }
}

/// Drops the runs without text.
fn drop_empty(runs: Vec<Run>) -> (r: Vec<Run>)
    ensures
        run_views(r@) == non_empty_runs(run_views(runs@)),
{
    let mut out: Vec<Run> = Vec::new();
    let ghost views = run_views(runs@);
    assert(views.take(0) =~= Seq::<RunView>::empty());
    assert(run_views(out@) =~= Seq::<RunView>::empty());
    for run in it: runs
        invariant
            it.seq() == runs@,
            views == run_views(runs@),
            run_views(out@) == non_empty_runs(views.take(it.index())),
    {
        let ghost before = out@;
        let ghost i = it.index();
        assert(views.take(i + 1).drop_last() =~= views.take(i));
        assert(views[i] == run@);
        if !run.text.as_str().is_empty() {
            out.push(run);
            assert(run_views(out@) =~= run_views(before).push(run@));
        }
    }
    assert(views.take(views.len() as int) =~= views);
    out
}

/// Drops the white space in front of the text.
fn trim_front(runs: Vec<Run>) -> (r: Vec<Run>)
    ensures
        run_views(r@) == runs_led(run_views(runs@)),
{
    let ghost views = run_views(runs@);
    let mut out: Vec<Run> = Vec::new();
    let mut begun = false;
    assert(views.skip(0) =~= views);
    for run in it: runs
        invariant
            it.seq() == runs@,
            views == run_views(runs@),
            !begun ==> out@.len() == 0 && runs_led(views) == runs_led(views.skip(it.index())),
            begun ==> run_views(out@) + views.skip(it.index()) == runs_led(views),
    {
        let ghost i = it.index();
        let ghost before = out@;
        assert(views[i] == run@);
        assert(views.skip(i).skip(1) =~= views.skip(i + 1));
        if begun {
            out.push(run);
            assert(run_views(out@) + views.skip(i + 1) =~= run_views(before) + views.skip(i));
        } else if !is_blank_text(&run.text) {
            begun = true;
            let v = chars_of(&run.text);
            let t = trimmed_start(&v);
            out.push(Run { text: text_of(&t), style: run.style });
            assert(run_views(out@) + views.skip(i + 1) =~= runs_led(views.skip(i)));
        }
    }
    assert(views.skip(views.len() as int) =~= Seq::<RunView>::empty());
    assert(run_views(out@) + Seq::<RunView>::empty() =~= run_views(out@));
    out
}

/// Drops the white space behind the text.
fn trim_back(runs: Vec<Run>) -> (r: Vec<Run>)
    ensures
        run_views(r@) == runs_tailed(run_views(runs@)),
{
    let ghost views = run_views(runs@);
    let mut out = runs;
    while out.len() > 0
        invariant
            runs_tailed(views) == runs_tailed(run_views(out@)),
            views == run_views(runs@),
        decreases out@.len(),
    {
        let n = out.len();
        let ghost now = run_views(out@);
        assert(now.last() == out@[n - 1]@);
        if !is_blank_text(&out[n - 1].text) {
            let v = chars_of(&out[n - 1].text);
            let t = trimmed_end(&v);
            out[n - 1].text = text_of(&t);
            assert(run_views(out@) =~= runs_tailed(now));
            return out;
        }
        out.pop();
        assert(run_views(out@) =~= now.drop_last());
    }
    out
}

impl RunBuilder {
    pub open spec fn view(&self) -> Seq<RunView> {
        run_views(self.runs@)
    }

    pub fn new() -> (r: Self)
        ensures
            r@ == Seq::<RunView>::empty(),
    {
        let r = RunBuilder { runs: Vec::new() };
        assert(r@ =~= Seq::<RunView>::empty());
        r
    }

    /// The characters collected so far.
    pub fn collected(&self) -> (r: Vec<char>)
        ensures
            r@ == runs_text(self@),
    {
        runs_chars(&self.runs)
    }

    /// How many characters were collected so far. Links are recorded as ranges into the block
    /// being built, so they need this while it is still open.
    pub fn char_count(&self) -> (r: usize)
        ensures
            r == clipped(runs_text(self@).len() as int),
    {
        let mut total: usize = 0;
        let mut i: usize = 0;
        assert(self@.take(0) =~= Seq::<RunView>::empty());
        while i < self.runs.len()
            invariant
                i <= self.runs@.len(),
                total == clipped(runs_text(self@.take(i as int)).len() as int),
            decreases self.runs@.len() - i,
        {
            let n: usize = self.runs[i].text.as_str().unicode_len();
            total = total.saturating_add(n);
            i += 1;
            assert(self@.take(i as int).drop_last() =~= self@.take(i - 1));
        }
        assert(self@.take(self@.len() as int) =~= self@);
        total
    }

    pub fn push(&mut self, text: &str, style: RunStyle)
        ensures
            final(self)@ == runs_pushed(old(self)@, text@, style),
    {
        if text.is_empty() {
            return;
        }
        let n = self.runs.len();
        if n > 0 && self.runs[n - 1].style == style {
            self.runs[n - 1].text.append(text);
            assert(self@ =~= runs_pushed(old(self)@, text@, style));
        } else {
            self.runs.push(Run { text: text.to_owned(), style });
            assert(self@ =~= runs_pushed(old(self)@, text@, style));
        }
    }

    /// True when nothing but whitespace was collected.
    pub fn is_blank(&self) -> (r: bool)
        ensures
            r == forall|i: int| 0 <= i < self@.len() ==> blank((#[trigger] self@[i]).text),
    {
        let mut i: usize = 0;
        while i < self.runs.len()
            invariant
                i <= self.runs@.len(),
                forall|k: int| 0 <= k < i ==> blank((#[trigger] self@[k]).text),
            decreases self.runs@.len() - i,
        {
            if !is_blank_text(&self.runs[i].text) {
                assert(!blank(self@[i as int].text));
                return false;
            }
            i += 1;
        }
        true
    }

    /// Returns the runs unchanged. For code, where leading spaces are the
    /// indentation and must survive.
    pub fn finish_verbatim(self) -> (r: Vec<Run>)
        ensures
            run_views(r@) == non_empty_runs(self@),
    {
        drop_empty(self.runs)
    }

    /// Returns the runs, trimming whitespace at the block's edges.
    pub fn finish(self) -> (r: Vec<Run>)
        ensures
            run_views(r@) == runs_finished(self@),
            runs_text(run_views(r@)) == trim(runs_text(self@)),
    {
        proof {
            finishing_trims_the_edges(self@);
        }
        let led = trim_front(self.runs);
        let tailed = trim_back(led);
        drop_empty(tailed)
    }
}

impl Default for RunBuilder {
    fn default() -> (r: Self)
        ensures
            r@ == Seq::<RunView>::empty(),
    {
        RunBuilder::new()
    }
}

} // verus!
