//! Wraps blocks into terminal lines.
//!
//! Every produced line records where it came from: the block index and the
//! character offset within that block. That mapping is what lets a reading
//! position survive a resize, and it is the basis for annotations.

pub mod laws;
pub mod lines;

use vstd::prelude::*;
use unicode_width::UnicodeWidthChar;
use crate::doc::{
    clipped, pushing_appends_the_text, run_views, runs_pushed, runs_text, Block, BlockKind,
    BlockView, Chapter, KindView, RunBuilder, RunStyle, RunView,
};
use crate::text::{
    chars_of, copy_text, decimal, decimal_of, lemma_decimal_u64, push_chars, push_text, slice_text,
    text_of,
};

verus! {

// ---------------------------------------------------------------------------
// Lines
// ---------------------------------------------------------------------------
/// A styled piece of a laid-out line.
#[derive(Debug)]
pub struct Piece {
    pub text: String,
    pub style: RunStyle,
    /// True for text the layout added, such as a list marker or an image label.
    /// Decoration carries no block offsets, so selections must skip it.
    pub decoration: bool,
}

#[verifier::ext_equal]
pub struct PieceView {
    pub text: Seq<char>,
    pub style: RunStyle,
    pub decoration: bool,
}

impl View for Piece {
    type V = PieceView;

    open spec fn view(&self) -> PieceView {
        PieceView { text: self.text@, style: self.style, decoration: self.decoration }
    }
}

pub open spec fn piece_views(s: Seq<Piece>) -> Seq<PieceView> {
    s.map_values(|p: Piece| p@)
}

/// Text of the book.
pub open spec fn text_piece(text: Seq<char>, style: RunStyle) -> PieceView {
    PieceView { text, style, decoration: false }
}

/// Text the layout added.
pub open spec fn added_piece(text: Seq<char>) -> PieceView {
    PieceView { text, style: crate::doc::plain_style(), decoration: true }
}

impl Piece {
    fn text(text: String, style: RunStyle) -> (r: Self)
        ensures
            r@ == text_piece(text@, style),
    {
        Piece { text, style, decoration: false }
    }

    fn decoration(text: String) -> (r: Self)
        ensures
            r@ == added_piece(text@),
    {
        Piece {
            text,
            style: RunStyle { bold: false, italic: false, code: false, link: false },
            decoration: true,
        }
    }
}

#[derive(Debug, Clone, Copy, PartialEq, Eq)]
pub enum LineKind {
    Heading(u8),
    Body,
    Quote,
    Code,
    Rule,
    /// One row of a picture. `row` says which, so the view knows what to paint.
    Image { row: u16, rows: u16 },
    /// Vertical spacing between blocks.
    Blank,
    /// A comment on an annotation, shown under the block it belongs to. It is
    /// not part of the book, so it holds no text position. Carries the colour of
    /// its annotation, so passage and comment read as one thing.
    Note { color: (u8, u8, u8) },
}

/// A picture that is ready to be placed, with the height it needs.
#[derive(Debug, Clone, Copy, PartialEq, Eq, Structural)]
pub struct ImagePlacement {
    pub block: usize,
    pub rows: u16,
}

/// A comment to be shown after a block.
#[derive(Debug)]
pub struct NoteAnchor {
    /// Block the comment is shown after.
    pub block: usize,
    /// Colour of the annotation it belongs to, so both read as one thing.
    pub color: (u8, u8, u8),
    pub text: String,
}

#[verifier::ext_equal]
pub struct NoteView {
    pub block: int,
    pub color: (u8, u8, u8),
    pub text: Seq<char>,
}

impl View for NoteAnchor {
    type V = NoteView;

    open spec fn view(&self) -> NoteView {
        NoteView { block: self.block as int, color: self.color, text: self.text@ }
    }
}

pub open spec fn note_views(s: Seq<NoteAnchor>) -> Seq<NoteView> {
    s.map_values(|n: NoteAnchor| n@)
}

#[derive(Debug)]
pub struct Line {
    /// Index of the source block in the chapter.
    pub block: usize,
    /// Character offset into the block's plain text where this line starts.
    pub offset: usize,
    pub indent: u16,
    pub kind: LineKind,
    pub pieces: Vec<Piece>,
}

#[verifier::ext_equal]
pub struct LineView {
    pub block: int,
    pub offset: int,
    pub indent: int,
    pub kind: LineKind,
    pub pieces: Seq<PieceView>,
}

impl View for Line {
    type V = LineView;

    open spec fn view(&self) -> LineView {
        LineView {
            block: self.block as int,
            offset: self.offset as int,
            indent: self.indent as int,
            kind: self.kind,
            pieces: piece_views(self.pieces@),
        }
    }
}

pub open spec fn line_views(s: Seq<Line>) -> Seq<LineView> {
    s.map_values(|l: Line| l@)
}

/// The text of the book that pieces show.
pub open spec fn book_text(pieces: Seq<PieceView>) -> Seq<char>
    decreases pieces.len(),
{
    if pieces.len() == 0 {
        Seq::empty()
    } else if pieces.last().decoration {
        book_text(pieces.drop_last())
    } else {
        book_text(pieces.drop_last()) + pieces.last().text
    }
}

/// Lines that hold no text position.
pub open spec fn holds_no_text(kind: LineKind) -> bool {
    match kind {
        LineKind::Blank => true,
        LineKind::Rule => true,
        LineKind::Note { .. } => true,
        LineKind::Image { .. } => true,
        _ => false,
    }
}

impl LineView {
    /// The block text this line shows.
    pub open spec fn shown(self) -> Seq<char> {
        if holds_no_text(self.kind) {
            Seq::empty()
        } else {
            book_text(self.pieces)
        }
    }

    pub open spec fn selectable(self) -> bool {
        self.shown().len() > 0
    }
}

/// A comment, a rule, a picture and a blank line select nothing.
pub proof fn comments_hold_no_text_position(line: LineView)
    requires
        holds_no_text(line.kind),
    ensures
        line.shown().len() == 0,
        !line.selectable(),
{
}

pub open spec fn blank_line(block: int) -> LineView {
    LineView { block, offset: 0, indent: 0, kind: LineKind::Blank, pieces: Seq::empty() }
}

impl Line {
    fn blank(block: usize) -> (r: Self)
        ensures
            r@ == blank_line(block as int),
    {
        let r = Line { block, offset: 0, indent: 0, kind: LineKind::Blank, pieces: Vec::new() };
        assert(r@ =~= blank_line(block as int));
        r
    }

    /// Number of characters of block text this line shows. Decoration, rules and
    /// comments carry no block text, so they select nothing.
    pub fn text_len(&self) -> (r: usize)
        ensures
            r == clipped(self@.shown().len() as int),
    {
        match self.kind {
            LineKind::Blank | LineKind::Rule | LineKind::Note { .. } | LineKind::Image { .. } => {
                return 0;
            },
            _ => {},
        }
        let mut total: usize = 0;
        let mut i: usize = 0;
        let ghost views = self@.pieces;
        assert(views.take(0) =~= Seq::<PieceView>::empty());
        while i < self.pieces.len()
            invariant
                i <= self.pieces@.len(),
                views == self@.pieces,
                total == clipped(book_text(views.take(i as int)).len() as int),
            decreases self.pieces@.len() - i,
        {
            assert(views.take(i + 1).drop_last() =~= views.take(i as int));
            assert(views[i as int] == self.pieces@[i as int]@);
            if !self.pieces[i].decoration {
                total = total.saturating_add(self.pieces[i].text.as_str().unicode_len());
            }
            i += 1;
        }
        assert(views.take(views.len() as int) =~= views);
        total
    }

    /// True when this line can hold the cursor.
    pub fn is_selectable(&self) -> (r: bool)
        ensures
            r == self@.selectable(),
    {
        self.text_len() > 0
    }
}

// ---------------------------------------------------------------------------
// Between text and screen
// ---------------------------------------------------------------------------
/// Where a text position sits on screen, and where a screen position sits in the
/// text. The layout is the only place that knows both.
pub struct Index<'a> {
    pub lines: &'a Vec<Line>,
}

/// Whether a line starts at or before a text position.
pub open spec fn starts_by(line: LineView, block: int, offset: int) -> bool {
    line.block < block || (line.block == block && line.offset <= offset)
}

/// From `i` on: the last selectable line that starts at or before a position,
/// before the first one that starts behind it.
pub open spec fn line_before(
    lines: Seq<LineView>,
    block: int,
    offset: int,
    i: int,
    best: Option<int>,
) -> Option<int>
    decreases lines.len() - i,
{
    if i < 0 || i >= lines.len() {
        best
    } else if !lines[i].selectable() {
        line_before(lines, block, offset, i + 1, best)
    } else if starts_by(lines[i], block, offset) {
        line_before(lines, block, offset, i + 1, Some(i))
    } else {
        best
    }
}

/// The first selectable line at or after `from`.
pub open spec fn selectable_from(lines: Seq<LineView>, from: int) -> Option<int>
    decreases lines.len() - from,
{
    if from < 0 || from >= lines.len() {
        None
    } else if lines[from].selectable() {
        Some(from)
    } else {
        selectable_from(lines, from + 1)
    }
}

/// The last selectable line among the first `n`.
pub open spec fn selectable_below(lines: Seq<LineView>, n: int) -> Option<int>
    decreases n,
{
    if n <= 0 || n > lines.len() {
        None
    } else if lines[n - 1].selectable() {
        Some(n - 1)
    } else {
        selectable_below(lines, n - 1)
    }
}

/// The line holding a text position, or the closest line before it, or else the
/// first that can hold the cursor.
pub open spec fn line_at(lines: Seq<LineView>, block: int, offset: int) -> Option<int> {
    match line_before(lines, block, offset, 0, None) {
        Some(i) => Some(i),
        None => selectable_from(lines, 0),
    }
}

pub open spec fn as_index(o: Option<usize>) -> Option<int> {
    match o {
        Some(i) => Some(i as int),
        None => None,
    }
}

/// The line a position maps to exists and can hold the cursor.
pub proof fn lines_found_are_selectable(lines: Seq<LineView>, block: int, offset: int)
    ensures
        line_at(lines, block, offset) matches Some(i) ==> 0 <= i < lines.len()
            && lines[i].selectable(),
        line_at(lines, block, offset) is None ==> forall|i: int|
            0 <= i < lines.len() ==> !(#[trigger] lines[i]).selectable(),
{
    lemma_line_before(lines, block, offset, 0, None);
    lemma_selectable_from(lines, 0);
}

proof fn lemma_line_before(lines: Seq<LineView>, block: int, offset: int, i: int, best: Option<int>)
    requires
        0 <= i,
        best matches Some(b) ==> 0 <= b < lines.len() && lines[b].selectable(),
    ensures
        line_before(lines, block, offset, i, best) matches Some(r) ==> 0 <= r < lines.len()
            && lines[r].selectable(),
    decreases lines.len() - i,
{
    if i < lines.len() {
        if !lines[i].selectable() {
            lemma_line_before(lines, block, offset, i + 1, best);
        } else if starts_by(lines[i], block, offset) {
            lemma_line_before(lines, block, offset, i + 1, Some(i));
        }
    }
}

pub proof fn lemma_selectable_from(lines: Seq<LineView>, from: int)
    requires
        0 <= from,
    ensures
        selectable_from(lines, from) matches Some(i) ==> from <= i < lines.len()
            && lines[i].selectable() && forall|k: int|
            from <= k < i ==> !(#[trigger] lines[k]).selectable(),
        selectable_from(lines, from) is None ==> forall|i: int|
            from <= i < lines.len() ==> !(#[trigger] lines[i]).selectable(),
    decreases lines.len() - from,
{
    if from < lines.len() && !lines[from].selectable() {
        lemma_selectable_from(lines, from + 1);
    }
}

pub proof fn lemma_selectable_below(lines: Seq<LineView>, n: int)
    requires
        0 <= n <= lines.len(),
    ensures
        selectable_below(lines, n) matches Some(i) ==> 0 <= i < n && lines[i].selectable()
            && forall|k: int| i < k < n ==> !(#[trigger] lines[k]).selectable(),
        selectable_below(lines, n) is None ==> forall|i: int|
            0 <= i < n ==> !(#[trigger] lines[i]).selectable(),
    decreases n,
{
    if n > 0 && !lines[n - 1].selectable() {
        lemma_selectable_below(lines, n - 1);
    }
}

impl<'a> Index<'a> {
    pub fn new(lines: &'a Vec<Line>) -> (r: Self)
        ensures
            r.lines@ == lines@,
    {
        Index { lines }
    }

    /// The line holding a block offset, or the closest line before it.
    pub fn line_of(&self, block: usize, offset: usize) -> (r: Option<usize>)
        ensures
            as_index(r) == line_at(line_views(self.lines@), block as int, offset as int),
            r matches Some(i) ==> i < self.lines@.len(),
    {
        let ghost views = line_views(self.lines@);
        let mut best: Option<usize> = None;
        let mut i: usize = 0;
        while i < self.lines.len()
            invariant_except_break
                i <= self.lines@.len(),
                line_before(views, block as int, offset as int, 0, None) == line_before(
                    views,
                    block as int,
                    offset as int,
                    i as int,
                    as_index(best),
                ),
            invariant
                views == line_views(self.lines@),
                best matches Some(b) ==> b < self.lines@.len(),
            ensures
                line_before(views, block as int, offset as int, 0, None) == as_index(best),
            decreases self.lines@.len() - i,
        {
            let line = &self.lines[i];
            assert(views[i as int] == line@);
            if line.is_selectable() {
                if line.block < block || (line.block == block && line.offset <= offset) {
                    best = Some(i);
                } else {
                    break;
                }
            }
            i += 1;
        }
        match best {
            Some(b) => Some(b),
            None => self.next_selectable(0),
        }
    }

    /// The first selectable line at or after `from`.
    pub fn next_selectable(&self, from: usize) -> (r: Option<usize>)
        ensures
            as_index(r) == selectable_from(line_views(self.lines@), from as int),
            r matches Some(i) ==> i < self.lines@.len(),
    {
        let mut i: usize = from;
        let ghost views = line_views(self.lines@);
        while i < self.lines.len()
            invariant
                from <= i,
                views == line_views(self.lines@),
                selectable_from(views, from as int) == selectable_from(views, i as int),
            decreases self.lines@.len() - i,
        {
            assert(views[i as int] == self.lines@[i as int]@);
            if self.lines[i].is_selectable() {
                return Some(i);
            }
            i += 1;
        }
        None
    }

    /// The last selectable line at or before `from`.
    pub fn previous_selectable(&self, from: usize) -> (r: Option<usize>)
        ensures
            as_index(r) == selectable_below(
                line_views(self.lines@),
                if from < self.lines@.len() {
                    from + 1
                } else {
                    self.lines@.len() as int
                },
            ),
            r matches Some(i) ==> i < self.lines@.len(),
    {
        let ghost views = line_views(self.lines@);
        let total = self.lines.len();
        let start: usize = if from < total {
            from + 1
        } else {
            total
        };
        let mut n: usize = start;
        while n > 0
            invariant
                n <= start <= self.lines@.len(),
                start == (if from < self.lines@.len() {
                    from + 1
                } else {
                    self.lines@.len() as int
                }),
                views == line_views(self.lines@),
                selectable_below(views, start as int) == selectable_below(views, n as int),
            decreases n,
        {
            assert(views[n - 1] == self.lines@[n - 1]@);
            if self.lines[n - 1].is_selectable() {
                return Some(n - 1);
            }
            n -= 1;
        }
        None
    }
}

/// Reading width and margins.
#[derive(Debug, Clone, Copy, PartialEq, Eq, Structural)]
pub struct LayoutOptions {
    /// Maximum text width in columns, before indentation.
    pub max_width: u16,
}

impl Default for LayoutOptions {
    /// Use the full window. A narrower measure, around 66 columns, reads better
    /// for body text; `max_width` in the configuration sets one.
    fn default() -> (r: Self)
        ensures
            r.max_width == u16::MAX,
    {
        LayoutOptions { max_width: u16::MAX }
    }
}

// ---------------------------------------------------------------------------
// Breaking lines
// ---------------------------------------------------------------------------
/// How many columns a character takes, or nothing for a control character.
pub uninterp spec fn char_columns(c: char) -> Option<usize>;

/// `unicode_width::UnicodeWidthChar::width`. Claims that the answer depends on
/// the character alone, that a printable ASCII character takes one column and
/// that no character takes more than three.
#[verifier::external_body]
fn column_width(c: char) -> (r: Option<usize>)
    ensures
        r == char_columns(c),
        0x20 <= c as int && (c as int) < 0x7f ==> r == Some(1usize),
        r matches Some(w) ==> w <= 3,
{
    c.width()
}

/// Columns of a character: one for printable ASCII, none for a control character,
/// and at most three.
pub open spec fn columns(c: char) -> int {
    if 0x20 <= c as int && (c as int) < 0x7f {
        1
    } else {
        match char_columns(c) {
            Some(w) => if w <= 3 {
                w as int
            } else {
                3
            },
            None => 0,
        }
    }
}

fn width_of(c: char) -> (r: usize)
    ensures
        r == columns(c),
        r <= 3,
        0x20 <= c as int && (c as int) < 0x7f ==> r == 1,
{
    match column_width(c) {
        Some(w) => w,
        None => 0,
    }
}

/// Columns of the characters from `from` up to `to`.
pub open spec fn columns_between(s: Seq<char>, from: int, to: int) -> int
    decreases to - from,
{
    if from >= to {
        0
    } else {
        columns_between(s, from, to - 1) + columns(s[to - 1])
    }
}

/// The first position at or after `at` whose character does not fit into what is
/// left of the line.
pub open spec fn first_over(s: Seq<char>, at: int, left: int) -> int
    decreases s.len() - at,
{
    if at < 0 || at >= s.len() {
        s.len() as int
    } else if columns(s[at]) > left {
        at
    } else {
        first_over(s, at + 1, left - columns(s[at]))
    }
}

/// The last space behind `start` and before `end`.
pub open spec fn last_space(s: Seq<char>, start: int, end: int) -> Option<int>
    decreases end - start,
{
    if end <= start + 1 {
        None
    } else if s[end - 1] == ' ' {
        Some(end - 1)
    } else {
        last_space(s, start, end - 1)
    }
}

/// Where a line that starts at `start` ends: everything if it fits; right before
/// a space that does not fit; at the last space that does; and in the middle of
/// a word only when the word alone is too long.
pub open spec fn break_point(s: Seq<char>, start: int, budget: int) -> int {
    let p = first_over(s, start, budget);
    if p >= s.len() {
        s.len() as int
    } else if s[p] == ' ' {
        p
    } else {
        match last_space(s, start, p) {
            Some(space) => space,
            None => if p > start {
                p
            } else {
                start + 1
            },
        }
    }
}

/// Finds where to break a line, preferring the last space that fits.
fn break_at(s: &Vec<char>, start: usize, budget: u16) -> (r: usize)
    requires
        start < s@.len(),
        budget >= 1,
    ensures
        r == break_point(s@, start as int, budget as int),
        start < r <= s@.len(),
{
    let mut left: usize = budget as usize;
    let mut space: Option<usize> = None;
    let mut at: usize = start;
    while at < s.len()
        invariant
            start <= at <= s@.len(),
            start < s@.len(),
            budget >= 1,
            left <= budget,
            at == start ==> left == budget,
            first_over(s@, start as int, budget as int) == first_over(s@, at as int, left as int),
            space matches Some(k) ==> start < k < at,
            as_index(space) == last_space(s@, start as int, at as int),
        decreases s@.len() - at,
    {
        let c = s[at];
        let w = width_of(c);
        if w > left {
            if c == ' ' {
                return at;
            }
            return match space {
                Some(k) => k,
                None => if at > start {
                    at
                } else {
                    start + 1
                },
            };
        }
        if c == ' ' && at > start {
            space = Some(at);
        }
        left -= w;
        at += 1;
    }
    s.len()
}

proof fn lemma_first_over(s: Seq<char>, start: int, at: int, left: int, budget: int)
    requires
        0 <= start <= at <= s.len(),
        left == budget - columns_between(s, start, at),
        0 <= left,
    ensures
        at <= first_over(s, at, left) <= s.len(),
        columns_between(s, start, first_over(s, at, left)) <= budget,
    decreases s.len() - at,
{
    if at < s.len() && columns(s[at]) <= left {
        lemma_first_over(s, start, at + 1, left - columns(s[at]), budget);
    }
}

proof fn lemma_columns_grow(s: Seq<char>, from: int, mid: int, to: int)
    requires
        from <= mid <= to,
    ensures
        columns_between(s, from, mid) <= columns_between(s, from, to),
    decreases to - mid,
{
    if mid < to {
        lemma_columns_grow(s, from, mid, to - 1);
    }
}

proof fn lemma_last_space(s: Seq<char>, start: int, end: int)
    requires
        0 <= start <= end <= s.len(),
    ensures
        last_space(s, start, end) matches Some(k) ==> start < k < end && s[k] == ' ',
    decreases end - start,
{
    if end > start + 1 && s[end - 1] != ' ' {
        lemma_last_space(s, start, end - 1);
    }
}

/// A line is never wider than its budget, unless a single character is. No
/// character is wider than three columns.
pub proof fn broken_lines_fit(s: Seq<char>, start: int, budget: int)
    requires
        0 <= start < s.len(),
        0 <= budget,
    ensures
        start <= break_point(s, start, budget) <= s.len(),
        columns_between(s, start, break_point(s, start, budget)) <= budget || break_point(
            s,
            start,
            budget,
        ) == start + 1,
        budget >= 3 ==> columns_between(s, start, break_point(s, start, budget)) <= budget,
{
    assert(columns_between(s, start, start + 1) == columns_between(s, start, start) + columns(
        s[start],
    ));
    lemma_first_over(s, start, start, budget, budget);
    let p = first_over(s, start, budget);
    if p < s.len() {
        lemma_last_space(s, start, p);
        lemma_columns_grow(s, start, break_point(s, start, budget), if break_point(
            s,
            start,
            budget,
        ) <= p {
            p
        } else {
            break_point(s, start, budget)
        });
    }
}

/// The first position at or after `at` that holds no space.
pub open spec fn behind_spaces(s: Seq<char>, at: int) -> int
    decreases s.len() - at,
{
    if 0 <= at < s.len() && s[at] == ' ' {
        behind_spaces(s, at + 1)
    } else {
        at
    }
}

proof fn lemma_behind_spaces(s: Seq<char>, at: int)
    requires
        0 <= at <= s.len(),
    ensures
        at <= behind_spaces(s, at) <= s.len(),
        forall|k: int| at <= k < behind_spaces(s, at) ==> #[trigger] s[k] == ' ',
    decreases s.len() - at,
{
    if at < s.len() && s[at] == ' ' {
        lemma_behind_spaces(s, at + 1);
    }
}

fn skip_spaces(s: &Vec<char>, from: usize) -> (r: usize)
    requires
        from <= s@.len(),
    ensures
        r == behind_spaces(s@, from as int),
        from <= r <= s@.len(),
{
    let mut at: usize = from;
    while at < s.len() && s[at] == ' '
        invariant
            from <= at <= s@.len(),
            behind_spaces(s@, from as int) == behind_spaces(s@, at as int),
        decreases s@.len() - at,
    {
        at += 1;
    }
    at
}

/// Columns of a whole text.
pub open spec fn text_columns(s: Seq<char>) -> int {
    columns_between(s, 0, s.len() as int)
}

/// Printable ASCII takes one column each.
pub open spec fn printable_ascii(s: Seq<char>) -> bool {
    forall|i: int| 0 <= i < s.len() ==> 0x20 <= #[trigger] (s[i] as int) && (s[i] as int) < 0x7f
}

fn ascii_width(s: &Vec<char>) -> (r: usize)
    requires
        printable_ascii(s@),
    ensures
        r == text_columns(s@),
        r == s@.len(),
{
    let mut i: usize = 0;
    while i < s.len()
        invariant
            i <= s@.len(),
            printable_ascii(s@),
            columns_between(s@, 0, i as int) == i,
        decreases s@.len() - i,
    {
        assert(0x20 <= s@[i as int] as int && (s@[i as int] as int) < 0x7f);
        let w = width_of(s[i]);
        i += 1;
    }
    s.len()
}

// ---------------------------------------------------------------------------
// Laying out blocks
// ---------------------------------------------------------------------------
/// How far a block is indented.
pub open spec fn indent_of(kind: KindView) -> int {
    match kind {
        KindView::Quote => 4,
        KindView::Code => 4,
        KindView::ListItem { depth, .. } => 2 + depth * 2,
        _ => 0,
    }
}

fn indent_for(kind: &BlockKind) -> (r: u16)
    ensures
        r == indent_of(kind@),
        r <= 512,
{
    match kind {
        BlockKind::Quote => 4,
        BlockKind::Code => 4,
        BlockKind::ListItem { depth, .. } => 2 + (*depth as u16) * 2,
        _ => 0,
    }
}

/// The marker in front of a list item.
pub open spec fn marker_of(kind: KindView) -> Option<Seq<char>> {
    match kind {
        KindView::ListItem { ordinal, .. } => Some(
            match ordinal {
                Some(n) => decimal(n as nat) + ". "@,
                None => "- "@,
            },
        ),
        _ => None,
    }
}

pub open spec fn chars_in(o: Option<Vec<char>>) -> Option<Seq<char>> {
    match o {
        Some(v) => Some(v@),
        None => None,
    }
}

fn list_marker(kind: &BlockKind) -> (r: Option<Vec<char>>)
    ensures
        chars_in(r) == marker_of(kind@),
        r matches Some(m) ==> printable_ascii(m@) && m@.len() <= 22,
{
    match kind {
        BlockKind::ListItem { ordinal, .. } => {
            let mut out: Vec<char> = Vec::new();
            match ordinal {
                Some(n) => {
                    let n64: u64 = *n as u64;
                    proof {
                        lemma_decimal_u64(n64);
                        reveal_strlit(". ");
                    }
                    let digits = decimal_of(n64);
                    push_chars(&mut out, &digits);
                    push_text(&mut out, ". ");
                    assert(out@ =~= decimal(*n as nat) + ". "@);
                    assert forall|i: int| 0 <= i < out@.len() implies 0x20 <= #[trigger] (
                    out@[i] as int) && (out@[i] as int) < 0x7f by {
                        if i < digits@.len() {
                            assert(out@[i] == decimal(*n as nat)[i]);
                        } else {
                            assert(out@[i] == ". "@[i - digits@.len()]);
                        }
                    }
                },
                None => {
                    proof {
                        reveal_strlit("- ");
                    }
                    push_text(&mut out, "- ");
                    assert(out@ =~= "- "@);
                },
            }
            Some(out)
        },
        _ => None,
    }
}

/// Whether a blank line goes above a block, given the line before it. Items of a
/// list and lines of a listing stand close to their neighbours.
pub open spec fn spaced_from(kind: KindView, previous: Option<LineKind>) -> bool {
    match previous {
        None => false,
        Some(p) => if p is Blank {
            false
        } else {
            match kind {
                KindView::ListItem { .. } => !(p is Body),
                KindView::Code => !(p is Code),
                _ => true,
            }
        },
    }
}

fn needs_leading_blank(kind: &BlockKind, previous: Option<LineKind>) -> (r: bool)
    ensures
        r == spaced_from(kind@, previous),
{
    match previous {
        None => false,
        Some(p) => match p {
            LineKind::Blank => false,
            _ => match kind {
                BlockKind::ListItem { .. } => match p {
                    LineKind::Body => false,
                    _ => true,
                },
                BlockKind::Code => match p {
                    LineKind::Code => false,
                    _ => true,
                },
                _ => true,
            },
        },
    }
}

/// The first `k` runs, as far as they lie between two offsets of the block's
/// text.
pub open spec fn runs_between(runs: Seq<RunView>, k: int, start: int, end: int) -> Seq<RunView>
    decreases k,
{
    if k <= 0 || k > runs.len() {
        Seq::empty()
    } else {
        let at = runs_text(runs.take(k - 1)).len() as int;
        let text = runs[k - 1].text;
        let from = if at > start {
            at
        } else {
            start
        };
        let to = if at + text.len() < end {
            at + text.len()
        } else {
            end
        };
        let front = runs_between(runs, k - 1, start, end);
        if from >= to {
            front
        } else {
            runs_pushed(front, text.subrange(from - at, to - at), runs[k - 1].style)
        }
    }
}

/// The pieces of a line of running text.
pub open spec fn pieces_between(runs: Seq<RunView>, start: int, end: int) -> Seq<PieceView> {
    runs_between(runs, runs.len() as int, start, end).map_values(
        |r: RunView| text_piece(r.text, r.style),
    )
}

/// Splits a character range of a block into pieces of uniform style.
fn slice_runs(block: &Block, start: usize, end: usize) -> (r: Vec<Piece>)
    requires
        start <= end <= block@.plain().len(),
        block@.plain().len() <= usize::MAX,
    ensures
        piece_views(r@) == pieces_between(block@.runs, start as int, end as int),
{
    let mut builder = RunBuilder::new();
    let ghost runs = block@.runs;
    let mut at: usize = 0;
    let mut k: usize = 0;
    assert(runs.take(0) =~= Seq::<RunView>::empty());
    while k < block.runs.len()
        invariant
            k <= block.runs@.len(),
            runs == block@.runs,
            start <= end <= block@.plain().len(),
            block@.plain().len() <= usize::MAX,
            at == runs_text(runs.take(k as int)).len(),
            builder@ == runs_between(runs, k as int, start as int, end as int),
        decreases block.runs@.len() - k,
    {
        let chars = chars_of(&block.runs[k].text);
        assert(runs[k as int] == block.runs@[k as int]@);
        proof {
            assert(runs.take(k + 1).drop_last() =~= runs.take(k as int));
            crate::doc::lemma_text_grows(runs, k + 1);
        }
        let stop: usize = at + chars.len();
        let from = if at > start {
            at
        } else {
            start
        };
        let to = if stop < end {
            stop
        } else {
            end
        };
        if from < to {
            let piece = slice_text(&chars, from - at, to - at);
            builder.push(&piece, block.runs[k].style);
        }
        at = stop;
        k += 1;
    }
    let mut pieces: Vec<Piece> = Vec::new();
    let ghost wanted = pieces_between(runs, start as int, end as int);
    let found = builder.runs;
    let mut i: usize = 0;
    while i < found.len()
        invariant
            i <= found@.len(),
            run_views(found@) == runs_between(runs, runs.len() as int, start as int, end as int),
            wanted == pieces_between(runs, start as int, end as int),
            pieces@.len() == i,
            forall|j: int| 0 <= j < i ==> (#[trigger] pieces@[j])@ == wanted[j],
        decreases found@.len() - i,
    {
        assert(run_views(found@)[i as int] == found@[i as int]@);
        pieces.push(Piece::text(found[i].text.clone(), found[i].style));
        i += 1;
    }
    assert(piece_views(pieces@) =~= wanted);
    pieces
}

pub open spec fn at_least(n: int, low: int) -> int {
    if n < low {
        low
    } else {
        n
    }
}

/// The lines of running text from `at` on. A list marker shortens every line:
/// the first carries it, the rest are indented by its width so the text stays
/// aligned.
pub open spec fn body_lines(
    block: BlockView,
    index: int,
    budget: int,
    indent: int,
    kind: LineKind,
    marker: Option<Seq<char>>,
    at: int,
) -> Seq<LineView>
    decreases block.plain().len() - at,
{
    let s = block.plain();
    if at < 0 || at >= s.len() {
        Seq::empty()
    } else {
        let e = break_point(s, at, budget);
        let head = match marker {
            Some(m) => if at == 0 {
                seq![added_piece(m)]
            } else {
                Seq::empty()
            },
            None => Seq::empty(),
        };
        let hang = match marker {
            Some(m) => if at == 0 {
                0
            } else {
                text_columns(m)
            },
            None => 0,
        };
        let line = LineView {
            block: index,
            offset: at,
            indent: indent + hang,
            kind,
            pieces: head + pieces_between(block.runs, at, e),
        };
        let next = behind_spaces(s, e);
        if next <= at || next > s.len() {
            seq![line]
        } else {
            seq![line] + body_lines(block, index, budget, indent, kind, marker, next)
        }
    }
}

proof fn lemma_line_pushed(s: Seq<Line>, l: Line)
    ensures
        line_views(s.push(l)) == line_views(s).push(l@),
{
    assert(line_views(s.push(l)) =~= line_views(s).push(l@));
}

/// Budget of a line of running text behind a marker.
pub open spec fn body_budget(usable: int, marker: Option<Seq<char>>) -> int {
    match marker {
        Some(m) => at_least(
            if text_columns(m) > usable {
                0
            } else {
                usable - text_columns(m)
            },
            4,
        ),
        None => at_least(usable, 4),
    }
}

fn wrap_block(
    index: usize,
    block: &Block,
    usable: u16,
    indent: u16,
    kind: LineKind,
    marker: Option<Vec<char>>,
    out: &mut Vec<Line>,
)
    requires
        indent <= 512,
        marker matches Some(m) ==> printable_ascii(m@) && m@.len() <= 22,
    ensures
        line_views(final(out)@) == line_views(old(out)@) + body_lines(
            block@,
            index as int,
            body_budget(usable as int, chars_in(marker)),
            indent as int,
            kind,
            chars_in(marker),
            0,
        ),
{
    let s = block.plain_chars();
    let ghost start = line_views(out@);
    let marker_width: u16 = match &marker {
        Some(m) => ascii_width(m) as u16,
        None => 0,
    };
    let rest: u16 = if marker_width > usable {
        0
    } else {
        usable - marker_width
    };
    let budget: u16 = if rest < 4 {
        4
    } else {
        rest
    };
    let ghost view = chars_in(marker);
    assert(budget == body_budget(usable as int, view));
    let ghost all = body_lines(block@, index as int, budget as int, indent as int, kind, view, 0);
    let mut at: usize = 0;
    assert(start + all =~= line_views(out@) + all);
    while at < s.len()
        invariant
            at <= s@.len(),
            s@ == block@.plain(),
            s@.len() <= usize::MAX,
            budget >= 4,
            indent <= 512,
            marker_width <= 22,
            view == chars_in(marker),
            match view {
                Some(m) => marker_width == text_columns(m),
                None => marker_width == 0,
            },
            all == body_lines(block@, index as int, budget as int, indent as int, kind, view, 0),
            start + all == line_views(out@) + body_lines(
                block@,
                index as int,
                budget as int,
                indent as int,
                kind,
                view,
                at as int,
            ),
        decreases s@.len() - at,
    {
        let end = break_at(&s, at, budget);
        let mut pieces: Vec<Piece> = Vec::new();
        if at == 0 {
            if let Some(m) = &marker {
                pieces.push(Piece::decoration(text_of(m)));
            }
        }
        let ghost head = piece_views(pieces@);
        let mut text = slice_runs(block, at, end);
        let ghost tail = piece_views(text@);
        pieces.append(&mut text);
        assert(piece_views(pieces@) =~= head + tail);
        let line = Line {
            block: index,
            offset: at,
            indent: if at == 0 {
                indent
            } else {
                indent + marker_width
            },
            kind,
            pieces,
        };
        let ghost before = line_views(out@);
        proof {
            lemma_line_pushed(out@, line);
            match view {
                Some(m) => {
                    if at == 0 {
                        assert(head =~= seq![added_piece(m)]);
                    } else {
                        assert(head =~= Seq::<PieceView>::empty());
                    }
                },
                None => {
                    assert(head =~= Seq::<PieceView>::empty());
                },
            }
        }
        out.push(line);
        let next = skip_spaces(&s, end);
        assert(before + body_lines(
            block@,
            index as int,
            budget as int,
            indent as int,
            kind,
            view,
            at as int,
        ) =~= line_views(out@) + body_lines(
            block@,
            index as int,
            budget as int,
            indent as int,
            kind,
            view,
            next as int,
        ));
        at = next;
    }
    assert(line_views(out@) + Seq::<LineView>::empty() =~= line_views(out@));
}

/// What marks the remainder of a code line that had to be broken.
pub open spec fn continuation() -> Seq<char> {
    "… "@
}

/// The lines of code from `at` on. A break inside code swallows no spaces: they
/// are indentation.
pub open spec fn code_lines(
    s: Seq<char>,
    index: int,
    usable: int,
    indent: int,
    at: int,
) -> Seq<LineView>
    decreases s.len() - at,
{
    if at < 0 || at >= s.len() {
        Seq::empty()
    } else {
        let budget = if at == 0 {
            at_least(usable, 8)
        } else {
            at_least(usable - 2, 8)
        };
        let e = break_point(s, at, budget);
        let head = if at == 0 {
            Seq::empty()
        } else {
            seq![added_piece(continuation())]
        };
        let line = LineView {
            block: index,
            offset: at,
            indent,
            kind: LineKind::Code,
            pieces: head.push(
                text_piece(s.subrange(at, e), crate::epub::xhtml::code_style()),
            ),
        };
        if e <= at || e > s.len() {
            seq![line]
        } else {
            seq![line] + code_lines(s, index, usable, indent, e)
        }
    }
}

/// A block of code: at least one line, even when there is nothing on it.
pub open spec fn code_block_lines(s: Seq<char>, index: int, usable: int, indent: int) -> Seq<LineView> {
    if s.len() == 0 {
        seq![
            LineView { block: index, offset: 0, indent, kind: LineKind::Code, pieces: Seq::empty() },
        ]
    } else {
        code_lines(s, index, usable, indent, 0)
    }
}

/// Lays out one line of code, breaking it only where it exceeds the window.
///
/// The break happens at the last space that fits, as in prose, but a wrapped
/// remainder is marked and indented so it cannot be mistaken for a line of its
/// own.
fn wrap_code(index: usize, block: &Block, usable: u16, indent: u16, out: &mut Vec<Line>)
    ensures
        line_views(final(out)@) == line_views(old(out)@) + code_block_lines(
            block@.plain(),
            index as int,
            usable as int,
            indent as int,
        ),
{
    let s = block.plain_chars();
    let ghost start = line_views(out@);
    if s.len() == 0 {
        let line = Line { block: index, offset: 0, indent, kind: LineKind::Code, pieces: Vec::new() };
        assert(piece_views(line.pieces@) =~= Seq::<PieceView>::empty());
        proof {
            lemma_line_pushed(out@, line);
        }
        out.push(line);
        assert(line_views(out@) =~= start + seq![line@]);
        return;
    }
    let ghost all = code_lines(s@, index as int, usable as int, indent as int, 0);
    let mut at: usize = 0;
    assert(start + all =~= line_views(out@) + all);
    while at < s.len()
        invariant
            at <= s@.len(),
            s@.len() <= usize::MAX,
            start + all == line_views(out@) + code_lines(
                s@,
                index as int,
                usable as int,
                indent as int,
                at as int,
            ),
        decreases s@.len() - at,
    {
        let room: u16 = if at == 0 {
            usable
        } else if usable < 2 {
            0
        } else {
            usable - 2
        };
        let budget: u16 = if room < 8 {
            8
        } else {
            room
        };
        let end = break_at(&s, at, budget);
        let mut pieces: Vec<Piece> = Vec::new();
        if at > 0 {
            pieces.push(Piece::decoration(copy_text("… ")));
            assert(piece_views(pieces@) =~= seq![added_piece(continuation())]);
        } else {
            assert(piece_views(pieces@) =~= Seq::<PieceView>::empty());
        }
        let ghost head = piece_views(pieces@);
        let piece = Piece::text(
            slice_text(&s, at, end),
            RunStyle { bold: false, italic: false, code: true, link: false },
        );
        pieces.push(piece);
        assert(piece_views(pieces@) =~= head.push(piece@));
        let line = Line { block: index, offset: at, indent, kind: LineKind::Code, pieces };
        let ghost before = line_views(out@);
        proof {
            lemma_line_pushed(out@, line);
        }
        out.push(line);
        assert(before + code_lines(s@, index as int, usable as int, indent as int, at as int)
            =~= line_views(out@) + code_lines(
            s@,
            index as int,
            usable as int,
            indent as int,
            end as int,
        ));
        at = end;
    }
    assert(line_views(out@) + Seq::<LineView>::empty() =~= line_views(out@));
}

/// The lines of a comment from `at` on. Both prefix and text are decoration: the
/// comment is not part of the book, so it must not shift any offset.
pub open spec fn note_lines(
    s: Seq<char>,
    index: int,
    color: (u8, u8, u8),
    usable: int,
    at: int,
) -> Seq<LineView>
    decreases s.len() - at,
{
    if at < 0 || at >= s.len() {
        Seq::empty()
    } else {
        let e = break_point(s, at, usable);
        let line = LineView {
            block: index,
            offset: 0,
            indent: 4,
            kind: LineKind::Note { color },
            pieces: seq![
                added_piece(
                    if at == 0 {
                        "> "@
                    } else {
                        "  "@
                    },
                ),
                added_piece(s.subrange(at, e)),
            ],
        };
        let next = behind_spaces(s, e);
        if next <= at || next > s.len() {
            seq![line]
        } else {
            seq![line] + note_lines(s, index, color, usable, next)
        }
    }
}

/// A comment below its block, set off by a blank line.
pub open spec fn note_block(note: NoteView, index: int, width: int) -> Seq<LineView> {
    seq![blank_line(index)] + note_lines(note.text, index, note.color, at_least(width - 6, 8), 0)
}

/// Wraps a comment into indented lines below its block.
fn push_note(index: usize, note: &NoteAnchor, width: u16, out: &mut Vec<Line>)
    ensures
        line_views(final(out)@) == line_views(old(out)@) + note_block(
            note@,
            index as int,
            width as int,
        ),
{
    let ghost start = line_views(out@);
    let room: u16 = if width < 6 {
        0
    } else {
        width - 6
    };
    let usable: u16 = if room < 8 {
        8
    } else {
        room
    };
    let s = chars_of(&note.text);
    let gap = Line::blank(index);
    proof {
        lemma_line_pushed(out@, gap);
    }
    out.push(gap);
    let ghost all = note_lines(s@, index as int, note.color, usable as int, 0);
    assert(start + note_block(note@, index as int, width as int) =~= line_views(out@) + all);
    let mut at: usize = 0;
    while at < s.len()
        invariant
            at <= s@.len(),
            s@.len() <= usize::MAX,
            usable >= 8,
            start + note_block(note@, index as int, width as int) == line_views(out@) + note_lines(
                s@,
                index as int,
                note.color,
                usable as int,
                at as int,
            ),
        decreases s@.len() - at,
    {
        let end = break_at(&s, at, usable);
        let mut pieces: Vec<Piece> = Vec::new();
        let prefix = Piece::decoration(
            if at == 0 {
                copy_text("> ")
            } else {
                copy_text("  ")
            },
        );
        let text = Piece::decoration(slice_text(&s, at, end));
        pieces.push(prefix);
        pieces.push(text);
        assert(piece_views(pieces@) =~= seq![prefix@, text@]);
        let line = Line {
            block: index,
            offset: 0,
            indent: 4,
            kind: LineKind::Note { color: note.color },
            pieces,
        };
        let ghost before = line_views(out@);
        proof {
            lemma_line_pushed(out@, line);
        }
        out.push(line);
        let next = skip_spaces(&s, end);
        assert(before + note_lines(s@, index as int, note.color, usable as int, at as int)
            =~= line_views(out@) + note_lines(
            s@,
            index as int,
            note.color,
            usable as int,
            next as int,
        ));
        at = next;
    }
    assert(line_views(out@) + Seq::<LineView>::empty() =~= line_views(out@));
}

/// The rows reserved for a picture.
pub open spec fn image_lines(index: int, indent: int, rows: u16) -> Seq<LineView> {
    Seq::new(
        rows as nat,
        |row: int|
            LineView {
                block: index,
                offset: 0,
                indent,
                kind: LineKind::Image { row: row as u16, rows },
                pieces: Seq::empty(),
            },
    )
}

/// The first placement for a block.
pub open spec fn placement_of(images: Seq<ImagePlacement>, index: int, i: int) -> Option<u16>
    decreases images.len() - i,
{
    if i < 0 || i >= images.len() {
        None
    } else if images[i].block == index {
        Some(images[i].rows)
    } else {
        placement_of(images, index, i + 1)
    }
}

fn find_placement(images: &Vec<ImagePlacement>, index: usize) -> (r: Option<u16>)
    ensures
        r == placement_of(images@, index as int, 0),
{
    let mut i: usize = 0;
    while i < images.len()
        invariant
            i <= images@.len(),
            placement_of(images@, index as int, 0) == placement_of(images@, index as int, i as int),
        decreases images@.len() - i,
    {
        if images[i].block == index {
            return Some(images[i].rows);
        }
        i += 1;
    }
    None
}

/// The kind of line that a block of running text gives.
pub open spec fn body_kind(kind: KindView) -> LineKind {
    match kind {
        KindView::Heading(level) => LineKind::Heading(level),
        KindView::Quote => LineKind::Quote,
        _ => LineKind::Body,
    }
}

/// The lines of one block, without what goes above and below it.
pub open spec fn block_lines(
    block: BlockView,
    index: int,
    width: int,
    images: Seq<ImagePlacement>,
) -> Seq<LineView> {
    let indent = indent_of(block.kind);
    let usable = at_least(width - indent, 8);
    match block.kind {
        KindView::Rule => seq![
            LineView { block: index, offset: 0, indent, kind: LineKind::Rule, pieces: Seq::empty() },
        ],
        KindView::Code => code_block_lines(block.plain(), index, usable, indent),
        KindView::Image { .. } => match placement_of(images, index, 0) {
            // A picture that could be read occupies as many lines as it is tall.
            Some(rows) => image_lines(index, indent, rows),
            // Without pixels, the alt text has to do.
            None => seq![
                LineView {
                    block: index,
                    offset: 0,
                    indent,
                    kind: LineKind::Image { row: 0, rows: 1 },
                    pieces: seq![added_piece("["@ + block.plain() + "]"@)],
                },
            ],
        },
        kind => body_lines(
            block,
            index,
            body_budget(usable, marker_of(kind)),
            indent,
            body_kind(kind),
            marker_of(kind),
            0,
        ),
    }
}

/// The comments on a block, one below the other.
pub open spec fn notes_below(notes: Seq<NoteView>, k: int, index: int, width: int) -> Seq<LineView>
    decreases k,
{
    if k <= 0 || k > notes.len() {
        Seq::empty()
    } else {
        let front = notes_below(notes, k - 1, index, width);
        if notes[k - 1].block == index {
            front + note_block(notes[k - 1], index, width)
        } else {
            front
        }
    }
}

pub open spec fn last_kind(lines: Seq<LineView>) -> Option<LineKind> {
    if lines.len() == 0 {
        None
    } else {
        Some(lines.last().kind)
    }
}

/// The first `n` blocks of a chapter, one below the other.
pub open spec fn blocks_laid(
    blocks: Seq<BlockView>,
    n: int,
    width: int,
    notes: Seq<NoteView>,
    images: Seq<ImagePlacement>,
) -> Seq<LineView>
    decreases n,
{
    if n <= 0 || n > blocks.len() {
        Seq::empty()
    } else {
        let above = blocks_laid(blocks, n - 1, width, notes, images);
        let block = blocks[n - 1];
        let gap = if spaced_from(block.kind, last_kind(above)) {
            seq![blank_line(n - 1)]
        } else {
            Seq::empty()
        };
        above + gap + block_lines(block, n - 1, width, images) + notes_below(
            notes,
            notes.len() as int,
            n - 1,
            width,
        )
    }
}

/// Lines without blank ones at the end: trailing spacing serves no purpose.
pub open spec fn without_trailing_blanks(lines: Seq<LineView>) -> Seq<LineView>
    decreases lines.len(),
{
    if lines.len() > 0 && lines.last().kind is Blank {
        without_trailing_blanks(lines.drop_last())
    } else {
        lines
    }
}

/// The reading width. It never exceeds a window of eight columns or more; a
/// configured maximum below the window width is intentional, so it is not raised.
pub open spec fn reading_width(available: u16, options: LayoutOptions) -> int {
    at_least(
        if available < options.max_width {
            available as int
        } else {
            options.max_width as int
        },
        8,
    )
}

/// A chapter as lines.
pub open spec fn laid_out(
    blocks: Seq<BlockView>,
    available: u16,
    options: LayoutOptions,
    notes: Seq<NoteView>,
    images: Seq<ImagePlacement>,
) -> Seq<LineView> {
    without_trailing_blanks(
        blocks_laid(blocks, blocks.len() as int, reading_width(available, options), notes, images),
    )
}

fn push_image(index: usize, block: &Block, indent: u16, images: &Vec<ImagePlacement>, out: &mut Vec<Line>)
    requires
        block@.kind is Image,
        indent == indent_of(block@.kind),
    ensures
        line_views(final(out)@) == line_views(old(out)@) + block_lines(
            block@,
            index as int,
            0,
            images@,
        ),
{
    let ghost start = line_views(out@);
    match find_placement(images, index) {
        Some(rows) => {
            let ghost all = image_lines(index as int, indent as int, rows);
            let mut row: u16 = 0;
            assert(start + all.take(0) =~= start);
            while row < rows
                invariant
                    row <= rows,
                    all == image_lines(index as int, indent as int, rows),
                    line_views(out@) == start + all.take(row as int),
                decreases rows - row,
            {
                let line = Line {
                    block: index,
                    offset: 0,
                    indent,
                    kind: LineKind::Image { row, rows },
                    pieces: Vec::new(),
                };
                assert(piece_views(line.pieces@) =~= Seq::<PieceView>::empty());
                proof {
                    lemma_line_pushed(out@, line);
                }
                out.push(line);
                row += 1;
                assert(all.take(row as int) =~= all.take(row - 1).push(line@));
                assert(line_views(out@) =~= start + all.take(row as int));
            }
            assert(all.take(all.len() as int) =~= all);
        },
        None => {
            let mut label: Vec<char> = Vec::new();
            push_text(&mut label, "[");
            assert(label@ =~= "["@);
            let text = block.plain_chars();
            push_chars(&mut label, &text);
            push_text(&mut label, "]");
            let mut pieces: Vec<Piece> = Vec::new();
            let piece = Piece::decoration(text_of(&label));
            pieces.push(piece);
            assert(piece_views(pieces@) =~= seq![piece@]);
            let line = Line {
                block: index,
                offset: 0,
                indent,
                kind: LineKind::Image { row: 0, rows: 1 },
                pieces,
            };
            proof {
                lemma_line_pushed(out@, line);
            }
            out.push(line);
            assert(line_views(out@) =~= start + seq![line@]);
        },
    }
}

/// Lays out one block.
fn push_block(
    index: usize,
    block: &Block,
    width: u16,
    images: &Vec<ImagePlacement>,
    out: &mut Vec<Line>,
)
    ensures
        line_views(final(out)@) == line_views(old(out)@) + block_lines(
            block@,
            index as int,
            width as int,
            images@,
        ),
{
    let ghost start = line_views(out@);
    let indent = indent_for(&block.kind);
    let room: u16 = if width < indent {
        0
    } else {
        width - indent
    };
    let usable: u16 = if room < 8 {
        8
    } else {
        room
    };
    match &block.kind {
        BlockKind::Rule => {
            let line = Line {
                block: index,
                offset: 0,
                indent,
                kind: LineKind::Rule,
                pieces: Vec::new(),
            };
            assert(piece_views(line.pieces@) =~= Seq::<PieceView>::empty());
            proof {
                lemma_line_pushed(out@, line);
            }
            out.push(line);
            assert(line_views(out@) =~= start + seq![line@]);
        },
        BlockKind::Code => wrap_code(index, block, usable, indent, out),
        BlockKind::Image { .. } => push_image(index, block, indent, images, out),
        kind => {
            let line_kind = match kind {
                BlockKind::Heading(level) => LineKind::Heading(*level),
                BlockKind::Quote => LineKind::Quote,
                _ => LineKind::Body,
            };
            let marker = list_marker(kind);
            wrap_block(index, block, usable, indent, line_kind, marker, out);
        },
    }
}

/// Lays out a chapter with comments and with room reserved for pictures.
pub fn layout_full(
    chapter: &Chapter,
    available_width: u16,
    options: LayoutOptions,
    notes: &Vec<NoteAnchor>,
    images: &Vec<ImagePlacement>,
) -> (r: Vec<Line>)
    ensures
        line_views(r@) == laid_out(
            chapter@.blocks,
            available_width,
            options,
            note_views(notes@),
            images@,
        ),
{
    let narrow = if available_width < options.max_width {
        available_width
    } else {
        options.max_width
    };
    let width: u16 = if narrow < 8 {
        8
    } else {
        narrow
    };
    let ghost blocks = chapter@.blocks;
    let ghost all_notes = note_views(notes@);
    let mut lines: Vec<Line> = Vec::new();
    let mut index: usize = 0;
    assert(line_views(lines@) =~= Seq::<LineView>::empty());
    while index < chapter.blocks.len()
        invariant
            index <= chapter.blocks@.len(),
            blocks == chapter@.blocks,
            all_notes == note_views(notes@),
            line_views(lines@) == blocks_laid(
                blocks,
                index as int,
                width as int,
                all_notes,
                images@,
            ),
        decreases chapter.blocks@.len() - index,
    {
        let block = &chapter.blocks[index];
        assert(blocks[index as int] == block@);
        let ghost above = line_views(lines@);
        let previous = if lines.len() > 0 {
            assert(above.last() == lines@.last()@);
            Some(lines[lines.len() - 1].kind)
        } else {
            None
        };
        let ghost gap = if spaced_from(block@.kind, last_kind(above)) {
            seq![blank_line(index as int)]
        } else {
            Seq::empty()
        };
        if needs_leading_blank(&block.kind, previous) {
            let line = Line::blank(index);
            proof {
                lemma_line_pushed(lines@, line);
            }
            lines.push(line);
        }
        assert(line_views(lines@) =~= above + gap);
        push_block(index, block, width, images, &mut lines);
        let ghost body = line_views(lines@);
        let mut k: usize = 0;
        assert(body + notes_below(all_notes, 0, index as int, width as int) =~= body);
        while k < notes.len()
            invariant
                k <= notes@.len(),
                all_notes == note_views(notes@),
                line_views(lines@) == body + notes_below(
                    all_notes,
                    k as int,
                    index as int,
                    width as int,
                ),
            decreases notes@.len() - k,
        {
            assert(all_notes[k as int] == notes@[k as int]@);
            if notes[k].block == index {
                push_note(index, &notes[k], width, &mut lines);
            }
            k += 1;
            assert(line_views(lines@) =~= body + notes_below(
                all_notes,
                k as int,
                index as int,
                width as int,
            ));
        }
        index += 1;
    }
    let ghost all = line_views(lines@);
    while lines.len() > 0 && is_blank(&lines[lines.len() - 1])
        invariant
            without_trailing_blanks(all) == without_trailing_blanks(line_views(lines@)),
        decreases lines@.len(),
    {
        let ghost before = line_views(lines@);
        lines.pop();
        assert(line_views(lines@) =~= before.drop_last());
    }
    assert(lines@.len() > 0 ==> line_views(lines@).last() == lines@.last()@);
    lines
}

fn is_blank(line: &Line) -> (r: bool)
    ensures
        r == (line@.kind is Blank),
{
    match line.kind {
        LineKind::Blank => true,
        _ => false,
    }
}

/// Lays out a chapter and places comments under the blocks they belong to.
///
/// A comment is shown, not merely hinted at: an underline or a marker in the
/// margin is too easy to miss, and it cannot tell you what the comment says.
pub fn layout_with_notes(
    chapter: &Chapter,
    available_width: u16,
    options: LayoutOptions,
    notes: &Vec<NoteAnchor>,
) -> (r: Vec<Line>)
    ensures
        line_views(r@) == laid_out(
            chapter@.blocks,
            available_width,
            options,
            note_views(notes@),
            Seq::empty(),
        ),
{
    let images: Vec<ImagePlacement> = Vec::new();
    assert(images@ =~= Seq::<ImagePlacement>::empty());
    layout_full(chapter, available_width, options, notes, &images)
}

// ---------------------------------------------------------------------------
// What holds of every layout
// ---------------------------------------------------------------------------
proof fn lemma_runs_between(runs: Seq<RunView>, k: int, start: int, end: int)
    requires
        0 <= k <= runs.len(),
        0 <= start <= end,
    ensures
        ({
            let t = runs_text(runs.take(k));
            let a = if start < t.len() {
                start
            } else {
                t.len() as int
            };
            let b = if end < t.len() {
                end
            } else {
                t.len() as int
            };
            runs_text(runs_between(runs, k, start, end)) == t.subrange(a, b)
        }),
    decreases k,
{
    if k == 0 {
        assert(runs.take(0) =~= Seq::<RunView>::empty());
        assert(runs_text(runs.take(0)).subrange(0, 0) =~= Seq::<char>::empty());
    } else {
        lemma_runs_between(runs, k - 1, start, end);
        let before = runs_text(runs.take(k - 1));
        let t = runs_text(runs.take(k));
        let text = runs[k - 1].text;
        assert(runs.take(k).drop_last() =~= runs.take(k - 1));
        assert(t =~= before + text);
        let at = before.len() as int;
        let from = if at > start {
            at
        } else {
            start
        };
        let to = if at + text.len() < end {
            at + text.len()
        } else {
            end
        };
        let front = runs_between(runs, k - 1, start, end);
        let a = if start < t.len() {
            start
        } else {
            t.len() as int
        };
        let b = if end < t.len() {
            end
        } else {
            t.len() as int
        };
        if from >= to {
            assert(runs_text(front) =~= t.subrange(a, b));
        } else {
            let piece = text.subrange(from - at, to - at);
            pushing_appends_the_text(front, piece, runs[k - 1].style);
            assert(runs_text(front) + piece =~= t.subrange(a, b));
        }
    }
}

proof fn lemma_pieces_text(runs: Seq<RunView>)
    ensures
        book_text(runs.map_values(|r: RunView| text_piece(r.text, r.style))) == runs_text(runs),
    decreases runs.len(),
{
    let pieces = runs.map_values(|r: RunView| text_piece(r.text, r.style));
    if runs.len() > 0 {
        lemma_pieces_text(runs.drop_last());
        assert(pieces.drop_last() =~= runs.drop_last().map_values(
            |r: RunView| text_piece(r.text, r.style),
        ));
    }
}

proof fn lemma_added_front(m: Seq<char>, pieces: Seq<PieceView>)
    ensures
        book_text(seq![added_piece(m)] + pieces) == book_text(pieces),
    decreases pieces.len(),
{
    let all = seq![added_piece(m)] + pieces;
    if pieces.len() == 0 {
        assert(all.drop_last() =~= pieces);
        assert(all.last() == added_piece(m));
    } else {
        assert(all.last() == pieces.last());
        lemma_added_front(m, pieces.drop_last());
        assert(all.drop_last() =~= seq![added_piece(m)] + pieces.drop_last());
    }
}

/// The text of a line of running text is the stretch of the block it stands for.
proof fn lemma_body_text(runs: Seq<RunView>, head: Seq<PieceView>, start: int, end: int)
    requires
        0 <= start <= end <= runs_text(runs).len(),
        head.len() == 0 || (head.len() == 1 && head[0].decoration && head[0] == added_piece(
            head[0].text,
        )),
    ensures
        book_text(head + pieces_between(runs, start, end)) == runs_text(runs).subrange(start, end),
{
    lemma_runs_between(runs, runs.len() as int, start, end);
    assert(runs.take(runs.len() as int) =~= runs);
    lemma_pieces_text(runs_between(runs, runs.len() as int, start, end));
    let pieces = pieces_between(runs, start, end);
    if head.len() == 1 {
        assert(head =~= seq![added_piece(head[0].text)]);
        lemma_added_front(head[0].text, pieces);
    } else {
        assert(head + pieces =~= pieces);
    }
}

/// Lines of one block: each that shows text shows the stretch of `s` that starts
/// at its offset, none starts before `at`, and no two start at the same place.
pub open spec fn lines_of_block(lines: Seq<LineView>, s: Seq<char>, index: int, at: int) -> bool {
    &&& forall|i: int|
        0 <= i < lines.len() ==> {
            let l = #[trigger] lines[i];
            &&& l.block == index
            &&& holds_no_text(l.kind) || {
                &&& at <= l.offset
                &&& l.offset + l.shown().len() <= s.len()
                &&& l.shown() == s.subrange(l.offset, l.offset + l.shown().len())
            }
        }
    &&& forall|i: int, j: int|
        0 <= i < j < lines.len() && !holds_no_text((#[trigger] lines[i]).kind) && !holds_no_text(
            (#[trigger] lines[j]).kind,
        ) ==> lines[i].offset < lines[j].offset
}

proof fn lemma_lines_front(
    line: LineView,
    rest: Seq<LineView>,
    s: Seq<char>,
    index: int,
    at: int,
    next: int,
)
    requires
        lines_of_block(rest, s, index, next),
        at < next || rest.len() == 0,
        line.block == index,
        holds_no_text(line.kind) || (line.offset == at && at + line.shown().len() <= s.len()
            && line.shown() == s.subrange(at, at + line.shown().len())),
    ensures
        lines_of_block(seq![line] + rest, s, index, at),
{
    let all = seq![line] + rest;
    assert forall|i: int| 0 <= i < all.len() implies {
        let l = #[trigger] all[i];
        &&& l.block == index
        &&& holds_no_text(l.kind) || {
            &&& at <= l.offset
            &&& l.offset + l.shown().len() <= s.len()
            &&& l.shown() == s.subrange(l.offset, l.offset + l.shown().len())
        }
    } by {
        if i > 0 {
            assert(all[i] == rest[i - 1]);
        }
    }
    assert forall|i: int, j: int|
        0 <= i < j < all.len() && !holds_no_text((#[trigger] all[i]).kind) && !holds_no_text(
            (#[trigger] all[j]).kind,
        ) implies all[i].offset < all[j].offset by {
        assert(all[j] == rest[j - 1]);
        if i > 0 {
            assert(all[i] == rest[i - 1]);
        }
    }
}

proof fn lemma_body_lines(
    block: BlockView,
    index: int,
    budget: int,
    indent: int,
    kind: LineKind,
    marker: Option<Seq<char>>,
    at: int,
)
    requires
        0 <= at <= block.plain().len(),
        0 <= budget,
        !holds_no_text(kind),
    ensures
        lines_of_block(
            body_lines(block, index, budget, indent, kind, marker, at),
            block.plain(),
            index,
            at,
        ),
        without_spaces(
            shown_text(body_lines(block, index, budget, indent, kind, marker, at)),
        ) == without_spaces(block.plain().skip(at)),
    decreases block.plain().len() - at,
{
    let s = block.plain();
    let all = body_lines(block, index, budget, indent, kind, marker, at);
    if at >= s.len() {
        assert(s.skip(at) =~= Seq::<char>::empty());
    } else {
        let e = break_point(s, at, budget);
        broken_lines_fit(s, at, budget);
        lemma_behind_spaces(s, e);
        let next = behind_spaces(s, e);
        if e == at {
            lemma_first_over(s, at, at, budget, budget);
            lemma_last_space(s, at, first_over(s, at, budget));
            assert(s[at] == ' ');
            assert(next == behind_spaces(s, at + 1));
            lemma_behind_spaces(s, at + 1);
        }
        assert(next > at);
        let rest = body_lines(block, index, budget, indent, kind, marker, next);
        let line = all[0];
        assert(all =~= seq![line] + rest);
        lemma_body_lines(block, index, budget, indent, kind, marker, next);
        let head = match marker {
            Some(m) => if at == 0 {
                seq![added_piece(m)]
            } else {
                Seq::empty()
            },
            None => Seq::empty(),
        };
        lemma_body_text(block.runs, head, at, e);
        assert(line.shown() == s.subrange(at, e));
        lemma_lines_front(line, rest, s, index, at, next);
        lemma_shown_front(line, rest);
        lemma_without_spaces_adds(s.subrange(at, e), shown_text(rest));
        lemma_without_spaces_adds(s.subrange(e, next), s.skip(next));
        lemma_all_spaces(s.subrange(e, next));
        assert(s.skip(e) =~= s.subrange(e, next) + s.skip(next));
        lemma_without_spaces_adds(s.subrange(at, e), s.skip(e));
        assert(s.skip(at) =~= s.subrange(at, e) + s.skip(e));
        assert(Seq::<char>::empty() + without_spaces(s.skip(next)) =~= without_spaces(s.skip(next)));
    }
}

proof fn lemma_code_lines(s: Seq<char>, index: int, usable: int, indent: int, at: int)
    requires
        0 <= at <= s.len(),
    ensures
        lines_of_block(code_lines(s, index, usable, indent, at), s, index, at),
        shown_text(code_lines(s, index, usable, indent, at)) == s.skip(at),
    decreases s.len() - at,
{
    let all = code_lines(s, index, usable, indent, at);
    if at >= s.len() {
        assert(s.skip(at) =~= Seq::<char>::empty());
    } else {
        let budget = if at == 0 {
            at_least(usable, 8)
        } else {
            at_least(usable - 2, 8)
        };
        let e = break_point(s, at, budget);
        broken_lines_fit(s, at, budget);
        lemma_first_over(s, at, at, budget, budget);
        assert(e > at) by {
            if e == at {
                lemma_last_space(s, at, first_over(s, at, budget));
                assert(s[at] == ' ');
                assert(first_over(s, at, budget) > at) by {
                    lemma_first_over(s, at, at, budget, budget);
                    lemma_columns_nonnegative(s, at, at);
                    lemma_first_over(s, at, at + 1, budget - columns(s[at]), budget);
                }
            }
        }
        let rest = code_lines(s, index, usable, indent, e);
        let line = all[0];
        assert(all =~= seq![line] + rest);
        lemma_code_lines(s, index, usable, indent, e);
        let piece = text_piece(s.subrange(at, e), crate::epub::xhtml::code_style());
        let tail = seq![piece];
        assert(book_text(tail) == s.subrange(at, e)) by {
            assert(tail.drop_last() =~= Seq::<PieceView>::empty());
            assert(tail.last() == piece);
            assert(book_text(tail.drop_last()) =~= Seq::<char>::empty());
            assert(Seq::<char>::empty() + s.subrange(at, e) =~= s.subrange(at, e));
        }
        if at > 0 {
            lemma_added_front(continuation(), tail);
            assert(line.pieces =~= seq![added_piece(continuation())] + tail);
        } else {
            assert(line.pieces =~= tail);
        }
        lemma_lines_front(line, rest, s, index, at, e);
        lemma_shown_front(line, rest);
        assert(s.skip(at) =~= s.subrange(at, e) + s.skip(e));
    }
}

proof fn lemma_columns_nonnegative(s: Seq<char>, from: int, to: int)
    ensures
        columns_between(s, from, to) >= 0,
    decreases to - from,
{
    if from < to {
        lemma_columns_nonnegative(s, from, to - 1);
    }
}

/// The text of the book on lines, one after the other.
pub open spec fn shown_text(lines: Seq<LineView>) -> Seq<char>
    decreases lines.len(),
{
    if lines.len() == 0 {
        Seq::empty()
    } else {
        shown_text(lines.drop_last()) + lines.last().shown()
    }
}

proof fn lemma_shown_front(line: LineView, rest: Seq<LineView>)
    ensures
        shown_text(seq![line] + rest) == line.shown() + shown_text(rest),
    decreases rest.len(),
{
    let all = seq![line] + rest;
    if rest.len() == 0 {
        assert(all.drop_last() =~= rest);
        assert(all.last() == line);
        assert(shown_text(all) =~= line.shown() + shown_text(rest));
    } else {
        lemma_shown_front(line, rest.drop_last());
        assert(all.last() == rest.last());
        assert(all.drop_last() =~= seq![line] + rest.drop_last());
        assert(shown_text(all) =~= line.shown() + shown_text(rest));
    }
}

/// A text without its spaces.
pub open spec fn without_spaces(s: Seq<char>) -> Seq<char>
    decreases s.len(),
{
    if s.len() == 0 {
        s
    } else if s.last() == ' ' {
        without_spaces(s.drop_last())
    } else {
        without_spaces(s.drop_last()).push(s.last())
    }
}

proof fn lemma_without_spaces_adds(a: Seq<char>, b: Seq<char>)
    ensures
        without_spaces(a + b) == without_spaces(a) + without_spaces(b),
    decreases b.len(),
{
    if b.len() == 0 {
        assert(a + b =~= a);
        assert(without_spaces(a) + without_spaces(b) =~= without_spaces(a));
    } else {
        lemma_without_spaces_adds(a, b.drop_last());
        assert((a + b).drop_last() =~= a + b.drop_last());
        assert(without_spaces(a + b) =~= without_spaces(a) + without_spaces(b));
    }
}

proof fn lemma_all_spaces(s: Seq<char>)
    requires
        forall|i: int| 0 <= i < s.len() ==> #[trigger] s[i] == ' ',
    ensures
        without_spaces(s) == Seq::<char>::empty(),
    decreases s.len(),
{
    if s.len() > 0 {
        lemma_all_spaces(s.drop_last());
    }
}

/// Whether a block shows its text.
pub open spec fn shows_text(kind: KindView) -> bool {
    !(kind is Rule) && !(kind is Image)
}

/// Wrapping drops nothing but spaces, and from code not even those.
pub proof fn wrapping_never_drops_text(
    block: BlockView,
    index: int,
    width: int,
    images: Seq<ImagePlacement>,
)
    requires
        shows_text(block.kind),
    ensures
        without_spaces(shown_text(block_lines(block, index, width, images))) == without_spaces(
            block.plain(),
        ),
        block.kind is Code ==> shown_text(block_lines(block, index, width, images))
            == block.plain(),
{
    let s = block.plain();
    let indent = indent_of(block.kind);
    let usable = at_least(width - indent, 8);
    assert(s.skip(0) =~= s);
    if block.kind is Code {
        if s.len() > 0 {
            lemma_code_lines(s, index, usable, indent, 0);
        } else {
            let line = block_lines(block, index, width, images)[0];
            lemma_shown_front(line, Seq::empty());
            assert(block_lines(block, index, width, images) =~= seq![line] + Seq::<LineView>::empty());
            assert(shown_text(block_lines(block, index, width, images)) =~= s);
        }
    } else {
        let marker = marker_of(block.kind);
        lemma_body_lines(
            block,
            index,
            body_budget(usable, marker),
            indent,
            body_kind(block.kind),
            marker,
            0,
        );
    }
}

proof fn lemma_block_lines(block: BlockView, index: int, width: int, images: Seq<ImagePlacement>)
    ensures
        lines_of_block(block_lines(block, index, width, images), block.plain(), index, 0),
{
    let s = block.plain();
    let indent = indent_of(block.kind);
    let usable = at_least(width - indent, 8);
    if block.kind is Code {
        if s.len() > 0 {
            lemma_code_lines(s, index, usable, indent, 0);
        } else {
            let line = block_lines(block, index, width, images)[0];
            assert(line.shown() =~= s.subrange(0, 0));
        }
    } else if shows_text(block.kind) {
        let marker = marker_of(block.kind);
        lemma_body_lines(
            block,
            index,
            body_budget(usable, marker),
            indent,
            body_kind(block.kind),
            marker,
            0,
        );
    }
}

proof fn lemma_note_lines(s: Seq<char>, index: int, color: (u8, u8, u8), usable: int, at: int)
    requires
        0 <= at,
    ensures
        all_silent(note_lines(s, index, color, usable, at), index),
    decreases s.len() - at,
{
    if at < s.len() {
        let e = break_point(s, at, usable);
        let next = behind_spaces(s, e);
        let all = note_lines(s, index, color, usable, at);
        if !(next <= at || next > s.len()) {
            lemma_note_lines(s, index, color, usable, next);
            let rest = note_lines(s, index, color, usable, next);
            assert forall|i: int| 0 <= i < all.len() implies (#[trigger] all[i]).block == index
                && holds_no_text(all[i].kind) by {
                if i > 0 {
                    assert(all[i] == rest[i - 1]);
                }
            }
        }
    }
}

/// Lines of one block that show nothing of the book.
pub open spec fn all_silent(lines: Seq<LineView>, index: int) -> bool {
    forall|i: int|
        0 <= i < lines.len() ==> (#[trigger] lines[i]).block == index && holds_no_text(lines[i].kind)
}

proof fn lemma_notes_below(notes: Seq<NoteView>, k: int, index: int, width: int)
    requires
        0 <= k <= notes.len(),
    ensures
        all_silent(notes_below(notes, k, index, width), index),
    decreases k,
{
    if k > 0 {
        lemma_notes_below(notes, k - 1, index, width);
        if notes[k - 1].block == index {
            let front = notes_below(notes, k - 1, index, width);
            let note = notes[k - 1];
            let body = note_lines(note.text, index, note.color, at_least(width - 6, 8), 0);
            lemma_note_lines(note.text, index, note.color, at_least(width - 6, 8), 0);
            let all = front + note_block(note, index, width);
            assert forall|i: int| 0 <= i < all.len() implies (#[trigger] all[i]).block == index
                && holds_no_text(all[i].kind) by {
                if i < front.len() {
                    assert(all[i] == front[i]);
                } else if i > front.len() {
                    assert(all[i] == body[i - front.len() - 1]);
                }
            }
        }
    }
}

/// Every line that shows text points at the block and the offset its text comes
/// from, and lines follow the order of the text.
pub open spec fn points_into(lines: Seq<LineView>, blocks: Seq<BlockView>, n: int) -> bool {
    &&& forall|i: int|
        0 <= i < lines.len() ==> {
            let l = #[trigger] lines[i];
            &&& 0 <= l.block < n
            &&& holds_no_text(l.kind) || {
                &&& 0 <= l.offset
                &&& l.offset + l.shown().len() <= blocks[l.block].plain().len()
                &&& l.shown() == blocks[l.block].plain().subrange(
                    l.offset,
                    l.offset + l.shown().len(),
                )
            }
        }
    &&& forall|i: int, j: int|
        0 <= i < j < lines.len() && !holds_no_text((#[trigger] lines[i]).kind) && !holds_no_text(
            (#[trigger] lines[j]).kind,
        ) ==> lines[i].block < lines[j].block || (lines[i].block == lines[j].block
            && lines[i].offset < lines[j].offset)
}

proof fn lemma_blocks_laid(
    blocks: Seq<BlockView>,
    n: int,
    width: int,
    notes: Seq<NoteView>,
    images: Seq<ImagePlacement>,
)
    requires
        0 <= n <= blocks.len(),
    ensures
        points_into(blocks_laid(blocks, n, width, notes, images), blocks, n),
    decreases n,
{
    if n > 0 {
        lemma_blocks_laid(blocks, n - 1, width, notes, images);
        let above = blocks_laid(blocks, n - 1, width, notes, images);
        let block = blocks[n - 1];
        let gap = if spaced_from(block.kind, last_kind(above)) {
            seq![blank_line(n - 1)]
        } else {
            Seq::empty()
        };
        let body = block_lines(block, n - 1, width, images);
        let below = notes_below(notes, notes.len() as int, n - 1, width);
        lemma_block_lines(block, n - 1, width, images);
        lemma_notes_below(notes, notes.len() as int, n - 1, width);
        let all = blocks_laid(blocks, n, width, notes, images);
        let g = above.len() as int;
        let b = g + gap.len();
        let c = b + body.len();
        assert forall|i: int| 0 <= i < all.len() implies {
            &&& i < g ==> #[trigger] all[i] == above[i]
            &&& g <= i < b ==> all[i] == blank_line(n - 1)
            &&& b <= i < c ==> all[i] == body[i - b]
            &&& c <= i ==> all[i] == below[i - c]
        } by {}
        assert forall|i: int| 0 <= i < all.len() implies {
            let l = #[trigger] all[i];
            &&& 0 <= l.block < n
            &&& holds_no_text(l.kind) || {
                &&& 0 <= l.offset
                &&& l.offset + l.shown().len() <= blocks[l.block].plain().len()
                &&& l.shown() == blocks[l.block].plain().subrange(
                    l.offset,
                    l.offset + l.shown().len(),
                )
            }
        } by {
            if i < g {
                assert(all[i] == above[i]);
            } else if b <= i < c {
                assert(all[i] == body[i - b]);
            } else if c <= i {
                assert(all[i] == below[i - c]);
            }
        }
        assert forall|i: int, j: int|
            0 <= i < j < all.len() && !holds_no_text((#[trigger] all[i]).kind) && !holds_no_text(
                (#[trigger] all[j]).kind,
            ) implies all[i].block < all[j].block || (all[i].block == all[j].block && all[i].offset
            < all[j].offset) by {
            if j < g {
                assert(all[i] == above[i] && all[j] == above[j]);
            } else if j < b {
            } else if j < c {
                assert(all[j] == body[j - b]);
                if i < g {
                    assert(all[i] == above[i]);
                } else if i >= b {
                    assert(all[i] == body[i - b]);
                }
            } else {
                assert(all[j] == below[j - c]);
            }
        }
    }
}

proof fn lemma_without_trailing(lines: Seq<LineView>)
    ensures
        exists|n: int|
            0 <= n <= lines.len() && without_trailing_blanks(lines) == #[trigger] lines.take(n),
    decreases lines.len(),
{
    if lines.len() > 0 && lines.last().kind is Blank {
        lemma_without_trailing(lines.drop_last());
        let n = choose|n: int|
            0 <= n <= lines.drop_last().len() && without_trailing_blanks(lines.drop_last())
                == #[trigger] lines.drop_last().take(n);
        assert(lines.drop_last().take(n) =~= lines.take(n));
    } else {
        assert(lines.take(lines.len() as int) =~= lines);
    }
}

/// A layout maps every line of text back to where the text stands in the
/// chapter, whatever the width, the comments and the pictures.
pub proof fn layout_keeps_the_text_positions(
    blocks: Seq<BlockView>,
    available: u16,
    options: LayoutOptions,
    notes: Seq<NoteView>,
    images: Seq<ImagePlacement>,
)
    ensures
        points_into(laid_out(blocks, available, options, notes, images), blocks, blocks.len() as int),
{
    let n = blocks.len() as int;
    let all = blocks_laid(blocks, n, reading_width(available, options), notes, images);
    lemma_blocks_laid(blocks, n, reading_width(available, options), notes, images);
    lemma_without_trailing(all);
    let k = choose|k: int|
        0 <= k <= all.len() && without_trailing_blanks(all) == #[trigger] all.take(k);
    let cut = all.take(k);
    assert forall|i: int| 0 <= i < cut.len() implies #[trigger] cut[i] == all[i] by {}
}

/// The text position of a line leads back to that line.
pub proof fn a_line_is_found_by_its_position(lines: Seq<LineView>, blocks: Seq<BlockView>, i: int)
    requires
        points_into(lines, blocks, blocks.len() as int),
        0 <= i < lines.len(),
        lines[i].selectable(),
    ensures
        line_at(lines, lines[i].block, lines[i].offset) == Some(i),
{
    lemma_scan_to(lines, blocks, i, 0, None);
}

proof fn lemma_scan_to(
    lines: Seq<LineView>,
    blocks: Seq<BlockView>,
    i: int,
    from: int,
    best: Option<int>,
)
    requires
        points_into(lines, blocks, blocks.len() as int),
        0 <= from <= i < lines.len(),
        lines[i].selectable(),
    ensures
        line_before(lines, lines[i].block, lines[i].offset, from, best) == Some(i),
    decreases i - from,
{
    let block = lines[i].block;
    let offset = lines[i].offset;
    if from == i {
        lemma_scan_behind(lines, blocks, i, i + 1);
    } else {
        assert(!lines[from].selectable() || starts_by(lines[from], block, offset)) by {
            if lines[from].selectable() {
                assert(!holds_no_text(lines[from].kind) && !holds_no_text(lines[i].kind));
            }
        }
        if lines[from].selectable() {
            lemma_scan_to(lines, blocks, i, from + 1, Some(from));
        } else {
            lemma_scan_to(lines, blocks, i, from + 1, best);
        }
    }
}

proof fn lemma_scan_behind(lines: Seq<LineView>, blocks: Seq<BlockView>, i: int, from: int)
    requires
        points_into(lines, blocks, blocks.len() as int),
        0 <= i < from <= lines.len(),
        lines[i].selectable(),
    ensures
        line_before(lines, lines[i].block, lines[i].offset, from, Some(i)) == Some(i),
    decreases lines.len() - from,
{
    if from < lines.len() {
        if lines[from].selectable() {
            assert(!holds_no_text(lines[from].kind) && !holds_no_text(lines[i].kind));
            assert(!starts_by(lines[from], lines[i].block, lines[i].offset));
        } else {
            lemma_scan_behind(lines, blocks, i, from + 1);
        }
    }
}

} // verus!
