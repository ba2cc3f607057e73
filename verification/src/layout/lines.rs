//! What holds of the lines of one block.

use vstd::prelude::*;
use crate::doc::{in_style, runs_pushed, runs_styled, runs_text, BlockView, KindView, RunView};
use crate::layout::{
    added_piece, at_least, behind_spaces, block_lines, blocks_laid, body_budget, body_kind,
    body_lines, break_point, broken_lines_fit, code_lines, columns_between, first_over,
    indent_of, last_space, lemma_all_spaces, lemma_behind_spaces, lemma_columns_grow,
    lemma_first_over, lemma_last_space, lemma_without_spaces_adds, line_before, marker_of,
    note_block, note_lines, pieces_between, reading_width, runs_between, starts_by,
    text_columns, text_piece, without_spaces, ImagePlacement, LayoutOptions, LineKind, LineView,
    NoteView, PieceView,
};
use crate::text::decimal;

verus! {

// ---------------------------------------------------------------------------
// Where lines break
// ---------------------------------------------------------------------------
proof fn lemma_over(s: Seq<char>, start: int, at: int, left: int, budget: int)
    requires
        0 <= start <= at <= s.len(),
        left == budget - columns_between(s, start, at),
        0 <= left,
    ensures
        first_over(s, at, left) < s.len() ==> columns_between(
            s,
            start,
            first_over(s, at, left) + 1,
        ) > budget,
    decreases s.len() - at,
{
    if at < s.len() && columns_between(s, start, at + 1) <= budget {
        lemma_over(s, start, at + 1, left - crate::layout::columns(s[at]), budget);
    }
}

proof fn lemma_no_space(s: Seq<char>, start: int, end: int)
    requires
        0 <= start <= end <= s.len(),
    ensures
        match last_space(s, start, end) {
            Some(k) => forall|q: int| k < q < end ==> #[trigger] s[q] != ' ',
            None => forall|q: int| start < q < end ==> #[trigger] s[q] != ' ',
        },
    decreases end - start,
{
    if end > start + 1 && s[end - 1] != ' ' {
        lemma_no_space(s, start, end - 1);
    }
}

/// A line ends at a space or at the end of the text, and in the middle of a word only
/// where the line holds nothing else. It is as long as it can be: no later space, and
/// not the end, would fit either.
pub proof fn lines_break_between_words(s: Seq<char>, start: int, budget: int, q: int)
    requires
        0 <= start < s.len(),
        0 <= budget,
    ensures
        ({
            let b = break_point(s, start, budget);
            &&& b == s.len() || s[b] == ' ' || forall|k: int| start < k < b ==> #[trigger] s[k] != ' '
            &&& b < q <= s.len() && (q == s.len() || s[q] == ' ') ==> columns_between(s, start, q)
                > budget
            &&& columns_between(s, start, s.len() as int) <= budget ==> b == s.len()
        }),
{
    let p = first_over(s, start, budget);
    let b = break_point(s, start, budget);
    assert(columns_between(s, start, start) == 0);
    lemma_first_over(s, start, start, budget, budget);
    lemma_over(s, start, start, budget, budget);
    if p < s.len() {
        lemma_last_space(s, start, p);
        lemma_no_space(s, start, p);
        lemma_columns_grow(s, start, p + 1, s.len() as int);
        if b < q <= s.len() && (q == s.len() || s[q] == ' ') {
            assert(q > p) by {
                if q <= p {
                    assert(q < s.len());
                }
            }
            lemma_columns_grow(s, start, p + 1, q);
        }
    }
}

// ---------------------------------------------------------------------------
// Styles
// ---------------------------------------------------------------------------
/// The characters of the book on a line, each with its style.
pub open spec fn pieces_styled(pieces: Seq<PieceView>) -> Seq<(char, crate::doc::RunStyle)>
    decreases pieces.len(),
{
    if pieces.len() == 0 {
        Seq::empty()
    } else if pieces.last().decoration {
        pieces_styled(pieces.drop_last())
    } else {
        pieces_styled(pieces.drop_last()) + in_style(pieces.last().text, pieces.last().style)
    }
}

proof fn lemma_styled_len(s: Seq<RunView>)
    ensures
        runs_styled(s).len() == runs_text(s).len(),
    decreases s.len(),
{
    if s.len() > 0 {
        lemma_styled_len(s.drop_last());
    }
}

proof fn lemma_pushed_styled(s: Seq<RunView>, text: Seq<char>, style: crate::doc::RunStyle)
    ensures
        runs_styled(runs_pushed(s, text, style)) == runs_styled(s) + in_style(text, style),
{
    let t = runs_pushed(s, text, style);
    if text.len() == 0 {
        assert(runs_styled(s) + in_style(text, style) =~= runs_styled(s));
    } else if s.len() > 0 && s.last().style == style {
        assert(t.drop_last() =~= s.drop_last());
        assert(in_style(s.last().text + text, style) =~= in_style(s.last().text, style) + in_style(
            text,
            style,
        ));
        assert(runs_styled(t) =~= runs_styled(s) + in_style(text, style));
    } else {
        assert(t.drop_last() =~= s);
    }
}

spec fn clamp(n: int, top: int) -> int {
    if n > top {
        top
    } else {
        n
    }
}

proof fn lemma_between_styled(runs: Seq<RunView>, k: int, start: int, end: int)
    requires
        0 <= k <= runs.len(),
        0 <= start <= end,
    ensures
        ({
            let all = runs_styled(runs.take(k));
            let n = all.len() as int;
            runs_styled(runs_between(runs, k, start, end)) == all.subrange(
                clamp(start, n),
                clamp(end, n),
            )
        }),
    decreases k,
{
    let all = runs_styled(runs.take(k));
    let n = all.len() as int;
    if k == 0 {
        assert(runs.take(0) =~= Seq::<RunView>::empty());
        assert(all.subrange(clamp(start, n), clamp(end, n)) =~= Seq::empty());
    } else {
        lemma_between_styled(runs, k - 1, start, end);
        assert(runs.take(k).drop_last() =~= runs.take(k - 1));
        lemma_styled_len(runs.take(k - 1));
        let front = runs_styled(runs.take(k - 1));
        let at = front.len() as int;
        let text = runs[k - 1].text;
        let style = runs[k - 1].style;
        let back = in_style(text, style);
        assert(all == front + back);
        let from = if at > start {
            at
        } else {
            start
        };
        let to = if at + text.len() < end {
            at + text.len()
        } else {
            end
        };
        let before = runs_between(runs, k - 1, start, end);
        if from < to {
            let part = text.subrange(from - at, to - at);
            lemma_pushed_styled(before, part, style);
            assert(in_style(part, style) =~= back.subrange(from - at, to - at));
            assert(front.subrange(clamp(start, at), clamp(end, at)) + back.subrange(
                from - at,
                to - at,
            ) =~= all.subrange(clamp(start, n), clamp(end, n)));
        } else {
            assert(front.subrange(clamp(start, at), clamp(end, at)) =~= all.subrange(
                clamp(start, n),
                clamp(end, n),
            ));
        }
    }
}

proof fn lemma_pieces_styled(runs: Seq<RunView>)
    ensures
        pieces_styled(runs.map_values(|r: RunView| text_piece(r.text, r.style))) == runs_styled(
            runs,
        ),
    decreases runs.len(),
{
    let all = runs.map_values(|r: RunView| text_piece(r.text, r.style));
    if runs.len() > 0 {
        lemma_pieces_styled(runs.drop_last());
        assert(all.drop_last() =~= runs.drop_last().map_values(
            |r: RunView| text_piece(r.text, r.style),
        ));
    }
}

proof fn lemma_head_styled(head: Seq<PieceView>, pieces: Seq<PieceView>)
    requires
        forall|i: int| 0 <= i < head.len() ==> (#[trigger] head[i]).decoration,
    ensures
        pieces_styled(head + pieces) == pieces_styled(pieces),
    decreases pieces.len(), head.len(),
{
    if pieces.len() > 0 {
        lemma_head_styled(head, pieces.drop_last());
        assert((head + pieces).drop_last() =~= head + pieces.drop_last());
    } else if head.len() > 0 {
        assert(head + pieces =~= head);
        let d = head.drop_last();
        assert forall|i: int| 0 <= i < d.len() implies (#[trigger] d[i]).decoration by {
            assert(d[i] == head[i]);
        }
        lemma_head_styled(d, pieces);
        assert(d + pieces =~= d);
        assert(head[head.len() - 1].decoration);
    } else {
        assert(head + pieces =~= pieces);
    }
}

/// A line of a block of running text: its kind, the characters of the block from its
/// offset on in the styles they have there, the mark of a list item on the first line
/// and its width in front of every other.
pub open spec fn is_body_line(
    l: LineView,
    block: BlockView,
    index: int,
    indent: int,
    kind: LineKind,
    marker: Option<Seq<char>>,
) -> bool {
    let all = runs_styled(block.runs);
    let shown = pieces_styled(l.pieces);
    &&& l.block == index
    &&& l.kind == kind
    &&& 0 <= l.offset && l.offset + shown.len() <= all.len()
    &&& shown == all.subrange(l.offset, l.offset + shown.len())
    &&& match marker {
        Some(m) => if l.offset == 0 {
            l.pieces.len() > 0 && l.pieces[0].text == m && l.pieces[0].decoration && l.indent
                == indent
        } else {
            l.indent == indent + text_columns(m)
        },
        None => l.indent == indent,
    }
}

proof fn lemma_body_styled(
    block: BlockView,
    index: int,
    budget: int,
    indent: int,
    kind: LineKind,
    marker: Option<Seq<char>>,
    at: int,
)
    requires
        0 <= at <= block.plain().len(),
        0 <= budget,
    ensures
        forall|i: int|
            0 <= i < body_lines(block, index, budget, indent, kind, marker, at).len()
                ==> is_body_line(
                #[trigger] body_lines(block, index, budget, indent, kind, marker, at)[i],
                block,
                index,
                indent,
                kind,
                marker,
            ),
    decreases block.plain().len() - at,
{
    let s = block.plain();
    let lines = body_lines(block, index, budget, indent, kind, marker, at);
    if at < s.len() {
        let e = break_point(s, at, budget);
        broken_lines_fit(s, at, budget);
        let head = match marker {
            Some(m) => if at == 0 {
                seq![added_piece(m)]
            } else {
                Seq::empty()
            },
            None => Seq::empty(),
        };
        let n = block.runs.len() as int;
        let runs = runs_between(block.runs, n, at, e);
        lemma_between_styled(block.runs, n, at, e);
        assert(block.runs.take(n) =~= block.runs);
        lemma_styled_len(block.runs);
        lemma_pieces_styled(runs);
        lemma_head_styled(head, pieces_between(block.runs, at, e));
        let l = lines[0];
        assert(l.pieces == head + pieces_between(block.runs, at, e));
        assert(is_body_line(l, block, index, indent, kind, marker));
        let next = behind_spaces(s, e);
        lemma_behind_spaces(s, e);
        if at < next {
            lemma_body_styled(block, index, budget, indent, kind, marker, next);
            let rest = body_lines(block, index, budget, indent, kind, marker, next);
            assert forall|i: int| 0 <= i < lines.len() implies is_body_line(
                #[trigger] lines[i],
                block,
                index,
                indent,
                kind,
                marker,
            ) by {
                if i > 0 {
                    assert(lines[i] == rest[i - 1]);
                }
            }
        }
    }
}

/// How far a block stands in from the margin.
pub open spec fn margin_of(kind: KindView) -> int {
    match kind {
        KindView::Quote => 4,
        KindView::Code => 4,
        KindView::ListItem { depth, .. } => 2 + 2 * depth,
        _ => 0,
    }
}

/// The mark of a list item.
pub open spec fn mark_of(kind: KindView) -> Option<Seq<char>> {
    match kind {
        KindView::ListItem { ordinal: Some(n), .. } => Some(decimal(n as nat) + seq!['.', ' ']),
        KindView::ListItem { ordinal: None, .. } => Some(seq!['-', ' ']),
        _ => None,
    }
}

/// Every line of a block of running text shows characters of that block in their own
/// styles, stands in as its kind asks, and a list item has its mark.
pub proof fn text_keeps_its_styles(
    block: BlockView,
    index: int,
    width: int,
    images: Seq<ImagePlacement>,
    i: int,
)
    requires
        !(block.kind is Code) && !(block.kind is Rule) && !(block.kind is Image),
        0 <= i < block_lines(block, index, width, images).len(),
    ensures
        is_body_line(
            block_lines(block, index, width, images)[i],
            block,
            index,
            margin_of(block.kind),
            match block.kind {
                KindView::Heading(level) => LineKind::Heading(level),
                KindView::Quote => LineKind::Quote,
                _ => LineKind::Body,
            },
            mark_of(block.kind),
        ),
{
    let indent = indent_of(block.kind);
    let usable = at_least(width - indent, 8);
    let marker = marker_of(block.kind);
    reveal_strlit(". ");
    reveal_strlit("- ");
    assert(". "@ =~= seq!['.', ' ']);
    assert("- "@ =~= seq!['-', ' ']);
    assert(0 <= body_budget(usable, marker));
    lemma_body_styled(
        block,
        index,
        body_budget(usable, marker),
        indent,
        body_kind(block.kind),
        marker,
        0,
    );
}

/// Every line of code is set as code, stands in from the margin, and is marked where
/// it only continues the line above it.
pub proof fn code_is_set_as_code(s: Seq<char>, index: int, usable: int, indent: int, at: int, i: int)
    requires
        0 <= at,
        0 <= i < code_lines(s, index, usable, indent, at).len(),
    ensures
        ({
            let l = code_lines(s, index, usable, indent, at)[i];
            &&& l.kind is Code && l.indent == indent && l.block == index
            &&& l.pieces.len() > 0 && l.pieces.last().style.code && !l.pieces.last().decoration
            &&& l.offset == 0 ==> l.pieces.len() == 1
            &&& l.offset > 0 ==> l.pieces.len() == 2 && l.pieces[0].decoration && l.pieces[0].text
                == seq!['…', ' ']
        }),
    decreases s.len() - at, i,
{
    let lines = code_lines(s, index, usable, indent, at);
    reveal_strlit("… ");
    assert("… "@ =~= seq!['…', ' ']);
    if at < s.len() {
        let budget = if at == 0 {
            at_least(usable, 8)
        } else {
            at_least(usable - 2, 8)
        };
        let e = break_point(s, at, budget);
        broken_lines_fit(s, at, budget);
        if i > 0 {
            assert(at < e);
            assert(lines[i] == code_lines(s, index, usable, indent, e)[i - 1]);
            code_is_set_as_code(s, index, usable, indent, e, i - 1);
        }
    }
}

/// A picture takes as many lines as it is tall, each with its place in it; one that
/// cannot be drawn is named by its description. A rule is one line.
pub proof fn pictures_take_their_rows(
    block: BlockView,
    index: int,
    width: int,
    images: Seq<ImagePlacement>,
    k: int,
)
    requires
        block.kind is Image || block.kind is Rule,
    ensures
        block.kind is Image && 0 <= k < images.len() && images[k].block == index && (forall|j: int|
            0 <= j < k ==> (#[trigger] images[j]).block != index) ==> ({
            let lines = block_lines(block, index, width, images);
            lines.len() == images[k].rows && forall|r: int|
                0 <= r < lines.len() ==> (#[trigger] lines[r]).kind == (LineKind::Image {
                    row: r as u16,
                    rows: images[k].rows,
                }) && lines[r].block == index
        }),
        block.kind is Image && (forall|j: int|
            0 <= j < images.len() ==> (#[trigger] images[j]).block != index) ==> ({
            let lines = block_lines(block, index, width, images);
            lines.len() == 1 && lines[0].kind is Image && lines[0].pieces.len() == 1
                && lines[0].pieces[0].text == seq!['['] + block.plain() + seq![']']
        }),
        block.kind is Rule ==> block_lines(block, index, width, images).len() == 1 && block_lines(
            block,
            index,
            width,
            images,
        )[0].kind is Rule,
{
    reveal_strlit("[");
    reveal_strlit("]");
    assert("["@ =~= seq!['[']);
    assert("]"@ =~= seq![']']);
    if 0 <= k < images.len() && images[k].block == index && (forall|j: int|
        0 <= j < k ==> (#[trigger] images[j]).block != index) {
        lemma_placed(images, index, 0, k);
    }
    if forall|j: int| 0 <= j < images.len() ==> (#[trigger] images[j]).block != index {
        lemma_not_placed(images, index, 0);
    }
}

proof fn lemma_placed(images: Seq<ImagePlacement>, index: int, i: int, k: int)
    requires
        0 <= i <= k < images.len(),
        images[k].block == index,
        forall|j: int| i <= j < k ==> (#[trigger] images[j]).block != index,
    ensures
        crate::layout::placement_of(images, index, i) == Some(images[k].rows),
    decreases k - i,
{
    if i < k {
        assert(images[i].block != index);
        lemma_placed(images, index, i + 1, k);
    }
}

proof fn lemma_not_placed(images: Seq<ImagePlacement>, index: int, i: int)
    requires
        0 <= i <= images.len(),
        forall|j: int| 0 <= j < images.len() ==> (#[trigger] images[j]).block != index,
    ensures
        crate::layout::placement_of(images, index, i) is None,
    decreases images.len() - i,
{
    if i < images.len() {
        assert(images[i].block != index);
        lemma_not_placed(images, index, i + 1);
    }
}

// ---------------------------------------------------------------------------
// Comments
// ---------------------------------------------------------------------------
/// What the lines of a comment say, one after the other.
pub open spec fn comment_text(lines: Seq<LineView>) -> Seq<char>
    decreases lines.len(),
{
    if lines.len() == 0 {
        Seq::empty()
    } else if lines.last().pieces.len() > 1 {
        comment_text(lines.drop_last()) + lines.last().pieces[1].text
    } else {
        comment_text(lines.drop_last())
    }
}

/// What one line of a comment says.
spec fn line_says(line: LineView) -> Seq<char> {
    if line.pieces.len() > 1 {
        line.pieces[1].text
    } else {
        Seq::empty()
    }
}

proof fn lemma_comment_front(line: LineView, rest: Seq<LineView>)
    ensures
        comment_text(seq![line] + rest) == line_says(line) + comment_text(rest),
    decreases rest.len(),
{
    let all = seq![line] + rest;
    let d = all.drop_last();
    assert(comment_text(all) =~= comment_text(d) + line_says(all.last()));
    if rest.len() == 0 {
        assert(d =~= Seq::<LineView>::empty());
        assert(all.last() == line);
        assert(comment_text(d) =~= Seq::<char>::empty());
        assert(comment_text(rest) =~= Seq::<char>::empty());
        assert(comment_text(all) =~= line_says(line) + comment_text(rest));
    } else {
        lemma_comment_front(line, rest.drop_last());
        assert(d =~= seq![line] + rest.drop_last());
        assert(all.last() == rest.last());
        assert(comment_text(rest) =~= comment_text(rest.drop_last()) + line_says(rest.last()));
        assert(comment_text(all) =~= line_says(line) + comment_text(rest));
    }
}

proof fn lemma_comment(s: Seq<char>, index: int, color: (u8, u8, u8), usable: int, at: int)
    requires
        0 <= at <= s.len(),
        0 <= usable,
    ensures
        without_spaces(comment_text(note_lines(s, index, color, usable, at))) == without_spaces(
            s.skip(at),
        ),
    decreases s.len() - at,
{
    let lines = note_lines(s, index, color, usable, at);
    if at < s.len() {
        let e = break_point(s, at, usable);
        broken_lines_fit(s, at, usable);
        let next = behind_spaces(s, e);
        lemma_behind_spaces(s, e);
        let l = lines[0];
        let gap = s.subrange(e, next);
        assert forall|i: int| 0 <= i < gap.len() implies #[trigger] gap[i] == ' ' by {
            assert(gap[i] == s[e + i]);
        }
        lemma_all_spaces(gap);
        assert(s.skip(at) =~= s.subrange(at, e) + gap + s.skip(next));
        lemma_without_spaces_adds(s.subrange(at, e) + gap, s.skip(next));
        lemma_without_spaces_adds(s.subrange(at, e), gap);
        if at < next {
            lemma_comment(s, index, color, usable, next);
            let rest = note_lines(s, index, color, usable, next);
            lemma_comment_front(l, rest);
            lemma_without_spaces_adds(s.subrange(at, e), comment_text(rest));
            assert(without_spaces(comment_text(lines)) =~= without_spaces(s.skip(at)));
        } else {
            assert(e == at);
            lemma_step(s, at, usable);
            lemma_behind_spaces(s, at + 1);
            assert(behind_spaces(s, at) == behind_spaces(s, at + 1));
        }
    } else {
        assert(s.skip(at) =~= Seq::<char>::empty());
    }
}

/// A line that ends where it begins begins with a space.
proof fn lemma_step(s: Seq<char>, at: int, usable: int)
    requires
        0 <= at < s.len(),
        0 <= usable,
        break_point(s, at, usable) == at,
    ensures
        s[at] == ' ',
{
    let p = first_over(s, at, usable);
    assert(columns_between(s, at, at) == 0);
    lemma_first_over(s, at, at, usable, usable);
    if p < s.len() {
        lemma_last_space(s, at, p);
    }
}

/// A comment is shown in full below its block, behind a blank line: nothing of it is
/// dropped but spaces.
pub proof fn a_comment_is_shown_in_full(note: NoteView, index: int, width: int)
    ensures
        note_block(note, index, width).len() > 0,
        note_block(note, index, width)[0].kind is Blank,
        without_spaces(comment_text(note_block(note, index, width).skip(1))) == without_spaces(
            note.text,
        ),
{
    let usable = at_least(width - 6, 8);
    let lines = note_lines(note.text, index, note.color, usable, 0);
    assert(note_block(note, index, width).skip(1) =~= lines);
    lemma_comment(note.text, index, note.color, usable, 0);
    assert(note.text.skip(0) =~= note.text);
}

// ---------------------------------------------------------------------------
// Between blocks
// ---------------------------------------------------------------------------
/// A blank line stands between two blocks. Only the lines of one listing and the items
/// of a list follow each other directly.
pub proof fn blocks_are_set_apart(
    blocks: Seq<BlockView>,
    n: int,
    width: int,
    notes: Seq<NoteView>,
    images: Seq<ImagePlacement>,
)
    requires
        0 < n <= blocks.len(),
        blocks_laid(blocks, n - 1, width, notes, images).len() > 0,
    ensures
        ({
            let above = blocks_laid(blocks, n - 1, width, notes, images);
            let lines = blocks_laid(blocks, n, width, notes, images);
            let kind = blocks[n - 1].kind;
            let last = above.last().kind;
            let joined = last is Blank || (kind is Code && last is Code) || (kind is ListItem
                && last is Body);
            let own = block_lines(blocks[n - 1], n - 1, width, images);
            &&& lines.len() >= above.len() && lines.take(above.len() as int) == above
            &&& !joined ==> lines.len() > above.len() && lines[above.len() as int].kind is Blank
                && lines.len() >= above.len() + 1 + own.len() && lines.subrange(
                above.len() as int + 1,
                above.len() as int + 1 + own.len(),
            ) == own
            &&& joined ==> lines.len() >= above.len() + own.len() && lines.subrange(
                above.len() as int,
                (above.len() + own.len()) as int,
            ) == own
        }),
{
    let above = blocks_laid(blocks, n - 1, width, notes, images);
    let lines = blocks_laid(blocks, n, width, notes, images);
    let own = block_lines(blocks[n - 1], n - 1, width, images);
    assert(lines.take(above.len() as int) =~= above);
    let kind = blocks[n - 1].kind;
    let last = above.last().kind;
    let joined = last is Blank || (kind is Code && last is Code) || (kind is ListItem
        && last is Body);
    if joined {
        assert(lines.subrange(above.len() as int, (above.len() + own.len()) as int) =~= own);
    } else {
        assert(lines.subrange(above.len() as int + 1, above.len() as int + 1 + own.len()) =~= own);
    }
}

proof fn lemma_before(
    lines: Seq<LineView>,
    block: int,
    offset: int,
    i: int,
    best: Option<int>,
)
    requires
        0 <= i <= lines.len(),
        best matches Some(b) ==> 0 <= b < i,
        forall|p: int, q: int|
            0 <= p < q < lines.len() && (#[trigger] lines[p]).selectable() && (
            #[trigger] lines[q]).selectable() && starts_by(lines[q], block, offset) ==> starts_by(
                lines[p],
                block,
                offset,
            ),
    ensures
        match line_before(lines, block, offset, i, best) {
            Some(k) => (best == Some(k) || i <= k) && (i <= k ==> k < lines.len()
                && lines[k].selectable() && starts_by(lines[k], block, offset)) && forall|j: int|
                k < j < lines.len() && i <= j && (#[trigger] lines[j]).selectable() ==> !starts_by(
                    lines[j],
                    block,
                    offset,
                ),
            None => best is None && forall|j: int|
                i <= j < lines.len() && (#[trigger] lines[j]).selectable() ==> !starts_by(
                    lines[j],
                    block,
                    offset,
                ),
        },
    decreases lines.len() - i,
{
    if i < lines.len() {
        if !lines[i].selectable() {
            lemma_before(lines, block, offset, i + 1, best);
        } else if starts_by(lines[i], block, offset) {
            lemma_before(lines, block, offset, i + 1, Some(i));
        } else {
            assert forall|j: int|
                i <= j < lines.len() && (#[trigger] lines[j]).selectable() implies !starts_by(
                lines[j],
                block,
                offset,
            ) by {
                if j > i {
                    assert(lines[i].selectable());
                }
            }
        }
    }
}

/// The line of a position is the last line of text that begins by then.
pub proof fn a_position_is_on_the_last_line_before_it(
    lines: Seq<LineView>,
    block: int,
    offset: int,
)
    requires
        forall|p: int, q: int|
            0 <= p < q < lines.len() && (#[trigger] lines[p]).selectable() && (
            #[trigger] lines[q]).selectable() && starts_by(lines[q], block, offset) ==> starts_by(
                lines[p],
                block,
                offset,
            ),
    ensures
        match line_before(lines, block, offset, 0, None) {
            Some(k) => 0 <= k < lines.len() && lines[k].selectable() && starts_by(
                lines[k],
                block,
                offset,
            ) && forall|j: int|
                k < j < lines.len() && (#[trigger] lines[j]).selectable() ==> !starts_by(
                    lines[j],
                    block,
                    offset,
                ),
            None => forall|j: int|
                0 <= j < lines.len() && (#[trigger] lines[j]).selectable() ==> !starts_by(
                    lines[j],
                    block,
                    offset,
                ),
        },
{
    lemma_before(lines, block, offset, 0, None);
}

/// Text is set as wide as the window and the settings allow, and never narrower than
/// eight columns.
pub proof fn text_is_set_as_wide_as_allowed(available: u16, options: LayoutOptions)
    ensures
        reading_width(available, options) >= 8,
        available >= 8 ==> reading_width(available, options) <= available,
        options.max_width >= 8 ==> reading_width(available, options) <= options.max_width,
        reading_width(available, options) == 8 || reading_width(available, options) == available
            || reading_width(available, options) == options.max_width,
        available >= 8 && options.max_width >= 8 ==> reading_width(available, options) == available
            || reading_width(available, options) == options.max_width,
{
}

} // verus!
