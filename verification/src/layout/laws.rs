//! What holds of every layout as a whole.

use vstd::prelude::*;
use super::{
    added_piece, all_silent, at_least, behind_spaces, blank_line, block_lines, blocks_laid,
    body_budget, body_kind, body_lines, book_text, break_point, broken_lines_fit, code_lines,
    columns_between, continuation, holds_no_text, indent_of, laid_out, last_kind,
    lemma_behind_spaces, lemma_block_lines, lemma_notes_below, lemma_runs_between,
    lemma_without_trailing, marker_of, note_block, note_lines, notes_below, pieces_between,
    reading_width, runs_between, shown_text, shows_text, spaced_from, text_columns, text_piece,
    without_spaces, without_trailing_blanks, wrapping_never_drops_text, ImagePlacement,
    LayoutOptions, LineKind, LineView, NoteView, PieceView,
};
use crate::doc::{runs_text, BlockView, KindView, RunView};

verus! {

// ---------------------------------------------------------------------------
// Comments
// ---------------------------------------------------------------------------
/// The lines that a cursor can stand on.
pub open spec fn selectable_lines(lines: Seq<LineView>) -> Seq<LineView>
    decreases lines.len(),
{
    if lines.len() == 0 {
        lines
    } else if lines.last().selectable() {
        selectable_lines(lines.drop_last()).push(lines.last())
    } else {
        selectable_lines(lines.drop_last())
    }
}

proof fn lemma_selectable_adds(a: Seq<LineView>, b: Seq<LineView>)
    ensures
        selectable_lines(a + b) == selectable_lines(a) + selectable_lines(b),
    decreases b.len(),
{
    if b.len() == 0 {
        assert(a + b =~= a);
        assert(selectable_lines(a) + selectable_lines(b) =~= selectable_lines(a));
    } else {
        lemma_selectable_adds(a, b.drop_last());
        assert((a + b).drop_last() =~= a + b.drop_last());
        assert((a + b).last() == b.last());
        assert(selectable_lines(a + b) =~= selectable_lines(a) + selectable_lines(b));
    }
}

proof fn lemma_silent_lines(lines: Seq<LineView>, index: int)
    requires
        all_silent(lines, index),
    ensures
        selectable_lines(lines) == Seq::<LineView>::empty(),
    decreases lines.len(),
{
    if lines.len() > 0 {
        assert(lines[lines.len() - 1].block == index);
        assert forall|i: int| 0 <= i < lines.drop_last().len() implies (
        #[trigger] lines.drop_last()[i]).block == index && holds_no_text(
            lines.drop_last()[i].kind,
        ) by {
            assert(lines.drop_last()[i] == lines[i]);
        }
        lemma_silent_lines(lines.drop_last(), index);
    } else {
        assert(selectable_lines(lines) =~= Seq::<LineView>::empty());
    }
}

/// The blank line above a block, where there is one.
spec fn gap_above(block: BlockView, index: int, above: Seq<LineView>) -> Seq<LineView> {
    if spaced_from(block.kind, last_kind(above)) {
        seq![blank_line(index)]
    } else {
        Seq::empty()
    }
}

proof fn lemma_selectable_laid(
    blocks: Seq<BlockView>,
    n: int,
    width: int,
    notes: Seq<NoteView>,
    images: Seq<ImagePlacement>,
)
    requires
        0 <= n <= blocks.len(),
    ensures
        selectable_lines(blocks_laid(blocks, n, width, notes, images)) == selectable_lines(
            blocks_laid(blocks, n, width, Seq::empty(), images),
        ),
    decreases n,
{
    if n > 0 {
        lemma_selectable_laid(blocks, n - 1, width, notes, images);
        lemma_selectable_step(blocks, n, width, notes, images);
        lemma_selectable_step(blocks, n, width, Seq::empty(), images);
    }
}

/// A block adds the lines of its own text and nothing else to stand on.
proof fn lemma_selectable_step(
    blocks: Seq<BlockView>,
    n: int,
    width: int,
    notes: Seq<NoteView>,
    images: Seq<ImagePlacement>,
)
    requires
        0 < n <= blocks.len(),
    ensures
        selectable_lines(blocks_laid(blocks, n, width, notes, images)) == selectable_lines(
            blocks_laid(blocks, n - 1, width, notes, images),
        ) + selectable_lines(block_lines(blocks[n - 1], n - 1, width, images)),
{
    let above = blocks_laid(blocks, n - 1, width, notes, images);
    let gap = gap_above(blocks[n - 1], n - 1, above);
    let body = block_lines(blocks[n - 1], n - 1, width, images);
    let below = notes_below(notes, notes.len() as int, n - 1, width);
    lemma_notes_below(notes, notes.len() as int, n - 1, width);
    lemma_silent_lines(below, n - 1);
    lemma_silent_lines(gap, n - 1);
    lemma_selectable_adds(above + gap + body, below);
    lemma_selectable_adds(above + gap, body);
    lemma_selectable_adds(above, gap);
    assert(selectable_lines(above) + Seq::<LineView>::empty() =~= selectable_lines(above));
    assert(selectable_lines(above + gap + body) + Seq::<LineView>::empty() =~= selectable_lines(
        above + gap + body,
    ));
}

proof fn lemma_selectable_cut(lines: Seq<LineView>)
    ensures
        selectable_lines(without_trailing_blanks(lines)) == selectable_lines(lines),
    decreases lines.len(),
{
    if lines.len() > 0 && lines.last().kind is Blank {
        lemma_selectable_cut(lines.drop_last());
    }
}

/// Comments shift nothing: the lines of the book, with their blocks, offsets,
/// indentation and pieces, are the same with comments and without.
pub proof fn comments_move_no_text(
    blocks: Seq<BlockView>,
    available: u16,
    options: LayoutOptions,
    notes: Seq<NoteView>,
    images: Seq<ImagePlacement>,
)
    ensures
        selectable_lines(laid_out(blocks, available, options, notes, images)) == selectable_lines(
            laid_out(blocks, available, options, Seq::empty(), images),
        ),
{
    let n = blocks.len() as int;
    let width = reading_width(available, options);
    lemma_selectable_laid(blocks, n, width, notes, images);
    lemma_selectable_cut(blocks_laid(blocks, n, width, notes, images));
    lemma_selectable_cut(blocks_laid(blocks, n, width, Seq::empty(), images));
}

/// A comment's line: all of it is decoration.
pub open spec fn is_comment(l: LineView) -> bool {
    &&& l.kind is Note
    &&& forall|i: int| 0 <= i < l.pieces.len() ==> (#[trigger] l.pieces[i]).decoration
}

/// A line below a block belongs to it: a comment in the colour of one made on
/// the block, or the blank line in front of it.
pub open spec fn below_block(l: LineView, notes: Seq<NoteView>, index: int) -> bool {
    &&& l.block == index
    &&& l.kind is Blank || (is_comment(l) && exists|k: int|
        0 <= k < notes.len() && (#[trigger] notes[k]).block == index && l.kind == (LineKind::Note {
            color: notes[k].color,
        }))
}

/// Lines come block by block, and in each block the comments come last.
pub open spec fn comments_last(lines: Seq<LineView>, notes: Seq<NoteView>, n: int) -> bool {
    &&& forall|i: int| 0 <= i < lines.len() ==> 0 <= (#[trigger] lines[i]).block < n
    &&& forall|i: int, j: int|
        0 <= i < j < lines.len() ==> (#[trigger] lines[i]).block <= (#[trigger] lines[j]).block
    &&& forall|i: int, j: int|
        0 <= i < j < lines.len() && (#[trigger] lines[i]).kind is Note && lines[i].block
            == (#[trigger] lines[j]).block ==> lines[j].kind is Note || lines[j].kind is Blank
    &&& forall|i: int|
        0 <= i < lines.len() && (#[trigger] lines[i]).kind is Note ==> below_block(
            lines[i],
            notes,
            lines[i].block,
        )
}

proof fn lemma_body_kinds(
    block: BlockView,
    index: int,
    budget: int,
    indent: int,
    kind: LineKind,
    marker: Option<Seq<char>>,
    at: int,
)
    ensures
        forall|i: int|
            0 <= i < body_lines(block, index, budget, indent, kind, marker, at).len() ==> (
            #[trigger] body_lines(block, index, budget, indent, kind, marker, at)[i]).kind == kind,
    decreases block.plain().len() - at,
{
    let s = block.plain();
    let all = body_lines(block, index, budget, indent, kind, marker, at);
    if 0 <= at < s.len() {
        let next = behind_spaces(s, break_point(s, at, budget));
        if at < next <= s.len() {
            let rest = body_lines(block, index, budget, indent, kind, marker, next);
            lemma_body_kinds(block, index, budget, indent, kind, marker, next);
            assert forall|i: int| 0 <= i < all.len() implies (#[trigger] all[i]).kind == kind by {
                if i > 0 {
                    assert(all[i] == rest[i - 1]);
                }
            }
        }
    }
}

proof fn lemma_code_kinds(s: Seq<char>, index: int, usable: int, indent: int, at: int)
    ensures
        forall|i: int|
            0 <= i < code_lines(s, index, usable, indent, at).len() ==> (#[trigger] code_lines(
                s,
                index,
                usable,
                indent,
                at,
            )[i]).kind == LineKind::Code,
    decreases s.len() - at,
{
    let all = code_lines(s, index, usable, indent, at);
    if 0 <= at < s.len() {
        let budget = if at == 0 {
            at_least(usable, 8)
        } else {
            at_least(usable - 2, 8)
        };
        let e = break_point(s, at, budget);
        if at < e <= s.len() {
            let rest = code_lines(s, index, usable, indent, e);
            lemma_code_kinds(s, index, usable, indent, e);
            assert forall|i: int| 0 <= i < all.len() implies (#[trigger] all[i]).kind
                == LineKind::Code by {
                if i > 0 {
                    assert(all[i] == rest[i - 1]);
                }
            }
        }
    }
}

/// A block's own lines are no comments.
proof fn lemma_block_kinds(block: BlockView, index: int, width: int, images: Seq<ImagePlacement>)
    ensures
        forall|i: int|
            0 <= i < block_lines(block, index, width, images).len() ==> (#[trigger] block_lines(
                block,
                index,
                width,
                images,
            )[i]).block == index && !(block_lines(block, index, width, images)[i].kind is Note),
{
    let indent = indent_of(block.kind);
    let usable = at_least(width - indent, 8);
    lemma_block_lines(block, index, width, images);
    if block.kind is Code {
        lemma_code_kinds(block.plain(), index, usable, indent, 0);
    } else if shows_text(block.kind) {
        let marker = marker_of(block.kind);
        lemma_body_kinds(
            block,
            index,
            body_budget(usable, marker),
            indent,
            body_kind(block.kind),
            marker,
            0,
        );
    }
}

proof fn lemma_note_kinds(s: Seq<char>, index: int, color: (u8, u8, u8), usable: int, at: int)
    requires
        0 <= at,
    ensures
        forall|i: int|
            0 <= i < note_lines(s, index, color, usable, at).len() ==> {
                let l = #[trigger] note_lines(s, index, color, usable, at)[i];
                l.block == index && l.kind == (LineKind::Note { color }) && is_comment(l)
            },
    decreases s.len() - at,
{
    let all = note_lines(s, index, color, usable, at);
    if at < s.len() {
        let next = behind_spaces(s, break_point(s, at, usable));
        if at < next <= s.len() {
            let rest = note_lines(s, index, color, usable, next);
            lemma_note_kinds(s, index, color, usable, next);
            assert forall|i: int| 0 <= i < all.len() implies {
                let l = #[trigger] all[i];
                l.block == index && l.kind == (LineKind::Note { color }) && is_comment(l)
            } by {
                if i > 0 {
                    assert(all[i] == rest[i - 1]);
                }
            }
        }
    }
}

proof fn lemma_below(notes: Seq<NoteView>, k: int, index: int, width: int)
    requires
        0 <= k <= notes.len(),
    ensures
        forall|i: int|
            0 <= i < notes_below(notes, k, index, width).len() ==> below_block(
                #[trigger] notes_below(notes, k, index, width)[i],
                notes,
                index,
            ),
    decreases k,
{
    if k > 0 {
        lemma_below(notes, k - 1, index, width);
        if notes[k - 1].block == index {
            let front = notes_below(notes, k - 1, index, width);
            let note = notes[k - 1];
            let body = note_lines(note.text, index, note.color, at_least(width - 6, 8), 0);
            lemma_note_kinds(note.text, index, note.color, at_least(width - 6, 8), 0);
            let all = front + note_block(note, index, width);
            assert forall|i: int| 0 <= i < all.len() implies below_block(
                #[trigger] all[i],
                notes,
                index,
            ) by {
                if i < front.len() {
                    assert(all[i] == front[i]);
                } else if i > front.len() {
                    assert(all[i] == body[i - front.len() - 1]);
                    assert(notes[k - 1].block == index);
                }
            }
        }
    }
}

proof fn lemma_comments_last(
    blocks: Seq<BlockView>,
    n: int,
    width: int,
    notes: Seq<NoteView>,
    images: Seq<ImagePlacement>,
)
    requires
        0 <= n <= blocks.len(),
    ensures
        comments_last(blocks_laid(blocks, n, width, notes, images), notes, n),
    decreases n,
{
    if n > 0 {
        lemma_comments_last(blocks, n - 1, width, notes, images);
        let above = blocks_laid(blocks, n - 1, width, notes, images);
        let gap = gap_above(blocks[n - 1], n - 1, above);
        let body = block_lines(blocks[n - 1], n - 1, width, images);
        let below = notes_below(notes, notes.len() as int, n - 1, width);
        lemma_block_kinds(blocks[n - 1], n - 1, width, images);
        lemma_below(notes, notes.len() as int, n - 1, width);
        let all = blocks_laid(blocks, n, width, notes, images);
        let g = above.len() as int;
        let c = g + gap.len() + body.len();
        assert forall|i: int| 0 <= i < all.len() implies {
            &&& i < g ==> #[trigger] all[i] == above[i]
            &&& g <= i ==> all[i].block == n - 1
            &&& g <= i < c ==> !(all[i].kind is Note)
            &&& c <= i ==> below_block(all[i], notes, n - 1)
        } by {
            if g <= i < g + gap.len() {
                assert(all[i] == blank_line(n - 1));
            } else if g + gap.len() <= i < c {
                assert(all[i] == body[i - g - gap.len()]);
            } else if c <= i {
                assert(all[i] == below[i - c]);
            }
        }
        assert forall|i: int| 0 <= i < all.len() implies 0 <= (#[trigger] all[i]).block < n by {}
        assert forall|i: int, j: int| 0 <= i < j < all.len() implies (#[trigger] all[i]).block <= (
        #[trigger] all[j]).block by {
            if j < g {
                assert(above[i].block <= above[j].block);
            } else if i < g {
                assert(above[i].block < n - 1);
            }
        }
        assert forall|i: int, j: int|
            0 <= i < j < all.len() && (#[trigger] all[i]).kind is Note && all[i].block == (
            #[trigger] all[j]).block implies all[j].kind is Note || all[j].kind is Blank by {
            if j < g {
                assert(above[i].kind is Note && above[i].block == above[j].block);
            } else if i < g {
                assert(above[i].block < n - 1);
            }
        }
    }
}

/// Comments stand below the block they belong to: behind every other line of it
/// and in front of the next block. They are decoration from end to end, in the
/// colour of their annotation.
pub proof fn comments_stand_below_their_block(
    blocks: Seq<BlockView>,
    available: u16,
    options: LayoutOptions,
    notes: Seq<NoteView>,
    images: Seq<ImagePlacement>,
)
    ensures
        comments_last(
            laid_out(blocks, available, options, notes, images),
            notes,
            blocks.len() as int,
        ),
{
    let n = blocks.len() as int;
    let all = blocks_laid(blocks, n, reading_width(available, options), notes, images);
    lemma_comments_last(blocks, n, reading_width(available, options), notes, images);
    lemma_without_trailing(all);
    let k = choose|k: int|
        0 <= k <= all.len() && without_trailing_blanks(all) == #[trigger] all.take(k);
    let cut = all.take(k);
    assert forall|i: int| 0 <= i < cut.len() implies #[trigger] cut[i] == all[i] by {}
}

/// Lines of text come from blocks that show text, and rules and pictures from
/// those that do not.
pub open spec fn agrees(l: LineView, blocks: Seq<BlockView>) -> bool {
    &&& !holds_no_text(l.kind) ==> shows_text(blocks[l.block].kind)
    &&& l.kind is Rule || l.kind is Image ==> !shows_text(blocks[l.block].kind)
}

proof fn lemma_agrees(
    blocks: Seq<BlockView>,
    n: int,
    width: int,
    notes: Seq<NoteView>,
    images: Seq<ImagePlacement>,
)
    requires
        0 <= n <= blocks.len(),
    ensures
        forall|i: int|
            0 <= i < blocks_laid(blocks, n, width, notes, images).len() ==> agrees(
                #[trigger] blocks_laid(blocks, n, width, notes, images)[i],
                blocks,
            ),
    decreases n,
{
    if n > 0 {
        lemma_agrees(blocks, n - 1, width, notes, images);
        let above = blocks_laid(blocks, n - 1, width, notes, images);
        let block = blocks[n - 1];
        let gap = gap_above(block, n - 1, above);
        let body = block_lines(block, n - 1, width, images);
        let below = notes_below(notes, notes.len() as int, n - 1, width);
        lemma_block_kinds(block, n - 1, width, images);
        lemma_below(notes, notes.len() as int, n - 1, width);
        let indent = indent_of(block.kind);
        let usable = at_least(width - indent, 8);
        if block.kind is Code {
            lemma_code_kinds(block.plain(), n - 1, usable, indent, 0);
        } else if shows_text(block.kind) {
            let marker = marker_of(block.kind);
            lemma_body_kinds(
                block,
                n - 1,
                body_budget(usable, marker),
                indent,
                body_kind(block.kind),
                marker,
                0,
            );
        }
        let all = blocks_laid(blocks, n, width, notes, images);
        let g = above.len() as int;
        let c = g + gap.len() + body.len();
        assert forall|i: int| 0 <= i < all.len() implies agrees(#[trigger] all[i], blocks) by {
            if i < g {
                assert(all[i] == above[i]);
            } else if i < g + gap.len() {
                assert(all[i] == blank_line(n - 1));
            } else if i < c {
                assert(all[i] == body[i - g - gap.len()]);
            } else {
                assert(all[i] == below[i - c]);
            }
        }
    }
}

/// Every line comes from a block of its kind.
pub proof fn lines_agree_with_their_blocks(
    blocks: Seq<BlockView>,
    available: u16,
    options: LayoutOptions,
    notes: Seq<NoteView>,
    images: Seq<ImagePlacement>,
)
    ensures
        forall|i: int|
            0 <= i < laid_out(blocks, available, options, notes, images).len() ==> agrees(
                #[trigger] laid_out(blocks, available, options, notes, images)[i],
                blocks,
            ),
{
    let n = blocks.len() as int;
    let all = blocks_laid(blocks, n, reading_width(available, options), notes, images);
    lemma_agrees(blocks, n, reading_width(available, options), notes, images);
    lemma_without_trailing(all);
    let k = choose|k: int|
        0 <= k <= all.len() && without_trailing_blanks(all) == #[trigger] all.take(k);
    assert forall|i: int| 0 <= i < all.take(k).len() implies #[trigger] all.take(k)[i] == all[i] by {}
}

// ---------------------------------------------------------------------------
// The text
// ---------------------------------------------------------------------------
/// What the lines of one block show, one after the other.
pub open spec fn text_of_block(lines: Seq<LineView>, index: int) -> Seq<char>
    decreases lines.len(),
{
    if lines.len() == 0 {
        Seq::empty()
    } else if lines.last().block == index {
        text_of_block(lines.drop_last(), index) + lines.last().shown()
    } else {
        text_of_block(lines.drop_last(), index)
    }
}

proof fn lemma_text_adds(a: Seq<LineView>, b: Seq<LineView>, index: int)
    ensures
        text_of_block(a + b, index) == text_of_block(a, index) + text_of_block(b, index),
    decreases b.len(),
{
    if b.len() == 0 {
        assert(a + b =~= a);
        assert(text_of_block(a, index) + text_of_block(b, index) =~= text_of_block(a, index));
    } else {
        lemma_text_adds(a, b.drop_last(), index);
        assert((a + b).drop_last() =~= a + b.drop_last());
        assert((a + b).last() == b.last());
        assert(text_of_block(a + b, index) =~= text_of_block(a, index) + text_of_block(b, index));
    }
}

proof fn lemma_own_text(lines: Seq<LineView>, index: int)
    requires
        forall|i: int| 0 <= i < lines.len() ==> (#[trigger] lines[i]).block == index,
    ensures
        text_of_block(lines, index) == shown_text(lines),
    decreases lines.len(),
{
    if lines.len() > 0 {
        let d = lines.drop_last();
        assert(lines[lines.len() - 1].block == index);
        assert forall|i: int| 0 <= i < d.len() implies (#[trigger] d[i]).block == index by {
            assert(d[i] == lines[i]);
        }
        lemma_own_text(d, index);
    }
}

proof fn lemma_no_text(lines: Seq<LineView>, index: int)
    requires
        forall|i: int|
            0 <= i < lines.len() ==> (#[trigger] lines[i]).block != index || holds_no_text(
                lines[i].kind,
            ),
    ensures
        text_of_block(lines, index) == Seq::<char>::empty(),
    decreases lines.len(),
{
    if lines.len() > 0 {
        let d = lines.drop_last();
        let l = lines[lines.len() - 1];
        assert(l.block != index || holds_no_text(l.kind));
        assert forall|i: int| 0 <= i < d.len() implies (#[trigger] d[i]).block != index
            || holds_no_text(d[i].kind) by {
            assert(d[i] == lines[i]);
        }
        lemma_no_text(d, index);
        assert(text_of_block(lines, index) =~= Seq::<char>::empty());
    }
}

/// Each block's lines show what the block's own layout shows.
proof fn lemma_text_laid(
    blocks: Seq<BlockView>,
    n: int,
    width: int,
    notes: Seq<NoteView>,
    images: Seq<ImagePlacement>,
    index: int,
)
    requires
        0 <= index < n <= blocks.len(),
    ensures
        text_of_block(blocks_laid(blocks, n, width, notes, images), index) == shown_text(
            block_lines(blocks[index], index, width, images),
        ),
    decreases n,
{
    let above = blocks_laid(blocks, n - 1, width, notes, images);
    let gap = gap_above(blocks[n - 1], n - 1, above);
    let body = block_lines(blocks[n - 1], n - 1, width, images);
    let below = notes_below(notes, notes.len() as int, n - 1, width);
    lemma_text_adds(above + gap + body, below, index);
    lemma_text_adds(above + gap, body, index);
    lemma_text_adds(above, gap, index);
    lemma_no_text(gap, index);
    lemma_notes_below(notes, notes.len() as int, n - 1, width);
    lemma_no_text(below, index);
    lemma_block_kinds(blocks[n - 1], n - 1, width, images);
    let all = blocks_laid(blocks, n, width, notes, images);
    if index < n - 1 {
        lemma_text_laid(blocks, n - 1, width, notes, images, index);
        lemma_no_text(body, index);
        assert(text_of_block(all, index) =~= text_of_block(above, index));
    } else {
        lemma_comments_last(blocks, n - 1, width, notes, images);
        lemma_no_text(above, index);
        lemma_own_text(body, index);
        assert(text_of_block(all, index) =~= shown_text(body));
    }
}

proof fn lemma_text_cut(lines: Seq<LineView>, index: int)
    ensures
        text_of_block(without_trailing_blanks(lines), index) == text_of_block(lines, index),
    decreases lines.len(),
{
    if lines.len() > 0 && lines.last().kind is Blank {
        lemma_text_cut(lines.drop_last(), index);
        assert(text_of_block(lines, index) =~= text_of_block(lines.drop_last(), index));
    }
}

/// A layout drops nothing of a chapter but spaces, and from code not even those:
/// the lines of each block join to its text, whatever the width, the comments and
/// the pictures.
pub proof fn a_layout_never_drops_text(
    blocks: Seq<BlockView>,
    available: u16,
    options: LayoutOptions,
    notes: Seq<NoteView>,
    images: Seq<ImagePlacement>,
    index: int,
)
    requires
        0 <= index < blocks.len(),
        shows_text(blocks[index].kind),
    ensures
        ({
            let lines = laid_out(blocks, available, options, notes, images);
            &&& without_spaces(text_of_block(lines, index)) == without_spaces(blocks[index].plain())
            &&& blocks[index].kind is Code ==> text_of_block(lines, index) == blocks[index].plain()
        }),
{
    let n = blocks.len() as int;
    let width = reading_width(available, options);
    lemma_text_laid(blocks, n, width, notes, images, index);
    lemma_text_cut(blocks_laid(blocks, n, width, notes, images), index);
    wrapping_never_drops_text(blocks[index], index, width, images);
}

// ---------------------------------------------------------------------------
// The reading width
// ---------------------------------------------------------------------------
/// Everything that pieces draw, decoration included.
pub open spec fn drawn_text(pieces: Seq<PieceView>) -> Seq<char>
    decreases pieces.len(),
{
    if pieces.len() == 0 {
        Seq::empty()
    } else {
        drawn_text(pieces.drop_last()) + pieces.last().text
    }
}

/// A line stays within a width. The mark in front of a continued line of code is
/// reckoned as two columns, and an image's line is not limited.
pub open spec fn stays_within(l: LineView, width: int) -> bool {
    match l.kind {
        LineKind::Image { .. } => true,
        LineKind::Code => l.indent + (if l.offset > 0 {
            2int
        } else {
            0
        }) + text_columns(l.shown()) <= width,
        _ => l.indent + text_columns(drawn_text(l.pieces)) <= width,
    }
}

/// The width leaves room for a block of that kind: for its indentation and its
/// marker, and for the narrowest line behind them.
pub open spec fn leaves_room(kind: KindView, width: int) -> bool {
    let indent = indent_of(kind);
    match kind {
        KindView::Code => indent + 10 <= width,
        KindView::ListItem { .. } => indent + 8 <= width && indent + text_columns(
            marker_of(kind)->0,
        ) + 4 <= width,
        _ => indent + 8 <= width,
    }
}

proof fn lemma_columns_added(a: Seq<char>, b: Seq<char>, n: int)
    requires
        0 <= n <= b.len(),
    ensures
        columns_between(a + b, 0, a.len() + n) == text_columns(a) + columns_between(b, 0, n),
    decreases n,
{
    if n == 0 {
        assert((a + b).subrange(0, a.len() as int) =~= a.subrange(0, a.len() as int));
        lemma_columns_same(a + b, 0, a, 0, a.len() as int);
    } else {
        lemma_columns_added(a, b, n - 1);
        assert((a + b)[a.len() + n - 1] == b[n - 1]);
    }
}

proof fn lemma_columns_same(s: Seq<char>, at: int, t: Seq<char>, from: int, n: int)
    requires
        0 <= at,
        0 <= from,
        0 <= n,
        at + n <= s.len(),
        from + n <= t.len(),
        s.subrange(at, at + n) == t.subrange(from, from + n),
    ensures
        columns_between(s, at, at + n) == columns_between(t, from, from + n),
    decreases n,
{
    if n > 0 {
        let part = s.subrange(at, at + n);
        assert(s.subrange(at, at + n - 1) =~= part.take(n - 1));
        assert(t.subrange(from, from + n - 1) =~= part.take(n - 1));
        lemma_columns_same(s, at, t, from, n - 1);
        assert(s[at + n - 1] == part[n - 1]);
        assert(t[from + n - 1] == part[n - 1]);
    }
}

proof fn lemma_part_columns(s: Seq<char>, from: int, to: int)
    requires
        0 <= from <= to <= s.len(),
    ensures
        text_columns(s.subrange(from, to)) == columns_between(s, from, to),
{
    let part = s.subrange(from, to);
    assert(s.subrange(from, to) =~= part.subrange(0, to - from));
    lemma_columns_same(s, from, part, 0, to - from);
}

proof fn lemma_drawn_runs(runs: Seq<RunView>)
    ensures
        drawn_text(runs.map_values(|r: RunView| text_piece(r.text, r.style))) == runs_text(runs),
    decreases runs.len(),
{
    let pieces = runs.map_values(|r: RunView| text_piece(r.text, r.style));
    if runs.len() > 0 {
        lemma_drawn_runs(runs.drop_last());
        assert(pieces.drop_last() =~= runs.drop_last().map_values(
            |r: RunView| text_piece(r.text, r.style),
        ));
    }
}

proof fn lemma_drawn_front(p: PieceView, pieces: Seq<PieceView>)
    ensures
        drawn_text(seq![p] + pieces) == p.text + drawn_text(pieces),
    decreases pieces.len(),
{
    let all = seq![p] + pieces;
    if pieces.len() == 0 {
        assert(all.drop_last() =~= pieces);
        assert(all.last() == p);
        assert(drawn_text(all) =~= p.text + drawn_text(pieces));
    } else {
        assert(all.last() == pieces.last());
        lemma_drawn_front(p, pieces.drop_last());
        assert(all.drop_last() =~= seq![p] + pieces.drop_last());
        assert(drawn_text(all) =~= p.text + drawn_text(pieces));
    }
}

/// A line of running text draws its marker and the stretch of text it shows.
proof fn lemma_drawn_body(runs: Seq<RunView>, marker: Option<Seq<char>>, at: int, e: int)
    requires
        0 <= at <= e <= runs_text(runs).len(),
    ensures
        text_columns(drawn_text(pieces_between(runs, at, e))) == columns_between(
            runs_text(runs),
            at,
            e,
        ),
        marker matches Some(m) ==> text_columns(
            drawn_text(seq![added_piece(m)] + pieces_between(runs, at, e)),
        ) == text_columns(m) + columns_between(runs_text(runs), at, e),
{
    let s = runs_text(runs);
    lemma_runs_between(runs, runs.len() as int, at, e);
    assert(runs.take(runs.len() as int) =~= runs);
    lemma_drawn_runs(runs_between(runs, runs.len() as int, at, e));
    lemma_part_columns(s, at, e);
    if let Some(m) = marker {
        let text = s.subrange(at, e);
        lemma_drawn_front(added_piece(m), pieces_between(runs, at, e));
        lemma_columns_added(m, text, text.len() as int);
    }
}

proof fn lemma_body_fits(
    block: BlockView,
    index: int,
    budget: int,
    indent: int,
    kind: LineKind,
    marker: Option<Seq<char>>,
    at: int,
    width: int,
)
    requires
        0 <= at <= block.plain().len(),
        3 <= budget,
        !(kind is Code),
        indent + budget + (match marker {
            Some(m) => text_columns(m),
            None => 0,
        }) <= width,
    ensures
        forall|i: int|
            0 <= i < body_lines(block, index, budget, indent, kind, marker, at).len()
                ==> stays_within(
                #[trigger] body_lines(block, index, budget, indent, kind, marker, at)[i],
                width,
            ),
    decreases block.plain().len() - at,
{
    let s = block.plain();
    let all = body_lines(block, index, budget, indent, kind, marker, at);
    if at < s.len() {
        let e = break_point(s, at, budget);
        broken_lines_fit(s, at, budget);
        lemma_behind_spaces(s, e);
        let next = behind_spaces(s, e);
        lemma_drawn_body(block.runs, marker, at, e);
        let pieces = pieces_between(block.runs, at, e);
        assert(Seq::<PieceView>::empty() + pieces =~= pieces);
        assert(stays_within(all[0], width));
        if at < next <= s.len() {
            let rest = body_lines(block, index, budget, indent, kind, marker, next);
            lemma_body_fits(block, index, budget, indent, kind, marker, next, width);
            assert forall|i: int| 0 <= i < all.len() implies stays_within(
                #[trigger] all[i],
                width,
            ) by {
                if i > 0 {
                    assert(all[i] == rest[i - 1]);
                }
            }
        }
    }
}

proof fn lemma_code_fits(s: Seq<char>, index: int, usable: int, indent: int, at: int, width: int)
    requires
        0 <= at <= s.len(),
        10 <= usable,
        indent + usable <= width,
    ensures
        forall|i: int|
            0 <= i < code_lines(s, index, usable, indent, at).len() ==> stays_within(
                #[trigger] code_lines(s, index, usable, indent, at)[i],
                width,
            ),
    decreases s.len() - at,
{
    let all = code_lines(s, index, usable, indent, at);
    if at < s.len() {
        let budget = if at == 0 {
            at_least(usable, 8)
        } else {
            at_least(usable - 2, 8)
        };
        let e = break_point(s, at, budget);
        broken_lines_fit(s, at, budget);
        lemma_part_columns(s, at, e);
        let piece = text_piece(s.subrange(at, e), crate::epub::xhtml::code_style());
        lemma_code_shown(all[0], piece);
        assert(stays_within(all[0], width));
        if at < e <= s.len() {
            let rest = code_lines(s, index, usable, indent, e);
            lemma_code_fits(s, index, usable, indent, e, width);
            assert forall|i: int| 0 <= i < all.len() implies stays_within(
                #[trigger] all[i],
                width,
            ) by {
                if i > 0 {
                    assert(all[i] == rest[i - 1]);
                }
            }
        }
    }
}

/// A line of code shows the one piece of text it ends in.
proof fn lemma_code_shown(l: LineView, piece: PieceView)
    requires
        l.kind == LineKind::Code,
        !piece.decoration,
        l.pieces == Seq::<PieceView>::empty().push(piece) || l.pieces == seq![
            added_piece(continuation()),
        ].push(piece),
    ensures
        l.shown() == piece.text,
{
    let front = l.pieces.drop_last();
    if front.len() == 0 {
        assert(front =~= Seq::<PieceView>::empty());
    } else {
        assert(front =~= seq![added_piece(continuation())]);
        assert(front.last().decoration);
        assert(front.drop_last() =~= Seq::<PieceView>::empty());
        assert(book_text(front.drop_last()) =~= Seq::<char>::empty());
    }
    assert(book_text(front) =~= Seq::<char>::empty());
    assert(l.shown() =~= piece.text);
}

proof fn lemma_note_fits(
    s: Seq<char>,
    index: int,
    color: (u8, u8, u8),
    usable: int,
    at: int,
    width: int,
)
    requires
        0 <= at <= s.len(),
        3 <= usable,
        6 + usable <= width,
    ensures
        forall|i: int|
            0 <= i < note_lines(s, index, color, usable, at).len() ==> stays_within(
                #[trigger] note_lines(s, index, color, usable, at)[i],
                width,
            ),
    decreases s.len() - at,
{
    let all = note_lines(s, index, color, usable, at);
    if at < s.len() {
        let e = break_point(s, at, usable);
        broken_lines_fit(s, at, usable);
        lemma_behind_spaces(s, e);
        let next = behind_spaces(s, e);
        let prefix = if at == 0 {
            "> "@
        } else {
            "  "@
        };
        let text = s.subrange(at, e);
        reveal_strlit("> ");
        reveal_strlit("  ");
        reveal_with_fuel(columns_between, 3);
        assert(text_columns(prefix) == 2);
        lemma_part_columns(s, at, e);
        let pieces = all[0].pieces;
        assert(pieces =~= seq![added_piece(prefix)] + seq![added_piece(text)]);
        lemma_drawn_front(added_piece(prefix), seq![added_piece(text)]);
        lemma_drawn_front(added_piece(text), Seq::empty());
        assert(seq![added_piece(text)] + Seq::<PieceView>::empty() =~= seq![added_piece(text)]);
        assert(drawn_text(seq![added_piece(text)]) =~= text);
        lemma_columns_added(prefix, text, text.len() as int);
        assert(stays_within(all[0], width));
        if at < next <= s.len() {
            let rest = note_lines(s, index, color, usable, next);
            lemma_note_fits(s, index, color, usable, next, width);
            assert forall|i: int| 0 <= i < all.len() implies stays_within(
                #[trigger] all[i],
                width,
            ) by {
                if i > 0 {
                    assert(all[i] == rest[i - 1]);
                }
            }
        }
    }
}

proof fn lemma_block_fits(block: BlockView, index: int, width: int, images: Seq<ImagePlacement>)
    requires
        leaves_room(block.kind, width),
    ensures
        forall|i: int|
            0 <= i < block_lines(block, index, width, images).len() ==> stays_within(
                #[trigger] block_lines(block, index, width, images)[i],
                width,
            ),
{
    let indent = indent_of(block.kind);
    let usable = at_least(width - indent, 8);
    if block.kind is Code {
        let s = block.plain();
        if s.len() > 0 {
            lemma_code_fits(s, index, usable, indent, 0, width);
        } else {
            assert(block_lines(block, index, width, images)[0].shown() =~= s);
        }
    } else if shows_text(block.kind) {
        let marker = marker_of(block.kind);
        lemma_body_fits(
            block,
            index,
            body_budget(usable, marker),
            indent,
            body_kind(block.kind),
            marker,
            0,
            width,
        );
    } else if block.kind is Rule {
        assert(text_columns(Seq::<char>::empty()) == 0);
    }
}

proof fn lemma_below_fits(notes: Seq<NoteView>, k: int, index: int, width: int)
    requires
        0 <= k <= notes.len(),
        14 <= width,
    ensures
        forall|i: int|
            0 <= i < notes_below(notes, k, index, width).len() ==> stays_within(
                #[trigger] notes_below(notes, k, index, width)[i],
                width,
            ),
    decreases k,
{
    if k > 0 {
        lemma_below_fits(notes, k - 1, index, width);
        if notes[k - 1].block == index {
            let front = notes_below(notes, k - 1, index, width);
            let note = notes[k - 1];
            let body = note_lines(note.text, index, note.color, at_least(width - 6, 8), 0);
            lemma_note_fits(note.text, index, note.color, at_least(width - 6, 8), 0, width);
            let all = front + note_block(note, index, width);
            assert forall|i: int| 0 <= i < all.len() implies stays_within(
                #[trigger] all[i],
                width,
            ) by {
                if i < front.len() {
                    assert(all[i] == front[i]);
                } else if i > front.len() {
                    assert(all[i] == body[i - front.len() - 1]);
                }
            }
        }
    }
}

proof fn lemma_laid_fits(
    blocks: Seq<BlockView>,
    n: int,
    width: int,
    notes: Seq<NoteView>,
    images: Seq<ImagePlacement>,
)
    requires
        0 <= n <= blocks.len(),
        0 <= width,
        notes.len() > 0 ==> 14 <= width,
        forall|b: int| 0 <= b < blocks.len() ==> leaves_room((#[trigger] blocks[b]).kind, width),
    ensures
        forall|i: int|
            0 <= i < blocks_laid(blocks, n, width, notes, images).len() ==> stays_within(
                #[trigger] blocks_laid(blocks, n, width, notes, images)[i],
                width,
            ),
    decreases n,
{
    if n > 0 {
        lemma_laid_fits(blocks, n - 1, width, notes, images);
        let above = blocks_laid(blocks, n - 1, width, notes, images);
        let gap = gap_above(blocks[n - 1], n - 1, above);
        let body = block_lines(blocks[n - 1], n - 1, width, images);
        let below = notes_below(notes, notes.len() as int, n - 1, width);
        lemma_block_fits(blocks[n - 1], n - 1, width, images);
        if notes.len() > 0 {
            lemma_below_fits(notes, notes.len() as int, n - 1, width);
        }
        let all = blocks_laid(blocks, n, width, notes, images);
        let g = above.len() as int;
        let c = g + gap.len() + body.len();
        assert forall|i: int| 0 <= i < all.len() implies stays_within(#[trigger] all[i], width) by {
            if i < g {
                assert(all[i] == above[i]);
            } else if i < g + gap.len() {
                assert(all[i] == blank_line(n - 1));
                assert(text_columns(Seq::<char>::empty()) == 0);
            } else if i < c {
                assert(all[i] == body[i - g - gap.len()]);
            } else {
                assert(all[i] == below[i - c]);
            }
        }
    }
}

/// A line is never wider than the reading width, where that leaves room for the
/// blocks of the chapter and for the comments.
pub proof fn lines_stay_within_the_reading_width(
    blocks: Seq<BlockView>,
    available: u16,
    options: LayoutOptions,
    notes: Seq<NoteView>,
    images: Seq<ImagePlacement>,
)
    requires
        notes.len() > 0 ==> 14 <= reading_width(available, options),
        forall|b: int|
            0 <= b < blocks.len() ==> leaves_room(
                (#[trigger] blocks[b]).kind,
                reading_width(available, options),
            ),
    ensures
        forall|i: int|
            0 <= i < laid_out(blocks, available, options, notes, images).len() ==> stays_within(
                #[trigger] laid_out(blocks, available, options, notes, images)[i],
                reading_width(available, options),
            ),
{
    let n = blocks.len() as int;
    let width = reading_width(available, options);
    let all = blocks_laid(blocks, n, width, notes, images);
    lemma_laid_fits(blocks, n, width, notes, images);
    lemma_without_trailing(all);
    let k = choose|k: int|
        0 <= k <= all.len() && without_trailing_blanks(all) == #[trigger] all.take(k);
    assert forall|i: int| 0 <= i < all.take(k).len() implies #[trigger] all.take(k)[i] == all[i] by {}
}

} // verus!
