//! What holds of every line that is shown.

use vstd::prelude::*;
use crate::annotation::{place_of, AnnotationView};
use crate::app::motions::covered;
use crate::app::AppView;
use crate::find::{HitView, Source};
use crate::gather::{gathers, lemma_gather, lemma_says, says};
use crate::journal::Moment;
use crate::layout::{LineKind, LineView, PieceView};
use crate::library::{EntryView, Order};
use crate::search::Hit;
use crate::shelf::ShelfView;
use crate::text::{decimal, quoted_text};
use crate::theme::ThemeView;
use crate::ui::page::{
    base, cell_at, cell_runs, columns_before, half_blocks, hit_over, indent_spans, margin_mark,
    mark_on, mark_over, note_spans,
    painted, piece_cell, piece_spans, pieces_spans, rendered, shown_width, tail_run, touches, Cell,
    CellStyle, SceneView,
};
use crate::ui::panel::{
    ago, column_widths, hit_list, hit_rows, hits_rows, hits_status, mark_rows, padded, placed_at, placements_on,
    prompt_spans, reader_left, reader_right, reader_status, seconds_between, shelf_left, shelf_spans, shelf_status, shortened, sprite_of,
    status_spans, third_column, PlacementView, SpriteView,
};
use crate::ui::{spaces, span, Area, Paint, PaletteView, SpanView, SIDE_MARGIN};

verus! {

/// The text that some spans show.
pub open spec fn shown(spans: Seq<SpanView>) -> Seq<char>
    decreases spans.len(),
{
    if spans.len() == 0 {
        Seq::empty()
    } else {
        shown(spans.drop_last()) + spans.last().text
    }
}

/// The paint of each character that some spans show.
pub open spec fn looks(spans: Seq<SpanView>) -> Seq<Paint>
    decreases spans.len(),
{
    if spans.len() == 0 {
        Seq::empty()
    } else {
        looks(spans.drop_last()) + Seq::new(spans.last().text.len(), |i: int| spans.last().paint)
    }
}

/// Nothing but so many spaces.
pub open spec fn is_room(t: Seq<char>, n: int) -> bool {
    t.len() == n && forall|i: int| 0 <= i < t.len() ==> #[trigger] t[i] == ' '
}

/// The text of the first `n` pieces.
pub open spec fn written(pieces: Seq<PieceView>, n: nat) -> Seq<char>
    decreases n,
{
    if n == 0 {
        Seq::empty()
    } else {
        written(pieces, (n - 1) as nat) + pieces[n - 1].text
    }
}

/// How many characters of the book the first `n` pieces hold.
pub open spec fn of_the_book(pieces: Seq<PieceView>, n: nat) -> int
    decreases n,
{
    if n == 0 {
        0
    } else {
        of_the_book(pieces, (n - 1) as nat) + (if pieces[n - 1].decoration {
            0
        } else {
            pieces[n - 1].text.len() as int
        })
    }
}

proof fn lemma_shown_push(spans: Seq<SpanView>, s: SpanView)
    ensures
        shown(spans.push(s)) == shown(spans) + s.text,
        looks(spans.push(s)) == looks(spans) + Seq::new(s.text.len(), |i: int| s.paint),
{
    assert(spans.push(s).drop_last() =~= spans);
    assert(looks(spans.push(s)) =~= looks(spans) + Seq::new(s.text.len(), |i: int| s.paint));
}

proof fn lemma_shown_add(a: Seq<SpanView>, b: Seq<SpanView>)
    ensures
        shown(a + b) == shown(a) + shown(b),
        looks(a + b) == looks(a) + looks(b),
    decreases b.len(),
{
    if b.len() == 0 {
        assert(a + b =~= a);
        assert(shown(a) + shown(b) =~= shown(a));
        assert(looks(a) + looks(b) =~= looks(a));
    } else {
        assert((a + b).drop_last() =~= a + b.drop_last());
        lemma_shown_add(a, b.drop_last());
        assert(shown(a + b) =~= shown(a) + shown(b));
        assert(looks(a + b) =~= looks(a) + looks(b));
    }
}

proof fn lemma_shown_one(s: SpanView)
    ensures
        shown(seq![s]) == s.text,
{
    assert(seq![s] =~= Seq::<SpanView>::empty().push(s));
    lemma_shown_push(Seq::empty(), s);
    assert(Seq::<char>::empty() + s.text =~= s.text);
}

proof fn lemma_looks_as_long(spans: Seq<SpanView>)
    ensures
        looks(spans).len() == shown(spans).len(),
        shown_width(spans) == shown(spans).len(),
    decreases spans.len(),
{
    if spans.len() > 0 {
        lemma_looks_as_long(spans.drop_last());
    }
}

proof fn lemma_room(n: nat)
    ensures
        is_room(spaces(n), n as int),
    decreases n,
{
    reveal_strlit(" ");
    if n > 0 {
        lemma_room((n - 1) as nat);
    }
}

// ---------------------------------------------------------------------------
// One character
// ---------------------------------------------------------------------------
proof fn lemma_mark_over(marks: Seq<AnnotationView>, block: int, offset: int, i: int)
    requires
        0 <= i <= marks.len(),
    ensures
        match mark_over(marks, block, offset, i) {
            Some(k) => i <= k < marks.len() && marks[k].covers_at(block, offset) && forall|j: int|
                i <= j < k ==> !(#[trigger] marks[j]).covers_at(block, offset),
            None => forall|j: int|
                i <= j < marks.len() ==> !(#[trigger] marks[j]).covers_at(block, offset),
        },
    decreases marks.len() - i,
{
    if i < marks.len() {
        lemma_mark_over(marks, block, offset, i + 1);
    }
}

proof fn lemma_covered(a: AnnotationView, block: int, offset: int)
    ensures
        a.covers_at(block, offset) == covered(a.slices, block, offset),
{
    if a.covers_at(block, offset) {
        let i = choose|i: int|
            0 <= i < a.slices.len() && (#[trigger] a.slices[i]).holds(block, offset);
        assert(a.slices[i].block == block);
    }
    if covered(a.slices, block, offset) {
        let i = choose|i: int|
            0 <= i < a.slices.len() && (#[trigger] a.slices[i]).block == block && a.slices[i].start
                <= offset < a.slices[i].end;
        assert(a.slices[i].holds(block, offset));
    }
}

/// A match begins at its hit and is as long as the query.
pub open spec fn matches_at(hit: Hit, length: int, block: int, offset: int) -> bool {
    hit.0 == block && hit.1 <= offset < hit.1 + length
}

proof fn lemma_hit_over(hits: Seq<Hit>, length: int, block: int, offset: int, n: int)
    requires
        0 <= n <= hits.len(),
    ensures
        match hit_over(hits, length, block, offset, n) {
            Some(h) => matches_at(h, length, block, offset) && hits.contains(h),
            None => forall|i: int|
                0 <= i < n ==> !matches_at(#[trigger] hits[i], length, block, offset),
        },
    decreases n,
{
    if n > 0 {
        lemma_hit_over(hits, length, block, offset, n - 1);
        assert(hits.contains(hits[n - 1]));
    }
}

/// A character is marked where an annotation covers it, in the colour of the first that
/// does; selected where it lies between the ends of the selection; and part of a match
/// where a hit reaches it, the current one where that is the hit the search is at.
pub proof fn a_character_shows_what_lies_on_it(
    scene: SceneView,
    block: int,
    offset: int,
    line: int,
    column: int,
    k: int,
)
    ensures
        ({
            let cell = cell_at(scene, block, offset, line, column);
            let length = scene.search.query.len() as int;
            let hits = scene.search.hits;
            &&& 0 <= k < scene.marks.len() && covered(scene.marks[k].slices, block, offset) && (
            forall|j: int|
                0 <= j < k ==> !covered((#[trigger] scene.marks[j]).slices, block, offset))
                ==> cell.mark == Some(scene.marks[k].color) && cell.has_note
                == scene.marks[k].noted()
            &&& (forall|j: int|
                0 <= j < scene.marks.len() ==> !covered(
                    (#[trigger] scene.marks[j]).slices,
                    block,
                    offset,
                )) ==> cell.mark is None && !cell.has_note
            &&& cell.match_here <==> exists|i: int|
                0 <= i < hits.len() && matches_at(#[trigger] hits[i], length, block, offset)
            &&& cell.current_match ==> scene.search.hit() is Some && matches_at(
                scene.search.hit()->0,
                length,
                block,
                offset,
            )
            &&& scene.search.hit() matches Some(h) ==> (matches_at(h, length, block, offset) && (
            forall|i: int|
                0 <= i < hits.len() && matches_at(#[trigger] hits[i], length, block, offset)
                    ==> hits[i] == h) ==> cell.current_match)
            &&& scene.selection matches Some((start, end)) ==> (cell.selected <==> (block > start.0
                || (block == start.0 && offset >= start.1)) && (block < end.0 || (block == end.0
                && offset <= end.1)))
            &&& cell.at_cursor <==> (scene.cursor matches Some(c) && c.0 == line && c.1 == column)
        }),
{
    let marks = scene.marks;
    lemma_mark_over(marks, block, offset, 0);
    assert forall|j: int| 0 <= j < marks.len() implies (#[trigger] marks[j]).covers_at(
        block,
        offset,
    ) == covered(marks[j].slices, block, offset) by {
        lemma_covered(marks[j], block, offset);
    }
    let hits = scene.search.hits;
    let length = scene.search.query.len() as int;
    lemma_hit_over(hits, length, block, offset, hits.len() as int);
    if let Some(h) = hit_over(hits, length, block, offset, hits.len() as int) {
        let i = choose|i: int| 0 <= i < hits.len() && hits[i] == h;
        assert(matches_at(hits[i], length, block, offset));
    }
    if let Some(h) = scene.search.hit() {
        assert(hits[scene.search.current->0 as int] == h);
    }
}

/// What lies on a character shows in its paint: the cursor and the selection invert, a
/// match takes the accent, an annotation its colour, and nothing leaves it as it was.
pub proof fn paint_shows_what_lies_on_a_character(p: Paint, cell: CellStyle, palette: PaletteView)
    ensures
        ({
            let r = painted(p, cell, palette);
            &&& cell.at_cursor ==> r.reversed && r.bold
            &&& cell.selected ==> r.reversed
            &&& cell.match_here ==> r.bg == Some(palette.theme.accent) && r.fg == Some(
                palette.on_accent,
            )
            &&& cell.match_here && cell.current_match ==> r.bold && r.underlined
            &&& !cell.match_here && cell.mark is Some && !cell.has_note ==> r.bg == Some(
                palette.theme.marks[place_of(cell.mark->0)],
            ) && r.fg == Some(palette.on_marks[place_of(cell.mark->0)])
            &&& cell.mark is Some && cell.has_note ==> r.reversed && r.underlined && r.underline
                == Some(palette.theme.marks[place_of(cell.mark->0)])
            &&& cell.mark is None && !cell.match_here && !cell.selected && !cell.at_cursor ==> r
                == p
            &&& cell.mark is None && !cell.selected && !cell.at_cursor ==> r.reversed == p.reversed
            &&& cell.mark is None && !cell.match_here ==> r.fg == p.fg && r.bg == p.bg
            &&& r.italic == p.italic
        }),
{
}

/// Text keeps its own style on a line of any kind, and no other is added but that of
/// the line.
pub proof fn text_keeps_its_look(style: crate::doc::RunStyle, kind: LineKind, theme: ThemeView)
    ensures
        ({
            let p = base(style, kind, theme);
            &&& style.bold ==> p.bold
            &&& style.italic ==> p.italic
            &&& p.underlined == style.link
            &&& !p.reversed
            &&& kind is Body ==> p.bold == style.bold && p.italic == style.italic && p.bg is None
            &&& kind is Body && style.code ==> p.fg == Some(theme.code_foreground)
            &&& kind is Body && !style.code ==> p.fg is None
            &&& kind is Code ==> p.bg == Some(theme.code_background) && p.fg == Some(
                theme.code_foreground,
            )
            &&& kind is Quote ==> p.italic && p.fg == Some(theme.quote)
            &&& kind matches LineKind::Heading(level) ==> p.fg == Some(theme.accent) && (1 <= level
                <= 2 ==> p.bold)
        }),
{
}

// ---------------------------------------------------------------------------
// One line
// ---------------------------------------------------------------------------
proof fn lemma_piece(
    scene: SceneView,
    line: LineView,
    index: int,
    column: int,
    piece: PieceView,
    n: nat,
)
    requires
        n <= piece.text.len(),
    ensures
        ({
            let spans = piece_spans(scene, line, index, column, piece, n);
            &&& shown(spans) == piece.text.take(n as int)
            &&& looks(spans).len() == n
            &&& n > 0 ==> spans.len() > 0 && spans.last().paint == painted(
                base(piece.style, line.kind, scene.palette.theme),
                piece_cell(scene, line, index, column, n - 1),
                scene.palette,
            )
            &&& forall|k: int|
                0 <= k < n ==> #[trigger] looks(spans)[k] == painted(
                    base(piece.style, line.kind, scene.palette.theme),
                    piece_cell(scene, line, index, column, k),
                    scene.palette,
                )
        }),
    decreases n,
{
    if n == 0 {
        assert(piece.text.take(0) =~= Seq::<char>::empty());
    } else {
        let m = (n - 1) as nat;
        lemma_piece(scene, line, index, column, piece, m);
        let front = piece_spans(scene, line, index, column, piece, m);
        let cell = piece_cell(scene, line, index, column, n - 1);
        let c = piece.text[n - 1];
        assert(piece.text.take(n as int) =~= piece.text.take(m as int).push(c));
        if n >= 2 && piece_cell(scene, line, index, column, n - 2) == cell {
            let last = span(front.last().text.push(c), front.last().paint);
            lemma_shown_push(front.drop_last(), last);
            let all = front.drop_last().push(last);
            assert(shown(all) =~= shown(front).push(c));
            assert(looks(all) =~= looks(front).push(last.paint));
        } else {
            let s = span(
                seq![c],
                painted(
                    base(piece.style, line.kind, scene.palette.theme),
                    cell,
                    scene.palette,
                ),
            );
            lemma_shown_push(front, s);
            assert(shown(front.push(s)) =~= shown(front).push(c));
            assert(looks(front.push(s)) =~= looks(front).push(s.paint));
        }
    }
}

proof fn lemma_book_grows(pieces: Seq<PieceView>, m: nat, n: nat)
    requires
        m <= n,
    ensures
        0 <= of_the_book(pieces, m) <= of_the_book(pieces, n),
        written(pieces, m).len() <= written(pieces, n).len(),
    decreases n,
{
    if n > 0 {
        if m < n {
            lemma_book_grows(pieces, m, (n - 1) as nat);
        } else {
            lemma_book_grows(pieces, (n - 1) as nat, (n - 1) as nat);
        }
    }
}

proof fn lemma_pieces(scene: SceneView, line: LineView, index: int, n: nat, p: int, k: int)
    requires
        n <= line.pieces.len(),
        line.offset >= 0,
        line.offset + of_the_book(line.pieces, n) <= usize::MAX,
        0 <= p < line.pieces.len(),
        0 <= k < line.pieces[p].text.len(),
    ensures
        columns_before(line.pieces, n) == of_the_book(line.pieces, n),
        ({
            let spans = pieces_spans(scene, line, index, n);
            let piece = line.pieces[p];
            let column = of_the_book(line.pieces, p as nat) + k;
            &&& shown(spans) == written(line.pieces, n)
            &&& looks(spans).len() == shown(spans).len()
            &&& p < n && !piece.decoration ==> looks(spans)[written(line.pieces, p as nat).len()
                + k] == painted(
                base(piece.style, line.kind, scene.palette.theme),
                cell_at(scene, line.block, line.offset + column, index, column),
                scene.palette,
            )
        }),
    decreases n,
{
    if n > 0 {
        let m = (n - 1) as nat;
        lemma_book_grows(line.pieces, m, n);
        lemma_pieces(scene, line, index, m, p, k);
        let front = pieces_spans(scene, line, index, m);
        let piece = line.pieces[n - 1];
        lemma_looks_as_long(pieces_spans(scene, line, index, n));
        if p < m {
            lemma_book_grows(line.pieces, (p + 1) as nat, m);
        }
        if piece.decoration {
            lemma_shown_push(
                front,
                span(piece.text, base(piece.style, line.kind, scene.palette.theme)),
            );
        } else {
            let column = columns_before(line.pieces, m);
            let more = piece_spans(scene, line, index, column, piece, piece.text.len());
            lemma_piece(scene, line, index, column, piece, piece.text.len());
            lemma_shown_add(front, more);
            assert(piece.text.take(piece.text.len() as int) =~= piece.text);
            if p == n - 1 {
                assert(looks(more)[k] == painted(
                    base(piece.style, line.kind, scene.palette.theme),
                    piece_cell(scene, line, index, column, k),
                    scene.palette,
                ));
            }
        }
    }
}

/// Each character of the book on a line is painted for its own place in the book,
/// whatever decoration stands in front of it.
pub proof fn every_character_is_painted_for_its_place(
    scene: SceneView,
    line: LineView,
    index: int,
    p: int,
    k: int,
)
    requires
        line.offset >= 0,
        line.offset + of_the_book(line.pieces, line.pieces.len()) <= usize::MAX,
        0 <= p < line.pieces.len(),
        !line.pieces[p].decoration,
        0 <= k < line.pieces[p].text.len(),
    ensures
        ({
            let spans = pieces_spans(scene, line, index, line.pieces.len());
            let piece = line.pieces[p];
            let at = written(line.pieces, p as nat).len() + k;
            let column = of_the_book(line.pieces, p as nat) + k;
            &&& 0 <= at < shown(spans).len()
            &&& shown(spans)[at] == piece.text[k]
            &&& looks(spans)[at] == painted(
                base(piece.style, line.kind, scene.palette.theme),
                cell_at(scene, line.block, line.offset + column, index, column),
                scene.palette,
            )
        }),
{
    lemma_pieces(scene, line, index, line.pieces.len(), p, k);
    lemma_written(line.pieces, line.pieces.len(), p, k);
}

proof fn lemma_written(pieces: Seq<PieceView>, n: nat, p: int, k: int)
    requires
        0 <= p < n <= pieces.len(),
        0 <= k < pieces[p].text.len(),
    ensures
        written(pieces, p as nat).len() + k < written(pieces, n).len(),
        written(pieces, n)[written(pieces, p as nat).len() + k] == pieces[p].text[k],
    decreases n,
{
    if p < n - 1 {
        lemma_written(pieces, (n - 1) as nat, p, k);
    }
}

proof fn lemma_text_shown(scene: SceneView, line: LineView, index: int, n: nat)
    requires
        n <= line.pieces.len(),
    ensures
        shown(pieces_spans(scene, line, index, n)) == written(line.pieces, n),
    decreases n,
{
    if n > 0 {
        let m = (n - 1) as nat;
        lemma_text_shown(scene, line, index, m);
        let front = pieces_spans(scene, line, index, m);
        let piece = line.pieces[n - 1];
        if piece.decoration {
            lemma_shown_push(
                front,
                span(piece.text, base(piece.style, line.kind, scene.palette.theme)),
            );
        } else {
            let column = columns_before(line.pieces, m);
            let more = piece_spans(scene, line, index, column, piece, piece.text.len());
            lemma_piece(scene, line, index, column, piece, piece.text.len());
            lemma_shown_add(front, more);
            assert(piece.text.take(piece.text.len() as int) =~= piece.text);
        }
    }
}

proof fn lemma_indent(line: LineView, theme: ThemeView)
    requires
        line.indent >= 0,
    ensures
        is_room(shown(indent_spans(line, theme)), line.indent),
{
    lemma_room(line.indent as nat);
    if line.indent > 0 {
        lemma_shown_one(indent_spans(line, theme)[0]);
        assert(indent_spans(line, theme) =~= seq![indent_spans(line, theme)[0]]);
    }
}

proof fn lemma_note_shown(pieces: Seq<PieceView>, color: (u8, u8, u8), n: nat)
    requires
        n <= pieces.len(),
    ensures
        shown(note_spans(pieces, color).take(n as int)) == written(pieces, n),
    decreases n,
{
    let all = note_spans(pieces, color);
    if n == 0 {
        assert(all.take(0) =~= Seq::<SpanView>::empty());
    } else {
        lemma_note_shown(pieces, color, (n - 1) as nat);
        assert(all.take(n as int).drop_last() =~= all.take(n - 1));
    }
}

/// A line shows its indent and its text, all of it and in order. A quote has a bar in
/// front, a rule its stars, and a listing is filled up to the right edge.
pub proof fn a_line_shows_its_text(scene: SceneView, line: LineView, index: int, width: u16)
    requires
        line.indent >= 0,
    ensures
        ({
            let t = shown(rendered(scene, line, index, width));
            let text = written(line.pieces, line.pieces.len());
            exists|room: Seq<char>, fill: Seq<char>| #[trigger]
                is_room(room, line.indent) && #[trigger] is_room(fill, fill.len() as int) && (
                match line.kind {
                    LineKind::Blank => t.len() == 0,
                    LineKind::Rule => t == room + "* * *"@,
                    LineKind::Quote => t == room + "▏ "@ + text,
                    LineKind::Code => t == room + text + fill && (room.len() + text.len() >= width
                        && fill.len() == 0 || t.len() == width),
                    _ => t == room + text,
                })
        }),
{
    let theme = scene.palette.theme;
    let indent = indent_spans(line, theme);
    let spans = pieces_spans(scene, line, index, line.pieces.len());
    let text = written(line.pieces, line.pieces.len());
    lemma_indent(line, theme);
    lemma_text_shown(scene, line, index, line.pieces.len());
    lemma_shown_add(indent, spans);
    let room = shown(indent);
    let none = Seq::<char>::empty();
    assert(is_room(none, 0));
    let t = shown(rendered(scene, line, index, width));
    match line.kind {
        LineKind::Blank => {
            assert(is_room(room, line.indent) && is_room(none, none.len() as int) && t.len() == 0);
        },
        LineKind::Rule => {
            lemma_shown_push(indent, span("* * *"@, crate::ui::colored(theme.muted)));
            assert(is_room(room, line.indent) && is_room(none, none.len() as int));
        },
        LineKind::Note { color } => {
            let notes = note_spans(line.pieces, color);
            lemma_note_shown(line.pieces, color, line.pieces.len());
            assert(notes.take(line.pieces.len() as int) =~= notes);
            lemma_shown_add(indent, notes);
            assert(is_room(room, line.indent) && is_room(none, none.len() as int));
        },
        LineKind::Quote => {
            let bar = span("▏ "@, crate::ui::colored(theme.muted));
            lemma_shown_push(indent, bar);
            lemma_shown_add(indent.push(bar), spans);
            assert(is_room(room, line.indent) && is_room(none, none.len() as int));
        },
        LineKind::Code => {
            let front = indent + spans;
            lemma_looks_as_long(front);
            if shown_width(front) < width {
                let fill = spaces((width - shown_width(front)) as nat);
                lemma_room((width - shown_width(front)) as nat);
                lemma_shown_push(front, span(fill, crate::ui::backed(theme.code_background)));
                assert(is_room(room, line.indent) && is_room(fill, fill.len() as int));
                assert(t == room + text + fill);
            } else {
                assert(room + text + none =~= room + text);
                assert(is_room(room, line.indent) && is_room(none, none.len() as int));
            }
        },
        _ => {
            assert(is_room(room, line.indent) && is_room(none, none.len() as int));
        },
    }
}

// ---------------------------------------------------------------------------
// Columns and moments
// ---------------------------------------------------------------------------
/// A column keeps what fits it, filled up with spaces, and shows of what does not all
/// but its end.
pub proof fn columns_keep_what_fits(text: Seq<char>, width: int)
    requires
        width >= 1,
    ensures
        ({
            let t = padded(text, width);
            &&& t.len() == width
            &&& text.len() <= width ==> t.take(text.len() as int) == text && is_room(
                t.skip(text.len() as int),
                width - text.len(),
            )
            &&& text.len() > width ==> t.take(width - 1) == text.take(width - 1) && t.last() == '…'
        }),
{
    if text.len() <= width {
        lemma_room((width - text.len()) as nat);
        let t = padded(text, width);
        assert(t.take(text.len() as int) =~= text);
        assert(t.skip(text.len() as int) =~= spaces((width - text.len()) as nat));
    } else {
        let t = padded(text, width);
        assert(t.take(width - 1) =~= text.take(width - 1));
    }
}

/// A text on one line keeps to its width.
pub proof fn a_short_text_fits(text: Seq<char>, width: int)
    requires
        width >= 1,
    ensures
        shortened(text, width).len() <= width,
        crate::find::squeezed(text).len() <= width ==> shortened(text, width)
            == crate::find::squeezed(text),
        crate::find::squeezed(text).len() > width ==> shortened(text, width).take(width - 1)
            == crate::find::squeezed(text).take(width - 1) && shortened(text, width).last() == '…',
{
    let s = crate::find::squeezed(text);
    if s.len() > width {
        assert(shortened(text, width).take(width - 1) =~= s.take(width - 1));
    }
}

/// How long ago a moment was is said in the largest unit of which one has passed, and
/// counts how many of these have passed in full.
pub proof fn a_moment_is_so_long_ago(at: Moment, now: Moment, n: int)
    requires
        at.nanos == now.nanos,
    ensures
        ({
            let passed = now.seconds - at.seconds;
            let t = ago(at, now);
            &&& 0 <= passed < 60 ==> t == decimal(1) + " min ago"@
            &&& 1 <= n < 60 && 60 * n <= passed < 60 * (n + 1) ==> t == decimal(n as nat)
                + " min ago"@
            &&& 1 <= n < 24 && 3600 * n <= passed < 3600 * (n + 1) ==> t == decimal(n as nat)
                + " h ago"@
            &&& 86400 <= passed < 2 * 86400 ==> t == "yesterday"@
            &&& 2 <= n < 30 && 86400 * n <= passed < 86400 * (n + 1) ==> t == decimal(n as nat)
                + " days ago"@
            &&& 1 <= n && 2_592_000 * n <= passed < 2_592_000 * (n + 1) && passed < 31_536_000
                ==> t == decimal(n as nat) + " months ago"@
            &&& 1 <= n && 31_536_000 * n <= passed < 31_536_000 * (n + 1) ==> t == decimal(
                n as nat,
            ) + " years ago"@
            &&& passed <= -86400 ==> t == "just now"@
        }),
{
    let passed = now.seconds - at.seconds;
    assert(seconds_between(at, now) == passed);
    let days = passed / 86400;
    if 1 <= n && 2_592_000 * n <= passed < 2_592_000 * (n + 1) {
        assert(30 * n <= days < 30 * (n + 1));
        assert(days / 30 == n);
    }
    if 1 <= n && 31_536_000 * n <= passed < 31_536_000 * (n + 1) {
        assert(365 * n <= days < 365 * (n + 1));
        assert(days / 365 == n);
    }
    if passed <= -86400 {
        assert((-passed) / 86400 >= 1);
    }
}

// ---------------------------------------------------------------------------
// Status lines
// ---------------------------------------------------------------------------
proof fn lemma_four(a: SpanView, b: SpanView, c: SpanView, d: SpanView)
    ensures
        shown(seq![a, b, c, d]) == a.text + b.text + c.text + d.text,
{
    let s = seq![a, b, c, d];
    lemma_shown_one(a);
    assert(seq![a, b] =~= seq![a].push(b));
    lemma_shown_push(seq![a], b);
    assert(seq![a, b, c] =~= seq![a, b].push(c));
    lemma_shown_push(seq![a, b], c);
    assert(s =~= seq![a, b, c].push(d));
    lemma_shown_push(seq![a, b, c], d);
}

/// A status line shows its left and its right side in full, with room before and
/// between, and its right side ends a margin before the edge wherever both fit.
pub proof fn a_status_line_has_both_sides(
    left: Seq<char>,
    left_paint: Paint,
    right: Seq<char>,
    right_paint: Paint,
    width: u16,
)
    ensures
        ({
            let t = shown(status_spans(left, left_paint, right, right_paint, width));
            exists|edge: Seq<char>, gap: Seq<char>| #[trigger]
                is_room(edge, 2) && #[trigger] is_room(gap, gap.len() as int) && gap.len() >= 1 && t
                    == edge + left + gap + right && (left.len() + right.len() + 5 <= width
                    ==> t.len() + 2 == width)
        }),
{
    let spans = status_spans(left, left_paint, right, right_paint, width);
    let edge = spans[0].text;
    let gap = spans[2].text;
    lemma_room(SIDE_MARGIN as nat);
    lemma_room(gap_of(left, right, width));
    lemma_four(spans[0], spans[1], spans[2], spans[3]);
    assert(spans =~= seq![spans[0], spans[1], spans[2], spans[3]]);
    assert(is_room(edge, 2) && is_room(gap, gap.len() as int));
}

spec fn gap_of(left: Seq<char>, right: Seq<char>, width: u16) -> nat {
    let room = width - (left.len() + right.len() + 2 * SIDE_MARGIN);
    if room < 1 {
        1
    } else {
        room as nat
    }
}

/// The reader is told which chapter of how many is shown, and how much of it was read.
pub proof fn the_reader_sees_where_they_are(app: AppView)
    ensures
        says(
            reader_right(app),
            decimal((app.chapter_index + 1) as nat) + "/"@ + decimal(app.book.spine.len()),
        ),
        reader_right(app).last() == '%',
        reader_right(app).len() > 0,
        says(reader_right(app), decimal(app.progressed() as nat)),
        app.status matches Some(message) ==> reader_left(app) == message,
        app.status is None && app.link_here() is None && app.mark_here() is None ==> (
        app.book.metadata.title matches Some(t) ==> says(reader_left(app), t)),
        app.status is None && app.link_here() is None ==> (app.mark_here() matches Some(i) ==> (
        app.annotations[i].note matches Some(note) ==> says(reader_left(app), note))),
        app.status is None ==> (app.link_here() matches Some(i) ==> says(
            reader_left(app),
            app.chapter.links[i].target,
        )),
{
    let right = reader_right(app);
    let mode = crate::ui::panel::mode_text(app.mode);
    let count = crate::ui::panel::counter_text(
        crate::app::report::marks_in(app.annotations, app.chapter.href).len(),
    );
    let at = decimal((app.chapter_index + 1) as nat);
    let of = decimal(app.book.spine.len());
    let n = app.progressed() as nat;
    let percent = crate::ui::panel::percent_text(n);
    let place = at + "/"@ + of;
    lemma_says(mode + count, place, "  "@ + percent);
    assert(right =~= mode + count + place + ("  "@ + percent));
    reveal_strlit("%");
    assert("%"@.last() == '%');
    assert(percent.last() == '%');
    assert(right.last() == percent.last());
    let number = decimal(n);
    let front = mode + count + place + "  "@;
    assert(says(right, number)) by {
        let lead = if n < 10 {
            "  "@
        } else if n < 100 {
            " "@
        } else {
            Seq::empty()
        };
        lemma_says(front + lead, number, "%"@);
        assert(right =~= front + lead + number + "%"@);
    }
    if app.status is None {
        match app.link_here() {
            Some(i) => {
                lemma_says("link: "@, app.chapter.links[i].target, "  ·  Enter follows"@);
            },
            None => match app.mark_here() {
                Some(i) => {
                    if let Some(note) = app.annotations[i].note {
                        let lead = crate::annotation::name_of(app.annotations[i].color) + ": "@;
                        lemma_says(lead, note, Seq::empty());
                        assert(reader_left(app) =~= lead + note + Seq::<char>::empty());
                    }
                },
                None => {
                    if let Some(title) = app.book.metadata.title {
                        let rest = "  ·  "@ + crate::epub::entry_title(
                            app.book.spine[app.chapter_index],
                            app.chapter_index,
                        );
                        lemma_says(Seq::empty(), title, rest);
                        assert(reader_left(app) =~= Seq::<char>::empty() + title + rest);
                    }
                },
            },
        }
    }
}

/// The shelf says how many books it holds, and with a filter also how many it shows.
pub proof fn the_shelf_counts_its_books(shelf: ShelfView)
    requires
        shelf.status is None,
    ensures
        says(shelf_left(shelf), decimal(shelf.all.len()) + " books"@),
        shelf.filter.len() > 0 ==> says(shelf_left(shelf), decimal(shelf.shown.len()) + " of "@),
{
    let all = decimal(shelf.all.len());
    if shelf.filter.len() > 0 {
        let some = decimal(shelf.shown.len()) + " of "@;
        let rest = "  ·  filter "@ + quoted_text(shelf.filter);
        reveal_strlit(" books  ·  filter ");
        reveal_strlit(" books");
        reveal_strlit("  ·  filter ");
        assert(" books  ·  filter "@ =~= " books"@ + "  ·  filter "@);
        let books = all + " books"@;
        lemma_says(some, books, rest);
        assert(shelf_left(shelf) =~= some + books + rest);
        lemma_says(Seq::empty(), some, books + rest);
        assert(shelf_left(shelf) =~= Seq::<char>::empty() + some + (books + rest));
    } else {
        lemma_says(Seq::empty(), shelf_left(shelf), Seq::empty());
        assert(Seq::<char>::empty() + shelf_left(shelf) + Seq::<char>::empty() =~= shelf_left(shelf));
    }
}

// ---------------------------------------------------------------------------
// Pictures
// ---------------------------------------------------------------------------
proof fn lemma_sprite(sprites: Seq<SpriteView>, block: int, i: int)
    requires
        0 <= i <= sprites.len(),
    ensures
        match sprite_of(sprites, block, i) {
            Some(k) => i <= k < sprites.len() && sprites[k].block == block && forall|j: int|
                i <= j < k ==> (#[trigger] sprites[j]).block != block,
            None => forall|j: int| i <= j < sprites.len() ==> (#[trigger] sprites[j]).block != block,
        },
    decreases sprites.len() - i,
{
    if i < sprites.len() {
        lemma_sprite(sprites, block, i + 1);
    }
}

/// The picture that begins on a row.
pub open spec fn picture_by(lines: Seq<LineView>, area: Area, sprites: Seq<SpriteView>) -> spec_fn(
    int,
) -> Option<PlacementView> {
    |k: int| placed_at(lines[k], k, area, sprites)
}

proof fn lemma_placements(
    lines: Seq<LineView>,
    area: Area,
    sprites: Seq<SpriteView>,
    n: nat,
) -> (at: Seq<int>)
    requires
        n <= lines.len(),
    ensures
        gathers(
            at,
            placements_on(lines, area, sprites, n),
            n as int,
            picture_by(lines, area, sprites),
        ),
    decreases n,
{
    if n == 0 {
        Seq::empty()
    } else {
        let before = lemma_placements(lines, area, sprites, (n - 1) as nat);
        lemma_gather(
            before,
            placements_on(lines, area, sprites, (n - 1) as nat),
            n - 1,
            picture_by(lines, area, sprites),
        )
    }
}

/// Every picture that begins on the page and fits below its row is drawn once, at the
/// row where it begins and behind its line's indent.
pub proof fn every_picture_is_drawn_in_its_place(
    lines: Seq<LineView>,
    area: Area,
    sprites: Seq<SpriteView>,
    k: int,
    i: int,
)
    requires
        0 <= k < lines.len(),
        0 <= i < sprites.len(),
        sprites[i].block == lines[k].block,
        forall|j: int| 0 <= j < i ==> (#[trigger] sprites[j]).block != lines[k].block,
    ensures
        exists|at: Seq<int>| #[trigger]
            gathers(
                at,
                placements_on(lines, area, sprites, lines.len()),
                lines.len() as int,
                picture_by(lines, area, sprites),
            ),
        ({
            let p = picture_by(lines, area, sprites)(k);
            let starts = lines[k].kind matches LineKind::Image { row, .. } && row == 0;
            if starts && sprites[i].escape.len() > 0 && k + sprites[i].height <= area.height {
                p matches Some(p) && p.escape == sprites[i].escape && p.row == area.y + k && (
                area.x + lines[k].indent <= u16::MAX ==> p.column == area.x + lines[k].indent)
            } else {
                p is None
            }
        }),
{
    let at = lemma_placements(lines, area, sprites, lines.len());
    assert(gathers(
        at,
        placements_on(lines, area, sprites, lines.len()),
        lines.len() as int,
        picture_by(lines, area, sprites),
    ));
    lemma_sprite(sprites, lines[k].block, 0);
}

/// The look of a cell of a picture: its upper half in front, its lower half behind.
pub open spec fn cell_look(cell: Cell) -> Paint {
    Paint {
        fg: Some(cell.upper),
        bg: Some(cell.lower),
        underline: None,
        bold: false,
        italic: false,
        underlined: false,
        reversed: false,
    }
}

proof fn lemma_half_blocks(n: nat)
    ensures
        half_blocks(n).len() == n,
        forall|i: int| 0 <= i < n ==> #[trigger] half_blocks(n)[i] == '▀',
    decreases n,
{
    reveal_strlit("▀");
    if n > 0 {
        lemma_half_blocks((n - 1) as nat);
    }
}

proof fn lemma_cells(cells: Seq<Cell>, n: int)
    requires
        0 <= n <= cells.len(),
    ensures
        ({
            let spans = cell_runs(cells, n);
            &&& looks(spans).len() == n
            &&& forall|k: int| 0 <= k < n ==> #[trigger] looks(spans)[k] == cell_look(cells[k])
            &&& shown(spans) == half_blocks(n as nat)
            &&& n > 0 ==> spans.len() > 0 && spans.last().text == half_blocks(
                tail_run(cells, n) as nat,
            ) && spans.last().paint == cell_look(cells[n - 1]) && tail_run(cells, n) >= 1
        }),
    decreases n,
{
    lemma_half_blocks(n as nat);
    if n == 0 {
        assert(half_blocks(0) =~= Seq::<char>::empty());
    } else {
        lemma_cells(cells, n - 1);
        lemma_half_blocks((n - 1) as nat);
        let front = cell_runs(cells, n - 1);
        let run = tail_run(cells, n);
        lemma_half_blocks(run as nat);
        let look = cell_look(cells[n - 1]);
        let last = span(half_blocks(run as nat), look);
        let kept = if run > 1 {
            front.drop_last()
        } else {
            front
        };
        if n >= 2 && cells[n - 2] == cells[n - 1] {
            assert(run == tail_run(cells, n - 1) + 1);
            lemma_half_blocks((run - 1) as nat);
            assert(front.take(front.len() - 1) =~= front.drop_last());
        } else {
            assert(run == 1);
            assert(front.take(front.len() as int) =~= front);
        }
        assert(cell_runs(cells, n) =~= kept.push(last));
        lemma_shown_push(kept, last);
        assert(shown(kept.push(last)) =~= half_blocks(n as nat));
        let all = looks(kept.push(last));
        if run > 1 {
            assert(looks(front) == looks(kept) + Seq::new(
                (run - 1) as nat,
                |i: int| front.last().paint,
            ));
            assert(looks(kept).len() == n - run);
            assert(all.len() == n);
            assert forall|k: int| 0 <= k < n implies #[trigger] all[k] == cell_look(cells[k]) by {
                if k < n - 1 {
                    assert(looks(front)[k] == cell_look(cells[k]));
                    if k < n - run {
                        assert(all[k] == looks(kept)[k]);
                        assert(looks(front)[k] == looks(kept)[k]);
                    } else {
                        assert(all[k] == look);
                        assert(looks(front)[k] == front.last().paint);
                    }
                }
            }
        }
        assert(cell_runs(cells, n) == kept.push(last));
    }
}

/// A row of a picture drawn with half blocks has one half block for each cell, in the
/// colours of that cell.
pub proof fn a_picture_row_shows_every_cell(cells: Seq<Cell>)
    ensures
        ({
            let spans = cell_runs(cells, cells.len() as int);
            &&& shown(spans).len() == cells.len()
            &&& looks(spans).len() == cells.len()
            &&& forall|k: int| 0 <= k < cells.len() ==> #[trigger] shown(spans)[k] == '▀'
            &&& forall|k: int|
                0 <= k < cells.len() ==> #[trigger] looks(spans)[k] == cell_look(cells[k])
        }),
{
    lemma_cells(cells, cells.len() as int);
    lemma_half_blocks(cells.len());
}

// ---------------------------------------------------------------------------
// Lists
// ---------------------------------------------------------------------------
/// The columns of the shelf and the room between them fill the line.
pub proof fn columns_fill_the_line(width: int)
    requires
        width >= 0,
    ensures
        ({
            let (title, author, series) = column_widths(width);
            &&& 12 <= author <= 30
            &&& 0 <= series <= 24
            &&& title >= 0
            &&& width >= author + series + 6 ==> title + author + series + 6 == width
            &&& width >= 120 ==> title > author && author > series
        }),
{
}

/// A row of the shelf tells the title, the authors, and what the order is about, and
/// marks a book that was begun, one that is missing and the one under the cursor.
pub proof fn a_shelf_row_describes_its_book(
    e: EntryView,
    selected: bool,
    order: Order,
    now: Moment,
    width: u16,
    theme: ThemeView,
)
    ensures
        ({
            let row = shelf_spans(e, selected, order, now, width, theme);
            let (title, author, series) = column_widths(width as int);
            &&& row.len() >= 5
            &&& row[0].text == (if e.progress is Some {
                "▌"@
            } else {
                " "@
            })
            &&& row[2].text == padded(e.record.shown_title(), title)
            &&& row[4].text == padded(e.record.shown_authors(), author)
            &&& series > 0 ==> row.len() >= 7 && row[6].text == padded(
                third_column(e, order, now),
                series,
            )
            &&& e.record.missing ==> row.last().text == " (missing)"@
            &&& !e.record.missing ==> row.len() == (if series > 0 {
                7int
            } else {
                5
            })
            &&& forall|i: int| 0 <= i < row.len() ==> (#[trigger] row[i]).paint.reversed == selected
        }),
        order is Recent && e.last_read is Some ==> third_column(e, order, now) == ago(
            e.last_read->0,
            now,
        ),
        !(order is Recent) && e.record.series is Some ==> says(
            third_column(e, order, now),
            e.record.series->0,
        ),
{
    if let Some(name) = e.record.series {
        if !(order is Recent) {
            let rest = match e.record.series_index {
                Some(at) => " "@ + at.label,
                None => Seq::empty(),
            };
            lemma_says(Seq::empty(), name, rest);
            assert(third_column(e, order, now) =~= Seq::<char>::empty() + name + rest);
        }
    }
}

proof fn lemma_hit_rows(
    hits: Seq<HitView>,
    cursor: int,
    from: int,
    to: int,
    width: u16,
    theme: ThemeView,
    k: int,
)
    requires
        from <= k < to,
    ensures
        ({
            let rows = hits_rows(hits, cursor, from, to, width, theme);
            let own = hit_rows(hits[k], k == cursor, width, theme);
            &&& rows.len() == 3 * (to - from)
            &&& rows[3 * (k - from)] == own[0]
            &&& rows[3 * (k - from) + 1] == own[1]
            &&& rows[3 * (k - from) + 2] == own[2]
        }),
    decreases to - from,
{
    if k < to - 1 {
        lemma_hit_rows(hits, cursor, from, to - 1, width, theme, k);
    } else {
        lemma_hit_count(hits, cursor, from, to - 1, width, theme);
    }
}

proof fn lemma_hit_count(
    hits: Seq<HitView>,
    cursor: int,
    from: int,
    to: int,
    width: u16,
    theme: ThemeView,
)
    requires
        from <= to,
    ensures
        hits_rows(hits, cursor, from, to, width, theme).len() == 3 * (to - from),
    decreases to - from,
{
    if from < to {
        lemma_hit_count(hits, cursor, from, to - 1, width, theme);
    }
}

/// Every hit on the screen tells its book, its chapter and the passage, in the order of
/// the hits, and the one under the cursor is inverted.
pub proof fn every_hit_on_the_screen_is_told(
    hits: Seq<HitView>,
    query: Seq<char>,
    cursor: int,
    scroll: int,
    area: Area,
    theme: ThemeView,
    k: int,
)
    requires
        0 <= scroll <= k < hits.len(),
        3 * (k - scroll + 1) <= area.height,
    ensures
        ({
            let rows = hit_list(hits, query, cursor, scroll, area, theme);
            let at = 3 * (k - scroll);
            &&& at + 2 < rows.len() <= area.height
            &&& says(shown(rows[at]), hits[k].book_title)
            &&& says(shown(rows[at]), hits[k].chapter_title)
            &&& area.width >= 7 && crate::find::squeezed(hits[k].snippet).len() <= area.width - 6
                ==> says(shown(rows[at + 1]), crate::find::squeezed(hits[k].snippet))
            &&& rows[at].len() == 3 && rows[at][1].paint.reversed == (k == cursor)
        }),
{
    let fit = area.height as int / 3;
    let to = crate::ui::at_most(hits.len() as int, scroll + fit);
    assert(k < to);
    lemma_hit_rows(hits, cursor, scroll, to, area.width, theme, k);
    let rows = hit_list(hits, query, cursor, scroll, area, theme);
    let at = 3 * (k - scroll);
    let head = rows[at];
    let a = head[0];
    let b = head[1];
    let c = head[2];
    lemma_shown_one(a);
    assert(seq![a, b] =~= seq![a].push(b));
    lemma_shown_push(seq![a], b);
    assert(head =~= seq![a, b].push(c));
    lemma_shown_push(seq![a, b], c);
    lemma_says(a.text, b.text, c.text);
    let lead = "  ·  "@;
    assert(c.text == lead + hits[k].chapter_title);
    let before = a.text + b.text + lead;
    lemma_says(before, hits[k].chapter_title, Seq::empty());
    assert(shown(head) =~= before + hits[k].chapter_title + Seq::<char>::empty());
    let passage = rows[at + 1];
    assert(passage =~= seq![passage[0]]);
    lemma_shown_one(passage[0]);
    let snippet = shortened(hits[k].snippet, crate::ui::left_of(area.width as int, 6));
    lemma_says("    "@, snippet, Seq::empty());
    assert(passage[0].text =~= "    "@ + snippet + Seq::<char>::empty());
}

// ---------------------------------------------------------------------------
// Marks
// ---------------------------------------------------------------------------
proof fn lemma_mark_on(marks: Seq<AnnotationView>, line: LineView, i: int)
    requires
        0 <= i <= marks.len(),
    ensures
        match mark_on(marks, line, i) {
            Some(k) => i <= k < marks.len() && touches(marks[k], line, 0) && forall|j: int|
                i <= j < k ==> !touches(#[trigger] marks[j], line, 0),
            None => forall|j: int| i <= j < marks.len() ==> !touches(#[trigger] marks[j], line, 0),
        },
    decreases marks.len() - i,
{
    if i < marks.len() {
        lemma_mark_on(marks, line, i + 1);
    }
}

/// The margin of a line is marked where an annotation covers any of its text, in the
/// colour of the first that does, and inverted where that one has a comment.
pub proof fn the_margin_shows_annotations(scene: SceneView, line: LineView, k: int, column: int)
    requires
        0 <= k < scene.marks.len(),
        0 <= column < line.shown().len(),
        covered(scene.marks[k].slices, line.block, line.offset + column),
        forall|j: int|
            0 <= j < k ==> !touches(#[trigger] scene.marks[j], line, 0),
    ensures
        ({
            let m = margin_mark(scene, line);
            let color = scene.palette.theme.marks[place_of(scene.marks[k].color)];
            &&& scene.marks[k].noted() ==> m.paint.reversed && m.paint.underline == Some(color)
            &&& !scene.marks[k].noted() ==> m.text == "▌"@ && m.paint.fg == Some(color)
                && !m.paint.reversed
        }),
{
    lemma_covered(scene.marks[k], line.block, line.offset + column);
    assert(scene.marks[k].covers_at(line.block, line.offset + column));
    assert(touches(scene.marks[k], line, 0));
    lemma_mark_on(scene.marks, line, 0);
}

/// A line that no annotation reaches has an empty margin.
pub proof fn other_margins_are_empty(scene: SceneView, line: LineView)
    requires
        forall|j: int| 0 <= j < scene.marks.len() ==> !touches(#[trigger] scene.marks[j], line, 0),
    ensures
        margin_mark(scene, line).text == " "@,
        !margin_mark(scene, line).paint.reversed,
        margin_mark(scene, line).paint.fg is None,
{
    lemma_mark_on(scene.marks, line, 0);
}

/// An annotation is listed with its quote, in its colour, and with its comment below.
pub proof fn an_annotation_is_listed_in_full(mark: AnnotationView, width: u16, theme: ThemeView)
    ensures
        ({
            let rows = mark_rows(mark, width, theme);
            let room = width - 8;
            let color = theme.marks[place_of(mark.color)];
            &&& rows.len() == (if mark.note is Some {
                2int
            } else {
                1
            })
            &&& rows[0].len() == 3
            &&& mark.noted() ==> rows[0][0].paint.underline == Some(color)
            &&& !mark.noted() ==> rows[0][0].paint.fg == Some(color)
            &&& room >= 1 ==> rows[0][2].text == shortened(mark.quote, room)
            &&& room >= 1 && mark.note is Some ==> rows[1].len() == 1 && says(
                rows[1][0].text,
                shortened(mark.note->0, room),
            )
        }),
{
    if let Some(note) = mark.note {
        let text = shortened(note, crate::ui::left_of(width as int, 8));
        lemma_says("     "@, text, Seq::empty());
        assert("     "@ + text + Seq::<char>::empty() =~= "     "@ + text);
    }
}

/// What is typed into a prompt is shown behind its slash.
pub proof fn a_prompt_shows_what_was_typed(input: Seq<char>, theme: ThemeView)
    ensures
        says(shown(prompt_spans(input, theme)), "/"@ + input),
{
    let spans = prompt_spans(input, theme);
    lemma_four(spans[0], spans[1], spans[2], spans[3]);
    assert(spans =~= seq![spans[0], spans[1], spans[2], spans[3]]);
    lemma_says(spans[0].text, "/"@ + input, spans[3].text);
    assert(shown(spans) =~= spans[0].text + ("/"@ + input) + spans[3].text);
}

/// While something is typed, the status line is the prompt for it; else it tells where
/// the reader is.
pub proof fn a_prompt_replaces_the_status_line(app: AppView, shelf: ShelfView, width: u16)
    ensures
        app.mode is Search ==> says(shown(reader_status(app, width)), "/"@ + app.search_input),
        app.mode !is Search ==> says(shown(reader_status(app, width)), reader_left(app)) && says(
            shown(reader_status(app, width)),
            reader_right(app),
        ),
        shelf.mode is Filter ==> says(
            shown(shelf_status(shelf, width, app.theme)),
            "/"@ + shelf.filter_input,
        ),
        shelf.mode !is Filter ==> says(shown(shelf_status(shelf, width, app.theme)), shelf_left(shelf)),
{
    a_prompt_shows_what_was_typed(app.search_input, app.theme);
    a_prompt_shows_what_was_typed(shelf.filter_input, app.theme);
    lemma_both_said(reader_status(app, width));
    lemma_both_said(shelf_status(shelf, width, app.theme));
}

proof fn lemma_both_said(spans: Seq<SpanView>)
    ensures
        spans.len() == 4 ==> says(shown(spans), spans[1].text) && says(shown(spans), spans[3].text),
{
    if spans.len() == 4 {
        let a = spans[0].text;
        let b = spans[1].text;
        let c = spans[2].text;
        let d = spans[3].text;
        lemma_four(spans[0], spans[1], spans[2], spans[3]);
        assert(spans =~= seq![spans[0], spans[1], spans[2], spans[3]]);
        lemma_says(a, b, c + d);
        assert(a + b + (c + d) =~= a + b + c + d);
        lemma_says(a + b + c, d, Seq::empty());
        assert(a + b + c + d + Seq::<char>::empty() =~= a + b + c + d);
    }
}

/// The hit list says how many hits there are, for what, and who found them.
pub proof fn the_hit_list_is_described(
    count: nat,
    query: Seq<char>,
    source: Source,
    width: u16,
    theme: ThemeView,
)
    ensures
        ({
            let left = hits_status(count, query, source, width, theme)[1].text;
            &&& says(left, decimal(count) + " hits for "@ + quoted_text(query))
            &&& source is Index ==> says(left, "qmd index"@)
            &&& source is Direct ==> says(left, "read directly"@)
        }),
{
    let head = decimal(count) + " hits for "@ + quoted_text(query);
    let tail = crate::ui::panel::source_text(source);
    lemma_says(Seq::empty(), head, "  ·  "@ + tail);
    assert(Seq::<char>::empty() + head + ("  ·  "@ + tail) =~= head + "  ·  "@ + tail);
    lemma_says(head + "  ·  "@, tail, Seq::empty());
    assert(head + "  ·  "@ + tail + Seq::<char>::empty() =~= head + "  ·  "@ + tail);
}

} // verus!
