//! The page: the text with its annotations, the margin, and the pictures.

use vstd::prelude::*;
use crate::annotation::{place_of, Annotation, AnnotationView, Color};
use crate::app::report::mark_refs;
use crate::doc::{clipped, RunStyle};
use crate::layout::{Line, LineKind, LineView, Piece, PieceView};
use crate::search::{Hit, Search, SearchView};
use crate::text::{chars_of, copy_text, text_of};
use crate::theme::{Rgb, ThemeView};
use crate::ui::{
    backed, bare, colored, make_spaces, push_span, spaces, span, span_views, Paint, Palette,
    PaletteView, Span, SpanView,
};

verus! {

/// What a single character should look like, before spans are merged.
#[derive(Debug, Clone, Copy, PartialEq, Eq)]
pub struct CellStyle {
    /// Colour of the annotation covering this character, if one does.
    pub mark: Option<Color>,
    pub selected: bool,
    pub at_cursor: bool,
    pub has_note: bool,
    /// Part of a search match, and whether it is the one the reader is on.
    pub match_here: bool,
    pub current_match: bool,
}

fn same_cell(a: &CellStyle, b: &CellStyle) -> (r: bool)
    ensures
        r == (*a == *b),
{
    let same_mark = match (a.mark, b.mark) {
        (Some(x), Some(y)) => x == y,
        (None, None) => true,
        _ => false,
    };
    same_mark && a.selected == b.selected && a.at_cursor == b.at_cursor && a.has_note == b.has_note
        && a.match_here == b.match_here && a.current_match == b.current_match
}

/// What decides how the text looks.
#[derive(Debug)]
pub struct Scene<'a> {
    /// Annotations of the chapter on screen.
    pub marks: Vec<&'a Annotation>,
    pub selection: Option<((usize, usize), (usize, usize))>,
    /// Line and column of the cursor.
    pub cursor: Option<(usize, usize)>,
    pub search: &'a Search,
    pub palette: &'a Palette,
}

#[verifier::ext_equal]
pub struct SceneView {
    pub marks: Seq<AnnotationView>,
    pub selection: Option<((usize, usize), (usize, usize))>,
    pub cursor: Option<(usize, usize)>,
    pub search: SearchView,
    pub palette: PaletteView,
}

impl<'a> Scene<'a> {
    pub open spec fn view(&self) -> SceneView {
        SceneView {
            marks: mark_refs(self.marks@),
            selection: self.selection,
            cursor: self.cursor,
            search: self.search@,
            palette: self.palette@,
        }
    }
}

// ----- one character -----
/// The first annotation, from `i` on, that covers a position.
pub open spec fn mark_over(
    marks: Seq<AnnotationView>,
    block: int,
    offset: int,
    i: int,
) -> Option<int>
    decreases marks.len() - i,
{
    if i < 0 || i >= marks.len() {
        None
    } else if marks[i].covers_at(block, offset) {
        Some(i)
    } else {
        mark_over(marks, block, offset, i + 1)
    }
}

/// The last of the first `n` matches that covers a position. A match spans the
/// length of the query from its start.
pub open spec fn hit_over(hits: Seq<Hit>, length: int, block: int, offset: int, n: int) -> Option<Hit>
    decreases n,
{
    if n <= 0 || n > hits.len() {
        None
    } else if hits[n - 1].0 == block && hits[n - 1].1 <= offset < hits[n - 1].1 + length {
        Some(hits[n - 1])
    } else {
        hit_over(hits, length, block, offset, n - 1)
    }
}

/// A position is at or before another.
pub open spec fn not_past(block: int, offset: int, other: (usize, usize)) -> bool {
    block < other.0 || (block == other.0 && offset <= other.1)
}

/// A position is at or behind another.
pub open spec fn not_before(block: int, offset: int, other: (usize, usize)) -> bool {
    block > other.0 || (block == other.0 && offset >= other.1)
}

/// What the character at a position looks like.
pub open spec fn cell_at(
    scene: SceneView,
    block: int,
    offset: int,
    line: int,
    column: int,
) -> CellStyle {
    let mark = mark_over(scene.marks, block, offset, 0);
    let hit = hit_over(
        scene.search.hits,
        scene.search.query.len() as int,
        block,
        offset,
        scene.search.hits.len() as int,
    );
    CellStyle {
        mark: match mark {
            Some(i) => Some(scene.marks[i].color),
            None => None,
        },
        selected: match scene.selection {
            Some((start, end)) => not_before(block, offset, start) && not_past(block, offset, end),
            None => false,
        },
        at_cursor: match scene.cursor {
            Some(c) => c.0 == line && c.1 == column,
            None => false,
        },
        has_note: match mark {
            Some(i) => scene.marks[i].noted(),
            None => false,
        },
        match_here: hit is Some,
        current_match: hit is Some && scene.search.hit() == hit,
    }
}

fn find_mark(marks: &Vec<&Annotation>, block: usize, offset: usize) -> (r: Option<usize>)
    ensures
        match mark_over(mark_refs(marks@), block as int, offset as int, 0) {
            Some(i) => r is Some && r->0 == i && i < marks@.len(),
            None => r is None,
        },
{
    let ghost all = mark_refs(marks@);
    let mut i: usize = 0;
    while i < marks.len()
        invariant
            i <= marks@.len(),
            all == mark_refs(marks@),
            all.len() == marks@.len(),
            mark_over(all, block as int, offset as int, 0) == mark_over(
                all,
                block as int,
                offset as int,
                i as int,
            ),
        decreases marks@.len() - i,
    {
        assert(all[i as int] == marks@[i as int]@);
        if marks[i].covers(block, offset) {
            return Some(i);
        }
        i += 1;
    }
    None
}

fn find_hit(search: &Search, block: usize, offset: usize) -> (r: Option<Hit>)
    ensures
        r == hit_over(
            search@.hits,
            search@.query.len() as int,
            block as int,
            offset as int,
            search@.hits.len() as int,
        ),
{
    let length = search.len();
    let hits = search.hits();
    let mut n: usize = hits.len();
    while n > 0
        invariant
            n <= hits@.len(),
            hits@ == search@.hits,
            length == search@.query.len(),
            hit_over(hits@, length as int, block as int, offset as int, hits@.len() as int)
                == hit_over(hits@, length as int, block as int, offset as int, n as int),
        decreases n,
    {
        let hit = hits[n - 1];
        if hit.0 == block && hit.1 <= offset && offset - hit.1 < length {
            return Some(hit);
        }
        n -= 1;
    }
    None
}

pub fn cell_style_at(scene: &Scene, block: usize, offset: usize, line: usize, column: usize) -> (r:
    CellStyle)
    ensures
        r == cell_at(scene.view(), block as int, offset as int, line as int, column as int),
{
    let found = find_mark(&scene.marks, block, offset);
    let (mark, has_note) = match found {
        Some(i) => {
            assert(mark_refs(scene.marks@)[i as int] == scene.marks@[i as int]@);
            (Some(scene.marks[i].color), scene.marks[i].has_note())
        },
        None => (None, false),
    };
    let selected = match scene.selection {
        Some((start, end)) => (block > start.0 || (block == start.0 && offset >= start.1)) && (block
            < end.0 || (block == end.0 && offset <= end.1)),
        None => false,
    };
    let at_cursor = match scene.cursor {
        Some(c) => c.0 == line && c.1 == column,
        None => false,
    };
    let hit = find_hit(scene.search, block, offset);
    let current_match = match hit {
        Some(h) => scene.search.is_current(h.0, h.1),
        None => false,
    };
    CellStyle { mark, selected, at_cursor, has_note, match_here: hit.is_some(), current_match }
}

/// How text is painted before anything lies on it.
pub open spec fn base(style: RunStyle, kind: LineKind, theme: ThemeView) -> Paint {
    let p = Paint {
        bold: style.bold,
        italic: style.italic,
        underlined: style.link,
        fg: if style.code {
            Some(theme.code_foreground)
        } else {
            None
        },
        ..bare()
    };
    match kind {
        LineKind::Heading(level) => if level == 1 || level == 2 {
            Paint { bold: true, fg: Some(theme.accent), ..p }
        } else {
            Paint { fg: Some(theme.accent), ..p }
        },
        LineKind::Quote => Paint { fg: Some(theme.quote), italic: true, ..p },
        // A listing is set apart by a background of its own rather than by
        // colour alone, so it reads as one block even where lines are short.
        LineKind::Code => Paint {
            fg: Some(theme.code_foreground),
            bg: Some(theme.code_background),
            ..p
        },
        LineKind::Image { .. } => Paint { fg: Some(theme.muted), italic: true, ..p },
        _ => p,
    }
}

pub fn base_style(style: RunStyle, kind: LineKind, palette: &Palette) -> (r: Paint)
    ensures
        r == base(style, kind, palette@.theme),
{
    let theme = &palette.theme;
    let mut p = Paint::plain();
    p.bold = style.bold;
    p.italic = style.italic;
    p.underlined = style.link;
    if style.code {
        p.fg = Some(theme.code_foreground);
    }
    match kind {
        LineKind::Heading(level) => {
            if level == 1 || level == 2 {
                p.bold = true;
            }
            p.fg = Some(theme.accent);
        },
        LineKind::Quote => {
            p.fg = Some(theme.quote);
            p.italic = true;
        },
        LineKind::Code => {
            p.fg = Some(theme.code_foreground);
            p.bg = Some(theme.code_background);
        },
        LineKind::Image { .. } => {
            p.fg = Some(theme.muted);
            p.italic = true;
        },
        _ => {},
    }
    p
}

/// How an annotation marks a passage. The comment decides, not how the annotation
/// came about: one that carries text is inverted, one that only colours the
/// passage gets the colour, so the two never look alike.
pub open spec fn marked(p: Paint, cell: CellStyle, palette: PaletteView) -> Paint {
    match cell.mark {
        Some(color) => {
            let c = palette.theme.marks[place_of(color)];
            if cell.has_note {
                // Inverting uses the terminal's own colours, so it reads in any
                // theme. The colour stays visible as the underline.
                Paint { reversed: true, underlined: true, underline: Some(c), ..p }
            } else {
                // A terminal has no transparency, so both colours are set.
                Paint { bg: Some(c), fg: Some(palette.on_marks[place_of(color)]), ..p }
            }
        },
        None => p,
    }
}

/// How text is painted with everything that lies on it. A match outranks a
/// highlight: it is what the reader is looking for right now, while a highlight
/// is a standing note.
pub open spec fn painted(p: Paint, cell: CellStyle, palette: PaletteView) -> Paint {
    let p = marked(p, cell, palette);
    let p = if cell.match_here {
        let m = Paint { bg: Some(palette.theme.accent), fg: Some(palette.on_accent), ..p };
        if cell.current_match {
            Paint { bold: true, underlined: true, ..m }
        } else {
            m
        }
    } else {
        p
    };
    let p = if cell.selected {
        Paint { reversed: true, ..p }
    } else {
        p
    };
    if cell.at_cursor {
        Paint { reversed: true, bold: true, ..p }
    } else {
        p
    }
}

pub fn cell_paint(base: Paint, cell: CellStyle, palette: &Palette) -> (r: Paint)
    ensures
        r == painted(base, cell, palette@),
{
    let mut p = base;
    if let Some(color) = cell.mark {
        let i = color.index();
        let c = palette.theme.marks[i];
        if cell.has_note {
            p.reversed = true;
            p.underlined = true;
            p.underline = Some(c);
        } else {
            p.bg = Some(c);
            p.fg = Some(palette.on_marks[i]);
        }
    }
    if cell.match_here {
        p.bg = Some(palette.theme.accent);
        p.fg = Some(palette.on_accent);
        if cell.current_match {
            p.bold = true;
            p.underlined = true;
        }
    }
    if cell.selected {
        p.reversed = true;
    }
    if cell.at_cursor {
        p.reversed = true;
        p.bold = true;
    }
    p
}

// ----- one line -----
/// What the `k`th character of a piece looks like. `column` is where the piece
/// starts among the line's text.
pub open spec fn piece_cell(
    scene: SceneView,
    line: LineView,
    index: int,
    column: int,
    k: int,
) -> CellStyle {
    cell_at(scene, line.block, clipped(line.offset + clipped(column + k)), index, clipped(column + k))
}

/// The first `n` characters of a piece, split wherever a highlight, the selection
/// or the cursor starts or ends.
pub open spec fn piece_spans(
    scene: SceneView,
    line: LineView,
    index: int,
    column: int,
    piece: PieceView,
    n: nat,
) -> Seq<SpanView>
    decreases n,
{
    if n == 0 {
        Seq::empty()
    } else {
        let front = piece_spans(scene, line, index, column, piece, (n - 1) as nat);
        let cell = piece_cell(scene, line, index, column, n - 1);
        let c = piece.text[n - 1];
        if n >= 2 && piece_cell(scene, line, index, column, n - 2) == cell {
            front.drop_last().push(span(front.last().text.push(c), front.last().paint))
        } else {
            front.push(
                span(
                    seq![c],
                    painted(base(piece.style, line.kind, scene.palette.theme), cell, scene.palette),
                ),
            )
        }
    }
}

/// How many characters of the book the first `n` pieces hold.
pub open spec fn columns_before(pieces: Seq<PieceView>, n: nat) -> int
    decreases n,
{
    if n == 0 {
        0
    } else if pieces[n - 1].decoration {
        columns_before(pieces, (n - 1) as nat)
    } else {
        clipped(columns_before(pieces, (n - 1) as nat) + pieces[n - 1].text.len())
    }
}

/// The first `n` pieces. Only real block text counts, so decoration never shifts
/// an offset.
pub open spec fn pieces_spans(scene: SceneView, line: LineView, index: int, n: nat) -> Seq<SpanView>
    decreases n,
{
    if n == 0 {
        Seq::empty()
    } else {
        let front = pieces_spans(scene, line, index, (n - 1) as nat);
        let piece = line.pieces[n - 1];
        if piece.decoration {
            front.push(span(piece.text, base(piece.style, line.kind, scene.palette.theme)))
        } else {
            front + piece_spans(
                scene,
                line,
                index,
                columns_before(line.pieces, (n - 1) as nat),
                piece,
                piece.text.len(),
            )
        }
    }
}

/// A comment: every piece in its annotation's colour.
pub open spec fn note_spans(pieces: Seq<PieceView>, color: Rgb) -> Seq<SpanView> {
    pieces.map_values(|p: PieceView| span(p.text, Paint { italic: true, ..colored(color) }))
}

/// How many characters some spans show.
pub open spec fn shown_width(spans: Seq<SpanView>) -> nat
    decreases spans.len(),
{
    if spans.len() == 0 {
        0
    } else {
        shown_width(spans.drop_last()) + spans.last().text.len()
    }
}

/// The room in front of a line. A listing's backdrop covers it as well, so the
/// block has a clean left edge.
pub open spec fn indent_spans(line: LineView, theme: ThemeView) -> Seq<SpanView> {
    if line.indent <= 0 {
        Seq::empty()
    } else if line.kind is Code {
        seq![span(spaces(line.indent as nat), backed(theme.code_background))]
    } else {
        seq![span(spaces(line.indent as nat), bare())]
    }
}

/// A line with its backdrop run to the right edge, so that a listing is a
/// rectangle rather than a ragged shape that follows the text.
pub open spec fn filled(spans: Seq<SpanView>, width: u16, theme: ThemeView) -> Seq<SpanView> {
    if shown_width(spans) < width {
        spans.push(
            span(spaces((width - shown_width(spans)) as nat), backed(theme.code_background)),
        )
    } else {
        spans
    }
}

/// A line as it is shown.
pub open spec fn rendered(scene: SceneView, line: LineView, index: int, width: u16) -> Seq<SpanView> {
    let theme = scene.palette.theme;
    let indent = indent_spans(line, theme);
    let text = pieces_spans(scene, line, index, line.pieces.len());
    match line.kind {
        LineKind::Blank => Seq::empty(),
        LineKind::Rule => indent.push(span("* * *"@, colored(theme.muted))),
        LineKind::Note { color } => indent + note_spans(line.pieces, color),
        LineKind::Quote => indent.push(span("▏ "@, colored(theme.muted))) + text,
        LineKind::Code => filled(indent + text, width, theme),
        _ => indent + text,
    }
}

fn further(a: usize, b: usize) -> (r: usize)
    ensures
        r == clipped(a + b),
{
    match a.checked_add(b) {
        Some(n) => n,
        None => usize::MAX,
    }
}

fn push_piece(
    out: &mut Vec<Span>,
    scene: &Scene,
    line: &Line,
    index: usize,
    column: usize,
    piece: &Piece,
)
    ensures
        span_views(final(out)@) == span_views(old(out)@) + piece_spans(
            scene.view(),
            line@,
            index as int,
            column as int,
            piece@,
            piece@.text.len(),
        ),
{
    let ghost before = span_views(out@);
    let ghost s = scene.view();
    let paint = base_style(piece.style, line.kind, scene.palette);
    let text = chars_of(&piece.text);
    let mut run: Vec<char> = Vec::new();
    let mut cell = CellStyle {
        mark: None,
        selected: false,
        at_cursor: false,
        has_note: false,
        match_here: false,
        current_match: false,
    };
    let mut k: usize = 0;
    assert(before + piece_spans(s, line@, index as int, column as int, piece@, 0) =~= before);
    // The spans so far, the last of them still being gathered in `run`.
    while k < text.len()
        invariant
            k <= text@.len(),
            text@ == piece@.text,
            s == scene.view(),
            paint == base(piece@.style, line@.kind, s.palette.theme),
            k == 0 ==> run@.len() == 0 && span_views(out@) == before,
            k > 0 ==> cell == piece_cell(s, line@, index as int, column as int, k - 1)
                && span_views(out@).push(span(run@, painted(paint, cell, s.palette))) == before
                + piece_spans(s, line@, index as int, column as int, piece@, k as nat),
        decreases text@.len() - k,
    {
        let at = further(column, k);
        let here = cell_style_at(scene, line.block, further(line.offset, at), index, at);
        let ghost old_spans = piece_spans(
            s,
            line@,
            index as int,
            column as int,
            piece@,
            k as nat,
        );
        let ghost gathered = span_views(out@);
        let ghost new_spans = piece_spans(
            s,
            line@,
            index as int,
            column as int,
            piece@,
            (k + 1) as nat,
        );
        if k > 0 && same_cell(&here, &cell) {
            let ghost had = run@;
            run.push(text[k]);
            proof {
                let last = span(had, painted(paint, cell, s.palette));
                let whole = gathered.push(last);
                assert(whole == before + old_spans);
                lemma_piece_has_a_span(s, line@, index as int, column as int, piece@, k as nat);
                assert((before + old_spans).last() == old_spans.last());
                assert((before + old_spans).drop_last() =~= before + old_spans.drop_last());
                assert(whole.drop_last() =~= gathered);
                assert(new_spans == old_spans.drop_last().push(
                    span(old_spans.last().text.push(text@[k as int]), old_spans.last().paint),
                ));
                assert(gathered.push(span(run@, last.paint)) =~= before + new_spans);
            }
        } else {
            if k > 0 {
                let done = text_of(&run);
                push_span(out, &done, cell_paint(paint, cell, scene.palette));
            }
            run = Vec::new();
            run.push(text[k]);
            cell = here;
            proof {
                assert(run@ =~= seq![text@[k as int]]);
                assert(new_spans == old_spans.push(span(run@, painted(paint, here, s.palette))));
                if k > 0 {
                    assert(span_views(out@) == before + old_spans);
                } else {
                    assert(old_spans =~= Seq::<SpanView>::empty());
                }
                assert(span_views(out@).push(span(run@, painted(paint, cell, s.palette))) =~= before
                    + new_spans);
            }
        }
        k += 1;
    }
    if text.len() > 0 {
        let done = text_of(&run);
        push_span(out, &done, cell_paint(paint, cell, scene.palette));
    }
}

proof fn lemma_piece_has_a_span(
    scene: SceneView,
    line: LineView,
    index: int,
    column: int,
    piece: PieceView,
    n: nat,
)
    requires
        n > 0,
    ensures
        piece_spans(scene, line, index, column, piece, n).len() > 0,
    decreases n,
{
}

fn push_pieces(out: &mut Vec<Span>, scene: &Scene, line: &Line, index: usize)
    ensures
        span_views(final(out)@) == span_views(old(out)@) + pieces_spans(
            scene.view(),
            line@,
            index as int,
            line@.pieces.len(),
        ),
{
    let ghost before = span_views(out@);
    let ghost s = scene.view();
    let ghost pieces = line@.pieces;
    let mut column: usize = 0;
    let mut i: usize = 0;
    assert(before + pieces_spans(s, line@, index as int, 0) =~= before);
    while i < line.pieces.len()
        invariant
            i <= line.pieces@.len(),
            s == scene.view(),
            pieces == line@.pieces,
            pieces.len() == line.pieces@.len(),
            column == columns_before(pieces, i as nat),
            span_views(out@) == before + pieces_spans(s, line@, index as int, i as nat),
        decreases line.pieces@.len() - i,
    {
        let piece = &line.pieces[i];
        assert(pieces[i as int] == piece@);
        let ghost had = pieces_spans(s, line@, index as int, i as nat);
        let ghost now = pieces_spans(s, line@, index as int, (i + 1) as nat);
        if piece.decoration {
            let paint = base_style(piece.style, line.kind, scene.palette);
            push_span(out, &piece.text, paint);
            assert(now == had.push(span(piece@.text, paint)));
            assert(span_views(out@) =~= before + now);
        } else {
            push_piece(out, scene, line, index, column, piece);
            let text = chars_of(&piece.text);
            assert(now == had + piece_spans(
                s,
                line@,
                index as int,
                column as int,
                piece@,
                piece@.text.len(),
            ));
            assert(span_views(out@) =~= before + now);
            column = further(column, text.len());
        }
        i += 1;
    }
}

fn push_note(out: &mut Vec<Span>, line: &Line, color: Rgb)
    ensures
        span_views(final(out)@) == span_views(old(out)@) + note_spans(line@.pieces, color),
{
    let ghost before = span_views(out@);
    let ghost pieces = line@.pieces;
    let mut paint = Paint::in_color(color);
    paint.italic = true;
    let mut i: usize = 0;
    assert(before + note_spans(pieces.take(0), color) =~= before);
    while i < line.pieces.len()
        invariant
            i <= line.pieces@.len(),
            pieces == line@.pieces,
            pieces.len() == line.pieces@.len(),
            paint == (Paint { italic: true, ..colored(color) }),
            span_views(out@) == before + note_spans(pieces.take(i as int), color),
        decreases line.pieces@.len() - i,
    {
        assert(pieces[i as int] == line.pieces@[i as int]@);
        push_span(out, &line.pieces[i].text, paint);
        i += 1;
        assert(span_views(out@) =~= before + note_spans(pieces.take(i as int), color));
    }
    assert(pieces.take(pieces.len() as int) =~= pieces);
}

fn count_chars(spans: &Vec<Span>, limit: usize) -> (r: usize)
    ensures
        shown_width(span_views(spans@)) < limit ==> r == shown_width(span_views(spans@)),
        shown_width(span_views(spans@)) >= limit ==> r >= limit,
{
    let ghost views = span_views(spans@);
    let mut total: usize = 0;
    let mut i: usize = 0;
    assert(views.take(0) =~= Seq::<SpanView>::empty());
    while i < spans.len()
        invariant
            i <= spans@.len(),
            views == span_views(spans@),
            views.len() == spans@.len(),
            total == clipped(shown_width(views.take(i as int)) as int),
        decreases spans@.len() - i,
    {
        assert(views.take(i + 1).drop_last() =~= views.take(i as int));
        assert(views.take(i + 1).last() == spans@[i as int]@);
        let text = chars_of(&spans[i].text);
        total = further(total, text.len());
        i += 1;
    }
    assert(views.take(views.len() as int) =~= views);
    total
}

/// Renders a line of the layout as it is shown at `index`.
pub fn render_line(scene: &Scene, line: &Line, index: usize, width: u16) -> (r: Vec<Span>)
    ensures
        span_views(r@) == rendered(scene.view(), line@, index as int, width),
{
    let theme = &scene.palette.theme;
    let ghost s = scene.view();
    let mut out: Vec<Span> = Vec::new();
    assert(span_views(out@) =~= Seq::<SpanView>::empty());
    if let LineKind::Blank = line.kind {
        return out;
    }
    if line.indent > 0 {
        let room = make_spaces(line.indent as usize);
        let paint = match line.kind {
            LineKind::Code => Paint::on_color(theme.code_background),
            _ => Paint::plain(),
        };
        push_span(&mut out, &room, paint);
    }
    assert(span_views(out@) =~= indent_spans(line@, s.palette.theme));
    match line.kind {
        LineKind::Rule => {
            push_span(&mut out, "* * *", Paint::in_color(theme.muted));
            return out;
        },
        // A comment is not book text: it is painted in its annotation's colour
        // so the two belong together at a glance.
        LineKind::Note { color } => {
            push_note(&mut out, line, color);
            return out;
        },
        LineKind::Quote => push_span(&mut out, "▏ ", Paint::in_color(theme.muted)),
        _ => {},
    }
    push_pieces(&mut out, scene, line, index);
    if let LineKind::Code = line.kind {
        let used = count_chars(&out, width as usize);
        if used < width as usize {
            let room = make_spaces(width as usize - used);
            push_span(&mut out, &room, Paint::on_color(theme.code_background));
        }
    }
    out
}

// ----- the margin -----
/// Whether an annotation covers any of a line's text, from column `from` on. A
/// line without text counts as one column.
pub open spec fn touches(mark: AnnotationView, line: LineView, from: int) -> bool {
    exists|column: int|
        from <= column && (column < line.shown().len() || column == 0)
            && #[trigger] mark.covers_at(line.block, line.offset + column)
}

/// The first annotation, from `i` on, that covers any of a line.
pub open spec fn mark_on(marks: Seq<AnnotationView>, line: LineView, i: int) -> Option<int>
    decreases marks.len() - i,
{
    if i < 0 || i >= marks.len() {
        None
    } else if touches(marks[i], line, 0) {
        Some(i)
    } else {
        mark_on(marks, line, i + 1)
    }
}

/// The mark that stands for an annotation, wherever one is shown. A commented
/// annotation is inverted rather than coloured, so mark and passage always match.
pub open spec fn marker(color: Rgb, has_note: bool, glyph: Seq<char>) -> SpanView {
    if has_note {
        span(
            spaces(glyph.len()),
            Paint { reversed: true, underline: Some(color), ..bare() },
        )
    } else {
        span(glyph, colored(color))
    }
}

/// The mark that stands for an annotation. Inverting a blank fills the cell with
/// the terminal's own text colour, which reads in any theme.
pub fn mark_span(color: Rgb, has_note: bool, glyph: &str) -> (r: Span)
    ensures
        r@ == marker(color, has_note, glyph@),
{
    if has_note {
        let v = chars_of(glyph);
        let mut paint = Paint::plain();
        paint.reversed = true;
        paint.underline = Some(color);
        Span { text: make_spaces(v.len()), paint }
    } else {
        Span { text: copy_text(glyph), paint: Paint::in_color(color) }
    }
}

fn is_touched(mark: &Annotation, line: &Line) -> (r: bool)
    ensures
        r == touches(mark@, line@, 0),
{
    let len = line.text_len();
    let last = if len == 0 {
        1
    } else {
        len
    };
    let ghost shown = line@.shown().len();
    let mut column: usize = 0;
    while column < last
        invariant
            column <= last,
            shown == line@.shown().len(),
            last == (if clipped(shown as int) == 0 {
                1
            } else {
                clipped(shown as int)
            }),
            forall|c: int|
                0 <= c < column ==> !#[trigger] mark@.covers_at(line@.block, line@.offset + c),
        decreases last - column,
    {
        match line.offset.checked_add(column) {
            Some(at) => {
                if mark.covers(line.block, at) {
                    assert(mark@.covers_at(line@.block, line@.offset + column));
                    return true;
                }
            },
            None => {
                assert(!mark@.covers_at(line@.block, line@.offset + column));
            },
        }
        column += 1;
    }
    proof {
        assert forall|c: int|
            0 <= c && (c < shown || c == 0) implies !#[trigger] mark@.covers_at(
            line@.block,
            line@.offset + c,
        ) by {
            if c >= last {
                assert(c >= usize::MAX);
            }
        }
    }
    false
}

/// The mark in the margin of a line.
pub open spec fn margin_mark(scene: SceneView, line: LineView) -> SpanView {
    match mark_on(scene.marks, line, 0) {
        Some(i) => marker(
            scene.palette.theme.marks[place_of(scene.marks[i].color)],
            scene.marks[i].noted(),
            "▌"@,
        ),
        None => span(" "@, bare()),
    }
}

/// One mark per line that carries an annotation, in the same visual language as
/// the passage itself: coloured for a plain highlight, inverted once a comment is
/// attached.
pub fn gutter_mark(scene: &Scene, line: &Line) -> (r: Span)
    ensures
        r@ == margin_mark(scene.view(), line@),
{
    let ghost all = mark_refs(scene.marks@);
    let mut i: usize = 0;
    while i < scene.marks.len()
        invariant
            i <= scene.marks@.len(),
            all == mark_refs(scene.marks@),
            all.len() == scene.marks@.len(),
            mark_on(all, line@, 0) == mark_on(all, line@, i as int),
        decreases scene.marks@.len() - i,
    {
        let mark = scene.marks[i];
        assert(all[i as int] == mark@);
        if is_touched(mark, line) {
            let color = scene.palette.theme.marks[mark.color.index()];
            return mark_span(color, mark.has_note(), "▌");
        }
        i += 1;
    }
    Span { text: copy_text(" "), paint: Paint::plain() }
}

// ----- pictures -----
/// One cell of a picture: the upper half block shows the upper pixel, the
/// background the lower one.
#[derive(Debug, Clone, Copy, PartialEq, Eq)]
pub struct Cell {
    pub upper: Rgb,
    pub lower: Rgb,
}

fn equal_cells(a: Cell, b: Cell) -> (r: bool)
    ensures
        r == (a == b),
{
    a.upper.0 == b.upper.0 && a.upper.1 == b.upper.1 && a.upper.2 == b.upper.2 && a.lower.0
        == b.lower.0 && a.lower.1 == b.lower.1 && a.lower.2 == b.lower.2
}

pub open spec fn half_blocks(n: nat) -> Seq<char> {
    crate::export::markdown::repeated("▀"@, n)
}

pub open spec fn cell_span(cell: Cell, n: nat) -> SpanView {
    span(half_blocks(n), Paint { fg: Some(cell.upper), bg: Some(cell.lower), ..bare() })
}

/// How many of the first `n` cells, from their end, are the same.
pub open spec fn tail_run(cells: Seq<Cell>, n: int) -> int
    decreases n,
{
    if n <= 0 || n > cells.len() {
        0
    } else if n >= 2 && cells[n - 2] == cells[n - 1] {
        tail_run(cells, n - 1) + 1
    } else {
        1
    }
}

/// The first `n` cells, with neighbours of the same colours merged. That keeps
/// the escape sequences short on the flat areas most illustrations have.
pub open spec fn cell_runs(cells: Seq<Cell>, n: int) -> Seq<SpanView>
    decreases n,
{
    if n <= 0 || n > cells.len() {
        Seq::empty()
    } else {
        let run = tail_run(cells, n);
        cell_runs(cells, n - 1).take(
            if run > 1 {
                cell_runs(cells, n - 1).len() - 1
            } else {
                cell_runs(cells, n - 1).len() as int
            },
        ).push(cell_span(cells[n - 1], run as nat))
    }
}

/// One row of a picture.
pub open spec fn picture_row(cells: Seq<Cell>, indent: u16) -> Seq<SpanView> {
    let left = if indent > 0 {
        seq![span(spaces(indent as nat), bare())]
    } else {
        Seq::empty()
    };
    left + cell_runs(cells, cells.len() as int)
}

fn half_block(cell: Cell, n: usize) -> (r: Span)
    ensures
        r@ == cell_span(cell, n as nat),
{
    let mut text: Vec<char> = Vec::new();
    let mut i: usize = 0;
    while i < n
        invariant
            i <= n,
            text@ == half_blocks(i as nat),
        decreases n - i,
    {
        crate::text::push_text(&mut text, "▀");
        i += 1;
        assert(text@ =~= half_blocks(i as nat));
    }
    let mut paint = Paint::plain();
    paint.fg = Some(cell.upper);
    paint.bg = Some(cell.lower);
    Span { text: text_of(&text), paint }
}

proof fn lemma_cell_runs(cells: Seq<Cell>, n: int)
    requires
        0 < n <= cells.len(),
    ensures
        1 <= tail_run(cells, n) <= n,
        cell_runs(cells, n).len() > 0,
        cell_runs(cells, n).last() == cell_span(cells[n - 1], tail_run(cells, n) as nat),
        tail_run(cells, n) > 1 ==> cell_runs(cells, n).drop_last() == cell_runs(
            cells,
            n - 1,
        ).drop_last(),
        tail_run(cells, n) == 1 ==> cell_runs(cells, n).drop_last() == cell_runs(cells, n - 1),
    decreases n,
{
    if n >= 2 {
        lemma_cell_runs(cells, n - 1);
    }
    let before = cell_runs(cells, n - 1);
    let run = tail_run(cells, n);
    let r = cell_runs(cells, n);
    if run > 1 {
        assert(before.take(before.len() - 1) =~= before.drop_last());
        assert(r.drop_last() =~= before.drop_last());
    } else {
        assert(before.take(before.len() as int) =~= before);
        assert(r.drop_last() =~= before);
    }
}

/// Paints one row of a picture. Each cell shows the upper half block, with the
/// foreground carrying the upper pixel and the background the lower one.
pub fn image_row(cells: &Vec<Cell>, indent: u16) -> (r: Vec<Span>)
    ensures
        span_views(r@) == picture_row(cells@, indent),
{
    let mut out: Vec<Span> = Vec::new();
    assert(span_views(out@) =~= Seq::<SpanView>::empty());
    if indent > 0 {
        let room = make_spaces(indent as usize);
        push_span(&mut out, &room, Paint::plain());
    }
    let ghost left = span_views(out@);
    let mut run: usize = 0;
    let mut i: usize = 0;
    while i < cells.len()
        invariant
            i <= cells@.len(),
            i == 0 ==> run == 0 && span_views(out@) == left,
            i > 0 ==> run == tail_run(cells@, i as int) && 1 <= run <= i && span_views(out@) == left
                + cell_runs(cells@, i as int).drop_last(),
        decreases cells@.len() - i,
    {
        let ghost had = cell_runs(cells@, i as int);
        proof {
            lemma_cell_runs(cells@, i + 1);
            if i > 0 {
                lemma_cell_runs(cells@, i as int);
            }
        }
        if i > 0 && equal_cells(cells[i - 1], cells[i]) {
            run += 1;
        } else {
            if i > 0 {
                let done = half_block(cells[i - 1], run);
                let ghost before = out@;
                out.push(done);
                assert(span_views(out@) =~= span_views(before).push(done@));
                assert(span_views(out@) =~= left + had) by {
                    assert(had.drop_last().push(had.last()) =~= had);
                }
            } else {
                assert(had =~= Seq::<SpanView>::empty());
                assert(left + had =~= left);
            }
            run = 1;
        }
        i += 1;
    }
    let total = cells.len();
    let ghost all = cell_runs(cells@, total as int);
    if total > 0 {
        proof {
            lemma_cell_runs(cells@, total as int);
        }
        let done = half_block(cells[total - 1], run);
        let ghost before = out@;
        out.push(done);
        assert(span_views(out@) =~= span_views(before).push(done@));
        assert(all.drop_last().push(all.last()) =~= all);
        assert(span_views(out@) =~= left + all);
    } else {
        assert(left + all =~= left);
    }
    assert(left =~= (if indent > 0 {
        seq![span(spaces(indent as nat), bare())]
    } else {
        Seq::<SpanView>::empty()
    }));
    out
}

} // verus!
