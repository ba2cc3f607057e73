//! Status lines, lists and overlays.

use vstd::prelude::*;
use crate::annotation::{name_of, place_of, Annotation, AnnotationView};
use crate::app::report::{marks_in, mark_refs};
use crate::app::{App, AppView, Mode};
use crate::epub::entry_title;
use crate::find::{hit_views, squeeze, squeezed, Hit, HitView, Results, Source};
use crate::journal::Moment;
use crate::layout::{line_views, Line, LineKind, LineView};
use crate::library::{order_label, Entry, EntryView, Order};
use crate::shelf::{Shelf, ShelfView};
use crate::text::{
    chars_of, copy_text, decimal, decimal_of, push_chars, push_text, quote_text, quoted_text,
    sub_chars, text_of,
};
use crate::theme::{Theme, ThemeView};
use crate::ui::{
    at_most, bare, colored, left_of, make_spaces, push_span, spaces, span, span_views, Area, Paint,
    Span, SpanView, SIDE_MARGIN,
};
use crate::ui::page::{mark_span, marker};

verus! {

// ----- texts that fit -----
/// A text on one line, cut to a width.
pub open spec fn shortened(text: Seq<char>, width: int) -> Seq<char> {
    let s = squeezed(text);
    if s.len() <= width {
        s
    } else {
        s.take(left_of(width, 1)).push('…')
    }
}

pub fn shorten(text: &str, width: usize) -> (r: String)
    ensures
        r@ == shortened(text@, width as int),
{
    let v = chars_of(text);
    let s = squeeze(&v);
    if s.len() <= width {
        return text_of(&s);
    }
    let keep = if width < 1 {
        0
    } else {
        width - 1
    };
    let mut out = sub_chars(&s, 0, keep);
    assert(s@.subrange(0, keep as int) =~= s@.take(keep as int));
    out.push('…');
    text_of(&out)
}

/// A text cut or filled up to a width.
pub open spec fn padded(text: Seq<char>, width: int) -> Seq<char> {
    if text.len() > width {
        text.take(left_of(width, 1)).push('…')
    } else {
        text + spaces((width - text.len()) as nat)
    }
}

/// Cuts or pads a value to a fixed width, so the columns line up.
pub fn pad(text: &str, width: usize) -> (r: String)
    ensures
        r@ == padded(text@, width as int),
{
    let v = chars_of(text);
    if v.len() > width {
        let keep = if width < 1 {
            0
        } else {
            width - 1
        };
        let mut out = sub_chars(&v, 0, keep);
        assert(v@.subrange(0, keep as int) =~= v@.take(keep as int));
        out.push('…');
        return text_of(&out);
    }
    let room = make_spaces(width - v.len());
    let mut out = v;
    push_text(&mut out, &room);
    text_of(&out)
}

/// A value fills its column exactly, wherever the column has any room.
pub proof fn columns_line_up(text: Seq<char>, width: int)
    requires
        width >= 1,
    ensures
        padded(text, width).len() == width,
{
    if text.len() <= width {
        lemma_spaces((width - text.len()) as nat);
    }
}

proof fn lemma_spaces(n: nat)
    ensures
        spaces(n).len() == n,
    decreases n,
{
    reveal_strlit(" ");
    if n > 0 {
        lemma_spaces((n - 1) as nat);
    }
}

/// The quotient, rounded towards zero.
pub open spec fn towards_zero(a: int, b: int) -> int {
    if a >= 0 {
        a / b
    } else {
        -((-a) / b)
    }
}

/// Whole seconds from one moment to another.
pub open spec fn seconds_between(at: Moment, now: Moment) -> int {
    towards_zero(
        (now.seconds - at.seconds) * 1_000_000_000 + (now.nanos - at.nanos),
        1_000_000_000,
    )
}

/// How long ago a moment was, in a form that fits a narrow column.
pub open spec fn ago(at: Moment, now: Moment) -> Seq<char> {
    let seconds = seconds_between(at, now);
    let days = towards_zero(seconds, 86400);
    if days < 0 {
        "just now"@
    } else if days == 0 {
        let hours = towards_zero(seconds, 3600);
        if hours < 1 {
            let minutes = towards_zero(seconds, 60);
            decimal(
                (if minutes < 1 {
                    1
                } else {
                    minutes
                }) as nat,
            ) + " min ago"@
        } else {
            decimal(hours as nat) + " h ago"@
        }
    } else if days == 1 {
        "yesterday"@
    } else if days < 30 {
        decimal(days as nat) + " days ago"@
    } else if days < 365 {
        decimal((days / 30) as nat) + " months ago"@
    } else {
        decimal((days / 365) as nat) + " years ago"@
    }
}

fn said(n: u64, what: &str) -> (r: String)
    ensures
        r@ == decimal(n as nat) + what@,
{
    let mut out: Vec<char> = decimal_of(n);
    push_text(&mut out, what);
    text_of(&out)
}

fn rounded(a: i128, b: i128) -> (r: i128)
    requires
        b > 1,
        -0x1_0000_0000_0000_0000_0000_0000 <= a <= 0x1_0000_0000_0000_0000_0000_0000,
    ensures
        r == towards_zero(a as int, b as int),
        -0x1_0000_0000_0000_0000_0000_0000 <= r <= 0x1_0000_0000_0000_0000_0000_0000,
{
    if a >= 0 {
        let r = a / b;
        assert(0 <= a as int / (b as int) <= a) by (nonlinear_arith)
            requires
                a >= 0,
                b > 1,
        ;
        r
    } else {
        let n = -a;
        let r = n / b;
        assert(0 <= n as int / (b as int) <= n) by (nonlinear_arith)
            requires
                n >= 0,
                b > 1,
        ;
        -r
    }
}

/// How long ago something happened, in a form that fits a narrow column.
pub fn when(at: Moment, now: Moment) -> (r: String)
    ensures
        r@ == ago(at, now),
{
    let span: i128 = (now.seconds as i128 - at.seconds as i128) * 1_000_000_000 + (now.nanos as i128
        - at.nanos as i128);
    let seconds = rounded(span, 1_000_000_000);
    assert(seconds == seconds_between(at, now));
    assert(-18446744078000000000 <= seconds <= 18446744078000000000) by {
        assert(-18446744073709551615 * 1_000_000_000 - 4294967295 <= span
            <= 18446744073709551615 * 1_000_000_000 + 4294967295);
    }
    let days = rounded(seconds, 86400);
    if days < 0 {
        return copy_text("just now");
    }
    if days == 0 {
        let hours = rounded(seconds, 3600);
        if hours < 1 {
            let minutes = rounded(seconds, 60);
            let minutes = if minutes < 1 {
                1
            } else {
                minutes
            };
            return said(minutes as u64, " min ago");
        }
        return said(hours as u64, " h ago");
    }
    if days == 1 {
        return copy_text("yesterday");
    }
    assert(days <= 213503982500000);
    if days < 30 {
        said(days as u64, " days ago")
    } else if days < 365 {
        said((days / 30) as u64, " months ago")
    } else {
        said((days / 365) as u64, " years ago")
    }
}

// ----- status lines -----
/// A status line: something on the left, something on the right, and room
/// between them.
pub open spec fn status_spans(
    left: Seq<char>,
    left_paint: Paint,
    right: Seq<char>,
    right_paint: Paint,
    width: u16,
) -> Seq<SpanView> {
    let room = left_of(width as int, left.len() + right.len() + 2 * SIDE_MARGIN);
    let gap = if room < 1 {
        1
    } else {
        room
    };
    seq![
        span(spaces(SIDE_MARGIN as nat), bare()),
        span(left, left_paint),
        span(spaces(gap as nat), bare()),
        span(right, right_paint),
    ]
}

fn make_status(
    left: &str,
    left_paint: Paint,
    right: &str,
    right_paint: Paint,
    width: u16,
) -> (r: Vec<Span>)
    ensures
        span_views(r@) == status_spans(left@, left_paint, right@, right_paint, width),
{
    let l = chars_of(left);
    let n = chars_of(right);
    let mut free: usize = width as usize;
    free = if free < l.len() {
        0
    } else {
        free - l.len()
    };
    free = if free < n.len() {
        0
    } else {
        free - n.len()
    };
    let edge: usize = 2 * SIDE_MARGIN as usize;
    free = if free < edge {
        0
    } else {
        free - edge
    };
    let gap = if free < 1 {
        1
    } else {
        free
    };
    let mut out: Vec<Span> = Vec::new();
    let margin = make_spaces(SIDE_MARGIN as usize);
    let room = make_spaces(gap);
    assert(span_views(out@) =~= Seq::<SpanView>::empty());
    push_span(&mut out, &margin, Paint::plain());
    push_span(&mut out, left, left_paint);
    push_span(&mut out, &room, Paint::plain());
    push_span(&mut out, right, right_paint);
    assert(span_views(out@) =~= status_spans(left@, left_paint, right@, right_paint, width));
    out
}

/// The prompt while something is being typed. A block marks where the next
/// character lands.
pub open spec fn prompt_spans(input: Seq<char>, theme: ThemeView) -> Seq<SpanView> {
    seq![
        span(spaces(SIDE_MARGIN as nat), bare()),
        span("/"@, colored(theme.accent)),
        span(input, colored(theme.foreground)),
        span("▏"@, colored(theme.accent)),
    ]
}

fn make_prompt(input: &str, theme: &Theme) -> (r: Vec<Span>)
    ensures
        span_views(r@) == prompt_spans(input@, theme@),
{
    let mut out: Vec<Span> = Vec::new();
    let margin = make_spaces(SIDE_MARGIN as usize);
    assert(span_views(out@) =~= Seq::<SpanView>::empty());
    push_span(&mut out, &margin, Paint::plain());
    push_span(&mut out, "/", Paint::in_color(theme.accent));
    push_span(&mut out, input, Paint::in_color(theme.foreground));
    push_span(&mut out, "▏", Paint::in_color(theme.accent));
    assert(span_views(out@) =~= prompt_spans(input@, theme@));
    out
}

/// What the status line says of the reader. A message outranks a link under the
/// cursor, a link the annotation there, and an annotation the title.
pub open spec fn reader_left(app: AppView) -> Seq<char> {
    match app.status {
        Some(message) => message,
        None => match app.link_here() {
            Some(i) => "link: "@ + app.chapter.links[i].target + "  ·  Enter follows"@,
            None => match app.mark_here() {
                Some(i) => {
                    let mark = app.annotations[i];
                    match mark.note {
                        Some(note) => name_of(mark.color) + ": "@ + note,
                        None => name_of(mark.color) + " highlight, no comment - e writes one"@,
                    }
                },
                None => (match app.book.metadata.title {
                    Some(t) => t,
                    None => "Untitled"@,
                }) + "  ·  "@ + entry_title(app.book.spine[app.chapter_index], app.chapter_index),
            },
        },
    }
}

pub open spec fn mode_text(mode: Mode) -> Seq<char> {
    match mode {
        Mode::Normal => "NORMAL  "@,
        Mode::Visual => "VISUAL  "@,
        _ => ""@,
    }
}

pub open spec fn counter_text(marks: nat) -> Seq<char> {
    if marks == 0 {
        ""@
    } else if marks == 1 {
        "1 mark  "@
    } else {
        decimal(marks) + " marks  "@
    }
}

/// A percentage, right-aligned in three columns.
pub open spec fn percent_text(n: nat) -> Seq<char> {
    crate::mcp::reading::in_three_columns(n) + "%"@
}

pub open spec fn reader_right(app: AppView) -> Seq<char> {
    mode_text(app.mode) + counter_text(marks_in(app.annotations, app.chapter.href).len()) + decimal(
        (app.chapter_index + 1) as nat,
    ) + "/"@ + decimal(app.book.spine.len()) + "  "@ + percent_text(app.progressed() as nat)
}

pub open spec fn mode_paint(mode: Mode, theme: ThemeView) -> Paint {
    match mode {
        Mode::Visual => colored(theme.accent),
        Mode::Normal => colored(theme.marks[1]),
        _ => colored(theme.muted),
    }
}

/// The status line of the reader. While a search is being typed, it is the
/// prompt.
pub open spec fn reader_status(app: AppView, width: u16) -> Seq<SpanView> {
    if app.mode == Mode::Search {
        prompt_spans(app.search_input, app.theme)
    } else {
        status_spans(
            reader_left(app),
            colored(app.theme.muted),
            reader_right(app),
            mode_paint(app.mode, app.theme),
            width,
        )
    }
}

fn say_left(app: &App) -> (r: String)
    requires
        app.wf(),
    ensures
        r@ == reader_left(app@),
{
    if let Some(message) = app.status() {
        return copy_text(message);
    }
    if let Some(link) = app.link_at_cursor() {
        let mut out = chars_of("link: ");
        push_text(&mut out, &link.target);
        push_text(&mut out, "  ·  Enter follows");
        return text_of(&out);
    }
    if let Some(mark) = app.annotation_at_cursor() {
        let mut out = chars_of(mark.color.label());
        match &mark.note {
            Some(note) => {
                push_text(&mut out, ": ");
                push_text(&mut out, note);
            },
            None => {
                push_text(&mut out, " highlight, no comment - e writes one");
            },
        }
        return text_of(&out);
    }
    let mut out = chars_of(app.title());
    push_text(&mut out, "  ·  ");
    let title = app.chapter_title();
    push_text(&mut out, &title);
    text_of(&out)
}

fn say_right(app: &App) -> (r: String)
    requires
        app.wf(),
    ensures
        r@ == reader_right(app@),
{
    let mode = match app.mode {
        Mode::Normal => "NORMAL  ",
        Mode::Visual => "VISUAL  ",
        _ => "",
    };
    let mut out = chars_of(mode);
    let here = app.annotations_here();
    let marks = here.len();
    proof {
        assert(mark_refs(here@).len() == marks);
    }
    if marks == 1 {
        push_text(&mut out, "1 mark  ");
    } else if marks > 1 {
        let digits = decimal_of(marks as u64);
        push_chars(&mut out, &digits);
        push_text(&mut out, " marks  ");
    } else {
        push_text(&mut out, "");
    }
    assert(out@ =~= mode_text(app@.mode) + counter_text(marks as nat));
    let (current, total) = app.chapter_number();
    let digits = decimal_of(current as u64);
    push_chars(&mut out, &digits);
    push_text(&mut out, "/");
    let digits = decimal_of(total as u64);
    push_chars(&mut out, &digits);
    push_text(&mut out, "  ");
    let ghost head = out@;
    let percent = app.progress();
    if percent < 10 {
        push_text(&mut out, "  ");
    } else if percent < 100 {
        push_text(&mut out, " ");
    }
    let digits = decimal_of(percent as u64);
    push_chars(&mut out, &digits);
    push_text(&mut out, "%");
    assert(out@ =~= head + percent_text(percent as nat));
    text_of(&out)
}

/// The status line of the reader.
pub fn draw_status(app: &App, width: u16) -> (r: Vec<Span>)
    requires
        app.wf(),
    ensures
        span_views(r@) == reader_status(app@, width),
{
    let theme = app.theme();
    if let Some(input) = app.search_input() {
        return make_prompt(input, &theme);
    }
    let left = say_left(app);
    let right = say_right(app);
    let paint = match app.mode {
        Mode::Visual => Paint::in_color(theme.accent),
        Mode::Normal => Paint::in_color(theme.marks[1]),
        _ => Paint::in_color(theme.muted),
    };
    make_status(&left, Paint::in_color(theme.muted), &right, paint, width)
}

// ----- the list of annotations -----
/// The rows of one annotation: its quote, and its comment below.
pub open spec fn mark_rows(mark: AnnotationView, width: u16, theme: ThemeView) -> Seq<
    Seq<SpanView>,
> {
    let room = left_of(width as int, 8);
    let head = seq![
        marker(theme.marks[place_of(mark.color)], mark.noted(), "  "@),
        span(" "@, bare()),
        span(shortened(mark.quote, room), bare()),
    ];
    match mark.note {
        Some(note) => seq![
            head,
            seq![span("     "@ + shortened(note, room), colored(theme.muted))],
        ],
        None => seq![head],
    }
}

pub open spec fn row_views(rows: Seq<Vec<Span>>) -> Seq<Seq<SpanView>> {
    rows.map_values(|r: Vec<Span>| span_views(r@))
}

/// The rows of one annotation in the list.
pub fn annotation_rows(mark: &Annotation, width: u16, theme: &Theme) -> (r: Vec<Vec<Span>>)
    ensures
        row_views(r@) == mark_rows(mark@, width, theme@),
{
    let room: usize = if width < 8 {
        0
    } else {
        (width - 8) as usize
    };
    let mut head: Vec<Span> = Vec::new();
    head.push(mark_span(theme.marks[mark.color.index()], mark.has_note(), "  "));
    assert(span_views(head@) =~= seq![marker(
        theme@.marks[place_of(mark@.color)],
        mark@.noted(),
        "  "@,
    )]);
    push_span(&mut head, " ", Paint::plain());
    let quote = shorten(&mark.quote, room);
    push_span(&mut head, &quote, Paint::plain());
    let ghost top = seq![
        marker(theme@.marks[place_of(mark@.color)], mark@.noted(), "  "@),
        span(" "@, bare()),
        span(shortened(mark@.quote, room as int), bare()),
    ];
    assert(span_views(head@) =~= top);
    let mut rows: Vec<Vec<Span>> = Vec::new();
    rows.push(head);
    assert(row_views(rows@) =~= seq![top]);
    if let Some(note) = &mark.note {
        let mut text = chars_of("     ");
        let short = shorten(note, room);
        push_text(&mut text, &short);
        let text = text_of(&text);
        let mut below: Vec<Span> = Vec::new();
        assert(span_views(below@) =~= Seq::<SpanView>::empty());
        push_span(&mut below, &text, Paint::in_color(theme.muted));
        assert(span_views(below@) =~= seq![span(
            "     "@ + shortened(note@, room as int),
            colored(theme@.muted),
        )]);
        rows.push(below);
        assert(row_views(rows@) =~= mark_rows(mark@, width, theme@));
    }
    rows
}

// ----- pictures -----
/// Where a picture goes on screen, for the backends that paint past the text
/// buffer. Collected during the draw and written afterwards.
#[derive(Debug)]
pub struct Placement {
    /// Column and row on screen, zero-based.
    pub column: u16,
    pub row: u16,
    pub escape: String,
}

#[verifier::ext_equal]
pub struct PlacementView {
    pub column: int,
    pub row: int,
    pub escape: Seq<char>,
}

impl View for Placement {
    type V = PlacementView;

    open spec fn view(&self) -> PlacementView {
        PlacementView { column: self.column as int, row: self.row as int, escape: self.escape@ }
    }
}

pub open spec fn placement_views(s: Seq<Placement>) -> Seq<PlacementView> {
    s.map_values(|p: Placement| p@)
}

/// A picture that the terminal paints itself: how many rows it takes, and the
/// escape sequence that shows it.
#[derive(Debug)]
pub struct Sprite {
    pub block: usize,
    pub height: usize,
    pub escape: String,
}

#[verifier::ext_equal]
pub struct SpriteView {
    pub block: usize,
    pub height: usize,
    pub escape: Seq<char>,
}

impl View for Sprite {
    type V = SpriteView;

    open spec fn view(&self) -> SpriteView {
        SpriteView { block: self.block, height: self.height, escape: self.escape@ }
    }
}

pub open spec fn sprite_views(s: Seq<Sprite>) -> Seq<SpriteView> {
    s.map_values(|p: Sprite| p@)
}

/// The first picture of a block, from `i` on.
pub open spec fn sprite_of(sprites: Seq<SpriteView>, block: int, i: int) -> Option<int>
    decreases sprites.len() - i,
{
    if i < 0 || i >= sprites.len() {
        None
    } else if sprites[i].block == block {
        Some(i)
    } else {
        sprite_of(sprites, block, i + 1)
    }
}

/// The picture that starts on a row, where it goes. Only the top row of a picture
/// places it, and the whole of it has to fit: the terminal paints these pixels
/// itself, so nothing clips them at the edge of the text.
pub open spec fn placed_at(line: LineView, row: int, area: Area, sprites: Seq<SpriteView>) -> Option<
    PlacementView,
> {
    match line.kind {
        LineKind::Image { row: pixel_row, .. } => if pixel_row != 0 {
            None
        } else {
            match sprite_of(sprites, line.block, 0) {
                Some(i) => if sprites[i].escape.len() == 0 || row + sprites[i].height
                    > area.height {
                    None
                } else {
                    Some(
                        PlacementView {
                            column: at_most(area.x + line.indent, u16::MAX as int),
                            row: area.y + row,
                            escape: sprites[i].escape,
                        },
                    )
                },
                None => None,
            }
        },
        _ => None,
    }
}

/// The pictures on the first `n` rows.
pub open spec fn placements_on(
    lines: Seq<LineView>,
    area: Area,
    sprites: Seq<SpriteView>,
    n: nat,
) -> Seq<PlacementView>
    decreases n,
{
    if n == 0 {
        Seq::empty()
    } else {
        let front = placements_on(lines, area, sprites, (n - 1) as nat);
        match placed_at(lines[n - 1], n - 1, area, sprites) {
            Some(p) => front.push(p),
            None => front,
        }
    }
}

fn place_line(line: &Line, row: usize, area: Area, sprites: &Vec<Sprite>) -> (r: Option<Placement>)
    requires
        area.wf(),
    ensures
        match placed_at(line@, row as int, area, sprite_views(sprites@)) {
            Some(p) => r is Some && r->0@ == p,
            None => r is None,
        },
{
    let ghost all = sprite_views(sprites@);
    match line.kind {
        LineKind::Image { row: pixel_row, .. } => {
            if pixel_row != 0 {
                return None;
            }
            let mut i: usize = 0;
            while i < sprites.len()
                invariant
                    i <= sprites@.len(),
                    all == sprite_views(sprites@),
                    all.len() == sprites@.len(),
                    area.wf(),
                    line@.kind is Image,
                    line@.kind->Image_row == 0,
                    sprite_of(all, line@.block, 0) == sprite_of(all, line@.block, i as int),
                decreases sprites@.len() - i,
            {
                assert(all[i as int] == sprites@[i as int]@);
                if sprites[i].block == line.block {
                    let sprite = &sprites[i];
                    let height = area.height as usize;
                    if sprite.escape.as_str().is_empty() || row > height || sprite.height > height
                        - row {
                        return None;
                    }
                    let column: u16 = if line.indent > u16::MAX - area.x {
                        u16::MAX
                    } else {
                        area.x + line.indent
                    };
                    return Some(
                        Placement {
                            column,
                            row: area.y + row as u16,
                            escape: sprite.escape.clone(),
                        },
                    );
                }
                i += 1;
            }
            None
        },
        _ => None,
    }
}

/// Collects the pictures visible in a frame, with the screen position each one
/// starts at.
pub fn placements(lines: &[Line], area: Area, sprites: &Vec<Sprite>) -> (r: Vec<Placement>)
    requires
        area.wf(),
    ensures
        placement_views(r@) == placements_on(
            line_views(lines@),
            area,
            sprite_views(sprites@),
            lines@.len(),
        ),
{
    let ghost views = line_views(lines@);
    let ghost all = sprite_views(sprites@);
    let mut out: Vec<Placement> = Vec::new();
    let mut row: usize = 0;
    assert(placement_views(out@) =~= Seq::<PlacementView>::empty());
    while row < lines.len()
        invariant
            row <= lines@.len(),
            area.wf(),
            views == line_views(lines@),
            all == sprite_views(sprites@),
            placement_views(out@) == placements_on(views, area, all, row as nat),
        decreases lines@.len() - row,
    {
        assert(views[row as int] == lines@[row as int]@);
        let ghost before = out@;
        assert(placements_on(views, area, all, (row + 1) as nat) == (match placed_at(
            views[row as int],
            row as int,
            area,
            all,
        ) {
            Some(p) => placements_on(views, area, all, row as nat).push(p),
            None => placements_on(views, area, all, row as nat),
        }));
        if let Some(p) = place_line(&lines[row], row, area, sprites) {
            out.push(p);
            assert(placement_views(out@) =~= placement_views(before).push(p@));
        }
        row += 1;
    }
    out
}

/// A picture that is painted lies inside the area, so it never covers the status
/// line.
pub proof fn pictures_stay_inside(line: LineView, row: int, area: Area, sprites: Seq<SpriteView>)
    requires
        row >= 0,
        placed_at(line, row, area, sprites) is Some,
    ensures
        ({
            let i = sprite_of(sprites, line.block, 0)->0;
            let p = placed_at(line, row, area, sprites)->0;
            area.y <= p.row && p.row + sprites[i].height <= area.y + area.height
        }),
{
}

// ----- the shelf -----
/// The widths of the columns: title, author, series. Author and series get fixed
/// shares; the title takes what is left, because it is what the eye looks for
/// first.
pub open spec fn column_widths(width: int) -> (int, int, int) {
    let author = if width / 4 < 12 {
        12
    } else if width / 4 > 30 {
        30
    } else {
        width / 4
    };
    let series = if width / 5 > 24 {
        24
    } else {
        width / 5
    };
    (left_of(width, author + series + 6), author, series)
}

/// What stands in the third column. Sorted by when a book was read, the date is
/// what the column is for.
pub open spec fn third_column(e: EntryView, order: Order, now: Moment) -> Seq<char> {
    if order == Order::Recent {
        match e.last_read {
            Some(at) => ago(at, now),
            None => Seq::empty(),
        }
    } else {
        match e.record.series {
            Some(name) => match e.record.series_index {
                Some(at) => name + " "@ + at.label,
                None => name,
            },
            None => Seq::empty(),
        }
    }
}

/// One row of the shelf. A book that has been opened before carries a mark, so
/// picking up where you left off does not need remembering.
pub open spec fn shelf_spans(
    e: EntryView,
    selected: bool,
    order: Order,
    now: Moment,
    width: u16,
    theme: ThemeView,
) -> Seq<SpanView> {
    let (title, author, series) = column_widths(width as int);
    let base = Paint { reversed: selected, ..bare() };
    let dim = if selected {
        base
    } else {
        Paint { fg: Some(theme.muted), ..base }
    };
    let head = seq![
        span(
            if e.progress is Some {
                "▌"@
            } else {
                " "@
            },
            Paint { fg: Some(theme.accent), ..base },
        ),
        span(" "@, base),
        span(padded(e.record.shown_title(), title), base),
        span("  "@, base),
        span(padded(e.record.shown_authors(), author), dim),
    ];
    let wide = if series > 0 {
        head.push(span("  "@, base)).push(span(padded(third_column(e, order, now), series), dim))
    } else {
        head
    };
    if e.record.missing {
        wide.push(span(" (missing)"@, Paint { fg: Some(theme.marks[3]), ..base }))
    } else {
        wide
    }
}

fn say_third(e: &Entry, order: Order, now: Moment) -> (r: String)
    ensures
        r@ == third_column(e@, order, now),
{
    if let Order::Recent = order {
        return match e.last_read {
            Some(at) => when(at, now),
            None => {
                let t = String::new();
                assert(t@ =~= Seq::<char>::empty());
                t
            },
        };
    }
    match &e.record.series {
        Some(name) => {
            let mut out = chars_of(name);
            if let Some(at) = &e.record.series_index {
                push_text(&mut out, " ");
                push_text(&mut out, &at.label);
            }
            text_of(&out)
        },
        None => {
            let t = String::new();
            assert(t@ =~= Seq::<char>::empty());
            t
        },
    }
}

/// One row of the shelf.
pub fn shelf_row(
    e: &Entry,
    selected: bool,
    order: Order,
    now: Moment,
    width: u16,
    theme: &Theme,
) -> (r: Vec<Span>)
    ensures
        span_views(r@) == shelf_spans(e@, selected, order, now, width, theme@),
{
    let w = width as usize;
    let author = if w / 4 < 12 {
        12
    } else if w / 4 > 30 {
        30
    } else {
        w / 4
    };
    let series = if w / 5 > 24 {
        24
    } else {
        w / 5
    };
    let taken = author + series + 6;
    let title = if w < taken {
        0
    } else {
        w - taken
    };
    assert((title as int, author as int, series as int) == column_widths(width as int));
    let mut base = Paint::plain();
    base.reversed = selected;
    let mut dim = base;
    if !selected {
        dim.fg = Some(theme.muted);
    }
    let mut bright = base;
    bright.fg = Some(theme.accent);
    let mut out: Vec<Span> = Vec::new();
    assert(span_views(out@) =~= Seq::<SpanView>::empty());
    let started = if e.progress.is_some() {
        "▌"
    } else {
        " "
    };
    push_span(&mut out, started, bright);
    push_span(&mut out, " ", base);
    let shown = e.record.display_title();
    let shown = pad(&shown, title);
    push_span(&mut out, &shown, base);
    push_span(&mut out, "  ", base);
    let authors = e.record.display_authors();
    let authors = pad(&authors, author);
    push_span(&mut out, &authors, dim);
    let ghost head = seq![
        span(
            if e@.progress is Some {
                "▌"@
            } else {
                " "@
            },
            bright,
        ),
        span(" "@, base),
        span(padded(e@.record.shown_title(), title as int), base),
        span("  "@, base),
        span(padded(e@.record.shown_authors(), author as int), dim),
    ];
    assert(span_views(out@) =~= head);
    if series > 0 {
        push_span(&mut out, "  ", base);
        let third = say_third(e, order, now);
        let third = pad(&third, series);
        push_span(&mut out, &third, dim);
    }
    if e.record.missing {
        let mut gone = base;
        gone.fg = Some(theme.marks[3]);
        push_span(&mut out, " (missing)", gone);
    }
    out
}

/// What the status line of the shelf says.
pub open spec fn shelf_left(shelf: ShelfView) -> Seq<char> {
    match shelf.status {
        Some(message) => message,
        None => if shelf.filter.len() > 0 {
            decimal(shelf.shown.len()) + " of "@ + decimal(shelf.all.len()) + " books  ·  filter "@
                + quoted_text(shelf.filter)
        } else {
            decimal(shelf.all.len()) + " books"@
        },
    }
}

/// The status line of the shelf. While a filter is being typed, it is the prompt.
pub open spec fn shelf_status(shelf: ShelfView, width: u16, theme: ThemeView) -> Seq<SpanView> {
    if shelf.mode == crate::shelf::Mode::Filter {
        prompt_spans(shelf.filter_input, theme)
    } else {
        status_spans(
            shelf_left(shelf),
            colored(theme.muted),
            "by "@ + order_label(shelf.order) + "  ·  ? for keys"@,
            colored(theme.muted),
            width,
        )
    }
}

/// The status line of the shelf.
pub fn draw_shelf_status(shelf: &Shelf, width: u16, theme: &Theme) -> (r: Vec<Span>)
    ensures
        span_views(r@) == shelf_status(shelf@, width, theme@),
{
    if let crate::shelf::Mode::Filter = shelf.mode {
        return make_prompt(&shelf.filter_input, theme);
    }
    let shown = shelf.shown.len();
    let total = shelf.all.len();
    assert(shelf@.shown.len() == shown);
    let left = match &shelf.status {
        Some(message) => message.clone(),
        None => if !shelf.filter.as_str().is_empty() {
            let mut out: Vec<char> = decimal_of(shown as u64);
            push_text(&mut out, " of ");
            let digits = decimal_of(total as u64);
            push_chars(&mut out, &digits);
            push_text(&mut out, " books  ·  filter ");
            let quoted = quote_text(&shelf.filter);
            push_text(&mut out, &quoted);
            text_of(&out)
        } else {
            said(total as u64, " books")
        },
    };
    let mut right = chars_of("by ");
    push_text(&mut right, shelf.order.label());
    push_text(&mut right, "  ·  ? for keys");
    let right = text_of(&right);
    make_status(
        &left,
        Paint::in_color(theme.muted),
        &right,
        Paint::in_color(theme.muted),
        width,
    )
}

// ----- the hit list -----
/// The two rows of a hit, and the blank below: where it is, and what it says. One
/// row would force the passage to compete with the title for the same width.
pub open spec fn hit_rows(hit: HitView, selected: bool, width: u16, theme: ThemeView) -> Seq<
    Seq<SpanView>,
> {
    let heading = Paint { reversed: selected, bold: true, ..bare() };
    seq![
        seq![
            span(
                if selected {
                    "▌ "@
                } else {
                    "  "@
                },
                Paint { fg: Some(theme.accent), ..heading },
            ),
            span(hit.book_title, heading),
            span(
                "  ·  "@ + hit.chapter_title,
                if selected {
                    heading
                } else {
                    colored(theme.muted)
                },
            ),
        ],
        seq![
            span("    "@ + shortened(hit.snippet, left_of(width as int, 6)), colored(theme.muted)),
        ],
        Seq::empty(),
    ]
}

/// The rows of the hits from `from` up to `to`.
pub open spec fn hits_rows(
    hits: Seq<HitView>,
    cursor: int,
    from: int,
    to: int,
    width: u16,
    theme: ThemeView,
) -> Seq<Seq<SpanView>>
    decreases to - from,
{
    if to <= from {
        Seq::empty()
    } else {
        hits_rows(hits, cursor, from, to - 1, width, theme) + hit_rows(
            hits[to - 1],
            to - 1 == cursor,
            width,
            theme,
        )
    }
}

/// The hit list: as many hits from `scroll` on as fit whole.
pub open spec fn hit_list(
    hits: Seq<HitView>,
    query: Seq<char>,
    cursor: int,
    scroll: int,
    area: Area,
    theme: ThemeView,
) -> Seq<Seq<SpanView>> {
    let fit = area.height as int / 3;
    let to = at_most(hits.len() as int, scroll + fit);
    let rows = hits_rows(hits, cursor, scroll, to, area.width, theme);
    if rows.len() == 0 {
        seq![seq![span("  nothing found for "@ + quoted_text(query), colored(theme.muted))]]
    } else {
        rows
    }
}

fn push_hit_rows(rows: &mut Vec<Vec<Span>>, hit: &Hit, selected: bool, width: u16, theme: &Theme)
    ensures
        row_views(final(rows)@) == row_views(old(rows)@) + hit_rows(hit@, selected, width, theme@),
{
    let ghost before = row_views(rows@);
    let mut heading = Paint::plain();
    heading.reversed = selected;
    heading.bold = true;
    let mut bright = heading;
    bright.fg = Some(theme.accent);
    let muted = Paint::in_color(theme.muted);
    let mut top: Vec<Span> = Vec::new();
    assert(span_views(top@) =~= Seq::<SpanView>::empty());
    let bar = if selected {
        "▌ "
    } else {
        "  "
    };
    push_span(&mut top, bar, bright);
    push_span(&mut top, &hit.book_title, heading);
    let mut text = chars_of("  ·  ");
    push_text(&mut text, &hit.chapter_title);
    let text = text_of(&text);
    push_span(
        &mut top,
        &text,
        if selected {
            heading
        } else {
            muted
        },
    );
    let room: usize = if width < 6 {
        0
    } else {
        (width - 6) as usize
    };
    let mut text = chars_of("    ");
    let short = shorten(&hit.snippet, room);
    push_text(&mut text, &short);
    let text = text_of(&text);
    let mut below: Vec<Span> = Vec::new();
    assert(span_views(below@) =~= Seq::<SpanView>::empty());
    push_span(&mut below, &text, muted);
    let blank: Vec<Span> = Vec::new();
    proof {
        let all = hit_rows(hit@, selected, width, theme@);
        assert(span_views(top@) =~= all[0]);
        assert(span_views(below@) =~= all[1]);
        assert(span_views(blank@) =~= all[2]);
    }
    rows.push(top);
    rows.push(below);
    rows.push(blank);
    assert(row_views(rows@) =~= before + hit_rows(hit@, selected, width, theme@));
}

/// The rows of the hit list.
pub fn draw_hits(results: &Results, cursor: usize, scroll: usize, area: Area, theme: &Theme) -> (r:
    Vec<Vec<Span>>)
    ensures
        row_views(r@) == hit_list(
            hit_views(results.hits@),
            results.query@,
            cursor as int,
            scroll as int,
            area,
            theme@,
        ),
{
    let ghost hits = hit_views(results.hits@);
    let total = results.hits.len();
    assert(hits.len() == total);
    let fit = (area.height / 3) as usize;
    let to = match scroll.checked_add(fit) {
        Some(n) => if n < total {
            n
        } else {
            total
        },
        None => total,
    };
    let mut rows: Vec<Vec<Span>> = Vec::new();
    let mut i: usize = scroll;
    assert(row_views(rows@) =~= Seq::<Seq<SpanView>>::empty());
    while i < to
        invariant
            scroll <= i,
            i <= to || i == scroll,
            to <= total,
            total == results.hits@.len(),
            hits == hit_views(results.hits@),
            row_views(rows@) == hits_rows(
                hits,
                cursor as int,
                scroll as int,
                i as int,
                area.width,
                theme@,
            ),
        decreases to - i,
    {
        assert(hits[i as int] == results.hits@[i as int]@);
        push_hit_rows(&mut rows, &results.hits[i], i == cursor, area.width, theme);
        i += 1;
    }
    let ghost shown = hits_rows(
        hits,
        cursor as int,
        scroll as int,
        to as int,
        area.width,
        theme@,
    );
    assert(row_views(rows@) == shown);
    assert(row_views(rows@).len() == rows@.len());
    if rows.len() == 0 {
        let mut text = chars_of("  nothing found for ");
        let quoted = quote_text(&results.query);
        push_text(&mut text, &quoted);
        let text = text_of(&text);
        let mut row: Vec<Span> = Vec::new();
        assert(span_views(row@) =~= Seq::<SpanView>::empty());
        push_span(&mut row, &text, Paint::in_color(theme.muted));
        assert(span_views(row@) =~= seq![span(
            "  nothing found for "@ + quoted_text(results.query@),
            colored(theme@.muted),
        )]);
        rows.push(row);
        assert(row_views(rows@) =~= seq![span_views(row@)]);
    }
    rows
}

pub open spec fn source_text(source: Source) -> Seq<char> {
    match source {
        Source::Index => "qmd index"@,
        Source::Direct => "read directly"@,
    }
}

/// The status line of the hit list.
pub open spec fn hits_status(
    count: nat,
    query: Seq<char>,
    source: Source,
    width: u16,
    theme: ThemeView,
) -> Seq<SpanView> {
    status_spans(
        decimal(count) + " hits for "@ + quoted_text(query) + "  ·  "@ + source_text(source),
        colored(theme.muted),
        "Enter opens  ·  q leaves"@,
        colored(theme.muted),
        width,
    )
}

pub fn draw_hits_status(results: &Results, width: u16, theme: &Theme) -> (r: Vec<Span>)
    ensures
        span_views(r@) == hits_status(
            results.hits@.len(),
            results.query@,
            results.source,
            width,
            theme@,
        ),
{
    let mut left: Vec<char> = decimal_of(results.hits.len() as u64);
    push_text(&mut left, " hits for ");
    let quoted = quote_text(&results.query);
    push_text(&mut left, &quoted);
    push_text(&mut left, "  ·  ");
    let source = match results.source {
        Source::Index => "qmd index",
        Source::Direct => "read directly",
    };
    push_text(&mut left, source);
    let left = text_of(&left);
    make_status(
        &left,
        Paint::in_color(theme.muted),
        "Enter opens  ·  q leaves",
        Paint::in_color(theme.muted),
        width,
    )
}

} // verus!
