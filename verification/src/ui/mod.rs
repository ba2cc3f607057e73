//! What the reader, the shelf and the hit list look like, as styled text. The
//! terminal is written by whoever draws it.

pub mod laws;
pub mod page;
pub mod panel;

use vstd::prelude::*;
use crate::export::markdown::repeated;
use crate::text::{copy_text, push_text, text_of};
use crate::theme::{Rgb, Theme, ThemeView};

verus! {

/// Columns kept free left and right of the text.
pub const SIDE_MARGIN: u16 = 2;

/// How a stretch of text is painted. What is not set is left to the terminal.
#[derive(Debug, Clone, Copy, PartialEq, Eq)]
pub struct Paint {
    pub fg: Option<Rgb>,
    pub bg: Option<Rgb>,
    /// Colour of the underline, where it differs from the text.
    pub underline: Option<Rgb>,
    pub bold: bool,
    pub italic: bool,
    pub underlined: bool,
    pub reversed: bool,
}

/// Nothing set.
pub open spec fn bare() -> Paint {
    Paint {
        fg: None,
        bg: None,
        underline: None,
        bold: false,
        italic: false,
        underlined: false,
        reversed: false,
    }
}

/// Coloured text.
pub open spec fn colored(c: Rgb) -> Paint {
    Paint { fg: Some(c), ..bare() }
}

/// A backdrop.
pub open spec fn backed(c: Rgb) -> Paint {
    Paint { bg: Some(c), ..bare() }
}

impl Paint {
    pub fn plain() -> (r: Self)
        ensures
            r == bare(),
    {
        Paint {
            fg: None,
            bg: None,
            underline: None,
            bold: false,
            italic: false,
            underlined: false,
            reversed: false,
        }
    }

    pub fn in_color(c: Rgb) -> (r: Self)
        ensures
            r == colored(c),
    {
        let mut p = Paint::plain();
        p.fg = Some(c);
        p
    }

    pub fn on_color(c: Rgb) -> (r: Self)
        ensures
            r == backed(c),
    {
        let mut p = Paint::plain();
        p.bg = Some(c);
        p
    }
}

/// A stretch of text painted in one way.
#[derive(Debug)]
pub struct Span {
    pub text: String,
    pub paint: Paint,
}

#[verifier::ext_equal]
pub struct SpanView {
    pub text: Seq<char>,
    pub paint: Paint,
}

impl View for Span {
    type V = SpanView;

    open spec fn view(&self) -> SpanView {
        SpanView { text: self.text@, paint: self.paint }
    }
}

pub open spec fn span_views(s: Seq<Span>) -> Seq<SpanView> {
    s.map_values(|x: Span| x@)
}

pub open spec fn span(text: Seq<char>, paint: Paint) -> SpanView {
    SpanView { text, paint }
}

/// So many spaces.
pub open spec fn spaces(n: nat) -> Seq<char> {
    repeated(" "@, n)
}

pub(crate) fn push_span(out: &mut Vec<Span>, text: &str, paint: Paint)
    ensures
        span_views(final(out)@) == span_views(old(out)@).push(span(text@, paint)),
{
    let ghost before = out@;
    let s = Span { text: copy_text(text), paint };
    out.push(s);
    assert(span_views(out@) =~= span_views(before).push(s@));
}

pub(crate) fn make_spaces(n: usize) -> (r: String)
    ensures
        r@ == spaces(n as nat),
{
    let mut out: Vec<char> = Vec::new();
    let mut i: usize = 0;
    while i < n
        invariant
            i <= n,
            out@ == spaces(i as nat),
        decreases n - i,
    {
        push_text(&mut out, " ");
        i += 1;
        assert(out@ =~= spaces(i as nat));
    }
    text_of(&out)
}

/// The theme, and the text colours that are readable on its annotation colours
/// and on its accent.
#[derive(Debug)]
pub struct Palette {
    pub theme: Theme,
    pub on_marks: [Rgb; 5],
    pub on_accent: Rgb,
}

#[verifier::ext_equal]
pub struct PaletteView {
    pub theme: ThemeView,
    pub on_marks: Seq<Rgb>,
    pub on_accent: Rgb,
}

impl View for Palette {
    type V = PaletteView;

    open spec fn view(&self) -> PaletteView {
        PaletteView { theme: self.theme@, on_marks: self.on_marks@, on_accent: self.on_accent }
    }
}

/// A rectangle on screen.
#[derive(Debug, Clone, Copy, PartialEq, Eq, Structural)]
pub struct Area {
    pub x: u16,
    pub y: u16,
    pub width: u16,
    pub height: u16,
}

impl Area {
    /// It ends on the screen.
    pub open spec fn wf(self) -> bool {
        self.x + self.width <= u16::MAX && self.y + self.height <= u16::MAX
    }
}

pub open spec fn at_most(a: int, b: int) -> int {
    if a < b {
        a
    } else {
        b
    }
}

/// What is left of `a` once `b` is taken away.
pub open spec fn left_of(a: int, b: int) -> int {
    if a < b {
        0
    } else {
        a - b
    }
}

/// A panel in the middle of an area. It leaves a margin where it can, and has
/// room for a border and one line.
pub open spec fn panel_in(area: Area, width: u16, height: u16) -> Area {
    let w = at_most(width as int, left_of(area.width as int, 4));
    let h = at_most(height as int, left_of(area.height as int, 2));
    let h = if h < 3 {
        3
    } else {
        h
    };
    Area {
        x: (area.x + left_of(area.width as int, w) / 2) as u16,
        y: (area.y + left_of(area.height as int, h) / 2) as u16,
        width: w as u16,
        height: h as u16,
    }
}

pub fn centred(area: Area, width: u16, height: u16) -> (r: Area)
    requires
        area.wf(),
    ensures
        r == panel_in(area, width, height),
{
    let most: u16 = if area.width < 4 {
        0
    } else {
        area.width - 4
    };
    let w = if width < most {
        width
    } else {
        most
    };
    let tallest: u16 = if area.height < 2 {
        0
    } else {
        area.height - 2
    };
    let h = if height < tallest {
        height
    } else {
        tallest
    };
    let h = if h < 3 {
        3
    } else {
        h
    };
    let right: u16 = area.width - w;
    let below: u16 = if area.height < h {
        0
    } else {
        area.height - h
    };
    Area { x: area.x + right / 2, y: area.y + below / 2, width: w, height: h }
}

/// A panel stays inside its area, wherever that has room for one.
pub proof fn a_panel_stays_inside(area: Area, width: u16, height: u16)
    requires
        area.wf(),
        area.height >= 3,
    ensures
        ({
            let p = panel_in(area, width, height);
            &&& area.x <= p.x
            &&& p.x + p.width <= area.x + area.width
            &&& area.y <= p.y
            &&& p.y + p.height <= area.y + area.height
        }),
{
}

} // verus!
