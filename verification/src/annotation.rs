//! Highlights and comments, and how they anchor to the text.
//!
//! An annotation must not hang off a screen line, because the wrap changes with
//! the window. It hangs off the document structure instead: a chapter href plus
//! character ranges inside blocks. A selection spanning several blocks
//! contributes one slice per block it touches.
//!
//! The quoted text is stored alongside. If the file changes and an anchor no
//! longer fits, the passage can still be found by its wording.

use vstd::prelude::*;
use crate::sort::sorted_by;
use crate::text::{blank, is_blank_text, text_less, text_opt};

verus! {

#[derive(Debug, Clone, Copy, PartialEq, Eq, Structural)]
pub enum Color {
    Yellow,
    Green,
    Blue,
    Red,
    Purple,
}

/// The key that picks a colour.
pub open spec fn key_of(color: Color) -> char {
    match color {
        Color::Yellow => 'y',
        Color::Green => 'g',
        Color::Blue => 'b',
        Color::Red => 'r',
        Color::Purple => 'p',
    }
}

/// The name of a colour.
pub open spec fn name_of(color: Color) -> Seq<char> {
    match color {
        Color::Yellow => "yellow"@,
        Color::Green => "green"@,
        Color::Blue => "blue"@,
        Color::Red => "red"@,
        Color::Purple => "purple"@,
    }
}

/// Every colour has a key of its own.
pub proof fn keys_are_distinct(a: Color, b: Color)
    ensures
        key_of(a) == key_of(b) <==> a == b,
{
}

impl Color {
    pub const ALL: [Color; 5] = [
        Color::Yellow,
        Color::Green,
        Color::Blue,
        Color::Red,
        Color::Purple,
    ];

    /// The key that picks this colour.
    pub fn shortcut(self) -> (r: char)
        ensures
            r == key_of(self),
    {
        match self {
            Color::Yellow => 'y',
            Color::Green => 'g',
            Color::Blue => 'b',
            Color::Red => 'r',
            Color::Purple => 'p',
        }
    }

    /// The colour a key picks. Reading back a shortcut gives its colour, and no
    /// other key picks one.
    pub fn from_shortcut(key: char) -> (r: Option<Self>)
        ensures
            r matches Some(c) ==> key_of(c) == key,
            r is None ==> forall|c: Color| #[trigger] key_of(c) != key,
    {
        if key == 'y' {
            Some(Color::Yellow)
        } else if key == 'g' {
            Some(Color::Green)
        } else if key == 'b' {
            Some(Color::Blue)
        } else if key == 'r' {
            Some(Color::Red)
        } else if key == 'p' {
            Some(Color::Purple)
        } else {
            None
        }
    }

    /// Position in the theme's mark palette, in the order of `ALL`.
    pub fn index(self) -> (r: usize)
        ensures
            r == place_of(self),
    {
        match self {
            Color::Yellow => 0,
            Color::Green => 1,
            Color::Blue => 2,
            Color::Red => 3,
            Color::Purple => 4,
        }
    }

    pub fn label(self) -> (r: &'static str)
        ensures
            r@ == name_of(self),
    {
        match self {
            Color::Yellow => "yellow",
            Color::Green => "green",
            Color::Blue => "blue",
            Color::Red => "red",
            Color::Purple => "purple",
        }
    }
}

/// The position of a colour in the palette.
pub open spec fn place_of(color: Color) -> int {
    match color {
        Color::Yellow => 0,
        Color::Green => 1,
        Color::Blue => 2,
        Color::Red => 3,
        Color::Purple => 4,
    }
}

/// The palette lists each colour at its own place.
pub proof fn the_palette_lists_every_colour(color: Color)
    ensures
        0 <= place_of(color) < 5,
        Color::ALL@[place_of(color)] == color,
{
}

/// A character range inside one block.
#[derive(Debug, Clone, Copy, PartialEq, Eq, Structural)]
pub struct Slice {
    pub block: usize,
    /// First character, inclusive.
    pub start: usize,
    /// Last character, exclusive.
    pub end: usize,
}

impl Slice {
    pub open spec fn holds(&self, block: int, offset: int) -> bool {
        self.block == block && self.start <= offset < self.end
    }

    pub fn contains(&self, block: usize, offset: usize) -> (r: bool)
        ensures
            r == self.holds(block as int, offset as int),
    {
        self.block == block && offset >= self.start && offset < self.end
    }
}

/// Reading order of two positions: block first, then offset.
pub open spec fn earlier(a: (usize, usize), b: (usize, usize)) -> bool {
    a.0 < b.0 || (a.0 == b.0 && a.1 < b.1)
}

#[derive(Debug, PartialEq, Eq)]
pub struct Annotation {
    pub id: String,
    /// Chapter this annotation lives in.
    pub href: String,
    pub slices: Vec<Slice>,
    pub color: Color,
    /// The annotated text, for display in lists and as a fallback anchor.
    pub quote: String,
    /// A comment, when one was written.
    pub note: Option<String>,
}

/// An annotation as a mathematical value.
#[verifier::ext_equal]
pub struct AnnotationView {
    pub id: Seq<char>,
    pub href: Seq<char>,
    pub slices: Seq<Slice>,
    pub color: Color,
    pub quote: Seq<char>,
    pub note: Option<Seq<char>>,
}

impl View for Annotation {
    type V = AnnotationView;

    open spec fn view(&self) -> AnnotationView {
        AnnotationView {
            id: self.id@,
            href: self.href@,
            slices: self.slices@,
            color: self.color,
            quote: self.quote@,
            note: text_opt(self.note),
        }
    }
}

impl Clone for Annotation {
    fn clone(&self) -> (r: Self)
        ensures
            r@ == self@,
    {
        let r = Annotation {
            id: self.id.clone(),
            href: self.href.clone(),
            slices: self.slices.clone(),
            color: self.color,
            quote: self.quote.clone(),
            note: self.note.clone(),
        };
        assert(r.slices@ =~= self.slices@);
        r
    }
}

impl AnnotationView {
    /// `p` is where the annotation begins: the earliest start of its slices, or
    /// the very beginning when it has none.
    pub open spec fn begins_at(self, p: (usize, usize)) -> bool {
        if self.slices.len() == 0 {
            p == (0usize, 0usize)
        } else {
            &&& exists|i: int|
                0 <= i < self.slices.len() && p == ((#[trigger] self.slices[i]).block, self.slices[i].start)
            &&& forall|i: int|
                0 <= i < self.slices.len() ==> !earlier(
                    ((#[trigger] self.slices[i]).block, self.slices[i].start),
                    p,
                )
        }
    }

    /// Where the annotation begins.
    pub open spec fn beginning(self) -> (usize, usize) {
        choose|p: (usize, usize)| self.begins_at(p)
    }

    pub open spec fn covers_at(self, block: int, offset: int) -> bool {
        exists|i: int| 0 <= i < self.slices.len() && (#[trigger] self.slices[i]).holds(block, offset)
    }

    pub open spec fn noted(self) -> bool {
        self.note matches Some(n) && !blank(n)
    }
}

/// An annotation begins at one place only.
pub proof fn beginnings_are_unique(a: AnnotationView, p: (usize, usize), q: (usize, usize))
    requires
        a.begins_at(p),
        a.begins_at(q),
    ensures
        p == q,
{
}

impl Annotation {
    /// Where the annotation begins, for sorting and navigation.
    pub fn start(&self) -> (r: (usize, usize))
        ensures
            self@.begins_at(r),
            r == self@.beginning(),
    {
        if self.slices.len() == 0 {
            assert(self@.begins_at((0, 0)));
            return (0, 0);
        }
        let mut best = (self.slices[0].block, self.slices[0].start);
        let mut i: usize = 1;
        while i < self.slices.len()
            invariant
                1 <= i <= self.slices@.len(),
                exists|k: int|
                    0 <= k < i && best == ((#[trigger] self.slices@[k]).block, self.slices@[k].start),
                forall|k: int|
                    0 <= k < i ==> !earlier(
                        ((#[trigger] self.slices@[k]).block, self.slices@[k].start),
                        best,
                    ),
            decreases self.slices@.len() - i,
        {
            let s = self.slices[i];
            if s.block < best.0 || (s.block == best.0 && s.start < best.1) {
                best = (s.block, s.start);
            }
            i += 1;
        }
        assert(self@.begins_at(best));
        best
    }

    pub fn covers(&self, block: usize, offset: usize) -> (r: bool)
        ensures
            r == self@.covers_at(block as int, offset as int),
    {
        let mut i: usize = 0;
        while i < self.slices.len()
            invariant
                i <= self.slices@.len(),
                forall|k: int|
                    0 <= k < i ==> !(#[trigger] self.slices@[k]).holds(block as int, offset as int),
            decreases self.slices@.len() - i,
        {
            if self.slices[i].contains(block, offset) {
                assert(self@.slices[i as int].holds(block as int, offset as int));
                return true;
            }
            i += 1;
        }
        false
    }

    /// Whether a comment was written that is more than white space.
    pub fn has_note(&self) -> (r: bool)
        ensures
            r == self@.noted(),
    {
        match &self.note {
            Some(n) => !is_blank_text(n),
            None => false,
        }
    }
}

/// The order annotations are listed in: by chapter, then by where they start.
pub open spec fn mark_before(a: AnnotationView, b: AnnotationView) -> bool {
    text_less(a.href, b.href) || (a.href == b.href && earlier(
        a.beginning(),
        b.beginning(),
    ))
}

/// Annotations in the order they are listed in.
pub open spec fn marks_sorted(annotations: Seq<AnnotationView>) -> Seq<AnnotationView> {
    sorted_by(
        annotations,
        |a: AnnotationView, b: AnnotationView| mark_before(a, b),
    )
}

} // verus!
