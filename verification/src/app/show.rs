//! What the reader shows: the layout, the selection, the jumps.

use vstd::prelude::*;
use crate::annotation::{AnnotationView, Color, Slice, earlier, place_of};
use crate::app::{AppView, JumpView, Mode, RequestView, SlotView};
use crate::app::target::{
    chapter_for, chapter_shown, href_resolved, is_external, target_file, target_fragment,
};
use crate::doc::{BlockView, LocatorView, clipped};
use crate::failure::joined;
use crate::layout::{ImagePlacement, LayoutOptions, LineView, NoteView, laid_out, line_at};
use crate::search::{SearchView, all_hits, no_search};
use crate::shelf::{less_by, smaller};
use crate::text::{decimal, quoted_text, trim};
use crate::theme::ThemeView;

verus! {

/// Whether one text position comes at or before another.
pub open spec fn at_or_before(a: (usize, usize), b: (usize, usize)) -> bool {
    !earlier(b, a)
}

/// The last block that slices touch.
pub open spec fn last_block(slices: Seq<Slice>) -> Option<usize>
    decreases slices.len(),
{
    if slices.len() == 0 {
        None
    } else {
        match last_block(slices.drop_last()) {
            Some(b) => if b > slices.last().block {
                Some(b)
            } else {
                Some(slices.last().block)
            },
            None => Some(slices.last().block),
        }
    }
}

pub(crate) fn find_last_block(slices: &Vec<Slice>) -> (r: Option<usize>)
    ensures
        r == last_block(slices@),
{
    let mut best: Option<usize> = None;
    let mut i: usize = 0;
    assert(slices@.take(0) =~= Seq::<Slice>::empty());
    while i < slices.len()
        invariant
            i <= slices@.len(),
            best == last_block(slices@.take(i as int)),
        decreases slices@.len() - i,
    {
        assert(slices@.take(i + 1).drop_last() =~= slices@.take(i as int));
        let b = slices[i].block;
        best = match best {
            Some(x) => if x > b {
                Some(x)
            } else {
                Some(b)
            },
            None => Some(b),
        };
        i += 1;
    }
    assert(slices@.take(slices@.len() as int) =~= slices@);
    best
}

/// The comment of an annotation as it is shown in a chapter, addressed to the
/// block it ends in so it appears right below the passage it belongs to.
pub open spec fn note_of(a: AnnotationView, href: Seq<char>, theme: ThemeView) -> Option<NoteView> {
    if a.href == href && a.note is Some && last_block(a.slices) is Some {
        Some(
            NoteView {
                block: last_block(a.slices)->0 as int,
                color: theme.marks[place_of(a.color)],
                text: a.note->0,
            },
        )
    } else {
        None
    }
}

/// The comments of a chapter.
pub open spec fn notes_of(
    annotations: Seq<AnnotationView>,
    href: Seq<char>,
    theme: ThemeView,
) -> Seq<NoteView>
    decreases annotations.len(),
{
    if annotations.len() == 0 {
        Seq::empty()
    } else {
        let front = notes_of(annotations.drop_last(), href, theme);
        match note_of(annotations.last(), href, theme) {
            Some(n) => front.push(n),
            None => front,
        }
    }
}

/// How much room the layout must leave for each picture.
pub open spec fn placements_of(slots: Seq<SlotView>) -> Seq<ImagePlacement> {
    slots.map_values(|s: SlotView| ImagePlacement { block: s.block, rows: s.rows })
}

/// The pictures that take any room at all.
pub open spec fn real_slots(slots: Seq<SlotView>) -> Seq<SlotView>
    decreases slots.len(),
{
    if slots.len() == 0 {
        slots
    } else {
        let front = real_slots(slots.drop_last());
        if slots.last().rows == 0 {
            front
        } else {
            front.push(slots.last())
        }
    }
}

/// The room a picture may take: the width of the text, and four fifths of the
/// height, rounded, so text stays visible around it. The floor of four rows keeps
/// a picture recognisable in a short window, but never past the window itself.
pub open spec fn picture_box(width: u16, height: u16, options: LayoutOptions) -> (u16, u16) {
    if width < 8 {
        (0, 0)
    } else {
        let narrow = if width < options.max_width {
            width
        } else {
            options.max_width
        };
        let share = (4 * height + 2) / 5;
        let rows = if share < 4 {
            4
        } else {
            share
        };
        (
            if narrow < 8 {
                8
            } else {
                narrow
            },
            if rows < height {
                rows as u16
            } else {
                height
            },
        )
    }
}

/// The last line from which a position is at or behind. Comments carry no
/// position of their own, and neither do blank lines: those are passed over.
pub open spec fn line_for(lines: Seq<LineView>, at: LocatorView, i: int, best: int) -> int
    decreases lines.len() - i,
{
    if i < 0 || i >= lines.len() {
        best
    } else if lines[i].kind is Note || lines[i].kind is Blank {
        line_for(lines, at, i + 1, best)
    } else if lines[i].block < at.block || (lines[i].block == at.block && lines[i].offset
        <= at.offset) {
        line_for(lines, at, i + 1, i)
    } else {
        best
    }
}

/// The slices of a selection, block by block. Nothing when it reaches past the
/// chapter.
pub open spec fn slices_between(
    blocks: Seq<BlockView>,
    start: (usize, usize),
    end: (usize, usize),
    n: int,
) -> Option<Seq<Slice>>
    decreases n,
{
    if n <= start.0 {
        Some(Seq::empty())
    } else if n - 1 >= blocks.len() {
        None
    } else {
        match slices_between(blocks, start, end, n - 1) {
            None => None,
            Some(front) => {
                let block = n - 1;
                let len = blocks[block].plain().len() as int;
                let from = if block == start.0 {
                    start.1 as int
                } else {
                    0
                };
                let to = if block == end.0 {
                    smaller(end.1 + 1, len)
                } else {
                    len
                };
                if from < to {
                    Some(
                        front.push(
                            Slice {
                                block: block as usize,
                                start: from as usize,
                                end: to as usize,
                            },
                        ),
                    )
                } else {
                    Some(front)
                }
            },
        }
    }
}

/// The text of one slice, without white space at its ends.
pub open spec fn slice_quote(blocks: Seq<BlockView>, slice: Slice) -> Seq<char> {
    if slice.block < blocks.len() {
        let s = blocks[slice.block as int].plain();
        let from = smaller(slice.start as int, s.len() as int);
        let to = smaller(slice.end as int, s.len() as int);
        if from < to {
            trim(s.subrange(from, to))
        } else {
            Seq::empty()
        }
    } else {
        Seq::empty()
    }
}

/// The texts of slices that hold any.
pub open spec fn quote_parts(blocks: Seq<BlockView>, slices: Seq<Slice>) -> Seq<Seq<char>>
    decreases slices.len(),
{
    if slices.len() == 0 {
        Seq::empty()
    } else {
        let front = quote_parts(blocks, slices.drop_last());
        let part = slice_quote(blocks, slices.last());
        if part.len() == 0 {
            front
        } else {
            front.push(part)
        }
    }
}

/// The annotated text.
pub open spec fn quote_of(blocks: Seq<BlockView>, slices: Seq<Slice>) -> Seq<char> {
    joined(quote_parts(blocks, slices), " "@)
}

/// The first annotation over a place in a chapter, from `i` on.
pub open spec fn mark_at(
    annotations: Seq<AnnotationView>,
    href: Seq<char>,
    at: (usize, usize),
    i: int,
) -> Option<int>
    decreases annotations.len() - i,
{
    if i < 0 || i >= annotations.len() {
        None
    } else if annotations[i].href == href && annotations[i].covers_at(at.0 as int, at.1 as int) {
        Some(i)
    } else {
        mark_at(annotations, href, at, i + 1)
    }
}

/// Annotations with the first one of an id changed.
pub open spec fn first_with_id(annotations: Seq<AnnotationView>, id: Seq<char>, i: int) -> Option<int>
    decreases annotations.len() - i,
{
    if i < 0 || i >= annotations.len() {
        None
    } else if annotations[i].id == id {
        Some(i)
    } else {
        first_with_id(annotations, id, i + 1)
    }
}

pub open spec fn with_note(
    annotations: Seq<AnnotationView>,
    id: Seq<char>,
    note: Option<Seq<char>>,
) -> Seq<AnnotationView> {
    match first_with_id(annotations, id, 0) {
        Some(i) => annotations.update(i, AnnotationView { note, ..annotations[i] }),
        None => annotations,
    }
}

pub open spec fn with_color(
    annotations: Seq<AnnotationView>,
    id: Seq<char>,
    color: Color,
) -> Seq<AnnotationView> {
    match first_with_id(annotations, id, 0) {
        Some(i) => annotations.update(i, AnnotationView { color, ..annotations[i] }),
        None => annotations,
    }
}

/// Annotations without those of an id.
pub open spec fn without_id(annotations: Seq<AnnotationView>, id: Seq<char>) -> Seq<AnnotationView>
    decreases annotations.len(),
{
    if annotations.len() == 0 {
        annotations
    } else {
        let front = without_id(annotations.drop_last(), id);
        if annotations.last().id == id {
            front
        } else {
            front.push(annotations.last())
        }
    }
}

impl AppView {
    /// The chapter on screen is one of the book's, and there is room to show it.
    pub open spec fn wf(self) -> bool {
        &&& 0 <= self.chapter_index < self.book.spine.len()
        &&& self.view_height >= 1
        &&& self.search.wf()
        &&& 0 <= self.scroll
        &&& 0 <= self.contents_cursor
        &&& 0 <= self.annotations_cursor
        &&& self.theme.marks.len() == 5
    }

    pub open spec fn says(self, status: Seq<char>) -> AppView {
        AppView { status: Some(status), ..self }
    }

    pub open spec fn silent(self) -> AppView {
        AppView { status: None, ..self }
    }

    pub open spec fn in_mode(self, mode: Mode) -> AppView {
        AppView { mode, ..self }
    }

    /// The reading position: where the topmost visible line comes from.
    pub open spec fn position(self) -> Option<LocatorView> {
        if 0 <= self.scroll < self.lines.len() {
            Some(
                LocatorView {
                    href: self.chapter.href,
                    block: self.lines[self.scroll].block as usize,
                    offset: self.lines[self.scroll].offset as usize,
                },
            )
        } else {
            None
        }
    }

    pub open spec fn max_scroll(self) -> int {
        less_by(self.lines.len() as int, self.view_height as int)
    }

    pub open spec fn clamped(self) -> AppView {
        AppView { scroll: smaller(self.scroll, self.max_scroll()), ..self }
    }

    /// Scrolled by so many lines, within the chapter.
    pub open spec fn scrolled(self, delta: int) -> AppView {
        let target = self.scroll + delta;
        AppView {
            scroll: if target < 0 {
                0
            } else {
                smaller(target, self.max_scroll())
            },
            status: None,
            ..self
        }
    }

    /// Characters of the book on a line.
    pub open spec fn line_len(self, line: int) -> int {
        clipped(self.lines[line].shown().len() as int)
    }

    /// The cursor as a block and character offset.
    pub open spec fn cursor_text(self) -> Option<(usize, usize)> {
        match self.cursor {
            Some((line, column)) => if 0 <= line < self.lines.len() {
                Some(
                    (
                        self.lines[line].block as usize,
                        clipped(self.lines[line].offset + column) as usize,
                    ),
                )
            } else {
                None
            },
            None => None,
        }
    }

    /// A cursor at a block offset, clamped into the line that holds it.
    pub open spec fn cursor_at(self, at: (usize, usize)) -> Option<(int, int)> {
        match line_at(self.lines, at.0 as int, at.1 as int) {
            Some(line) => Some(
                (
                    line,
                    smaller(
                        less_by(at.1 as int, self.lines[line].offset),
                        less_by(self.line_len(line), 1),
                    ),
                ),
            ),
            None => None,
        }
    }

    /// Scrolled just enough to keep the cursor on screen.
    pub open spec fn followed(self) -> AppView {
        match self.cursor {
            None => self,
            Some((line, _)) => {
                let height = self.view_height as int;
                let near = if line < self.scroll {
                    line
                } else if line >= self.scroll + height {
                    line + 1 - height
                } else {
                    self.scroll
                };
                (AppView { scroll: near, ..self }).clamped()
            },
        }
    }

    pub open spec fn with_cursor(self, cursor: Option<(int, int)>) -> AppView {
        AppView { cursor, ..self }
    }

    /// The selection as text coordinates, ordered from start to end. A linewise
    /// one is widened to whole lines.
    pub open spec fn selection(self) -> Option<((usize, usize), (usize, usize))> {
        if self.mode != Mode::Visual {
            None
        } else {
            match (self.anchor, self.cursor_text()) {
                (Some(anchor), Some(head)) => {
                    let (start, end) = if at_or_before(anchor, head) {
                        (anchor, head)
                    } else {
                        (head, anchor)
                    };
                    if !self.linewise {
                        Some((start, end))
                    } else {
                        match (
                            line_at(self.lines, start.0 as int, start.1 as int),
                            line_at(self.lines, end.0 as int, end.1 as int),
                        ) {
                            (Some(first), Some(last)) => Some(
                                (
                                    (
                                        self.lines[first].block as usize,
                                        self.lines[first].offset as usize,
                                    ),
                                    (
                                        self.lines[last].block as usize,
                                        clipped(
                                            self.lines[last].offset + less_by(
                                                self.line_len(last),
                                                1,
                                            ),
                                        ) as usize,
                                    ),
                                ),
                            ),
                            _ => None,
                        }
                    }
                },
                _ => None,
            }
        }
    }

    /// The current selection as slices over the chapter's blocks.
    pub open spec fn selection_slices(self) -> Option<Seq<Slice>> {
        match self.selection() {
            None => None,
            Some((start, end)) => match slices_between(
                self.chapter.blocks,
                start,
                end,
                end.0 + 1,
            ) {
                None => None,
                Some(slices) => if slices.len() == 0 {
                    None
                } else {
                    Some(slices)
                },
            },
        }
    }

    /// The annotation the cursor sits inside, if any.
    pub open spec fn mark_here(self) -> Option<int> {
        match self.cursor_text() {
            Some(at) => mark_at(self.annotations, self.chapter.href, at, 0),
            None => None,
        }
    }

    /// The link the cursor sits on, if any.
    pub open spec fn link_here(self) -> Option<int> {
        match self.cursor_text() {
            Some(at) => self.chapter.first_link(at.0 as int, at.1 as int, 0),
            None => None,
        }
    }

    /// Marks the layout as stale. Needed whenever annotations change, because
    /// comments are laid out as lines of their own.
    pub open spec fn stale(self) -> AppView {
        AppView { laid_out_for: 0, ..self }
    }

    /// Drops the layout, so the next one applies the pending position.
    pub open spec fn unlaid(self) -> AppView {
        AppView { laid_out_for: 0, lines: Seq::empty(), ..self }
    }

    // ----- layout -----
    /// The chapter laid out for a width, with its pictures as they were measured.
    pub open spec fn laid(self, width: u16, slots: Seq<SlotView>) -> AppView {
        let kept = if width < 8 {
            Seq::empty()
        } else {
            real_slots(slots)
        };
        AppView {
            image_slots: kept,
            image_box: picture_box(width, self.view_height, self.options),
            lines: laid_out(
                self.chapter.blocks,
                width,
                self.options,
                notes_of(self.annotations, self.chapter.href, self.theme),
                placements_of(kept),
            ),
            laid_out_for: width,
            pending_restore: None,
            pending_cursor: None,
            ..self
        }
    }

    /// The view at a position of the text, and the cursor at another.
    pub open spec fn placed(
        self,
        anchor: Option<LocatorView>,
        wanted: Option<(usize, usize)>,
    ) -> AppView {
        (AppView {
            scroll: match anchor {
                Some(a) => line_for(self.lines, a, 0, 0),
                None => self.scroll,
            },
            cursor: match wanted {
                Some(c) => self.cursor_at(c),
                None => self.cursor,
            },
            ..self
        }).clamped()
    }

    /// The reader once it knows the size of its window. `slots` are the pictures
    /// of the chapter as they were measured. A new layout keeps the position in
    /// the text, not the number of the line: the wrap changes.
    pub open spec fn prepared(self, width: u16, height: u16, slots: Seq<SlotView>) -> AppView {
        let s = AppView {
            view_height: if height < 1 {
                1
            } else {
                height
            },
            ..self
        };
        if width == s.laid_out_for && s.view_height == self.view_height && s.lines.len() > 0 {
            s.clamped()
        } else {
            let anchor = match s.pending_restore {
                Some(p) => Some(p),
                None => s.position(),
            };
            let wanted = match s.pending_cursor {
                Some(c) => Some(c),
                None => s.cursor_text(),
            };
            s.laid(width, slots).placed(anchor, wanted)
        }
    }

    // ----- navigation -----
    /// Asks for the reading position to be written, unless it is the one
    /// already written.
    pub open spec fn saved(self, aloud: bool) -> AppView {
        match self.position() {
            Some(locator) => if self.last_written == Some(locator) {
                self
            } else {
                AppView { request: Some(RequestView::Save { locator, aloud }), ..self }
            },
            None => self,
        }
    }

    pub open spec fn rescanned(self) -> AppView {
        if self.search.query.len() > 0 {
            AppView {
                search: SearchView {
                    query: self.search.query,
                    hits: all_hits(self.chapter.blocks, self.search.query),
                    current: None,
                },
                ..self
            }
        } else {
            self
        }
    }

    /// Another chapter, from its top.
    #[verifier::opaque]
    pub open spec fn gone_to(self, index: int) -> AppView {
        if index < 0 || index >= self.book.spine.len() {
            self
        } else {
            let s = AppView {
                chapter_index: index,
                chapter: chapter_shown(self.book, index),
                ..self.saved(false)
            };
            (AppView {
                contents_cursor: index,
                scroll: 0,
                cursor: None,
                anchor: None,
                mode: if s.mode == Mode::Visual || s.mode == Mode::Normal {
                    Mode::Reading
                } else {
                    s.mode
                },
                status: None,
                ..s.rescanned()
            }).unlaid()
        }
    }

    /// Shows the match the reader is on and reports which it is.
    pub open spec fn match_shown(self) -> AppView {
        match self.search.hit() {
            None => self,
            Some(hit) => (AppView {
                pending_restore: Some(
                    LocatorView { href: self.chapter.href, block: hit.0, offset: hit.1 },
                ),
                mode: Mode::Reading,
                status: match self.search.current {
                    Some(i) => Some(
                        quoted_text(self.search.query) + "  "@ + decimal((i + 1) as nat) + "/"@
                            + decimal(self.search.hits.len()),
                    ),
                    None => None,
                },
                ..self
            }).unlaid(),
        }
    }

    /// The nearest chapter with a match, looking on from `index`.
    pub open spec fn chapter_with_match(self, index: int, forward: bool) -> Option<int>
        decreases (if forward {
            self.book.spine.len() - index
        } else {
            index
        }),
    {
        let next = if forward {
            index + 1
        } else {
            index - 1
        };
        if index < 0 || index >= self.book.spine.len() || next < 0 || next
            >= self.book.spine.len() {
            None
        } else if all_hits(chapter_shown(self.book, next).blocks, self.search.query).len() > 0 {
            Some(next)
        } else {
            self.chapter_with_match(next, forward)
        }
    }

    /// The next or previous match, crossing chapters when this one holds no
    /// further match.
    #[verifier::opaque]
    pub open spec fn matched(self, forward: bool) -> AppView {
        if self.search.query.len() == 0 {
            self.says("nothing searched yet: / starts a search"@)
        } else if forward && self.search.can_step() {
            (AppView { search: self.search.stepped(), ..self }).match_shown()
        } else if !forward && self.search.can_step_back() {
            (AppView { search: self.search.stepped_back(), ..self }).match_shown()
        } else {
            self.looked_on(forward)
        }
    }

    /// The nearest match in the chapters ahead, or in those behind.
    #[verifier::opaque]
    pub open spec fn looked_on(self, forward: bool) -> AppView {
        match self.chapter_with_match(self.chapter_index, forward) {
            None => self.says("no more matches for "@ + quoted_text(self.search.query)),
            Some(index) => {
                let chapter = chapter_shown(self.book, index);
                let hits = all_hits(chapter.blocks, self.search.query);
                (AppView {
                    chapter_index: index,
                    chapter,
                    contents_cursor: index,
                    cursor: None,
                    anchor: None,
                    search: SearchView {
                        query: self.search.query,
                        hits,
                        current: Some(
                            if forward {
                                0usize
                            } else {
                                (hits.len() - 1) as usize
                            },
                        ),
                    },
                    ..self.saved(false)
                }).match_shown()
            },
        }
    }

    /// Takes back whatever is in force: the search highlighting first, then any
    /// message. Never quits.
    pub open spec fn dismissed(self) -> AppView {
        if self.search.query.len() > 0 {
            (AppView { search: no_search(), ..self }).says("search cleared"@)
        } else {
            self.silent()
        }
    }

    /// The link under the cursor, followed.
    #[verifier::opaque]
    pub open spec fn link_followed(self) -> AppView {
        match self.link_here() {
            None => self.says("no link here"@),
            Some(i) => {
                let target = self.chapter.links[i].target;
                // A link out of the book is shown rather than opened: this is a
                // reader, not a browser.
                if is_external(target) {
                    self.says("external link: "@ + target)
                } else {
                    let here = JumpView {
                        view: match self.position() {
                            Some(p) => p,
                            None => LocatorView { href: self.chapter.href, block: 0, offset: 0 },
                        },
                        cursor: self.cursor_text(),
                    };
                    // An empty file part means the same chapter.
                    let href = if target_file(target).len() == 0 {
                        self.chapter.href
                    } else {
                        href_resolved(self.chapter.href, target_file(target))
                    };
                    match chapter_for(self.book.spine, href) {
                        None => self.says("target is not in the reading order: "@ + href),
                        Some(index) => {
                            let s = if index != self.chapter_index {
                                self.gone_to(index)
                            } else {
                                self
                            };
                            let fragment = target_fragment(target);
                            let known = fragment is Some && s.chapter.anchors.contains_key(
                                fragment->0,
                            );
                            let landing = if known {
                                s.chapter.anchors[fragment->0]
                            } else {
                                (0usize, 0usize)
                            };
                            (AppView {
                                jumps: s.jumps.push(here),
                                pending_cursor: Some(landing),
                                mode: Mode::Normal,
                                pending_restore: Some(
                                    LocatorView {
                                        href: s.chapter.href,
                                        block: landing.0,
                                        offset: landing.1,
                                    },
                                ),
                                status: if fragment is Some && !known {
                                    Some(
                                        "target "@ + quoted_text(fragment->0)
                                            + " not found, showing the chapter"@,
                                    )
                                } else {
                                    None
                                },
                                ..s
                            }).unlaid()
                        },
                    }
                }
            },
        }
    }

    /// Back out of a followed link.
    #[verifier::opaque]
    pub open spec fn jumped_back(self) -> AppView {
        if self.jumps.len() == 0 {
            self.says("nowhere to go back to"@)
        } else {
            let back = self.jumps.last();
            let popped = AppView { jumps: self.jumps.drop_last(), ..self };
            let s = match chapter_for(self.book.spine, back.view.href) {
                Some(index) => if index != self.chapter_index {
                    (AppView {
                        chapter_index: index,
                        chapter: chapter_shown(self.book, index),
                        contents_cursor: index,
                        cursor: None,
                        anchor: None,
                        ..popped
                    }).rescanned()
                } else {
                    popped
                },
                None => popped,
            };
            (AppView {
                pending_restore: Some(back.view),
                pending_cursor: back.cursor,
                // Coming back into the text means the cursor is wanted, so the
                // mode follows it rather than dropping to plain reading.
                mode: if back.cursor is Some && s.mode == Mode::Reading {
                    Mode::Normal
                } else {
                    s.mode
                },
                status: None,
                ..s
            }).unlaid()
        }
    }
}

} // verus!
