//! What the reader tells the view.

use vstd::prelude::*;
use vstd::slice::slice_subrange;
use crate::annotation::{Annotation, AnnotationView};
use crate::app::{mark_list, place_opt, App, AppView, Mode};
use crate::app::marks::lemma_mark_pick;
use crate::app::reader::lemma_line_pick;
use crate::epub::entry_title;
use crate::layout::{line_views, Line, LineKind, LineView};
use crate::search::Search;
use crate::shelf::{less_by, smaller};
use crate::text::same;
use crate::theme::Theme;

verus! {

/// The annotations that a chapter holds.
pub open spec fn marks_in(annotations: Seq<AnnotationView>, href: Seq<char>) -> Seq<AnnotationView>
    decreases annotations.len(),
{
    if annotations.len() == 0 {
        annotations
    } else {
        let front = marks_in(annotations.drop_last(), href);
        if annotations.last().href == href {
            front.push(annotations.last())
        } else {
            front
        }
    }
}

pub open spec fn mark_refs(s: Seq<&Annotation>) -> Seq<AnnotationView> {
    s.map_values(|a: &Annotation| a@)
}

// ----- pictures -----
/// A picture to be decoded. Its id stays the same however often it leaves the
/// screen and comes back; 0 is reserved by the Kitty protocol.
#[derive(Debug)]
pub struct Fetch {
    pub id: u32,
    pub block: usize,
    pub src: String,
}

#[verifier::ext_equal]
pub struct FetchView {
    pub id: int,
    pub block: usize,
    pub src: Seq<char>,
}

impl View for Fetch {
    type V = FetchView;

    open spec fn view(&self) -> FetchView {
        FetchView { id: self.id as int, block: self.block, src: self.src@ }
    }
}

pub open spec fn fetch_views(s: Seq<Fetch>) -> Seq<FetchView> {
    s.map_values(|f: Fetch| f@)
}

/// One of the lines from `from` up to `to` belongs to the picture of `block`.
pub open spec fn pictured(lines: Seq<LineView>, from: int, to: int, block: usize) -> bool {
    exists|i: int| from <= i < to && #[trigger] row_of(lines, i, block)
}

/// A line that is a row of the picture of `block`.
pub open spec fn row_of(lines: Seq<LineView>, i: int, block: usize) -> bool {
    0 <= i < lines.len() && lines[i].kind is Image && lines[i].block == block
}

fn has_row(lines: &Vec<Line>, from: usize, to: usize, block: usize) -> (r: bool)
    ensures
        r == pictured(line_views(lines@), from as int, to as int, block),
{
    let ghost all = line_views(lines@);
    let total = lines.len();
    let mut i: usize = from;
    while i < to && i < total
        invariant
            all == line_views(lines@),
            total == lines@.len(),
            all.len() == total,
            from <= i,
            i <= to || i == from,
            forall|k: int| from <= k < i ==> !#[trigger] row_of(all, k, block),
        decreases total - i,
    {
        proof {
            lemma_line_pick(lines@, i as int);
        }
        if lines[i].block == block {
            if let LineKind::Image { .. } = lines[i].kind {
                assert(row_of(all, i as int, block));
                return true;
            }
        }
        assert(!row_of(all, i as int, block));
        i += 1;
    }
    false
}

impl AppView {
    pub open spec fn shows_picture(self, block: usize) -> bool {
        pictured(self.lines, self.scroll, self.scroll + self.view_height, block)
    }

    /// Reading moves back as well as forward, and a picture just off the edge is
    /// about to be wanted again.
    pub open spec fn nears_picture(self, block: usize) -> bool {
        pictured(
            self.lines,
            less_by(self.scroll, self.view_height as int),
            self.scroll + 2 * self.view_height,
            block,
        )
    }

    /// Of the pictures that are held, those near the view.
    pub open spec fn pictures_kept(self, held: Seq<usize>) -> Seq<usize>
        decreases held.len(),
    {
        if held.len() == 0 {
            held
        } else {
            let front = self.pictures_kept(held.drop_last());
            if self.nears_picture(held.last()) {
                front.push(held.last())
            } else {
                front
            }
        }
    }

    /// Of the first `n` pictures, those on screen that are not held.
    pub open spec fn pictures_due(self, kept: Seq<usize>, n: nat) -> Seq<FetchView>
        decreases n,
    {
        if n == 0 {
            Seq::empty()
        } else {
            let front = self.pictures_due(kept, (n - 1) as nat);
            let slot = self.image_slots[n - 1];
            if self.shows_picture(slot.block) && !kept.contains(slot.block) {
                front.push(FetchView { id: n as int, block: slot.block, src: slot.src })
            } else {
                front
            }
        }
    }

    pub open spec fn progressed(self) -> int {
        if self.lines.len() <= self.view_height {
            100
        } else {
            let last = self.lines.len() - self.view_height;
            smaller(self.scroll, last) * 100 / last
        }
    }
}

/// Which pictures stay decoded, and which have to be decoded now.
#[derive(Debug)]
pub struct ImagePlan {
    pub keep: Vec<usize>,
    pub fetch: Vec<Fetch>,
}

fn holds(v: &Vec<usize>, x: usize) -> (r: bool)
    ensures
        r == v@.contains(x),
{
    let mut i: usize = 0;
    while i < v.len()
        invariant
            i <= v@.len(),
            forall|k: int| 0 <= k < i ==> v@[k] != x,
        decreases v@.len() - i,
    {
        if v[i] == x {
            return true;
        }
        i += 1;
    }
    false
}

/// The sum, or the largest number there is. No line has that number.
fn far(a: usize, b: usize) -> (r: usize)
    ensures
        r == if a + b > usize::MAX {
            usize::MAX as int
        } else {
            a + b
        },
{
    match a.checked_add(b) {
        Some(n) => n,
        None => usize::MAX,
    }
}

proof fn lemma_pictured_within(lines: Seq<LineView>, from: int, to: int, more: int, block: usize)
    requires
        to <= more,
        lines.len() <= to || to == more,
    ensures
        pictured(lines, from, to, block) == pictured(lines, from, more, block),
{
    if pictured(lines, from, more, block) {
        let i = choose|i: int| from <= i < more && #[trigger] row_of(lines, i, block);
        assert(from <= i < to && row_of(lines, i, block));
    }
    if pictured(lines, from, to, block) {
        let i = choose|i: int| from <= i < to && #[trigger] row_of(lines, i, block);
        assert(from <= i < more && row_of(lines, i, block));
    }
}

impl App {
    fn shows(&self, block: usize) -> (r: bool)
        ensures
            r == self@.shows_picture(block),
    {
        let to = far(self.scroll, self.view_height as usize);
        let n = self.lines.len();
        proof {
            assert(self@.lines.len() == n);
            lemma_pictured_within(
                self@.lines,
                self.scroll as int,
                to as int,
                self.scroll + self.view_height,
                block,
            );
        }
        has_row(&self.lines, self.scroll, to, block)
    }

    fn nears(&self, block: usize) -> (r: bool)
        ensures
            r == self@.nears_picture(block),
    {
        let height = self.view_height as usize;
        let from = if self.scroll < height {
            0
        } else {
            self.scroll - height
        };
        let to = far(far(self.scroll, height), height);
        let n = self.lines.len();
        proof {
            assert(self@.lines.len() == n);
            lemma_pictured_within(
                self@.lines,
                from as int,
                to as int,
                self.scroll + 2 * self.view_height,
                block,
            );
        }
        has_row(&self.lines, from, to, block)
    }

    fn kept(&self, held: &Vec<usize>) -> (r: Vec<usize>)
        ensures
            r@ == self@.pictures_kept(held@),
    {
        let mut out: Vec<usize> = Vec::new();
        let mut i: usize = 0;
        assert(held@.take(0) =~= Seq::<usize>::empty());
        while i < held.len()
            invariant
                i <= held@.len(),
                out@ == self@.pictures_kept(held@.take(i as int)),
            decreases held@.len() - i,
        {
            assert(held@.take(i + 1).drop_last() =~= held@.take(i as int));
            let block = held[i];
            if self.nears(block) {
                out.push(block);
            }
            i += 1;
        }
        assert(held@.take(held@.len() as int) =~= held@);
        out
    }

    /// Which pictures to decode before the next draw, and which of the `held`
    /// ones to keep.
    ///
    /// Decoding one picture costs milliseconds; decoding a chapter of them costs
    /// seconds, which is why only what is on screen is done. Nothing changes
    /// while there is no room for pictures, or there are none.
    pub fn image_plan(&self, held: &Vec<usize>) -> (r: Option<ImagePlan>)
        requires
            self@.image_slots.len() < u32::MAX,
        ensures
            r is None <==> self@.image_box.0 == 0 || self@.image_slots.len() == 0,
            r matches Some(plan) ==> plan.keep@ == self@.pictures_kept(held@) && fetch_views(
                plan.fetch@,
            ) == self@.pictures_due(plan.keep@, self@.image_slots.len()),
    {
        let total = self.image_slots.len();
        assert(self@.image_slots.len() == total);
        if self.image_box.0 == 0 || total == 0 {
            return None;
        }
        let keep = self.kept(held);
        let mut fetch: Vec<Fetch> = Vec::new();
        let mut i: usize = 0;
        assert(fetch_views(fetch@) =~= Seq::<FetchView>::empty());
        while i < total
            invariant
                i <= total,
                total == self.image_slots@.len(),
                total == self@.image_slots.len(),
                total < u32::MAX,
                fetch_views(fetch@) == self@.pictures_due(keep@, i as nat),
            decreases total - i,
        {
            let slot = &self.image_slots[i];
            assert(self@.image_slots[i as int] == slot@);
            assert(self@.pictures_due(keep@, (i + 1) as nat) == (if self@.shows_picture(slot.block)
                && !keep@.contains(slot.block) {
                self@.pictures_due(keep@, i as nat).push(
                    FetchView { id: i + 1, block: slot.block, src: slot.src@ },
                )
            } else {
                self@.pictures_due(keep@, i as nat)
            }));
            if self.shows(slot.block) && !holds(&keep, slot.block) {
                let ghost before = fetch@;
                let f = Fetch { id: i as u32 + 1, block: slot.block, src: slot.src.clone() };
                fetch.push(f);
                assert(fetch_views(fetch@) =~= fetch_views(before).push(f@));
            }
            i += 1;
        }
        Some(ImagePlan { keep, fetch })
    }

    // ----- the rest -----
    pub fn search(&self) -> (r: &Search)
        ensures
            r@ == self@.search,
    {
        &self.search
    }

    /// The search prompt, while one is being typed.
    pub fn search_input(&self) -> (r: Option<&str>)
        ensures
            match r {
                Some(t) => self@.mode == Mode::Search && t@ == self@.search_input,
                None => self@.mode != Mode::Search,
            },
    {
        if self.mode == Mode::Search {
            Some(self.search_input.as_str())
        } else {
            None
        }
    }

    pub fn theme(&self) -> (r: Theme)
        ensures
            r@ == self@.theme,
    {
        self.theme
    }

    /// Takes new colours over. Comment lines carry their annotation's colour, so
    /// the layout has to be rebuilt for the new palette.
    pub fn refresh_theme(&mut self, theme: Theme)
        requires
            old(self).wf(),
        ensures
            final(self).wf(),
            final(self)@ == (AppView { theme: theme@, ..old(self)@ }).stale(),
    {
        self.theme = theme;
        self.laid_out_for = 0;
    }

    /// Identifies what is on screen: chapter, scroll position, layout width and
    /// mode.
    ///
    /// Pixel pictures live outside the text buffer, so a partial redraw leaves
    /// them behind. When this token changes, the screen has to be cleared before
    /// the next draw. The mode belongs in it because an overlay covers the text
    /// with cells, which leaves any picture underneath showing through.
    pub fn frame_token(&self) -> (r: (usize, usize, u16, Mode))
        ensures
            r.0 == self@.chapter_index,
            r.1 == self@.scroll,
            r.2 == self@.laid_out_for,
            r.3 == self@.mode,
    {
        (self.chapter_index, self.scroll, self.laid_out_for, self.mode)
    }

    pub fn title(&self) -> (r: &str)
        ensures
            r@ == (match self@.book.metadata.title {
                Some(t) => t,
                None => "Untitled"@,
            }),
    {
        self.book.title()
    }

    pub fn chapter_title(&self) -> (r: String)
        requires
            self.wf(),
        ensures
            r@ == entry_title(self@.book.spine[self@.chapter_index], self@.chapter_index),
    {
        let i = self.chapter_index;
        let n = self.book.spine.len();
        assert(self@.book.spine.len() == n);
        assert(self@.book.spine[i as int] == self.book.spine@[i as int]@);
        self.book.spine[i].shown_title(i)
    }

    /// Which chapter of how many.
    pub fn chapter_number(&self) -> (r: (usize, usize))
        requires
            self.wf(),
        ensures
            r.0 == self@.chapter_index + 1,
            r.1 == self@.book.spine.len(),
    {
        let n = self.book.spine.len();
        assert(self@.book.spine.len() == n);
        (self.chapter_index + 1, n)
    }

    /// The titles of all chapters, in reading order.
    pub fn contents(&self) -> (r: Vec<String>)
        ensures
            r@.len() == self@.book.spine.len(),
            forall|i: int|
                0 <= i < r@.len() ==> (#[trigger] r@[i])@ == entry_title(self@.book.spine[i], i),
    {
        let mut out: Vec<String> = Vec::new();
        let n = self.book.spine.len();
        let mut i: usize = 0;
        while i < n
            invariant
                i <= n,
                n == self.book.spine@.len(),
                n == self@.book.spine.len(),
                out@.len() == i,
                forall|k: int|
                    0 <= k < i ==> (#[trigger] out@[k])@ == entry_title(self@.book.spine[k], k),
            decreases n - i,
        {
            assert(self@.book.spine[i as int] == self.book.spine@[i as int]@);
            out.push(self.book.spine[i].shown_title(i));
            i += 1;
        }
        out
    }

    pub fn contents_cursor(&self) -> (r: usize)
        ensures
            r == self@.contents_cursor,
    {
        self.contents_cursor
    }

    pub fn annotations(&self) -> (r: &Vec<Annotation>)
        ensures
            mark_list(r@) == self@.annotations,
    {
        &self.annotations
    }

    pub fn annotations_cursor(&self) -> (r: usize)
        ensures
            r == self@.annotations_cursor,
    {
        self.annotations_cursor
    }

    pub fn status(&self) -> (r: Option<&str>)
        ensures
            match self@.status {
                Some(t) => r is Some && r->0@ == t,
                None => r is None,
            },
    {
        match &self.status {
            Some(t) => Some(t.as_str()),
            None => None,
        }
    }

    /// Annotations of the chapter on screen.
    pub fn annotations_here(&self) -> (r: Vec<&Annotation>)
        ensures
            mark_refs(r@) == marks_in(self@.annotations, self@.chapter.href),
    {
        let ghost all = self@.annotations;
        let ghost href = self@.chapter.href;
        let mut out: Vec<&Annotation> = Vec::new();
        let mut i: usize = 0;
        assert(all.take(0) =~= Seq::<AnnotationView>::empty());
        assert(mark_refs(out@) =~= Seq::<AnnotationView>::empty());
        while i < self.annotations.len()
            invariant
                all == self@.annotations,
                all.len() == self.annotations@.len(),
                href == self@.chapter.href,
                i <= self.annotations@.len(),
                mark_refs(out@) == marks_in(all.take(i as int), href),
            decreases self.annotations@.len() - i,
        {
            proof {
                lemma_mark_pick(self.annotations@, i as int);
                assert(all.take(i + 1).drop_last() =~= all.take(i as int));
            }
            let a = &self.annotations[i];
            if same(&a.href, &self.chapter.href) {
                let ghost before = out@;
                out.push(a);
                assert(mark_refs(out@) =~= mark_refs(before).push(a@));
            }
            i += 1;
        }
        assert(all.take(all.len() as int) =~= all);
        out
    }

    /// The cursor's line and column, when a cursor exists.
    pub fn cursor_position(&self) -> (r: Option<(usize, usize)>)
        ensures
            place_opt(r) == self@.cursor,
    {
        self.cursor
    }

    /// How far down the chapter the view is, in percent.
    pub fn progress(&self) -> (r: u16)
        ensures
            r == self@.progressed(),
    {
        let total = self.lines.len();
        assert(self@.lines.len() == total);
        if total <= self.view_height as usize {
            return 100;
        }
        let last = total - self.view_height as usize;
        let at = if self.scroll < last {
            self.scroll
        } else {
            last
        };
        let share = (at as u128 * 100) / last as u128;
        assert(at * 100 / (last as int) <= 100) by (nonlinear_arith)
            requires
                0 <= at <= last,
                last > 0,
        ;
        share as u16
    }

    /// First visible line, needed by the view to map screen rows to lines.
    pub fn scroll(&self) -> (r: usize)
        ensures
            r == self@.scroll,
    {
        self.scroll
    }

    pub fn visible_lines(&self) -> (r: &[Line])
        ensures
            line_views(r@) == self@.lines.subrange(
                smaller(self@.scroll, self@.lines.len() as int),
                smaller(self@.scroll + self@.view_height, self@.lines.len() as int),
            ),
    {
        let total = self.lines.len();
        let end = far(self.scroll, self.view_height as usize);
        let end = if end < total {
            end
        } else {
            total
        };
        let start = if self.scroll < total {
            self.scroll
        } else {
            total
        };
        let r = slice_subrange(self.lines.as_slice(), start, end);
        assert(line_views(r@) =~= self@.lines.subrange(start as int, end as int));
        r
    }
}

} // verus!
