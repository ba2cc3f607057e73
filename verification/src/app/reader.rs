//! Opening a book, positions in it, and its layout.

use vstd::prelude::*;
use crate::annotation::{Annotation, AnnotationView, Slice};
use crate::app::{App, AppView, ImageSlot, Mode, SlotView, mark_list, place_opt, slot_views};
use crate::app::show::{
    find_last_block, line_for, mark_at, notes_of, picture_box, placements_of, quote_of, quote_parts,
    real_slots, slices_between,
};
use crate::app::target::{chapter_shown, find_exact, index_opt, load_chapter, spine_exact};
use crate::doc::{BlockKind, BlockView, KindView, Link, Locator};
use crate::epub::Book;
use crate::failure::join;
use crate::identity::BookId;
use crate::journal::{Journal, State, lists, locator_opt};
use crate::layout::{
    ImagePlacement, Index, LayoutOptions, Line, LineKind, NoteAnchor, NoteView, layout_full,
    line_views, note_views,
};
use crate::search::{Search, no_search};
use crate::text::{chars_of, push_text, same, sub_chars, text_of, texts, trimmed};
use crate::theme::Theme;

verus! {

pub(crate) proof fn lemma_line_pick(lines: Seq<Line>, i: int)
    requires
        0 <= i < lines.len(),
    ensures
        line_views(lines)[i] == lines[i]@,
        line_views(lines).len() == lines.len(),
{
}

impl App {
    pub open spec fn wf(&self) -> bool {
        &&& self@.wf()
        &&& self.chapter.wf()
    }

    /// Opens a book where it was left. The chapter that the recorded position
    /// points into is loaded, not always the first.
    pub fn new(book: Book, id: BookId, journal: Journal, state: &State, options: LayoutOptions, theme: Theme) -> (r:
        Self)
        requires
            state.wf(),
            book@.spine.len() > 0,
        ensures
            r.wf(),
            lists(r.annotations@, state@.marks_of(id@)),
            ({
                let restore = if state@.positions.contains_key(id@) {
                    Some(state@.positions[id@].locator)
                } else {
                    None
                };
                let index = match restore {
                    Some(l) => match spine_exact(book@.spine, l.href, 0) {
                        Some(i) => i,
                        None => 0,
                    },
                    None => 0,
                };
                r@ == (AppView {
                    book: book@,
                    chapter_index: index,
                    chapter: chapter_shown(book@, index),
                    lines: Seq::empty(),
                    scroll: 0,
                    laid_out_for: 0,
                    view_height: 1,
                    mode: Mode::Reading,
                    contents_cursor: index,
                    annotations_cursor: 0,
                    cursor: None,
                    anchor: None,
                    linewise: false,
                    pending: None,
                    status: None,
                    should_quit: false,
                    should_quit_program: false,
                    options,
                    id: id@,
                    host: journal.host@,
                    last_written: locator_opt(journal.last_written),
                    id_counter: journal.id_counter as int,
                    pending_restore: restore,
                    annotations: r@.annotations,
                    image_slots: Seq::empty(),
                    image_box: (0, 0),
                    theme: theme@,
                    search: no_search(),
                    jumps: Seq::empty(),
                    pending_cursor: None,
                    search_input: Seq::empty(),
                    pending_edit: None,
                    request: None,
                })
            }),
    {
        let restore = match state.position(&id) {
            Some(l) => Some(l.clone()),
            None => None,
        };
        let annotations = state.annotations(&id);
        let chapter_index = match &restore {
            Some(l) => match find_exact(&book, &l.href) {
                Some(i) => i,
                None => 0,
            },
            None => 0,
        };
        let chapter = load_chapter(&book, chapter_index);
        let r = App {
            book,
            chapter_index,
            chapter,
            lines: Vec::new(),
            scroll: 0,
            laid_out_for: 0,
            view_height: 1,
            mode: Mode::Reading,
            contents_cursor: chapter_index,
            annotations_cursor: 0,
            cursor: None,
            anchor: None,
            linewise: false,
            pending: None,
            status: None,
            should_quit: false,
            should_quit_program: false,
            options,
            id,
            journal,
            pending_restore: restore,
            annotations,
            image_slots: Vec::new(),
            image_box: (0, 0),
            theme,
            search: Search::default(),
            jumps: Vec::new(),
            pending_cursor: None,
            search_input: String::new(),
            pending_edit: None,
            request: None,
        };
        assert(r@.lines =~= Seq::empty());
        assert(r@.image_slots =~= Seq::empty());
        assert(r@.jumps =~= Seq::empty());
        assert(r@.search_input =~= Seq::empty());
        assert(theme.marks@.len() == 5);
        r
    }

    // ----- positions -----
    pub fn position(&self) -> (r: Option<Locator>)
        requires
            self.wf(),
        ensures
            locator_opt(r) == self@.position(),
    {
        assert(self@.lines.len() == self.lines@.len());
        if self.scroll < self.lines.len() {
            let line = &self.lines[self.scroll];
            proof {
                lemma_line_pick(self.lines@, self.scroll as int);
            }
            Some(
                Locator {
                    href: self.chapter.href.clone(),
                    block: line.block,
                    offset: line.offset,
                },
            )
        } else {
            None
        }
    }

    pub(crate) fn max_scroll(&self) -> (r: usize)
        ensures
            r == self@.max_scroll(),
    {
        let n = self.lines.len();
        assert(self@.lines.len() == n);
        let height = self.view_height as usize;
        if n < height {
            0
        } else {
            n - height
        }
    }

    fn clamp_scroll(&mut self)
        requires
            old(self).wf(),
        ensures
            final(self).wf(),
            final(self)@ == old(self)@.clamped(),
    {
        let max = self.max_scroll();
        if max < self.scroll {
            self.scroll = max;
        }
    }

    pub(crate) fn scroll_down(&mut self, n: u16)
        requires
            old(self).wf(),
        ensures
            final(self).wf(),
            final(self)@ == old(self)@.scrolled(n as int),
    {
        let max = self.max_scroll();
        self.scroll = if self.scroll >= max || n as usize >= max - self.scroll {
            max
        } else {
            self.scroll + n as usize
        };
        self.status = None;
    }

    pub(crate) fn scroll_up(&mut self, n: u16)
        requires
            old(self).wf(),
        ensures
            final(self).wf(),
            final(self)@ == old(self)@.scrolled(-(n as int)),
    {
        let max = self.max_scroll();
        let target = if self.scroll < n as usize {
            0
        } else {
            self.scroll - n as usize
        };
        self.scroll = if target < max {
            target
        } else {
            max
        };
        self.status = None;
    }

    /// The cursor as a block and character offset.
    pub fn cursor_text_position(&self) -> (r: Option<(usize, usize)>)
        ensures
            r == self@.cursor_text(),
    {
        assert(self@.lines.len() == self.lines@.len());
        match self.cursor {
            Some((line, column)) => if line < self.lines.len() {
                proof {
                    lemma_line_pick(self.lines@, line as int);
                }
                let l = &self.lines[line];
                Some((l.block, l.offset.saturating_add(column)))
            } else {
                None
            },
            None => None,
        }
    }

    /// A cursor pointing at a block offset, clamped into the line that holds it.
    pub(crate) fn cursor_at(&self, block: usize, offset: usize) -> (r: Option<(usize, usize)>)
        ensures
            place_opt(r) == self@.cursor_at((block, offset)),
    {
        match Index::new(&self.lines).line_of(block, offset) {
            Some(line) => {
                proof {
                    lemma_line_pick(self.lines@, line as int);
                }
                let l = &self.lines[line];
                let ahead = if offset < l.offset {
                    0
                } else {
                    offset - l.offset
                };
                let n = l.text_len();
                let last = if n < 1 {
                    0
                } else {
                    n - 1
                };
                Some(
                    (
                        line,
                        if ahead < last {
                            ahead
                        } else {
                            last
                        },
                    ),
                )
            },
            None => None,
        }
    }

    /// Scrolls just enough to keep the cursor on screen.
    pub(crate) fn follow_cursor(&mut self)
        requires
            old(self).wf(),
        ensures
            final(self).wf(),
            final(self)@ == old(self)@.followed(),
    {
        if let Some((line, _)) = self.cursor {
            let height = self.view_height as usize;
            if line < self.scroll {
                self.scroll = line;
            } else if line - self.scroll >= height {
                self.scroll = line - height + 1;
            }
            self.clamp_scroll();
        }
    }

    /// The selection as text coordinates, ordered from start to end.
    pub fn selection(&self) -> (r: Option<((usize, usize), (usize, usize))>)
        ensures
            r == self@.selection(),
    {
        if self.mode != Mode::Visual {
            return None;
        }
        let anchor = match self.anchor {
            Some(a) => a,
            None => {
                return None;
            },
        };
        let head = match self.cursor_text_position() {
            Some(h) => h,
            None => {
                return None;
            },
        };
        let head_first = head.0 < anchor.0 || (head.0 == anchor.0 && head.1 < anchor.1);
        let (start, end) = if head_first {
            (head, anchor)
        } else {
            (anchor, head)
        };
        if !self.linewise {
            return Some((start, end));
        }
        // Widen to whole lines. The anchor stays a text position, so a resize
        // re-derives the lines rather than invalidating the selection.
        let index = Index::new(&self.lines);
        match (index.line_of(start.0, start.1), index.line_of(end.0, end.1)) {
            (Some(first), Some(last)) => {
                proof {
                    lemma_line_pick(self.lines@, first as int);
                    lemma_line_pick(self.lines@, last as int);
                }
                let n = self.lines[last].text_len();
                let tail = if n < 1 {
                    0
                } else {
                    n - 1
                };
                Some(
                    (
                        (self.lines[first].block, self.lines[first].offset),
                        (self.lines[last].block, self.lines[last].offset.saturating_add(tail)),
                    ),
                )
            },
            _ => None,
        }
    }

    /// Turns the current selection into slices over the chapter's blocks.
    pub(crate) fn selection_slices(&self) -> (r: Option<Vec<Slice>>)
        ensures
            match self@.selection_slices() {
                Some(v) => r matches Some(x) && x@ == v,
                None => r is None,
            },
    {
        let (start, end) = match self.selection() {
            Some(p) => p,
            None => {
                return None;
            },
        };
        let ghost blocks = self@.chapter.blocks;
        let mut slices: Vec<Slice> = Vec::new();
        let mut block: usize = start.0;
        assert(blocks.len() == self.chapter.blocks@.len());
        assert(slices_between(blocks, start, end, block as int) == Some(slices@));
        while block <= end.0
            invariant
                blocks == self@.chapter.blocks,
                blocks.len() == self.chapter.blocks@.len(),
                start.0 <= block,
                block <= end.0 + 1 || block == start.0,
                slices_between(blocks, start, end, block as int) == Some(slices@),
                self@.selection() == Some((start, end)),
            decreases end.0 + 1 - block,
        {
            if block >= self.chapter.blocks.len() {
                proof {
                    lemma_slices_none(blocks, start, end, block + 1, end.0 + 1);
                }
                return None;
            }
            assert(blocks[block as int] == self.chapter.blocks@[block as int]@);
            let len = self.chapter.blocks[block].plain_chars().len();
            let from = if block == start.0 {
                start.1
            } else {
                0
            };
            // The selection includes the character under the cursor.
            let to = if block == end.0 && end.1 < len {
                end.1 + 1
            } else {
                len
            };
            if from < to {
                slices.push(Slice { block, start: from, end: to });
            }
            block += 1;
        }
        assert(start.0 > end.0 ==> slices_between(blocks, start, end, end.0 + 1) == Some(
            Seq::<Slice>::empty(),
        ));
        if slices.len() == 0 {
            None
        } else {
            Some(slices)
        }
    }

    pub(crate) fn quote_of(&self, slices: &Vec<Slice>) -> (r: String)
        ensures
            r@ == quote_of(self@.chapter.blocks, slices@),
    {
        let ghost blocks = self@.chapter.blocks;
        let mut parts: Vec<String> = Vec::new();
        let mut i: usize = 0;
        assert(blocks.len() == self.chapter.blocks@.len());
        assert(slices@.take(0) =~= Seq::<Slice>::empty());
        assert(texts(parts@) =~= Seq::<Seq<char>>::empty());
        while i < slices.len()
            invariant
                i <= slices@.len(),
                blocks == self@.chapter.blocks,
                blocks.len() == self.chapter.blocks@.len(),
                texts(parts@) == quote_parts(blocks, slices@.take(i as int)),
            decreases slices@.len() - i,
        {
            let slice = slices[i];
            let ghost before = texts(parts@);
            assert(slices@.take(i + 1).drop_last() =~= slices@.take(i as int));
            if slice.block < self.chapter.blocks.len() {
                assert(blocks[slice.block as int] == self.chapter.blocks@[slice.block as int]@);
                let s = self.chapter.blocks[slice.block].plain_chars();
                let n = s.len();
                let from = if slice.start < n {
                    slice.start
                } else {
                    n
                };
                let to = if slice.end < n {
                    slice.end
                } else {
                    n
                };
                if from < to {
                    let part = sub_chars(&s, from, to);
                    let t = trimmed(&part);
                    if t.len() > 0 {
                        let text = text_of(&t);
                        parts.push(text);
                        assert(texts(parts@) =~= before.push(text@));
                    }
                }
            }
            i += 1;
        }
        assert(slices@.take(slices@.len() as int) =~= slices@);
        join(&parts, " ")
    }

    /// The place of the annotation the cursor sits inside, if any.
    pub(crate) fn mark_here(&self) -> (r: Option<usize>)
        ensures
            index_opt(r) == self@.mark_here(),
            r matches Some(i) ==> i < self.annotations@.len(),
    {
        let at = match self.cursor_text_position() {
            Some(p) => p,
            None => {
                return None;
            },
        };
        let ghost all = self@.annotations;
        let mut i: usize = 0;
        while i < self.annotations.len()
            invariant
                i <= self.annotations@.len(),
                all == mark_list(self.annotations@),
                self@.cursor_text() == Some(at),
                mark_at(all, self@.chapter.href, at, 0) == mark_at(
                    all,
                    self@.chapter.href,
                    at,
                    i as int,
                ),
            decreases self.annotations@.len() - i,
        {
            assert(all[i as int] == self.annotations@[i as int]@);
            if same(&self.annotations[i].href, &self.chapter.href) && self.annotations[i].covers(
                at.0,
                at.1,
            ) {
                return Some(i);
            }
            i += 1;
        }
        None
    }

    /// The annotation the cursor sits inside, if any. This is what `e`, `d` and
    /// `m` act on while reading, so an annotation can be changed where it is
    /// rather than only through the list.
    pub fn annotation_at_cursor(&self) -> (r: Option<&Annotation>)
        ensures
            match self@.mark_here() {
                Some(i) => r matches Some(a) && a@ == self@.annotations[i],
                None => r is None,
            },
    {
        match self.mark_here() {
            Some(i) => {
                assert(self@.annotations[i as int] == self.annotations@[i as int]@);
                Some(&self.annotations[i])
            },
            None => None,
        }
    }

    /// The link the cursor sits on, if any.
    pub fn link_at_cursor(&self) -> (r: Option<&Link>)
        ensures
            match self@.link_here() {
                Some(i) => r matches Some(l) && l@ == self@.chapter.links[i],
                None => r is None,
            },
    {
        match self.cursor_text_position() {
            Some((block, offset)) => self.chapter.link_at(block, offset),
            None => None,
        }
    }

    // ----- layout -----
    /// Comments of this chapter, addressed to the block each one ends in so it
    /// appears right below the passage it belongs to.
    fn notes(&self) -> (r: Vec<NoteAnchor>)
        requires
            self.wf(),
        ensures
            note_views(r@) == notes_of(self@.annotations, self@.chapter.href, self@.theme),
    {
        let ghost all = self@.annotations;
        let mut out: Vec<NoteAnchor> = Vec::new();
        let mut i: usize = 0;
        assert(all.take(0) =~= Seq::<AnnotationView>::empty());
        assert(note_views(out@) =~= Seq::<NoteView>::empty());
        while i < self.annotations.len()
            invariant
                i <= self.annotations@.len(),
                all == mark_list(self.annotations@),
                note_views(out@) == notes_of(
                    all.take(i as int),
                    self@.chapter.href,
                    self@.theme,
                ),
            decreases self.annotations@.len() - i,
        {
            let a = &self.annotations[i];
            assert(all[i as int] == a@);
            assert(all.take(i + 1).drop_last() =~= all.take(i as int));
            let ghost before = note_views(out@);
            if same(&a.href, &self.chapter.href) {
                if let Some(text) = &a.note {
                    if let Some(block) = find_last_block(&a.slices) {
                        let place = a.color.index();
                        let note = NoteAnchor {
                            block,
                            color: self.theme.marks[place],
                            text: text.clone(),
                        };
                        out.push(note);
                        assert(note_views(out@) =~= before.push(note@));
                    }
                }
            }
            i += 1;
        }
        assert(all.take(all.len() as int) =~= all);
        out
    }

    /// The room a picture may take in a window of this size.
    pub fn image_box_for(&self, width: u16, height: u16) -> (r: (u16, u16))
        ensures
            r == picture_box(
                width,
                if height < 1 {
                    1
                } else {
                    height
                },
                self@.options,
            ),
    {
        if width < 8 {
            return (0, 0);
        }
        let height: u16 = if height < 1 {
            1
        } else {
            height
        };
        let narrow = if width < self.options.max_width {
            width
        } else {
            self.options.max_width
        };
        let share = ((4 * height as u32 + 2) / 5) as u16;
        let rows: u16 = if share < 4 {
            4
        } else {
            share
        };
        (
            if narrow < 8 {
                8
            } else {
                narrow
            },
            if rows < height {
                rows
            } else {
                height
            },
        )
    }

    /// Whether the layout has to be rebuilt for a window of this size, and so the
    /// pictures measured.
    pub fn needs_layout(&self, width: u16, height: u16) -> (r: bool)
        ensures
            r == !(width == self@.laid_out_for && self@.view_height == (if height < 1 {
                1
            } else {
                height
            }) && self@.lines.len() > 0),
    {
        assert(self@.lines.len() == self.lines@.len());
        let rows: u16 = if height < 1 {
            1
        } else {
            height
        };
        !(width == self.laid_out_for && rows == self.view_height && self.lines.len() > 0)
    }

    /// The pictures of the chapter that have a source, to be measured.
    pub fn image_sources(&self) -> (r: Vec<(usize, String)>)
        ensures
            r@.map_values(|p: (usize, String)| (p.0 as int, p.1@)) == sources_in(
                self@.chapter.blocks,
                self@.chapter.blocks.len() as int,
            ),
    {
        let ghost blocks = self@.chapter.blocks;
        let mut out: Vec<(usize, String)> = Vec::new();
        let mut i: usize = 0;
        assert(out@.map_values(|p: (usize, String)| (p.0 as int, p.1@)) =~= Seq::<
            (int, Seq<char>),
        >::empty());
        while i < self.chapter.blocks.len()
            invariant
                i <= self.chapter.blocks@.len(),
                blocks == self@.chapter.blocks,
                blocks.len() == self.chapter.blocks@.len(),
                out@.map_values(|p: (usize, String)| (p.0 as int, p.1@)) == sources_in(
                    blocks,
                    i as int,
                ),
            decreases self.chapter.blocks@.len() - i,
        {
            assert(blocks[i as int] == self.chapter.blocks@[i as int]@);
            let ghost before = out@.map_values(|p: (usize, String)| (p.0 as int, p.1@));
            if let BlockKind::Image { src } = &self.chapter.blocks[i].kind {
                if let Some(src) = src {
                    let pair = (i, src.clone());
                    out.push(pair);
                    assert(out@.map_values(|p: (usize, String)| (p.0 as int, p.1@))
                        =~= before.push((pair.0 as int, pair.1@)));
                }
            }
            i += 1;
        }
        out
    }

    /// Lays the chapter out for a width.
    fn lay_out(&mut self, width: u16, measured: Vec<ImageSlot>)
        requires
            old(self).wf(),
        ensures
            final(self).wf(),
            final(self)@ == old(self)@.laid(width, slot_views(measured@)),
    {
        self.pending_restore = None;
        self.pending_cursor = None;
        self.image_box = self.image_box_for(width, self.view_height);
        self.image_slots = if width < 8 {
            let none: Vec<ImageSlot> = Vec::new();
            assert(slot_views(none@) =~= Seq::<SlotView>::empty());
            none
        } else {
            keep_real(measured)
        };
        let placements = place_slots(&self.image_slots);
        let notes = self.notes();
        self.lines = layout_full(&self.chapter, width, self.options, &notes, &placements);
        self.laid_out_for = width;
    }

    /// Puts the view at a position of the text, and the cursor at another.
    fn place(&mut self, anchor: Option<Locator>, wanted: Option<(usize, usize)>)
        requires
            old(self).wf(),
        ensures
            final(self).wf(),
            final(self)@ == old(self)@.placed(locator_opt(anchor), wanted),
    {
        if let Some(a) = &anchor {
            self.scroll = find_line_for(&self.lines, a);
        }
        if let Some((block, offset)) = wanted {
            self.cursor = self.cursor_at(block, offset);
        }
        self.clamp_scroll();
    }

    /// Rebuilds the layout when the view size changed, keeping the reading
    /// position. Called before each draw. `measured` are the pictures of the
    /// chapter with the rows they take, as far as they could be measured; a
    /// picture that could not gets no slot, and the layout falls back to its alt
    /// text.
    pub fn prepare(&mut self, width: u16, height: u16, measured: Vec<ImageSlot>)
        requires
            old(self).wf(),
        ensures
            final(self).wf(),
            final(self)@ == old(self)@.prepared(width, height, slot_views(measured@)),
    {
        let rows: u16 = if height < 1 {
            1
        } else {
            height
        };
        let same_height = rows == self.view_height;
        self.view_height = rows;
        assert(self@.lines.len() == self.lines@.len());
        if width == self.laid_out_for && same_height && self.lines.len() > 0 {
            self.clamp_scroll();
            return;
        }
        let anchor = match &self.pending_restore {
            Some(p) => Some(p.clone()),
            None => self.position(),
        };
        let wanted = match self.pending_cursor {
            Some(c) => Some(c),
            None => self.cursor_text_position(),
        };
        self.lay_out(width, measured);
        self.place(anchor, wanted);
    }
}

/// The image blocks among the first `n` that have a source.
pub open spec fn sources_in(blocks: Seq<BlockView>, n: int) -> Seq<(int, Seq<char>)>
    decreases n,
{
    if n <= 0 || n > blocks.len() {
        Seq::empty()
    } else {
        let front = sources_in(blocks, n - 1);
        match blocks[n - 1].kind {
            KindView::Image { src: Some(src) } => front.push((n - 1, src)),
            _ => front,
        }
    }
}

proof fn lemma_slices_none(
    blocks: Seq<BlockView>,
    start: (usize, usize),
    end: (usize, usize),
    from: int,
    to: int,
)
    requires
        start.0 < from <= to,
        from - 1 >= blocks.len(),
    ensures
        slices_between(blocks, start, end, to) is None,
    decreases to - from,
{
    if from < to {
        lemma_slices_none(blocks, start, end, from, to - 1);
    }
}

fn keep_real(slots: Vec<ImageSlot>) -> (r: Vec<ImageSlot>)
    ensures
        slot_views(r@) == real_slots(slot_views(slots@)),
{
    let mut out: Vec<ImageSlot> = Vec::new();
    let ghost all = slot_views(slots@);
    assert(all.take(0) =~= Seq::<SlotView>::empty());
    assert(slot_views(out@) =~= Seq::<SlotView>::empty());
    for slot in it: slots
        invariant
            it.seq() == slots@,
            all == slot_views(slots@),
            slot_views(out@) == real_slots(all.take(it.index())),
    {
        let ghost i = it.index();
        let ghost before = slot_views(out@);
        assert(all.take(i + 1).drop_last() =~= all.take(i));
        assert(all[i] == slot@);
        if slot.rows != 0 {
            out.push(slot);
            assert(slot_views(out@) =~= before.push(slot@));
        }
    }
    assert(all.take(all.len() as int) =~= all);
    out
}

fn place_slots(slots: &Vec<ImageSlot>) -> (r: Vec<ImagePlacement>)
    ensures
        r@ == placements_of(slot_views(slots@)),
{
    let mut out: Vec<ImagePlacement> = Vec::new();
    let mut i: usize = 0;
    while i < slots.len()
        invariant
            i <= slots@.len(),
            out@.len() == i,
            forall|k: int|
                0 <= k < i ==> #[trigger] out@[k] == (ImagePlacement {
                    block: slots@[k].block,
                    rows: slots@[k].rows,
                }),
        decreases slots@.len() - i,
    {
        out.push(ImagePlacement { block: slots[i].block, rows: slots[i].rows });
        i += 1;
    }
    assert(out@ =~= placements_of(slot_views(slots@)));
    out
}

/// The line that shows a position, passing over comments and blank lines.
fn find_line_for(lines: &Vec<Line>, at: &Locator) -> (r: usize)
    ensures
        r == line_for(line_views(lines@), at@, 0, 0),
{
    let ghost views = line_views(lines@);
    let mut best: usize = 0;
    let mut i: usize = 0;
    while i < lines.len()
        invariant_except_break
            i <= lines@.len(),
            line_for(views, at@, 0, 0) == line_for(views, at@, i as int, best as int),
        invariant
            views == line_views(lines@),
        ensures
            line_for(views, at@, 0, 0) == best,
        decreases lines@.len() - i,
    {
        let line = &lines[i];
        assert(views[i as int] == line@);
        let passed_over = match line.kind {
            LineKind::Note { .. } | LineKind::Blank => true,
            _ => false,
        };
        if !passed_over {
            if line.block < at.block || (line.block == at.block && line.offset <= at.offset) {
                best = i;
            } else {
                break;
            }
        }
        i += 1;
    }
    best
}

pub(crate) fn joined_text(a: &str, b: &str) -> (r: String)
    ensures
        r@ == a@ + b@,
{
    let mut out = chars_of(a);
    push_text(&mut out, b);
    text_of(&out)
}

} // verus!
