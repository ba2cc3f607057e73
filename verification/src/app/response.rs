//! What a key does to the reader.

use vstd::prelude::*;
use crate::annotation::{marks_sorted, AnnotationView, Color, name_of};
use crate::app::{AppView, ChangeView, EditView, Mode, RequestView};
use crate::app::show::{quote_of, with_color, with_note, without_id};
use crate::app::target::{spine_exact, word_after, word_before};
use crate::doc::LocatorView;
use crate::input::{Key, KeyPress};
use crate::journal::id_text;
use crate::layout::{selectable_below, selectable_from};
use crate::search::{Search, SearchView, all_hits, first_not_before, no_search};
use crate::shelf::{less_by, smaller};

verus! {

impl AppView {
    /// The first line that can hold the cursor.
    pub open spec fn first_cursor(self) -> Option<(int, int)> {
        match selectable_from(self.lines, 0) {
            Some(line) => Some((line, 0)),
            None => None,
        }
    }

    /// The last character of the last line that can hold the cursor.
    pub open spec fn last_cursor(self) -> Option<(int, int)> {
        match selectable_below(self.lines, self.lines.len() as int) {
            Some(line) => Some((line, less_by(self.line_len(line), 1))),
            None => None,
        }
    }

    pub open spec fn cursor_visible(self) -> bool {
        match self.cursor {
            Some((line, _)) => self.scroll <= line < self.scroll + self.view_height,
            None => false,
        }
    }

    /// A cursor in the text, at the top of the view where the eye already is
    /// unless one is on screen.
    #[verifier::opaque]
    pub open spec fn cursor_mode(self) -> AppView {
        let s = AppView {
            mode: Mode::Normal,
            cursor: if self.cursor_visible() {
                self.cursor
            } else {
                match selectable_from(self.lines, self.scroll) {
                    Some(line) => Some((line, 0)),
                    None => None,
                }
            },
            ..self
        };
        s.says("cursor mode: Enter follows a link, v selects, i leaves"@)
    }

    pub open spec fn cursor_left(self) -> AppView {
        AppView { mode: Mode::Reading, anchor: None, linewise: false, status: None, ..self }
    }

    #[verifier::opaque]
    pub open spec fn selecting(self, linewise: bool) -> AppView {
        let s = if self.cursor is None {
            self.cursor_mode()
        } else {
            self
        };
        let t = AppView { anchor: s.cursor_text(), ..s };
        if t.anchor is Some {
            (AppView { mode: Mode::Visual, linewise, ..t }).says(
                "y highlights, m+y/g/b/r/p picks a colour, a comments"@,
            )
        } else {
            t
        }
    }

    pub open spec fn selection_left(self) -> AppView {
        AppView { mode: Mode::Normal, anchor: None, linewise: false, status: None, ..self }
    }

    /// The cursor one character on or back, over line ends.
    #[verifier::opaque]
    pub open spec fn moved_sideways(self, right: bool) -> AppView {
        match self.cursor {
            None => self,
            Some((line, column)) => if line < 0 || line >= self.lines.len() {
                self
            } else {
                let next = if right {
                    if column + 1 < self.line_len(line) {
                        (line, column + 1)
                    } else {
                        match selectable_from(self.lines, line + 1) {
                            Some(n) => (n, 0),
                            None => (line, column),
                        }
                    }
                } else if column > 0 {
                    (line, column - 1)
                } else if line > 0 {
                    match selectable_below(self.lines, line) {
                        Some(n) => (n, less_by(self.line_len(n), 1)),
                        None => (line, column),
                    }
                } else {
                    (line, column)
                };
                self.with_cursor(Some(next)).silent().followed()
            },
        }
    }

    /// The line so many selectable lines down or up, as far as there are any.
    pub open spec fn line_stepped(self, line: int, down: bool, steps: nat) -> int
        decreases steps,
    {
        if steps == 0 {
            line
        } else {
            let next = if down {
                selectable_from(self.lines, line + 1)
            } else if line <= 0 {
                None
            } else {
                selectable_below(self.lines, line)
            };
            match next {
                Some(n) => self.line_stepped(n, down, (steps - 1) as nat),
                None => line,
            }
        }
    }

    #[verifier::opaque]
    pub open spec fn moved_lines(self, down: bool, steps: nat) -> AppView {
        match self.cursor {
            None => self,
            Some((line, column)) => if line < 0 || line >= self.lines.len() {
                self
            } else {
                let n = self.line_stepped(line, down, steps);
                self.with_cursor(
                    Some((n, smaller(column, less_by(self.line_len(n), 1)))),
                ).silent().followed()
            },
        }
    }

    pub open spec fn moved_to_edge(self, end: bool) -> AppView {
        match self.cursor {
            None => self,
            Some((line, _)) => if line < 0 || line >= self.lines.len() {
                self
            } else {
                self.with_cursor(
                    Some(
                        (
                            line,
                            if end {
                                less_by(self.line_len(line), 1)
                            } else {
                                0
                            },
                        ),
                    ),
                ).silent()
            },
        }
    }

    /// Word-wise movement over the block's text, so it crosses line breaks the
    /// way the words run in the source. Past the block's edge it continues in
    /// the neighbouring line.
    #[verifier::opaque]
    pub open spec fn moved_word(self, forward: bool) -> AppView {
        match self.cursor_text() {
            None => self,
            Some((block, offset)) => if block >= self.chapter.blocks.len() {
                self
            } else {
                let s = self.chapter.blocks[block as int].plain();
                let target = if forward {
                    word_after(s, offset as int)
                } else if offset > s.len() {
                    None
                } else {
                    word_before(s, offset as int)
                };
                match target {
                    Some(t) => self.with_cursor(
                        self.cursor_at((block, t as usize)),
                    ).silent().followed(),
                    None => self.moved_lines(forward, 1),
                }
            },
        }
    }

    pub open spec fn asking(self, change: ChangeView) -> AppView {
        AppView { request: Some(RequestView::Write(change)), ..self }
    }

    /// Asks for an annotation over the selection. The id carries the machine,
    /// the instant and a running number.
    #[verifier::opaque]
    pub open spec fn annotated(self, color: Color, then_comment: bool, now: int) -> AppView {
        match self.selection_slices() {
            None => self.says("nothing selected"@),
            Some(slices) => {
                let s = AppView { id_counter: self.id_counter + 1, ..self };
                s.asking(
                    ChangeView::Highlight {
                        annotation: AnnotationView {
                            id: id_text(self.host, now, s.id_counter as nat),
                            href: self.chapter.href,
                            slices,
                            color,
                            quote: quote_of(self.chapter.blocks, slices),
                            note: None,
                        },
                        then_comment,
                    },
                )
            },
        }
    }

    pub open spec fn editing(self, i: int) -> AppView {
        let a = self.annotations[i];
        AppView {
            pending_edit: Some(
                EditView {
                    annotation_id: a.id,
                    initial_text: match a.note {
                        Some(n) => n,
                        None => Seq::empty(),
                    },
                    quote: a.quote,
                },
            ),
            ..self
        }
    }

    /// Begins a deletion at the cursor. While there is a comment too, it waits
    /// for the object: `dh` drops it all, `da` the comment.
    #[verifier::opaque]
    pub open spec fn deleting(self) -> AppView {
        match self.mark_here() {
            None => self.says("no annotation here"@),
            Some(i) => if self.annotations[i].noted() {
                (AppView { pending: Some('d'), ..self }).says(
                    "dh deletes it all, da only the comment"@,
                )
            } else {
                self.asking(ChangeView::Remove { id: self.annotations[i].id })
            },
        }
    }

    pub open spec fn deleting_here(self) -> AppView {
        match self.mark_here() {
            None => self.says("no annotation here"@),
            Some(i) => self.asking(ChangeView::Remove { id: self.annotations[i].id }),
        }
    }

    #[verifier::opaque]
    pub open spec fn clearing_note(self) -> AppView {
        match self.mark_here() {
            None => self.says("no annotation here"@),
            Some(i) => if self.annotations[i].noted() {
                self.asking(ChangeView::ClearNote { id: self.annotations[i].id })
            } else {
                self.says("no comment here"@)
            },
        }
    }

    pub open spec fn recoloring_here(self, color: Color) -> AppView {
        match self.mark_here() {
            None => self.says("no annotation here"@),
            Some(i) => self.asking(ChangeView::Recolor { id: self.annotations[i].id, color }),
        }
    }

    pub open spec fn recoloring_selected(self, color: Color) -> AppView {
        if self.annotations_cursor < self.annotations.len() {
            self.asking(
                ChangeView::Recolor {
                    id: self.annotations[self.annotations_cursor].id,
                    color,
                },
            )
        } else {
            self
        }
    }

    pub open spec fn editing_here(self) -> AppView {
        match self.mark_here() {
            None => self.says("no annotation here: select with v, then a"@),
            Some(i) => self.editing(i),
        }
    }

    #[verifier::opaque]
    pub open spec fn listing(self) -> AppView {
        if self.annotations.len() == 0 {
            self.says("no annotations yet"@)
        } else {
            AppView {
                annotations_cursor: smaller(
                    self.annotations_cursor,
                    self.annotations.len() - 1,
                ),
                mode: Mode::Annotations,
                ..self
            }
        }
    }

    /// The passage of the annotation that is selected in the list.
    #[verifier::opaque]
    pub open spec fn passage_shown(self) -> AppView {
        if self.annotations_cursor >= self.annotations.len() {
            self
        } else {
            let a = self.annotations[self.annotations_cursor];
            let s = match spine_exact(self.book.spine, a.href, 0) {
                Some(index) => if index != self.chapter_index {
                    self.gone_to(index)
                } else {
                    self
                },
                None => self,
            };
            (AppView {
                pending_restore: Some(
                    LocatorView {
                        href: a.href,
                        block: a.beginning().0,
                        offset: a.beginning().1,
                    },
                ),
                mode: Mode::Reading,
                ..s
            }).unlaid()
        }
    }

    pub open spec fn contents_opened(self) -> AppView {
        AppView { contents_cursor: self.chapter_index, mode: Mode::Contents, ..self }
    }

    pub open spec fn search_opened(self) -> AppView {
        AppView {
            search_input: self.search.query,
            mode: Mode::Search,
            status: None,
            ..self
        }
    }

    #[verifier::opaque]
    pub open spec fn chapter_stepped(self, forward: bool) -> AppView {
        if forward {
            if self.chapter_index + 1 < self.book.spine.len() {
                self.gone_to(self.chapter_index + 1)
            } else {
                self.says("end of book"@)
            }
        } else if self.chapter_index > 0 {
            self.gone_to(self.chapter_index - 1)
        } else {
            self.says("start of book"@)
        }
    }

    pub open spec fn half(self) -> int {
        if self.view_height < 4 {
            1
        } else {
            self.view_height as int / 2
        }
    }

    pub open spec fn page(self) -> int {
        if self.view_height < 4 {
            1
        } else {
            self.view_height - 2
        }
    }

    /// The second key of a sequence, or nothing when the two make none.
    #[verifier::opaque]
    pub open spec fn sequenced(self, first: char, key: Key, now: int) -> Option<AppView> {
        if first == 'g' && key == Key::Char('g') {
            Some(
                match self.mode {
                    Mode::Contents => AppView { contents_cursor: 0, ..self },
                    Mode::Annotations => AppView { annotations_cursor: 0, ..self },
                    Mode::Normal | Mode::Visual => self.with_cursor(
                        self.first_cursor(),
                    ).followed(),
                    Mode::Reading => AppView { scroll: 0, ..self },
                    Mode::Help | Mode::Search => self,
                },
            )
        } else if first == 'd' {
            // A different key cancels the deletion rather than guessing.
            Some(
                if key == Key::Char('h') {
                    self.deleting_here()
                } else if key == Key::Char('a') {
                    self.clearing_note()
                } else {
                    self.says("deletion cancelled"@)
                },
            )
        } else if first == 'm' && key is Char {
            // `m` prefixes a colour. Without it, `b` and `g` would never reach
            // the colours: they mean "word back" and the start of `gg`.
            Some(
                match color_for(key->Char_0) {
                    Some(color) => match self.mode {
                        Mode::Visual => self.annotated(color, false, now),
                        Mode::Annotations => self.recoloring_selected(color),
                        Mode::Normal => self.recoloring_here(color),
                        _ => self.says("m picks a colour while selecting"@),
                    },
                    None => self.says("colours: y yellow, g green, b blue, r red, p purple"@),
                },
            )
        } else {
            None
        }
    }

    pub open spec fn pending_key(self, c: char) -> AppView {
        AppView { pending: Some(c), ..self }
    }

    pub open spec fn quitting(self, program: bool) -> AppView {
        AppView {
            should_quit: true,
            should_quit_program: self.should_quit_program || program,
            ..self
        }
    }

    /// A key while reading. Only `q` and `Q` quit.
    #[verifier::opaque]
    pub open spec fn read_key(self, press: KeyPress) -> AppView {
        let ctrl = press.ctrl;
        match press.key {
            Key::Char('?') => self.in_mode(Mode::Help),
            Key::Char('q') => self.quitting(false),
            Key::Char('Q') => self.quitting(true),
            Key::Esc => self.dismissed(),
            Key::Char('j') | Key::Down => self.scrolled(1),
            Key::Char('k') | Key::Up => self.scrolled(-1),
            Key::Char('d') => if ctrl {
                self.scrolled(self.half())
            } else {
                self
            },
            Key::Char('u') => if ctrl {
                self.scrolled(-self.half())
            } else {
                self
            },
            Key::Char('f') => if ctrl {
                self.scrolled(self.page())
            } else {
                self
            },
            Key::Char('b') => if ctrl {
                self.scrolled(-self.page())
            } else {
                self
            },
            Key::Char(' ') | Key::PageDown => self.scrolled(self.page()),
            Key::Backspace | Key::PageUp => self.scrolled(-self.page()),
            Key::Char('g') => self.pending_key('g'),
            Key::Char('G') => AppView { scroll: self.max_scroll(), ..self },
            Key::Char('L') | Key::Char(']') => self.chapter_stepped(true),
            Key::Char('H') | Key::Char('[') => self.chapter_stepped(false),
            Key::Char('t') | Key::Tab => self.contents_opened(),
            Key::Char('A') => self.listing(),
            Key::Char('o') => if ctrl {
                self.jumped_back()
            } else {
                self
            },
            Key::Char('i') => self.cursor_mode(),
            Key::Char('/') => self.search_opened(),
            Key::Char('n') => self.matched(true),
            Key::Char('N') => self.matched(false),
            Key::Char('v') => self.cursor_mode().selecting(false),
            Key::Char('V') => self.cursor_mode().selecting(true),
            _ => self,
        }
    }

    /// A key while a cursor sits in the text.
    #[verifier::opaque]
    pub open spec fn cursor_key(self, press: KeyPress, now: int) -> AppView {
        let ctrl = press.ctrl;
        let normal = self.mode == Mode::Normal;
        let visual = self.mode == Mode::Visual;
        match press.key {
            Key::Char('?') => self.in_mode(Mode::Help),
            Key::Esc | Key::Char('q') => if visual {
                self.selection_left()
            } else {
                self.cursor_left()
            },
            Key::Char('Q') => self.quitting(true),
            Key::Char('i') => if normal {
                self.cursor_left()
            } else {
                self
            },
            Key::Char('/') => if normal {
                self.search_opened()
            } else {
                self
            },
            Key::Char('n') => if normal {
                self.matched(true)
            } else {
                self
            },
            Key::Char('N') => if normal {
                self.matched(false)
            } else {
                self
            },
            Key::Char('v') => if visual && !self.linewise {
                self.selection_left()
            } else {
                self.selecting(false)
            },
            Key::Char('V') => if visual && self.linewise {
                self.selection_left()
            } else {
                self.selecting(true)
            },
            Key::Char('h') | Key::Left => self.moved_sideways(false),
            Key::Char('l') | Key::Right => self.moved_sideways(true),
            Key::Char('j') | Key::Down => self.moved_lines(true, 1),
            Key::Char('k') | Key::Up => self.moved_lines(false, 1),
            Key::Char('d') => if ctrl {
                self.moved_lines(true, self.half() as nat)
            } else if normal {
                self.deleting()
            } else {
                self
            },
            Key::Char('u') => if ctrl {
                self.moved_lines(false, self.half() as nat)
            } else {
                self
            },
            Key::Char('w') => self.moved_word(true),
            Key::Char('b') => self.moved_word(false),
            Key::Char('0') => self.moved_to_edge(false),
            Key::Char('$') => self.moved_to_edge(true),
            Key::Char('g') => self.pending_key('g'),
            Key::Char('G') => self.with_cursor(self.last_cursor()).followed(),
            // `y` highlights straight away, in the default colour. Any other
            // colour goes through `m`, because `b` and `g` are movements.
            Key::Char('y') => if visual {
                self.annotated(Color::Yellow, false, now)
            } else {
                self
            },
            Key::Char('m') => self.pending_key('m'),
            // A comment needs a highlight to hang off, so it creates one.
            Key::Char('a') => if visual {
                self.annotated(Color::Yellow, true, now)
            } else {
                self
            },
            Key::Char('e') => if normal {
                self.editing_here()
            } else {
                self
            },
            Key::Char('A') => self.listing(),
            Key::Char('t') | Key::Tab => self.contents_opened(),
            Key::Enter => if normal {
                self.link_followed()
            } else {
                self
            },
            Key::Char('o') => if ctrl {
                self.jumped_back()
            } else {
                self
            },
            _ => self,
        }
    }

    /// A key while a search term is typed. Enter runs it, Esc drops it.
    #[verifier::opaque]
    pub open spec fn search_key(self, key: Key) -> AppView {
        match key {
            Key::Esc => AppView {
                mode: Mode::Reading,
                search_input: Seq::empty(),
                status: None,
                ..self
            },
            Key::Enter => self.searched(),
            Key::Backspace => AppView {
                search_input: if self.search_input.len() == 0 {
                    self.search_input
                } else {
                    self.search_input.drop_last()
                },
                ..self
            },
            Key::Char(c) => AppView { search_input: self.search_input.push(c), ..self },
            _ => self,
        }
    }

    /// The typed term searched for, from where the reader stands rather than
    /// from the chapter's top.
    #[verifier::opaque]
    pub open spec fn searched(self) -> AppView {
        let query = self.search_input;
        let s = AppView { search_input: Seq::empty(), mode: Mode::Reading, ..self };
        if query.len() == 0 {
            (AppView { search: no_search(), ..s }).silent()
        } else {
            let hits = all_hits(s.chapter.blocks, query);
            let t = AppView { search: SearchView { query, hits, current: None }, ..s };
            let from = match t.position() {
                Some(p) => (p.block, p.offset),
                None => (0usize, 0usize),
            };
            match first_not_before(hits, from, 0) {
                Some(i) => (AppView { search: t.search.at_index(i), ..t }).match_shown(),
                // Nothing from there on, so the search goes on as a step does.
                None => t.matched(true),
            }
        }
    }

    /// A key in the table of contents.
    #[verifier::opaque]
    pub open spec fn contents_key(self, key: Key) -> AppView {
        let last = less_by(self.book.spine.len() as int, 1);
        match key {
            Key::Char('q') | Key::Esc | Key::Tab | Key::Char('t') => self.in_mode(Mode::Reading),
            Key::Char('j') | Key::Down => AppView {
                contents_cursor: smaller(self.contents_cursor + 1, last),
                ..self
            },
            Key::Char('k') | Key::Up => AppView {
                contents_cursor: less_by(self.contents_cursor, 1),
                ..self
            },
            Key::Char('?') => self.in_mode(Mode::Help),
            Key::Char('g') => self.pending_key('g'),
            Key::Char('G') => AppView { contents_cursor: last, ..self },
            Key::Enter => self.gone_to(self.contents_cursor).in_mode(Mode::Reading),
            _ => self,
        }
    }

    /// A key in the list of annotations.
    #[verifier::opaque]
    pub open spec fn annotations_key(self, key: Key) -> AppView {
        let last = less_by(self.annotations.len() as int, 1);
        match key {
            Key::Char('q') | Key::Esc | Key::Char('A') => self.in_mode(Mode::Reading),
            Key::Char('j') | Key::Down => AppView {
                annotations_cursor: smaller(self.annotations_cursor + 1, last),
                ..self
            },
            Key::Char('k') | Key::Up => AppView {
                annotations_cursor: less_by(self.annotations_cursor, 1),
                ..self
            },
            Key::Char('?') => self.in_mode(Mode::Help),
            Key::Char('g') => self.pending_key('g'),
            Key::Char('G') => AppView { annotations_cursor: last, ..self },
            Key::Enter => self.passage_shown(),
            Key::Char('e') => if self.annotations_cursor < self.annotations.len() {
                self.editing(self.annotations_cursor)
            } else {
                self
            },
            Key::Char('d') => if self.annotations_cursor < self.annotations.len() {
                self.asking(
                    ChangeView::Remove { id: self.annotations[self.annotations_cursor].id },
                )
            } else {
                self
            },
            // Same prefix as while selecting, so one rule covers both places.
            Key::Char('m') => self.pending_key('m'),
            _ => self,
        }
    }

    /// A key without regard to what was typed before.
    pub open spec fn single_key(self, press: KeyPress, now: int) -> AppView {
        match self.mode {
            Mode::Reading => self.read_key(press),
            Mode::Normal | Mode::Visual => self.cursor_key(press, now),
            Mode::Contents => self.contents_key(press.key),
            Mode::Annotations => self.annotations_key(press.key),
            Mode::Search => self.search_key(press.key),
            // Any key closes the help; there is nothing to do in it.
            Mode::Help => self.in_mode(Mode::Reading).silent(),
        }
    }

    /// What a key does. `now` is the instant, for the id of a new annotation.
    pub open spec fn pressed(self, press: KeyPress, now: int) -> AppView {
        let s = AppView { pending: None, request: None, ..self };
        match self.pending {
            Some(first) => match s.sequenced(first, press.key, now) {
                Some(t) => t,
                None => s.single_key(press, now),
            },
            None => s.single_key(press, now),
        }
    }

    /// The reader once a highlight is in the journal. A comment follows where
    /// one was asked for.
    #[verifier::opaque]
    pub open spec fn highlighted(self, annotation: AnnotationView, then_comment: bool) -> AppView {
        let s = AppView {
            annotations: marks_sorted(self.annotations.push(annotation)),
            mode: Mode::Normal,
            anchor: None,
            linewise: false,
            ..self
        };
        if then_comment {
            (AppView {
                pending_edit: Some(
                    EditView {
                        annotation_id: annotation.id,
                        initial_text: Seq::empty(),
                        quote: annotation.quote,
                    },
                ),
                ..s
            }).stale()
        } else {
            s.says("highlighted in "@ + name_of(annotation.color)).stale()
        }
    }

    /// The reader once the removal of an annotation is in the journal.
    #[verifier::opaque]
    pub open spec fn removed(self, id: Seq<char>) -> AppView {
        let left = without_id(self.annotations, id);
        (AppView {
            annotations: left,
            mode: if left.len() == 0 && self.mode == Mode::Annotations {
                Mode::Reading
            } else {
                self.mode
            },
            annotations_cursor: if left.len() == 0 {
                self.annotations_cursor
            } else {
                smaller(self.annotations_cursor, left.len() - 1)
            },
            ..self
        }).stale().says("annotation deleted"@)
    }

    /// The reader once a change is in the journal.
    pub open spec fn changed(self, change: ChangeView) -> AppView {
        match change {
            ChangeView::Highlight { annotation, then_comment } => self.highlighted(
                annotation,
                then_comment,
            ),
            ChangeView::Note { id, text } => (AppView {
                annotations: with_note(
                    self.annotations,
                    id,
                    if text.len() == 0 {
                        None
                    } else {
                        Some(text)
                    },
                ),
                ..self
            }).stale().says("comment saved"@),
            ChangeView::ClearNote { id } => (AppView {
                annotations: with_note(self.annotations, id, None),
                ..self
            }).stale().says("comment removed, annotation kept"@),
            ChangeView::Remove { id } => self.removed(id),
            ChangeView::Recolor { id, color } => (AppView {
                annotations: with_color(self.annotations, id, color),
                ..self
            }).stale().says("recoloured to "@ + name_of(color)),
        }
    }

    /// The reader once it is known whether its request could be written. A
    /// change that could not is not made.
    pub open spec fn settled(self, outcome: Option<Seq<char>>) -> AppView {
        let s = AppView { request: None, ..self };
        match (self.request, outcome) {
            (None, _) => s,
            (Some(RequestView::Save { locator, .. }), None) => AppView {
                last_written: Some(locator),
                ..s
            },
            (Some(RequestView::Save { aloud, .. }), Some(e)) => if aloud {
                s.says("cannot save position: "@ + e)
            } else {
                s
            },
            (Some(RequestView::Write(change)), None) => s.changed(change),
            (Some(RequestView::Write(change)), Some(e)) => s.says(failure_text(change) + e),
        }
    }
}

/// What is said when a change could not be written.
pub open spec fn failure_text(change: ChangeView) -> Seq<char> {
    match change {
        ChangeView::Highlight { .. } => "cannot save annotation: "@,
        ChangeView::Note { .. } => "cannot save comment: "@,
        ChangeView::ClearNote { .. } => "cannot remove comment: "@,
        ChangeView::Remove { .. } => "cannot delete: "@,
        ChangeView::Recolor { .. } => "cannot change colour: "@,
    }
}

/// The colour that a key picks.
pub open spec fn color_for(c: char) -> Option<Color> {
    if c == 'y' {
        Some(Color::Yellow)
    } else if c == 'g' {
        Some(Color::Green)
    } else if c == 'b' {
        Some(Color::Blue)
    } else if c == 'r' {
        Some(Color::Red)
    } else if c == 'p' {
        Some(Color::Purple)
    } else {
        None
    }
}

} // verus!
