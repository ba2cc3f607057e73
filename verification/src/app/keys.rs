//! Key handling.

use vstd::prelude::*;
use crate::annotation::{Color, key_of};
use crate::app::{App, AppView, Change, Mode};
use crate::app::response::color_for;
use crate::input::{Key, KeyPress};
use crate::search::Search;
use crate::shelf::without_last;

verus! {

/// The colour that a key picks.
fn color_of_key(c: char) -> (r: Option<Color>)
    ensures
        r == color_for(c),
{
    match Color::from_shortcut(c) {
        Some(color) => Some(color),
        None => {
            assert(key_of(Color::Yellow) != c && key_of(Color::Green) != c && key_of(Color::Blue)
                != c && key_of(Color::Red) != c && key_of(Color::Purple) != c);
            None
        },
    }
}

impl App {
    fn half_page(&self) -> (r: u16)
        requires
            self.wf(),
        ensures
            r == self@.half(),
    {
        if self.view_height < 4 {
            1
        } else {
            self.view_height / 2
        }
    }

    fn full_page(&self) -> (r: u16)
        requires
            self.wf(),
        ensures
            r == self@.page(),
    {
        if self.view_height < 4 {
            1
        } else {
            self.view_height - 2
        }
    }

    fn handle_color_key(&mut self, color: Color, now: i64)
        requires
            old(self).wf(),
            old(self).journal.id_counter < u64::MAX,
        ensures
            final(self).wf(),
            final(self)@ == (match old(self)@.mode {
                Mode::Visual => old(self)@.annotated(color, false, now as int),
                Mode::Annotations => old(self)@.recoloring_selected(color),
                Mode::Normal => old(self)@.recoloring_here(color),
                _ => old(self)@.says("m picks a colour while selecting"@),
            }),
    {
        match self.mode {
            Mode::Visual => self.annotate(color, false, now),
            Mode::Annotations => self.recolor_selected(color),
            Mode::Normal => self.recolor_here(color),
            _ => self.say("m picks a colour while selecting"),
        }
    }

    /// Handles the second key of a sequence. The result says whether the two
    /// made one.
    fn handle_sequence(&mut self, first: char, key: Key, now: i64) -> (r: bool)
        requires
            old(self).wf(),
            old(self).journal.id_counter < u64::MAX,
        ensures
            final(self).wf(),
            match old(self)@.sequenced(first, key, now as int) {
                Some(t) => r && final(self)@ == t,
                None => !r && *final(self) == *old(self),
            },
    {
        proof {
            reveal(AppView::sequenced);
        }
        if first == 'g' && key == Key::Char('g') {
            match self.mode {
                Mode::Contents => {
                    self.contents_cursor = 0;
                },
                Mode::Annotations => {
                    self.annotations_cursor = 0;
                },
                Mode::Normal | Mode::Visual => self.go_to_first_line(),
                Mode::Reading => {
                    self.scroll = 0;
                },
                Mode::Help | Mode::Search => {},
            }
            return true;
        }
        if first == 'd' {
            match key {
                Key::Char('h') => self.delete_annotation_here(),
                Key::Char('a') => self.clear_note_here(),
                _ => self.say("deletion cancelled"),
            }
            return true;
        }
        if first == 'm' {
            if let Key::Char(c) = key {
                match color_of_key(c) {
                    Some(color) => self.handle_color_key(color, now),
                    None => self.say("colours: y yellow, g green, b blue, r red, p purple"),
                }
                return true;
            }
        }
        false
    }

    fn handle_read_key(&mut self, press: KeyPress)
        requires
            old(self).wf(),
        ensures
            final(self).wf(),
            final(self)@ == old(self)@.read_key(press),
    {
        proof {
            reveal(AppView::read_key);
        }
        let ctrl = press.ctrl;
        match press.key {
            Key::Char('?') => {
                self.mode = Mode::Help;
            },
            Key::Char('q') => {
                self.should_quit = true;
            },
            Key::Char('Q') => {
                self.should_quit = true;
                self.should_quit_program = true;
            },
            Key::Esc => self.dismiss(),
            Key::Char('j') | Key::Down => self.scroll_down(1),
            Key::Char('k') | Key::Up => self.scroll_up(1),
            Key::Char('d') => if ctrl {
                self.scroll_down(self.half_page());
            },
            Key::Char('u') => if ctrl {
                self.scroll_up(self.half_page());
            },
            Key::Char('f') => if ctrl {
                self.scroll_down(self.full_page());
            },
            Key::Char('b') => if ctrl {
                self.scroll_up(self.full_page());
            },
            Key::Char(' ') | Key::PageDown => self.scroll_down(self.full_page()),
            Key::Backspace | Key::PageUp => self.scroll_up(self.full_page()),
            Key::Char('g') => {
                self.pending = Some('g');
            },
            Key::Char('G') => {
                self.scroll = self.max_scroll();
            },
            Key::Char('L') | Key::Char(']') => self.step_chapter(true),
            Key::Char('H') | Key::Char('[') => self.step_chapter(false),
            Key::Char('t') | Key::Tab => self.open_contents(),
            Key::Char('A') => self.open_annotations(),
            Key::Char('o') => if ctrl {
                self.jump_back();
            },
            Key::Char('i') => self.enter_normal_mode(),
            Key::Char('/') => self.open_search(),
            Key::Char('n') => self.jump_to_match(true),
            Key::Char('N') => self.jump_to_match(false),
            Key::Char('v') => {
                self.enter_normal_mode();
                self.start_selection(false);
            },
            Key::Char('V') => {
                self.enter_normal_mode();
                self.start_selection(true);
            },
            _ => {},
        }
    }

    fn handle_cursor_key(&mut self, press: KeyPress, now: i64)
        requires
            old(self).wf(),
            old(self).journal.id_counter < u64::MAX,
        ensures
            final(self).wf(),
            final(self)@ == old(self)@.cursor_key(press, now as int),
    {
        proof {
            reveal(AppView::cursor_key);
        }
        let ctrl = press.ctrl;
        let normal = self.mode == Mode::Normal;
        let visual = self.mode == Mode::Visual;
        match press.key {
            Key::Char('?') => {
                self.mode = Mode::Help;
            },
            Key::Esc | Key::Char('q') => if visual {
                self.leave_selection();
            } else {
                self.leave_normal_mode();
            },
            Key::Char('Q') => {
                self.should_quit = true;
                self.should_quit_program = true;
            },
            Key::Char('i') => if normal {
                self.leave_normal_mode();
            },
            Key::Char('/') => if normal {
                self.open_search();
            },
            Key::Char('n') => if normal {
                self.jump_to_match(true);
            },
            Key::Char('N') => if normal {
                self.jump_to_match(false);
            },
            Key::Char('v') => if visual && !self.linewise {
                self.leave_selection();
            } else {
                self.start_selection(false);
            },
            Key::Char('V') => if visual && self.linewise {
                self.leave_selection();
            } else {
                self.start_selection(true);
            },
            Key::Char('h') | Key::Left => self.move_cursor_horizontally(false),
            Key::Char('l') | Key::Right => self.move_cursor_horizontally(true),
            Key::Char('j') | Key::Down => self.move_cursor_vertically(true, 1),
            Key::Char('k') | Key::Up => self.move_cursor_vertically(false, 1),
            Key::Char('d') => if ctrl {
                self.move_cursor_vertically(true, self.half_page());
            } else if normal {
                self.begin_deletion();
            },
            Key::Char('u') => if ctrl {
                self.move_cursor_vertically(false, self.half_page());
            },
            Key::Char('w') => self.move_cursor_word(true),
            Key::Char('b') => self.move_cursor_word(false),
            Key::Char('0') => self.move_cursor_to_line_edge(false),
            Key::Char('$') => self.move_cursor_to_line_edge(true),
            Key::Char('g') => {
                self.pending = Some('g');
            },
            Key::Char('G') => self.go_to_last_line(),
            Key::Char('y') => if visual {
                self.annotate(Color::Yellow, false, now);
            },
            Key::Char('m') => {
                self.pending = Some('m');
            },
            Key::Char('a') => if visual {
                self.annotate(Color::Yellow, true, now);
            },
            Key::Char('e') => if normal {
                self.edit_here();
            },
            Key::Char('A') => self.open_annotations(),
            Key::Char('t') | Key::Tab => self.open_contents(),
            Key::Enter => if normal {
                self.follow_link();
            },
            Key::Char('o') => if ctrl {
                self.jump_back();
            },
            _ => {},
        }
    }

    fn handle_search_key(&mut self, key: Key)
        requires
            old(self).wf(),
        ensures
            final(self).wf(),
            final(self)@ == old(self)@.search_key(key),
    {
        proof {
            reveal(AppView::search_key);
        }
        match key {
            Key::Esc => {
                self.mode = Mode::Reading;
                self.search_input = String::new();
                self.status = None;
                assert(self.search_input@ =~= Seq::<char>::empty());
            },
            Key::Enter => self.run_search(),
            Key::Backspace => {
                self.search_input = without_last(&self.search_input);
            },
            Key::Char(c) => {
                self.search_input.push(c);
            },
            _ => {},
        }
    }

    /// Searches for what was typed, from where the reader stands rather than from
    /// the chapter's top.
    fn run_search(&mut self)
        requires
            old(self).wf(),
        ensures
            final(self).wf(),
            final(self)@ == old(self)@.searched(),
    {
        proof {
            reveal(AppView::searched);
        }
        let mut query = String::new();
        std::mem::swap(&mut query, &mut self.search_input);
        self.mode = Mode::Reading;
        assert(self.search_input@ =~= Seq::<char>::empty());
        if query.as_str().is_empty() {
            self.search.clear();
            self.status = None;
            return;
        }
        self.search.set_query(query);
        self.search.scan(&self.chapter);
        let (block, offset) = match self.position() {
            Some(p) => (p.block, p.offset),
            None => (0, 0),
        };
        if self.search.go_to_first_after(block, offset) {
            self.show_current_match();
        } else {
            self.jump_to_match(true);
        }
    }

    fn handle_contents_key(&mut self, key: Key)
        requires
            old(self).wf(),
        ensures
            final(self).wf(),
            final(self)@ == old(self)@.contents_key(key),
    {
        proof {
            reveal(AppView::contents_key);
        }
        let last = self.book.spine.len() - 1;
        assert(self@.book.spine.len() == self.book.spine@.len());
        match key {
            Key::Char('q') | Key::Esc | Key::Tab | Key::Char('t') => {
                self.mode = Mode::Reading;
            },
            Key::Char('j') | Key::Down => {
                self.contents_cursor = if self.contents_cursor < last {
                    self.contents_cursor + 1
                } else {
                    last
                };
            },
            Key::Char('k') | Key::Up => {
                if self.contents_cursor > 0 {
                    self.contents_cursor = self.contents_cursor - 1;
                }
            },
            Key::Char('?') => {
                self.mode = Mode::Help;
            },
            Key::Char('g') => {
                self.pending = Some('g');
            },
            Key::Char('G') => {
                self.contents_cursor = last;
            },
            Key::Enter => {
                self.go_to_chapter(self.contents_cursor);
                self.mode = Mode::Reading;
            },
            _ => {},
        }
    }

    fn handle_annotations_key(&mut self, key: Key)
        requires
            old(self).wf(),
        ensures
            final(self).wf(),
            final(self)@ == old(self)@.annotations_key(key),
    {
        proof {
            reveal(AppView::annotations_key);
        }
        let total = self.annotations.len();
        assert(self@.annotations.len() == total);
        let last = if total == 0 {
            0
        } else {
            total - 1
        };
        match key {
            Key::Char('q') | Key::Esc | Key::Char('A') => {
                self.mode = Mode::Reading;
            },
            Key::Char('j') | Key::Down => {
                self.annotations_cursor = if self.annotations_cursor < last {
                    self.annotations_cursor + 1
                } else {
                    last
                };
            },
            Key::Char('k') | Key::Up => {
                if self.annotations_cursor > 0 {
                    self.annotations_cursor = self.annotations_cursor - 1;
                }
            },
            Key::Char('?') => {
                self.mode = Mode::Help;
            },
            Key::Char('g') => {
                self.pending = Some('g');
            },
            Key::Char('G') => {
                self.annotations_cursor = last;
            },
            Key::Enter => self.show_passage(),
            Key::Char('e') => if self.annotations_cursor < total {
                self.request_edit(self.annotations_cursor);
            },
            Key::Char('d') => if self.annotations_cursor < total {
                let id = self.id_of(self.annotations_cursor);
                self.ask(Change::Remove { id });
            },
            Key::Char('m') => {
                self.pending = Some('m');
            },
            _ => {},
        }
    }

    /// Handles a key. `now` is the instant in nanoseconds, for the id of a new
    /// annotation. What is to be written afterwards stands in `request`.
    pub fn handle_key(&mut self, press: KeyPress, now: i64)
        requires
            old(self).wf(),
            old(self).journal.id_counter < u64::MAX,
        ensures
            final(self).wf(),
            final(self)@ == old(self)@.pressed(press, now as int),
    {
        let first = self.pending;
        self.pending = None;
        self.request = None;
        if let Some(first) = first {
            if self.handle_sequence(first, press.key, now) {
                return;
            }
        }
        match self.mode {
            Mode::Reading => self.handle_read_key(press),
            Mode::Normal | Mode::Visual => self.handle_cursor_key(press, now),
            Mode::Contents => self.handle_contents_key(press.key),
            Mode::Annotations => self.handle_annotations_key(press.key),
            Mode::Search => self.handle_search_key(press.key),
            Mode::Help => {
                self.mode = Mode::Reading;
                self.status = None;
            },
        }
    }
}

} // verus!
