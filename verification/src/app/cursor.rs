//! The cursor and the selection.

use vstd::prelude::*;
use crate::app::{App, AppView, Mode};
use crate::app::reader::lemma_line_pick;
use crate::app::target::{next_word_start, previous_word_start};
use crate::layout::Index;
use crate::shelf::less_by;
use crate::text::copy_text;

verus! {

impl App {
    pub(crate) fn enter_normal_mode(&mut self)
        requires
            old(self).wf(),
        ensures
            final(self).wf(),
            final(self)@ == old(self)@.cursor_mode(),
    {
        proof {
            reveal(AppView::cursor_mode);
        }
        self.mode = Mode::Normal;
        let visible = match self.cursor {
            Some((line, _)) => line >= self.scroll && line - self.scroll
                < self.view_height as usize,
            None => false,
        };
        if !visible {
            self.cursor = match Index::new(&self.lines).next_selectable(self.scroll) {
                Some(line) => Some((line, 0)),
                None => None,
            };
        }
        self.status = Some(
            copy_text("cursor mode: Enter follows a link, v selects, i leaves"),
        );
    }

    pub(crate) fn leave_normal_mode(&mut self)
        requires
            old(self).wf(),
        ensures
            final(self).wf(),
            final(self)@ == old(self)@.cursor_left(),
    {
        self.mode = Mode::Reading;
        self.anchor = None;
        self.linewise = false;
        self.status = None;
    }

    pub(crate) fn start_selection(&mut self, linewise: bool)
        requires
            old(self).wf(),
        ensures
            final(self).wf(),
            final(self)@ == old(self)@.selecting(linewise),
    {
        proof {
            reveal(AppView::selecting);
        }
        if self.cursor.is_none() {
            self.enter_normal_mode();
        }
        self.anchor = self.cursor_text_position();
        if self.anchor.is_some() {
            self.mode = Mode::Visual;
            self.linewise = linewise;
            self.status = Some(
                copy_text("y highlights, m+y/g/b/r/p picks a colour, a comments"),
            );
        }
    }

    pub(crate) fn leave_selection(&mut self)
        requires
            old(self).wf(),
        ensures
            final(self).wf(),
            final(self)@ == old(self)@.selection_left(),
    {
        self.mode = Mode::Normal;
        self.anchor = None;
        self.linewise = false;
        self.status = None;
    }

    /// Characters of the book on a line, less one.
    fn last_column(&self, line: usize) -> (r: usize)
        requires
            line < self.lines@.len(),
        ensures
            r == less_by(self@.line_len(line as int), 1),
    {
        proof {
            lemma_line_pick(self.lines@, line as int);
        }
        let n = self.lines[line].text_len();
        if n < 1 {
            0
        } else {
            n - 1
        }
    }

    pub(crate) fn move_cursor_horizontally(&mut self, right: bool)
        requires
            old(self).wf(),
        ensures
            final(self).wf(),
            final(self)@ == old(self)@.moved_sideways(right),
    {
        proof {
            reveal(AppView::moved_sideways);
        }
        assert(self@.lines.len() == self.lines@.len());
        let total = self.lines.len();
        let (line, column) = match self.cursor {
            Some(c) => c,
            None => {
                return;
            },
        };
        if line >= total {
            return;
        }
        proof {
            lemma_line_pick(self.lines@, line as int);
        }
        let mut next = (line, column);
        if right {
            let len = self.lines[line].text_len();
            if len > 0 && column < len - 1 {
                next = (line, column + 1);
            } else if let Some(n) = Index::new(&self.lines).next_selectable(line + 1) {
                next = (n, 0);
            }
        } else if column > 0 {
            next = (line, column - 1);
        } else if line > 0 {
            if let Some(n) = Index::new(&self.lines).previous_selectable(line - 1) {
                next = (n, self.last_column(n));
            }
        }
        self.cursor = Some(next);
        self.status = None;
        self.follow_cursor();
    }

    pub(crate) fn move_cursor_vertically(&mut self, down: bool, steps: u16)
        requires
            old(self).wf(),
        ensures
            final(self).wf(),
            final(self)@ == old(self)@.moved_lines(down, steps as nat),
    {
        proof {
            reveal(AppView::moved_lines);
        }
        assert(self@.lines.len() == self.lines@.len());
        let total = self.lines.len();
        let (start, column) = match self.cursor {
            Some(c) => c,
            None => {
                return;
            },
        };
        if start >= total {
            return;
        }
        let mut line = start;
        let mut left: u16 = steps;
        while left > 0
            invariant_except_break
                self@.line_stepped(start as int, down, steps as nat) == self@.line_stepped(
                    line as int,
                    down,
                    left as nat,
                ),
            invariant
                self@ == old(self)@,
                self.wf(),
                total == self.lines@.len(),
                total == self@.lines.len(),
                line < total,
            ensures
                line == self@.line_stepped(start as int, down, steps as nat),
            decreases left,
        {
            let next = if down {
                Index::new(&self.lines).next_selectable(line + 1)
            } else if line == 0 {
                None
            } else {
                Index::new(&self.lines).previous_selectable(line - 1)
            };
            match next {
                Some(found) => {
                    line = found;
                },
                None => {
                    break;
                },
            }
            left -= 1;
        }
        let last = self.last_column(line);
        self.cursor = Some(
            (
                line,
                if column < last {
                    column
                } else {
                    last
                },
            ),
        );
        self.status = None;
        self.follow_cursor();
    }

    pub(crate) fn move_cursor_to_line_edge(&mut self, end: bool)
        requires
            old(self).wf(),
        ensures
            final(self).wf(),
            final(self)@ == old(self)@.moved_to_edge(end),
    {
        assert(self@.lines.len() == self.lines@.len());
        let (line, _) = match self.cursor {
            Some(c) => c,
            None => {
                return;
            },
        };
        if line >= self.lines.len() {
            return;
        }
        let column = if end {
            self.last_column(line)
        } else {
            0
        };
        self.cursor = Some((line, column));
        self.status = None;
    }

    /// Word-wise movement over the block's text, so it crosses line breaks the
    /// way the words run in the source.
    pub(crate) fn move_cursor_word(&mut self, forward: bool)
        requires
            old(self).wf(),
        ensures
            final(self).wf(),
            final(self)@ == old(self)@.moved_word(forward),
    {
        proof {
            reveal(AppView::moved_word);
        }
        let (block, offset) = match self.cursor_text_position() {
            Some(p) => p,
            None => {
                return;
            },
        };
        assert(self@.chapter.blocks.len() == self.chapter.blocks@.len());
        if block >= self.chapter.blocks.len() {
            return;
        }
        assert(self@.chapter.blocks[block as int] == self.chapter.blocks@[block as int]@);
        let s = self.chapter.blocks[block].plain_chars();
        let target = if forward {
            next_word_start(&s, offset)
        } else if offset > s.len() {
            None
        } else {
            previous_word_start(&s, offset)
        };
        match target {
            Some(t) => {
                self.cursor = self.cursor_at(block, t);
                self.status = None;
                self.follow_cursor();
            },
            None => self.move_cursor_vertically(forward, 1),
        }
    }

    pub(crate) fn go_to_first_line(&mut self)
        requires
            old(self).wf(),
        ensures
            final(self).wf(),
            final(self)@ == old(self)@.with_cursor(old(self)@.first_cursor()).followed(),
    {
        self.cursor = match Index::new(&self.lines).next_selectable(0) {
            Some(line) => Some((line, 0)),
            None => None,
        };
        self.follow_cursor();
    }

    pub(crate) fn go_to_last_line(&mut self)
        requires
            old(self).wf(),
        ensures
            final(self).wf(),
            final(self)@ == old(self)@.with_cursor(old(self)@.last_cursor()).followed(),
    {
        let total = self.lines.len();
        assert(self@.lines.len() == total);
        self.cursor = if total == 0 {
            None
        } else {
            match Index::new(&self.lines).previous_selectable(total - 1) {
                Some(line) => Some((line, self.last_column(line))),
                None => None,
            }
        };
        self.follow_cursor();
    }
}

} // verus!
