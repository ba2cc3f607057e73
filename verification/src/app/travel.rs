//! Moving about the book: chapters, matches, links.

use vstd::prelude::*;
use crate::app::{App, AppView, Jump, Mode, Request, jump_views};
use crate::app::reader::joined_text;
use crate::app::target::{
    chapter_for, chapter_shown, find_in_spine, index_opt, leads_out, load_chapter, resolve_href,
    split_target,
};
use crate::doc::{Locator, LocatorView};
use crate::layout::LineView;
use crate::search::{Search, SearchView, all_hits, find_all};
use crate::text::{
    chars_of, copy_text, decimal_of, push_chars, push_text, quote_text, quoted_text, text_of,
    text_opt,
};

verus! {

impl App {
    /// Drops the layout, so the next one applies the pending position.
    pub(crate) fn unlay(&mut self)
        requires
            old(self).wf(),
        ensures
            final(self).wf(),
            final(self)@ == old(self)@.unlaid(),
    {
        self.laid_out_for = 0;
        self.lines = Vec::new();
        assert(self@.lines =~= Seq::<LineView>::empty());
    }

    fn ask_to_save(&mut self, aloud: bool)
        requires
            old(self).wf(),
        ensures
            final(self).wf(),
            final(self)@ == old(self)@.saved(aloud),
    {
        if let Some(locator) = self.position() {
            if self.journal.record_position(&locator).is_some() {
                self.request = Some(Request::Save { locator, aloud });
            }
        }
    }

    /// Asks for the reading position to be written, unless it is the one already
    /// written.
    pub fn save_position(&mut self)
        requires
            old(self).wf(),
        ensures
            final(self).wf(),
            final(self)@ == old(self)@.saved(true),
    {
        self.ask_to_save(true);
    }

    fn rescan(&mut self)
        requires
            old(self).wf(),
        ensures
            final(self).wf(),
            final(self)@ == old(self)@.rescanned(),
    {
        if self.search.is_active() {
            self.search.scan(&self.chapter);
        }
    }

    pub(crate) fn go_to_chapter(&mut self, index: usize)
        requires
            old(self).wf(),
        ensures
            final(self).wf(),
            final(self)@ == old(self)@.gone_to(index as int),
    {
        proof {
            reveal(AppView::gone_to);
        }
        assert(self@.book.spine.len() == self.book.spine@.len());
        if index >= self.book.spine.len() {
            return;
        }
        self.ask_to_save(false);
        self.chapter_index = index;
        self.chapter = load_chapter(&self.book, index);
        self.rescan();
        self.contents_cursor = index;
        self.scroll = 0;
        self.cursor = None;
        self.anchor = None;
        if self.mode == Mode::Visual || self.mode == Mode::Normal {
            self.mode = Mode::Reading;
        }
        self.status = None;
        self.unlay();
    }

    /// Opens a chapter by its href, for coming in from outside.
    pub fn go_to_href(&mut self, href: &str)
        requires
            old(self).wf(),
        ensures
            final(self).wf(),
            final(self)@ == (match chapter_for(old(self)@.book.spine, href@) {
                Some(i) => old(self)@.gone_to(i),
                None => old(self)@.says("chapter not found: "@ + href@),
            }),
    {
        match find_in_spine(&self.book, href) {
            Some(index) => self.go_to_chapter(index),
            None => {
                self.status = Some(joined_text("chapter not found: ", href));
            },
        }
    }

    /// Scrolls to the match the reader is on and reports which it is.
    pub(crate) fn show_current_match(&mut self)
        requires
            old(self).wf(),
        ensures
            final(self).wf(),
            final(self)@ == old(self)@.match_shown(),
    {
        let hit = match self.search.current_position() {
            Some(h) => h,
            None => {
                return;
            },
        };
        self.pending_restore = Some(
            Locator { href: self.chapter.href.clone(), block: hit.0, offset: hit.1 },
        );
        self.mode = Mode::Reading;
        self.status = match self.search.progress() {
            Some((at, total)) => {
                let quoted = quote_text(self.search.query());
                let mut text = chars_of(&quoted);
                push_text(&mut text, "  ");
                let digits = decimal_of(at as u64);
                push_chars(&mut text, &digits);
                push_text(&mut text, "/");
                let digits = decimal_of(total as u64);
                push_chars(&mut text, &digits);
                Some(text_of(&text))
            },
            None => None,
        };
        self.unlay();
    }

    /// The nearest chapter with a match, looking on from the current one.
    fn find_chapter_with_match(&self, forward: bool) -> (r: Option<usize>)
        requires
            self.wf(),
        ensures
            index_opt(r) == self@.chapter_with_match(self@.chapter_index, forward),
            r matches Some(i) ==> i < self@.book.spine.len() && all_hits(
                chapter_shown(self@.book, i as int).blocks,
                self@.search.query,
            ).len() > 0,
    {
        let count = self.book.spine.len();
        assert(self@.book.spine.len() == count);
        let mut index = self.chapter_index;
        loop
            invariant
                self.wf(),
                count == self@.book.spine.len(),
                index < count,
                self@.chapter_with_match(self@.chapter_index, forward)
                    == self@.chapter_with_match(index as int, forward),
            decreases (if forward {
                count - index
            } else {
                index as int
            }),
        {
            if forward {
                if index >= count - 1 {
                    return None;
                }
                index = index + 1;
            } else {
                if index == 0 {
                    return None;
                }
                index = index - 1;
            }
            // Chapters are parsed as they are reached rather than up front, so
            // opening a book stays instant even in a title with a hundred
            // chapters.
            let chapter = load_chapter(&self.book, index);
            let hits = find_all(&chapter, self.search.query());
            if hits.len() > 0 {
                return Some(index);
            }
        }
    }

    /// Steps to the next or previous match, crossing chapters when this one holds
    /// no further match.
    pub(crate) fn jump_to_match(&mut self, forward: bool)
        requires
            old(self).wf(),
        ensures
            final(self).wf(),
            final(self)@ == old(self)@.matched(forward),
    {
        proof {
            reveal(AppView::matched);
        }
        if !self.search.is_active() {
            self.status = Some(copy_text("nothing searched yet: / starts a search"));
            return;
        }
        let stepped = if forward {
            self.search.next_in_chapter()
        } else {
            self.search.previous_in_chapter()
        };
        if stepped {
            self.show_current_match();
            return;
        }
        assert(self@ =~= old(self)@);
        self.look_on(forward);
    }

    /// Goes to the nearest match in the chapters ahead, or in those behind.
    pub(crate) fn look_on(&mut self, forward: bool)
        requires
            old(self).wf(),
        ensures
            final(self).wf(),
            final(self)@ == old(self)@.looked_on(forward),
    {
        proof {
            reveal(AppView::looked_on);
        }
        match self.find_chapter_with_match(forward) {
            None => {
                let quoted = quote_text(self.search.query());
                self.status = Some(joined_text("no more matches for ", &quoted));
            },
            Some(index) => {
                self.ask_to_save(false);
                self.chapter_index = index;
                self.chapter = load_chapter(&self.book, index);
                self.contents_cursor = index;
                self.cursor = None;
                self.anchor = None;
                self.search.scan(&self.chapter);
                if forward {
                    self.search.go_to_first();
                } else {
                    self.search.go_to_last();
                }
                self.show_current_match();
            },
        }
    }

    /// Runs a search and jumps to the first match, for coming in from a hit found
    /// elsewhere. Where this chapter holds none, the search goes on through the
    /// book.
    pub fn search_for(&mut self, text: String)
        requires
            old(self).wf(),
        ensures
            final(self).wf(),
            ({
                let hits = all_hits(old(self)@.chapter.blocks, text@);
                let s = AppView {
                    search: SearchView { query: text@, hits, current: None },
                    ..old(self)@
                };
                final(self)@ == (if hits.len() > 0 {
                    (AppView { search: s.search.at_index(0), ..s }).match_shown()
                } else {
                    s.matched(true)
                })
            }),
    {
        self.search.set_query(text);
        self.search.scan(&self.chapter);
        if self.search.go_to_first() {
            self.show_current_match();
        } else {
            self.jump_to_match(true);
        }
    }

    /// Takes back whatever is in force: the search highlighting first, then any
    /// message. Never quits.
    pub(crate) fn dismiss(&mut self)
        requires
            old(self).wf(),
        ensures
            final(self).wf(),
            final(self)@ == old(self)@.dismissed(),
    {
        if self.search.is_active() {
            self.search.clear();
            self.status = Some(copy_text("search cleared"));
            return;
        }
        self.status = None;
    }

    /// Follows the link under the cursor.
    ///
    /// A target inside the book is resolved against the chapter it is written in,
    /// and the fragment decides the line: `notes.xhtml#fn20` lands on the
    /// footnote, not at the top of the notes. Where the reader came from is kept,
    /// so `Ctrl-o` walks back.
    pub(crate) fn follow_link(&mut self)
        requires
            old(self).wf(),
        ensures
            final(self).wf(),
            final(self)@ == old(self)@.link_followed(),
    {
        proof {
            reveal(AppView::link_followed);
        }
        let target = match self.link_at_cursor() {
            Some(link) => link.target.clone(),
            None => {
                self.status = Some(copy_text("no link here"));
                return;
            },
        };
        if leads_out(&target) {
            self.status = Some(joined_text("external link: ", &target));
            return;
        }
        let (file, fragment) = split_target(&target);
        let view = match self.position() {
            Some(p) => p,
            None => Locator { href: self.chapter.href.clone(), block: 0, offset: 0 },
        };
        let here = Jump { view, cursor: self.cursor_text_position() };
        let href = if file.as_str().is_empty() {
            self.chapter.href.clone()
        } else {
            resolve_href(&self.chapter.href, &file)
        };
        match find_in_spine(&self.book, &href) {
            None => {
                self.status = Some(joined_text("target is not in the reading order: ", &href));
            },
            Some(index) => {
                if index != self.chapter_index {
                    self.go_to_chapter(index);
                }
                self.land(here, fragment);
            },
        }
    }

    /// Lands on a fragment of the chapter, with a cursor, so the next link is one
    /// keypress away and `Ctrl-o` has something to return to.
    fn land(&mut self, here: Jump, fragment: Option<String>)
        requires
            old(self).wf(),
        ensures
            final(self).wf(),
            ({
                let s = old(self)@;
                let f = text_opt(fragment);
                let known = f is Some && s.chapter.anchors.contains_key(f->0);
                let landing = if known {
                    s.chapter.anchors[f->0]
                } else {
                    (0usize, 0usize)
                };
                final(self)@ == (AppView {
                    jumps: s.jumps.push(here.view()),
                    pending_cursor: Some(landing),
                    mode: Mode::Normal,
                    pending_restore: Some(
                        LocatorView {
                            href: s.chapter.href,
                            block: landing.0,
                            offset: landing.1,
                        },
                    ),
                    status: if f is Some && !known {
                        Some(
                            "target "@ + quoted_text(f->0) + " not found, showing the chapter"@,
                        )
                    } else {
                        None
                    },
                    ..s
                }).unlaid()
            }),
    {
        let mut landing: (usize, usize) = (0, 0);
        let mut status: Option<String> = None;
        if let Some(id) = &fragment {
            match self.chapter.anchors.get(id) {
                Some(at) => {
                    landing = *at;
                },
                None => {
                    let quoted = quote_text(id);
                    let mut text = chars_of("target ");
                    push_text(&mut text, &quoted);
                    push_text(&mut text, " not found, showing the chapter");
                    status = Some(text_of(&text));
                },
            }
        }
        let ghost before = jump_views(self.jumps@);
        let ghost jump = here.view();
        self.jumps.push(here);
        assert(jump_views(self.jumps@) =~= before.push(jump));
        self.pending_cursor = Some(landing);
        self.mode = Mode::Normal;
        self.pending_restore = Some(
            Locator { href: self.chapter.href.clone(), block: landing.0, offset: landing.1 },
        );
        self.status = status;
        self.unlay();
    }

    /// Walks back out of followed links.
    pub(crate) fn jump_back(&mut self)
        requires
            old(self).wf(),
        ensures
            final(self).wf(),
            final(self)@ == old(self)@.jumped_back(),
    {
        proof {
            reveal(AppView::jumped_back);
        }
        let ghost before = jump_views(self.jumps@);
        let back = match self.jumps.pop() {
            Some(j) => j,
            None => {
                assert(before.len() == 0);
                assert(self@ =~= old(self)@);
                self.status = Some(copy_text("nowhere to go back to"));
                return;
            },
        };
        assert(jump_views(self.jumps@) =~= before.drop_last());
        assert(before.last() == back.view());
        if let Some(index) = find_in_spine(&self.book, &back.view.href) {
            if index != self.chapter_index {
                self.chapter_index = index;
                self.chapter = load_chapter(&self.book, index);
                self.contents_cursor = index;
                self.cursor = None;
                self.anchor = None;
                self.rescan();
            }
        }
        if back.cursor.is_some() && self.mode == Mode::Reading {
            self.mode = Mode::Normal;
        }
        self.pending_cursor = back.cursor;
        self.pending_restore = Some(back.view);
        self.status = None;
        self.unlay();
    }

    pub(crate) fn open_search(&mut self)
        requires
            old(self).wf(),
        ensures
            final(self).wf(),
            final(self)@ == old(self)@.search_opened(),
    {
        self.search_input = copy_text(self.search.query());
        self.mode = Mode::Search;
        self.status = None;
    }

    pub(crate) fn open_contents(&mut self)
        requires
            old(self).wf(),
        ensures
            final(self).wf(),
            final(self)@ == old(self)@.contents_opened(),
    {
        self.contents_cursor = self.chapter_index;
        self.mode = Mode::Contents;
    }

    pub(crate) fn step_chapter(&mut self, forward: bool)
        requires
            old(self).wf(),
        ensures
            final(self).wf(),
            final(self)@ == old(self)@.chapter_stepped(forward),
    {
        proof {
            reveal(AppView::chapter_stepped);
        }
        let count = self.book.spine.len();
        assert(self@.book.spine.len() == count);
        if forward {
            if self.chapter_index < count - 1 {
                self.go_to_chapter(self.chapter_index + 1);
            } else {
                self.status = Some(copy_text("end of book"));
            }
        } else if self.chapter_index > 0 {
            self.go_to_chapter(self.chapter_index - 1);
        } else {
            self.status = Some(copy_text("start of book"));
        }
    }
}

} // verus!
