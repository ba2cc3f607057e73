//! What the commands decide: where a reference leads, which hit is picked, what
//! is recorded when a book is opened, and what goes through the editor.

pub mod laws;
pub mod listing;
pub mod reports;

use vstd::prelude::*;
use crate::app::{EditRequest, EditView, Mode};
use crate::epub::{Book, BookView};
use crate::export::markdown::on_one_line;
use crate::find::{
    find_last, last_place, opening_words, reference_path, skip_marks, strip_marks, words_from_first,
};
use crate::identity::BookId;
use crate::input::Key;
use crate::journal::{has_path, knows_path, Payload, PayloadView, State, StateView};
use crate::paths::{join_path, path_joined};
use crate::text::{
    char_views, chars_of, copy_text, find_chars, find_from, lemma_find_from, lemma_trim_tail, lines,
    lines_of, number_value, occurs_at, push_text, read_number, stands_at, sub_chars, text_of,
    text_opt, trim, trimmed,
};
use crate::xml::slice_opt;

verus! {

// ----- references -----
/// A reference and the line behind its last colon. There has to be something in
/// front of the colon.
pub open spec fn suffix_parts(reference: Seq<char>) -> (Seq<char>, Option<int>) {
    match last_place(reference, ':', reference.len() as int) {
        Some(i) => match number_value(reference.subrange(i + 1, reference.len() as int)) {
            Some(n) => if n <= usize::MAX && i > 0 {
                (reference.take(i), Some(n))
            } else {
                (reference, None)
            },
            None => (reference, None),
        },
        None => (reference, None),
    }
}

/// Splits a trailing `:123` off a reference, leaving a Windows-style drive letter
/// or a `sha256:` prefix alone.
pub fn split_line_suffix(reference: &str) -> (r: (String, Option<usize>))
    ensures
        r.0@ == suffix_parts(reference@).0,
        match suffix_parts(reference@).1 {
            Some(n) => r.1 is Some && r.1->0 == n,
            None => r.1 is None,
        },
{
    let whole = chars_of(reference);
    let total = whole.len();
    if let Some(i) = find_last(&whole, ':') {
        let tail = sub_chars(&whole, i + 1, total);
        if let Some(n) = read_number(&tail, usize::MAX as u64) {
            if i > 0 {
                let body = sub_chars(&whole, 0, i);
                assert(whole@.subrange(0, i as int) =~= whole@.take(i as int));
                return (text_of(&body), Some(n as usize));
            }
        }
    }
    (copy_text(reference), None)
}

/// A path with a leading `~` expanded.
pub open spec fn expanded(path: Seq<char>, home: Option<Seq<char>>) -> Seq<char> {
    match home {
        Some(home) => if occurs_at(path, "~/"@, 0) {
            path_joined(home, path.subrange("~/"@.len() as int, path.len() as int))
        } else {
            path
        },
        None => path,
    }
}

/// Expands a leading `~`, which a shell would otherwise have done. `home` is the
/// user's home directory.
pub fn shellexpand(path: &str, home: Option<&str>) -> (r: String)
    ensures
        r@ == expanded(path@, slice_opt(home)),
{
    if let Some(home) = home {
        let whole = chars_of(path);
        let tilde = chars_of("~/");
        if stands_at(&whole, &tilde, 0) {
            let rest = sub_chars(&whole, tilde.len(), whole.len());
            let rest = text_of(&rest);
            return join_path(home, &rest);
        }
    }
    copy_text(path)
}

/// Where a reference leads: a file, a line in it where one is given, and whether
/// the file was found through the export.
#[derive(Debug)]
pub struct Place {
    pub path: String,
    pub line: Option<usize>,
    pub exported: bool,
}

/// Turns a reference into a file and, where one is given, a line number.
///
/// Accepts a plain path, a path with `:line`, and a qmd hit of the form
/// `qmd://collection/relative/path.md:line`. A qmd hit names the collection
/// rather than the directory behind it, so the export directory stands in for it:
/// that is the collection that was written.
pub fn resolve_hit(reference: &str, export_dir: &str, home: Option<&str>) -> (r: Place)
    ensures
        ({
            let (body, line) = suffix_parts(reference@);
            &&& r.exported == occurs_at(body, "qmd://"@, 0)
            &&& r.path@ == (if r.exported {
                reference_path(body, export_dir@)
            } else {
                expanded(body, slice_opt(home))
            })
            &&& match line {
                Some(n) => r.line is Some && r.line->0 == n,
                None => r.line is None,
            }
        }),
{
    let (body, line) = split_line_suffix(reference);
    let whole = chars_of(&body);
    let scheme = chars_of("qmd://");
    if !stands_at(&whole, &scheme, 0) {
        return Place { path: shellexpand(&body, home), line, exported: false };
    }
    let rest = sub_chars(&whole, scheme.len(), whole.len());
    let n = rest.len();
    let slash: Vec<char> = vec!['/'];
    assert(slash@ =~= seq!['/']);
    let relative = match find_chars(&rest, &slash, 0) {
        Some(i) => {
            proof {
                lemma_find_from(rest@, slash@, 0);
                assert(i + 1 <= n);
            }
            sub_chars(&rest, i + 1, n)
        },
        None => rest,
    };
    let relative = text_of(&relative);
    Place { path: join_path(export_dir, &relative), line, exported: true }
}

/// The words of a line that are worth searching for. A line of the front matter
/// holds none.
pub open spec fn landing_words(text: Seq<char>, line: int) -> Option<Seq<char>> {
    let all = lines_of(text);
    let i = if line < 1 {
        0
    } else {
        line - 1
    };
    if i >= all.len() {
        None
    } else {
        let raw = trim(all[i]);
        if raw.len() == 0 || occurs_at(raw, "---"@, 0) {
            None
        } else {
            words_from_first(
                trim(raw.subrange(skip_marks(raw, 0), raw.len() as int)),
                1,
            )
        }
    }
}

/// The text of one line of a file, trimmed to something worth searching for.
///
/// A whole line can be a long paragraph; the first words are enough to find the
/// passage and are less likely to differ from the book by a stray character.
pub fn landing_text(text: &str, line: usize) -> (r: Option<String>)
    ensures
        text_opt(r) == landing_words(text@, line as int),
{
    let v = chars_of(text);
    let all = lines(&v);
    assert(char_views(all@).len() == all@.len());
    let i = if line < 1 {
        0
    } else {
        line - 1
    };
    if i >= all.len() {
        return None;
    }
    assert(char_views(all@)[i as int] == all@[i as int]@);
    let raw = trimmed(&all[i]);
    let dashes = chars_of("---");
    if raw.len() == 0 || stands_at(&raw, &dashes, 0) {
        return None;
    }
    let cleaned = strip_marks(&raw);
    let cleaned = trimmed(&cleaned);
    opening_words(&cleaned, 1)
}

// ----- picking a hit -----
/// The hit list while one is being picked.
#[derive(Debug)]
pub struct Picker {
    pub cursor: usize,
    pub scroll: usize,
    pub total: usize,
}

/// What a key does to the hit list.
#[derive(Debug, Clone, Copy, PartialEq, Eq, Structural)]
pub enum Pick {
    Stay,
    Leave,
    Open,
}

impl Picker {
    /// The cursor is on a hit, where there is one.
    pub open spec fn wf(&self) -> bool {
        self.cursor < self.total || (self.total == 0 && self.cursor == 0)
    }

    pub fn new(total: usize) -> (r: Self)
        ensures
            r.wf(),
            r == (Picker { cursor: 0, scroll: 0, total }),
    {
        Picker { cursor: 0, scroll: 0, total }
    }

    /// How many hits a window shows: three rows each, with one row for the
    /// status.
    pub open spec fn per_screen(height: u16) -> int {
        if height < 4 {
            1
        } else {
            (height - 1) / 3
        }
    }

    /// Scrolls just enough to keep the cursor on screen.
    pub fn follow(&mut self, height: u16)
        requires
            old(self).wf(),
        ensures
            final(self).wf(),
            final(self).cursor == old(self).cursor,
            final(self).total == old(self).total,
            ({
                let shown = Picker::per_screen(height);
                final(self).scroll == (if old(self).cursor < old(self).scroll {
                    old(self).cursor as int
                } else if old(self).cursor >= old(self).scroll + shown {
                    old(self).cursor + 1 - shown
                } else {
                    old(self).scroll as int
                })
            }),
            final(self).scroll <= final(self).cursor < final(self).scroll + Picker::per_screen(
                height,
            ),
    {
        let shown: usize = if height < 4 {
            1
        } else {
            ((height - 1) / 3) as usize
        };
        if self.cursor < self.scroll {
            self.scroll = self.cursor;
        } else if self.cursor - self.scroll >= shown {
            self.scroll = self.cursor - shown + 1;
        }
    }

    /// Handles a key. The cursor stays on the list.
    pub fn handle_key(&mut self, key: Key) -> (r: Pick)
        requires
            old(self).wf(),
        ensures
            final(self).wf(),
            final(self).total == old(self).total,
            final(self).scroll == old(self).scroll,
            r == (match key {
                Key::Char('q') | Key::Esc => Pick::Leave,
                Key::Enter | Key::Char('l') => Pick::Open,
                _ => Pick::Stay,
            }),
            final(self).cursor == (match key {
                Key::Char('j') | Key::Down => if old(self).cursor + 1 < old(self).total {
                    old(self).cursor + 1
                } else if old(self).total > 0 {
                    old(self).total - 1
                } else {
                    0
                },
                Key::Char('k') | Key::Up => if old(self).cursor > 0 {
                    old(self).cursor - 1
                } else {
                    0
                },
                Key::Char('G') => if old(self).total > 0 {
                    old(self).total - 1
                } else {
                    0
                },
                Key::Char('g') => 0,
                _ => old(self).cursor as int,
            }),
    {
        let last = if self.total == 0 {
            0
        } else {
            self.total - 1
        };
        match key {
            Key::Char('q') | Key::Esc => Pick::Leave,
            Key::Char('j') | Key::Down => {
                if self.cursor < last {
                    self.cursor = self.cursor + 1;
                } else {
                    self.cursor = last;
                }
                Pick::Stay
            },
            Key::Char('k') | Key::Up => {
                if self.cursor > 0 {
                    self.cursor = self.cursor - 1;
                }
                Pick::Stay
            },
            Key::Char('G') => {
                self.cursor = last;
                Pick::Stay
            },
            Key::Char('g') => {
                self.cursor = 0;
                Pick::Stay
            },
            Key::Enter | Key::Char('l') => Pick::Open,
            _ => Pick::Stay,
        }
    }
}

// ----- opening a book -----
/// Whether the journal already says all that opening a book would add.
pub open spec fn nothing_new(state: StateView, id: Seq<char>, book: BookView, path: Seq<char>) -> bool {
    state.books.contains_key(id) && knows_path(state.books[id].paths, path)
        && !state.books[id].missing && (state.books[id].title is Some || book.metadata.title is None)
}

/// What to record when a book is opened, so a journal read elsewhere can name it
/// without opening the file. Only when something changed, otherwise every start
/// would add a line that says nothing new.
pub fn note_opening(state: &State, id: &BookId, book: &Book, path: &str) -> (r: Option<Payload>)
    requires
        state.wf(),
    ensures
        r is None <==> nothing_new(state@, id@, book@, path@),
        r matches Some(p) ==> p@ == (PayloadView::BookSeen {
            title: book@.metadata.title,
            authors: book@.metadata.authors,
            path: path@,
        }),
{
    let known = match state.book(id) {
        Some(record) => has_path(&record.paths, path) && !record.missing && (record.title.is_some()
            || book.metadata.title.is_none()),
        None => false,
    };
    if known {
        return None;
    }
    let authors = book.metadata.authors.clone();
    assert(crate::text::texts(authors@) =~= crate::text::texts(book.metadata.authors@));
    Some(
        Payload::BookSeen { title: book.metadata.title.clone(), authors, path: copy_text(path) },
    )
}

/// Opening a book twice records it once: after the event is applied there is
/// nothing new any more.
pub proof fn opening_again_records_nothing(
    state: StateView,
    event: crate::journal::EventView,
    book: BookView,
    path: Seq<char>,
)
    requires
        event.payload == (PayloadView::BookSeen {
            title: book.metadata.title,
            authors: book.metadata.authors,
            path,
        }),
    ensures
        nothing_new(crate::journal::applied(state, event), event.book, book, path),
{
    let after = crate::journal::applied(state, event).books[event.book];
    let before = state.record_or(event.book, path);
    if !knows_path(before.paths, path) {
        assert(after.paths.last() == path);
        assert(after.paths[after.paths.len() - 1] == path);
    }
    assert(knows_path(after.paths, path));
}

/// Identifies a frame: chapter, scroll position, layout width and mode.
pub type FrameToken = (usize, usize, u16, Mode);

/// Whether the screen has to be wiped before the next frame. Pixel pictures are
/// not part of the cell buffer, so once the view has moved, those on screen have
/// to go and those about to appear need a clean surface.
pub fn needs_wiping(
    last: Option<FrameToken>,
    token: FrameToken,
    pixels_on_screen: bool,
    pixels_due: bool,
) -> (r: bool)
    ensures
        r == (last is Some && last->0 != token && (pixels_on_screen || pixels_due)),
{
    let moved = match last {
        Some(l) => !(l.0 == token.0 && l.1 == token.1 && l.2 == token.2 && l.3 == token.3),
        None => false,
    };
    moved && (pixels_on_screen || pixels_due)
}

// ----- the editor -----
/// What the editor opens: the comment first, so the cursor lands on it, and the
/// quoted passage below a marker line as a reminder of what it refers to.
pub open spec fn scaffold_of(request: EditView) -> Seq<char> {
    request.initial_text + "\n\n"@ + marker_line() + "\n"@ + on_one_line(request.quote) + "\n"@
}

pub open spec fn marker_line() -> Seq<char> {
    "--- the highlighted passage, for reference ---"@
}

pub fn scaffold(request: &EditRequest) -> (r: String)
    ensures
        r@ == scaffold_of(request@),
{
    let mut out = chars_of(&request.initial_text);
    push_text(&mut out, "\n\n");
    push_text(&mut out, "--- the highlighted passage, for reference ---");
    push_text(&mut out, "\n");
    let ghost before = out@;
    assert(out@ =~= before + on_one_line(request.quote@.take(0)));
    for c in it: request.quote.chars()
        invariant
            it.seq() == request.quote@,
            out@ == before + on_one_line(request.quote@.take(it.index() as int)),
    {
        let ghost k = it.index() as int;
        out.push(
            if c == '\n' {
                ' '
            } else {
                c
            },
        );
        assert(out@ =~= before + on_one_line(request.quote@.take(k + 1)));
    }
    assert(request.quote@.take(request.quote@.len() as int) =~= request.quote@);
    push_text(&mut out, "\n");
    text_of(&out)
}

/// What was written above the marker.
pub open spec fn note_in(text: Seq<char>) -> Seq<char> {
    trim(
        match find_from(text, marker_line(), 0) {
            Some(i) => text.take(i),
            None => text,
        },
    )
}

/// Keeps only what stands above the marker.
pub fn note_from(text: &str) -> (r: String)
    ensures
        r@ == note_in(text@),
{
    let whole = chars_of(text);
    let marker = chars_of("--- the highlighted passage, for reference ---");
    let body = match find_chars(&whole, &marker, 0) {
        Some(i) => {
            proof {
                lemma_find_from(whole@, marker@, 0);
                assert(whole@.subrange(0, i as int) =~= whole@.take(i as int));
            }
            sub_chars(&whole, 0, i)
        },
        None => whole,
    };
    let kept = trimmed(&body);
    text_of(&kept)
}

/// An editor that is left without a change leaves the comment as it was, as long
/// as the comment does not hold the marker itself: the marker is found exactly
/// where the scaffold put it.
pub proof fn an_untouched_comment_comes_back(request: EditView)
    requires
        forall|i: int|
            0 <= i < request.initial_text.len() + 2 ==> !#[trigger] occurs_at(
                scaffold_of(request),
                marker_line(),
                i,
            ),
    ensures
        note_in(scaffold_of(request)) == trim(request.initial_text),
{
    let text = scaffold_of(request);
    reveal_strlit("\n\n");
    let at = (request.initial_text + "\n\n"@).len() as int;
    assert(text.subrange(at, at + marker_line().len()) =~= marker_line());
    lemma_found_at(text, marker_line(), 0, at);
    assert(text.take(at) =~= request.initial_text + "\n\n"@);
    lemma_trim_tail(request.initial_text, "\n\n"@);
}

proof fn lemma_found_at(s: Seq<char>, pattern: Seq<char>, from: int, at: int)
    requires
        0 <= from <= at,
        occurs_at(s, pattern, at),
        forall|i: int| from <= i < at ==> !#[trigger] occurs_at(s, pattern, i),
    ensures
        find_from(s, pattern, from) == Some(at),
    decreases at - from,
{
    if from < at {
        assert(!occurs_at(s, pattern, from));
        lemma_found_at(s, pattern, from + 1, at);
    }
}

} // verus!
