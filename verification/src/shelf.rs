//! Browsing the library.
//!
//! The state of the list view: which book the cursor is on, how the list is
//! ordered, what is filtered. Separate from `library`, which holds the data and
//! knows nothing about a screen.

use vstd::prelude::*;
use crate::identity::BookId;
use crate::input::{Key, KeyPress};
use crate::journal::State;
use crate::library::{
    copy_entries, entries, entries_sorted, entry_views, filter, filtered, order_after, order_label,
    rows_of, sort, Entry, EntryView, Order,
};
use crate::text::{chars_of, copy_text, push_text, quote_text, quoted_text, same, text_of, text_opt};

verus! {

#[derive(Debug, Clone, Copy, PartialEq, Eq, Structural)]
pub enum Mode {
    Browse,
    /// Typing a filter.
    Filter,
    Help,
}

/// What the shelf asks the session to do next.
#[derive(Debug)]
pub enum Action {
    Nothing,
    /// Open this book for reading.
    Open { id: BookId, path: String },
    Quit,
}

#[verifier::ext_equal]
pub enum ActionView {
    Nothing,
    Open { id: Seq<char>, path: Seq<char> },
    Quit,
}

impl View for Action {
    type V = ActionView;

    open spec fn view(&self) -> ActionView {
        match *self {
            Action::Nothing => ActionView::Nothing,
            Action::Open { id, path } => ActionView::Open { id: id@, path: path@ },
            Action::Quit => ActionView::Quit,
        }
    }
}

#[derive(Debug)]
pub struct Shelf {
    /// Every book, unfiltered, in the current order.
    pub all: Vec<Entry>,
    /// What the list shows.
    pub shown: Vec<Entry>,
    pub cursor: usize,
    pub order: Order,
    pub filter: String,
    pub filter_input: String,
    pub mode: Mode,
    pub status: Option<String>,
    /// Pending first key of a sequence, such as `g` in `gg`.
    pub pending: Option<char>,
    /// Rows the list can show, set by the view before each draw.
    pub view_height: u16,
    pub scroll: usize,
}

#[verifier::ext_equal]
pub struct ShelfView {
    pub all: Seq<Entry>,
    pub shown: Seq<EntryView>,
    pub cursor: int,
    pub order: Order,
    pub filter: Seq<char>,
    pub filter_input: Seq<char>,
    pub mode: Mode,
    pub status: Option<Seq<char>>,
    pub pending: Option<char>,
    pub view_height: u16,
    pub scroll: int,
}

impl View for Shelf {
    type V = ShelfView;

    open spec fn view(&self) -> ShelfView {
        ShelfView {
            all: self.all@,
            shown: entry_views(self.shown@),
            cursor: self.cursor as int,
            order: self.order,
            filter: self.filter@,
            filter_input: self.filter_input@,
            mode: self.mode,
            status: text_opt(self.status),
            pending: self.pending,
            view_height: self.view_height,
            scroll: self.scroll as int,
        }
    }
}

pub open spec fn smaller(a: int, b: int) -> int {
    if a < b {
        a
    } else {
        b
    }
}

/// `a` less `b`, and nothing where that would go below zero.
pub open spec fn less_by(a: int, b: int) -> int {
    if a < b {
        0
    } else {
        a - b
    }
}

/// The place of the first book with that identity from `i` on.
pub open spec fn place_of(shown: Seq<EntryView>, id: Seq<char>, i: int) -> Option<int>
    decreases shown.len() - i,
{
    if i < 0 || i >= shown.len() {
        None
    } else if shown[i].id == id {
        Some(i)
    } else {
        place_of(shown, id, i + 1)
    }
}

impl ShelfView {
    /// The cursor sits on a book, or at the top of an empty list.
    pub open spec fn wf(self) -> bool {
        &&& self.cursor < self.shown.len() || self.cursor == 0
        &&& 0 <= self.cursor
        &&& self.view_height >= 1
        &&& 0 <= self.scroll
    }

    pub open spec fn last(self) -> int {
        less_by(self.shown.len() as int, 1)
    }

    /// Scrolls just enough to show the cursor, and never past the end.
    pub open spec fn followed(self) -> ShelfView {
        let height = self.view_height as int;
        let near = if self.cursor < self.scroll {
            self.cursor
        } else if self.cursor >= self.scroll + height {
            self.cursor + 1 - height
        } else {
            self.scroll
        };
        ShelfView { scroll: smaller(near, less_by(self.shown.len() as int, height)), ..self }
    }

    /// Sorted and filtered again, with the cursor on the same book where it
    /// still shows.
    pub open spec fn arranged(self) -> ShelfView {
        let all = entries_sorted(self.all, self.order);
        let shown = filtered(entry_views(all), self.filter);
        let cursor = if self.cursor < self.shown.len() {
            match place_of(shown, self.shown[self.cursor].id, 0) {
                Some(i) => i,
                None => 0,
            }
        } else {
            0
        };
        (ShelfView { all, shown, cursor, ..self }).followed()
    }

    pub open spec fn says(self, status: Seq<char>) -> ShelfView {
        ShelfView { status: Some(status), ..self }
    }

    pub open spec fn silent(self) -> ShelfView {
        ShelfView { status: None, ..self }
    }

    pub open spec fn at(self, cursor: int) -> ShelfView {
        ShelfView { cursor, ..self }
    }

    /// Opening the book under the cursor. `exists` is whether its file is there.
    pub open spec fn opened(self, exists: bool) -> (ShelfView, ActionView) {
        if self.cursor >= self.shown.len() {
            (self, ActionView::Nothing)
        } else {
            let entry = self.shown[self.cursor];
            if entry.record.paths.len() == 0 {
                (self.says("no file recorded for this book"@), ActionView::Nothing)
            } else if !exists {
                (self.says("file is gone: "@ + entry.record.paths[0]), ActionView::Nothing)
            } else {
                (self, ActionView::Open { id: entry.id, path: entry.record.paths[0] })
            }
        }
    }

    /// A key while browsing, apart from those that open a book or quit.
    pub open spec fn browsed(self, key: Key) -> ShelfView {
        let page = if self.view_height < 4 {
            1
        } else {
            self.view_height - 2
        };
        match key {
            Key::Char('?') => ShelfView { mode: Mode::Help, ..self },
            Key::Char('j') | Key::Down => self.at(smaller(self.cursor + 1, self.last())).silent(),
            Key::Char('k') | Key::Up => self.at(less_by(self.cursor, 1)).silent(),
            Key::Char(' ') | Key::PageDown => self.at(smaller(self.cursor + page, self.last())),
            Key::Backspace | Key::PageUp => self.at(less_by(self.cursor, page)),
            Key::Char('g') => ShelfView { pending: Some('g'), ..self },
            Key::Char('G') => self.at(self.last()),
            Key::Char('/') => ShelfView {
                filter_input: self.filter,
                mode: Mode::Filter,
                ..self
            },
            Key::Esc => if self.filter.len() > 0 {
                (ShelfView { filter: Seq::empty(), ..self }).arranged().says("filter cleared"@)
            } else {
                self.silent()
            },
            // A shortcut for the one order that answers "where was I?".
            Key::Char('r') => (ShelfView { order: Order::Recent, ..self }).arranged().says(
                "sorted by last read"@,
            ),
            // Cycles through the orders rather than needing four keys.
            Key::Char('s') => (ShelfView { order: order_after(self.order), ..self }).arranged().says(
                "sorted by "@ + order_label(order_after(self.order)),
            ),
            _ => self,
        }
    }

    /// A key while a filter is typed.
    pub open spec fn filter_typed(self, key: Key) -> ShelfView {
        match key {
            Key::Esc => ShelfView {
                mode: Mode::Browse,
                filter_input: Seq::empty(),
                ..self
            },
            Key::Enter => {
                let next = (ShelfView {
                    filter: self.filter_input,
                    filter_input: Seq::empty(),
                    mode: Mode::Browse,
                    ..self
                }).arranged();
                if next.shown.len() == 0 {
                    next.says("nothing matches "@ + quoted_text(next.filter))
                } else {
                    next.silent()
                }
            },
            Key::Backspace => ShelfView {
                filter_input: if self.filter_input.len() == 0 {
                    self.filter_input
                } else {
                    self.filter_input.drop_last()
                },
                ..self
            },
            Key::Char(c) => ShelfView { filter_input: self.filter_input.push(c), ..self },
            _ => self,
        }
    }

    /// What a key does. `exists` is whether the file of the book under the
    /// cursor is there.
    pub open spec fn pressed(self, key: Key, exists: bool) -> (ShelfView, ActionView) {
        let s = ShelfView { pending: None, ..self };
        if self.pending == Some('g') && key == Key::Char('g') {
            (s.at(0).followed(), ActionView::Nothing)
        } else {
            match s.mode {
                Mode::Browse => match key {
                    Key::Char('q') => (s, ActionView::Quit),
                    Key::Enter | Key::Char('l') => s.opened(exists),
                    _ => (s.browsed(key).followed(), ActionView::Nothing),
                },
                Mode::Filter => (s.filter_typed(key), ActionView::Nothing),
                Mode::Help => (ShelfView { mode: Mode::Browse, ..s }, ActionView::Nothing),
            }
        }
    }
}

proof fn lemma_place(shown: Seq<EntryView>, id: Seq<char>, i: int)
    requires
        0 <= i,
    ensures
        place_of(shown, id, i) matches Some(k) ==> i <= k < shown.len() && shown[k].id == id,
        place_of(shown, id, i) is None ==> forall|k: int|
            i <= k < shown.len() ==> (#[trigger] shown[k]).id != id,
    decreases shown.len() - i,
{
    if i < shown.len() && shown[i].id != id {
        lemma_place(shown, id, i + 1);
    }
}

/// The cursor is on screen after the view has followed it, whatever the height.
pub proof fn the_view_follows_the_cursor(s: ShelfView)
    requires
        s.wf(),
        s.shown.len() > 0,
    ensures
        s.followed().scroll <= s.cursor < s.followed().scroll + s.view_height,
        s.followed().wf(),
{
}

proof fn lemma_followed(s: ShelfView)
    requires
        s.wf(),
    ensures
        s.followed().wf(),
{
}

proof fn lemma_browsed(s: ShelfView, key: Key)
    requires
        s.wf(),
    ensures
        s.browsed(key).wf(),
{
    match key {
        Key::Esc => {
            lemma_arranged(ShelfView { filter: Seq::empty(), ..s });
        },
        Key::Char(c) => {
            if c == 'r' {
                lemma_arranged(ShelfView { order: Order::Recent, ..s });
            } else if c == 's' {
                lemma_arranged(ShelfView { order: order_after(s.order), ..s });
            }
        },
        _ => {},
    }
}

proof fn lemma_filter_typed(s: ShelfView, key: Key)
    requires
        s.wf(),
    ensures
        s.filter_typed(key).wf(),
{
    if key == Key::Enter {
        lemma_arranged(
            ShelfView {
                filter: s.filter_input,
                filter_input: Seq::empty(),
                mode: Mode::Browse,
                ..s
            },
        );
    }
}

/// No key can move the cursor off the list.
pub proof fn the_cursor_stays_on_the_list(s: ShelfView, key: Key, exists: bool)
    requires
        s.wf(),
    ensures
        s.pressed(key, exists).0.wf(),
{
    let t = ShelfView { pending: None, ..s };
    lemma_browsed(t, key);
    lemma_followed(t.browsed(key));
    lemma_filter_typed(t, key);
}

proof fn lemma_arranged(s: ShelfView)
    requires
        s.wf(),
    ensures
        s.arranged().wf(),
{
    let all = entries_sorted(s.all, s.order);
    let shown = filtered(entry_views(all), s.filter);
    if s.cursor < s.shown.len() {
        lemma_place(shown, s.shown[s.cursor].id, 0);
    }
}

/// Sorting and filtering keep the cursor on its book as long as the book shows.
pub proof fn the_cursor_stays_on_its_book(s: ShelfView, i: int)
    requires
        s.wf(),
        s.cursor < s.shown.len(),
        0 <= i < s.arranged().shown.len(),
        s.arranged().shown[i].id == s.shown[s.cursor].id,
    ensures
        s.arranged().cursor < s.arranged().shown.len(),
        s.arranged().shown[s.arranged().cursor].id == s.shown[s.cursor].id,
{
    let all = entries_sorted(s.all, s.order);
    let shown = filtered(entry_views(all), s.filter);
    lemma_place(shown, s.shown[s.cursor].id, 0);
    assert(shown[i].id == s.shown[s.cursor].id);
}

impl Shelf {
    /// Title first: it is what the eye looks for, and it is the one field almost
    /// every book fills in.
    pub fn new(state: &State) -> (r: Self)
        requires
            state.wf(),
        ensures
            r@.wf(),
            exists|rows: Seq<Entry>| #[trigger]
                rows_of(entry_views(rows), state@) && r@.all == entries_sorted(rows, Order::Title)
                    && r@ == (ShelfView {
                    all: r@.all,
                    shown: entry_views(r@.all),
                    cursor: 0,
                    order: Order::Title,
                    filter: Seq::empty(),
                    filter_input: Seq::empty(),
                    mode: Mode::Browse,
                    status: None,
                    pending: None,
                    view_height: 1,
                    scroll: 0,
                }),
    {
        let mut all = entries(state);
        let ghost rows = all@;
        sort(&mut all, Order::Title);
        let shown = copy_entries(&all);
        let r = Shelf {
            all,
            shown,
            cursor: 0,
            order: Order::Title,
            filter: String::new(),
            filter_input: String::new(),
            mode: Mode::Browse,
            status: None,
            pending: None,
            view_height: 1,
            scroll: 0,
        };
        assert(rows_of(entry_views(rows), state@));
        assert(r@.filter =~= Seq::<char>::empty());
        assert(r@.filter_input =~= Seq::<char>::empty());
        r
    }

    pub fn entries(&self) -> (r: &Vec<Entry>)
        ensures
            entry_views(r@) == self@.shown,
    {
        &self.shown
    }

    pub fn cursor(&self) -> (r: usize)
        ensures
            r == self@.cursor,
    {
        self.cursor
    }

    pub fn scroll(&self) -> (r: usize)
        ensures
            r == self@.scroll,
    {
        self.scroll
    }

    pub fn order(&self) -> (r: Order)
        ensures
            r == self@.order,
    {
        self.order
    }

    pub fn filter(&self) -> (r: &str)
        ensures
            r@ == self@.filter,
    {
        self.filter.as_str()
    }

    /// The filter prompt, while one is being typed.
    pub fn filter_input(&self) -> (r: Option<&str>)
        ensures
            match r {
                Some(t) => self@.mode == Mode::Filter && t@ == self@.filter_input,
                None => self@.mode != Mode::Filter,
            },
    {
        if self.mode == Mode::Filter {
            Some(self.filter_input.as_str())
        } else {
            None
        }
    }

    pub fn status(&self) -> (r: Option<&str>)
        ensures
            crate::xml::slice_opt(r) == self@.status,
    {
        match &self.status {
            Some(s) => Some(s.as_str()),
            None => None,
        }
    }

    pub fn total(&self) -> (r: usize)
        ensures
            r == self@.all.len(),
    {
        self.all.len()
    }

    /// Tells the shelf how many rows it has, before drawing.
    pub fn prepare(&mut self, height: u16)
        requires
            old(self)@.wf(),
        ensures
            final(self)@.wf(),
            final(self)@ == (ShelfView {
                view_height: if height < 1 {
                    1
                } else {
                    height
                },
                ..old(self)@
            }).followed(),
    {
        self.view_height = if height < 1 {
            1
        } else {
            height
        };
        self.follow_cursor();
    }

    fn follow_cursor(&mut self)
        requires
            old(self)@.wf(),
        ensures
            final(self)@.wf(),
            final(self)@ == old(self)@.followed(),
    {
        let height = self.view_height as usize;
        assert(self@.shown.len() == self.shown@.len());
        if self.cursor < self.scroll {
            self.scroll = self.cursor;
        } else if self.cursor - self.scroll >= height {
            self.scroll = self.cursor - height + 1;
        }
        let n = self.shown.len();
        let max = if n < height {
            0
        } else {
            n - height
        };
        if max < self.scroll {
            self.scroll = max;
        }
    }

    /// Re-sorts and re-filters, keeping the cursor on the same book where it
    /// still shows.
    pub fn apply(&mut self)
        requires
            old(self)@.wf(),
        ensures
            final(self)@.wf(),
            final(self)@ == old(self)@.arranged(),
    {
        let ghost start = self@;
        let selected = if self.cursor < self.shown.len() {
            assert(start.shown[start.cursor] == self.shown@[self.cursor as int]@);
            Some(self.shown[self.cursor].id.clone())
        } else {
            None
        };
        assert(self@.shown.len() == self.shown@.len());
        sort(&mut self.all, self.order);
        self.shown = filter(&self.all, &self.filter);
        let ghost shown = entry_views(self.shown@);
        self.cursor = 0;
        if let Some(id) = selected {
            let mut i: usize = 0;
            let mut found: Option<usize> = None;
            while i < self.shown.len() && found.is_none()
                invariant
                    i <= self.shown@.len(),
                    shown == entry_views(self.shown@),
                    match found {
                        Some(k) => place_of(shown, id@, 0) == Some(k as int) && k
                            < self.shown@.len(),
                        None => place_of(shown, id@, 0) == place_of(shown, id@, i as int),
                    },
                decreases self.shown@.len() - i + (if found is None {
                    1int
                } else {
                    0int
                }),
            {
                assert(shown[i as int] == self.shown@[i as int]@);
                if same(self.shown[i].id.as_str(), id.as_str()) {
                    found = Some(i);
                } else {
                    i += 1;
                }
            }
            if let Some(k) = found {
                self.cursor = k;
            }
        }
        self.follow_cursor();
    }

    /// What a key does. `exists` is whether the file of the book under the
    /// cursor is there.
    pub fn handle_key(&mut self, press: KeyPress, exists: bool) -> (r: Action)
        requires
            old(self)@.wf(),
        ensures
            final(self)@.wf(),
            (final(self)@, r@) == old(self)@.pressed(press.key, exists),
    {
        let key = press.key;
        let first = self.pending;
        self.pending = None;
        if let Some(c) = first {
            if c == 'g' && key == Key::Char('g') {
                self.cursor = 0;
                self.follow_cursor();
                return Action::Nothing;
            }
        }
        match self.mode {
            Mode::Browse => self.handle_browse_key(key, exists),
            Mode::Filter => {
                self.handle_filter_key(key);
                Action::Nothing
            },
            Mode::Help => {
                self.mode = Mode::Browse;
                Action::Nothing
            },
        }
    }

    fn handle_browse_key(&mut self, key: Key, exists: bool) -> (r: Action)
        requires
            old(self)@.wf(),
            old(self)@.mode == Mode::Browse,
            old(self)@.pending is None,
        ensures
            final(self)@.wf(),
            (final(self)@, r@) == old(self)@.pressed(key, exists),
    {
        let n = self.shown.len();
        assert(self@.shown.len() == n);
        let last: usize = if n == 0 {
            0
        } else {
            n - 1
        };
        let page: usize = if self.view_height < 4 {
            1
        } else {
            (self.view_height - 2) as usize
        };
        match key {
            Key::Char('q') => {
                return Action::Quit;
            },
            Key::Char('?') => {
                self.mode = Mode::Help;
            },
            Key::Char('j') | Key::Down => {
                self.cursor = if self.cursor < last {
                    self.cursor + 1
                } else {
                    last
                };
                self.status = None;
            },
            Key::Char('k') | Key::Up => {
                self.cursor = if self.cursor < 1 {
                    0
                } else {
                    self.cursor - 1
                };
                self.status = None;
            },
            Key::Char(' ') | Key::PageDown => {
                self.cursor = if self.cursor < last && page < last - self.cursor {
                    self.cursor + page
                } else {
                    last
                };
            },
            Key::Backspace | Key::PageUp => {
                self.cursor = if self.cursor < page {
                    0
                } else {
                    self.cursor - page
                };
            },
            Key::Char('g') => {
                self.pending = Some('g');
            },
            Key::Char('G') => {
                self.cursor = last;
            },
            Key::Char('/') => {
                self.filter_input = self.filter.clone();
                self.mode = Mode::Filter;
            },
            Key::Esc => {
                if !self.filter.as_str().is_empty() {
                    self.filter = String::new();
                    assert(self.filter@ =~= Seq::<char>::empty());
                    self.apply();
                    self.status = Some(copy_text("filter cleared"));
                } else {
                    self.status = None;
                }
            },
            Key::Char('r') => {
                self.order = Order::Recent;
                self.apply();
                self.status = Some(copy_text("sorted by last read"));
            },
            Key::Char('s') => {
                self.order = self.order.next();
                self.apply();
                let mut text = chars_of("sorted by ");
                push_text(&mut text, self.order.label());
                self.status = Some(text_of(&text));
            },
            Key::Enter | Key::Char('l') => {
                return self.open_selected(exists);
            },
            _ => {},
        }
        self.follow_cursor();
        Action::Nothing
    }

    fn handle_filter_key(&mut self, key: Key)
        requires
            old(self)@.wf(),
        ensures
            final(self)@.wf(),
            final(self)@ == old(self)@.filter_typed(key),
    {
        match key {
            Key::Esc => {
                self.mode = Mode::Browse;
                self.filter_input = String::new();
                assert(self.filter_input@ =~= Seq::<char>::empty());
            },
            Key::Enter => {
                self.filter = self.filter_input.clone();
                self.filter_input = String::new();
                assert(self.filter_input@ =~= Seq::<char>::empty());
                self.mode = Mode::Browse;
                self.apply();
                assert(self@.shown.len() == self.shown@.len());
                if self.shown.len() == 0 {
                    let mut text = chars_of("nothing matches ");
                    let quoted = quote_text(&self.filter);
                    push_text(&mut text, &quoted);
                    self.status = Some(text_of(&text));
                } else {
                    self.status = None;
                }
            },
            Key::Backspace => {
                self.filter_input = without_last(&self.filter_input);
            },
            Key::Char(c) => {
                self.filter_input.push(c);
            },
            _ => {},
        }
    }

    fn open_selected(&mut self, exists: bool) -> (r: Action)
        requires
            old(self)@.wf(),
        ensures
            final(self)@.wf(),
            (final(self)@, r@) == old(self)@.opened(exists),
    {
        assert(self@.shown.len() == self.shown@.len());
        if self.cursor >= self.shown.len() {
            return Action::Nothing;
        }
        let entry = &self.shown[self.cursor];
        assert(self@.shown[self@.cursor] == entry@);
        let path = match entry.record.path() {
            Some(p) => p.clone(),
            None => {
                self.status = Some(copy_text("no file recorded for this book"));
                return Action::Nothing;
            },
        };
        if !exists {
            let mut text = chars_of("file is gone: ");
            push_text(&mut text, &path);
            self.status = Some(text_of(&text));
            return Action::Nothing;
        }
        Action::Open { id: entry.id.clone(), path }
    }

    /// The file of the book under the cursor, to find out whether it is there.
    pub fn selected_path(&self) -> (r: Option<&String>)
        requires
            self@.wf(),
        ensures
            match r {
                Some(p) => self@.cursor < self@.shown.len()
                    && self@.shown[self@.cursor].record.paths.len() > 0 && p@
                    == self@.shown[self@.cursor].record.paths[0],
                None => self@.cursor >= self@.shown.len()
                    || self@.shown[self@.cursor].record.paths.len() == 0,
            },
    {
        assert(self@.shown.len() == self.shown@.len());
        if self.cursor < self.shown.len() {
            assert(self@.shown[self@.cursor] == self.shown@[self.cursor as int]@);
            self.shown[self.cursor].record.path()
        } else {
            None
        }
    }
}

/// A text without its last character.
pub fn without_last(s: &str) -> (r: String)
    ensures
        r@ == (if s@.len() == 0 {
            s@
        } else {
            s@.drop_last()
        }),
{
    let v = chars_of(s);
    let n = v.len();
    if n == 0 {
        text_of(&v)
    } else {
        let r = crate::text::slice_text(&v, 0, n - 1);
        assert(r@ =~= s@.drop_last());
        r
    }
}

// ---------------------------------------------------------------------------
// What the keys do
// ---------------------------------------------------------------------------
/// One key down and one up leads back, as long as there is a book below.
pub proof fn up_undoes_down(s: ShelfView, a: bool, b: bool)
    requires
        s.wf(),
        s.mode is Browse,
        s.pending is None,
        s.cursor + 1 < s.shown.len(),
    ensures
        s.pressed(Key::Down, a).0.cursor == s.cursor + 1,
        s.pressed(Key::Down, a).0.pressed(Key::Up, b).0.cursor == s.cursor,
        s.pressed(Key::Char('j'), a).0.cursor == s.cursor + 1,
        s.pressed(Key::Char('j'), a).0.pressed(Key::Char('k'), b).0.cursor == s.cursor,
        s.pressed(Key::Down, a).0.shown == s.shown,
{
}

/// A screenful down moves by what is seen of the list, less two lines, and stops at
/// the last book; a screenful up does the same the other way. `gg` and `G` lead to the
/// first and the last.
pub proof fn pages_and_ends(s: ShelfView, a: bool, b: bool)
    requires
        s.wf(),
        s.mode is Browse,
        s.pending is None,
        s.shown.len() > 0,
        s.view_height >= 4,
    ensures
        ({
            let page = s.view_height - 2;
            let down = s.pressed(Key::PageDown, a).0.cursor;
            let up = s.pressed(Key::PageUp, a).0.cursor;
            &&& s.cursor + page < s.shown.len() ==> down == s.cursor + page
            &&& s.cursor + page >= s.shown.len() ==> down == s.shown.len() - 1
            &&& s.cursor >= page ==> up == s.cursor - page
            &&& s.cursor < page ==> up == 0
            &&& s.pressed(Key::Char('G'), a).0.cursor == s.shown.len() - 1
            &&& s.pressed(Key::Char('g'), a).0.pressed(Key::Char('g'), b).0.cursor == 0
        }),
{
}

/// Typed text becomes the filter, character by character, and a backspace takes the
/// last one back. Enter applies it, and escape leaves everything as it was.
pub proof fn a_filter_is_what_was_typed(s: ShelfView, c: char, a: bool)
    requires
        s.mode is Filter,
        s.pending is None,
    ensures
        s.pressed(Key::Char(c), a).0.filter_input == s.filter_input.push(c),
        s.pressed(Key::Char(c), a).0.pressed(Key::Backspace, a).0 == s,
        s.pressed(Key::Char(c), a).0.filter == s.filter,
        s.pressed(Key::Enter, a).0.filter == s.filter_input,
        s.pressed(Key::Enter, a).0.mode is Browse,
        s.pressed(Key::Enter, a).0.shown == filtered(
            entry_views(entries_sorted(s.all, s.order)),
            s.filter_input,
        ),
        s.pressed(Key::Esc, a).0.filter == s.filter,
        s.pressed(Key::Esc, a).0.shown == s.shown,
        s.pressed(Key::Esc, a).0.mode is Browse,
{
    assert(s.filter_input.push(c).drop_last() =~= s.filter_input);
    assert(s.pressed(Key::Char(c), a).0.pressed(Key::Backspace, a).0 =~= s);
}

/// Escape clears the filter: the whole library shows again, in its order.
pub proof fn escape_shows_everything(s: ShelfView, a: bool)
    requires
        s.mode is Browse,
        s.filter.len() > 0,
    ensures
        s.pressed(Key::Esc, a).0.filter.len() == 0,
        s.pressed(Key::Esc, a).0.shown == entry_views(entries_sorted(s.all, s.order)),
{
}

/// Enter opens the book under the cursor, with the first file recorded for it, and
/// where there is none to open it says so and opens nothing.
pub proof fn enter_opens_the_book_under_the_cursor(s: ShelfView, exists: bool)
    requires
        s.wf(),
        s.mode is Browse,
        s.cursor < s.shown.len(),
    ensures
        ({
            let book = s.shown[s.cursor];
            let (after, action) = s.pressed(Key::Enter, exists);
            &&& book.record.paths.len() > 0 && exists ==> action == (ActionView::Open {
                id: book.id,
                path: book.record.paths[0],
            })
            &&& book.record.paths.len() == 0 || !exists ==> action is Nothing && after.status is Some
            &&& after.cursor == s.cursor && after.shown == s.shown
        }),
{
}

/// Only `q` quits, and only outside the filter.
pub proof fn only_q_leaves_the_shelf(s: ShelfView, key: Key, exists: bool)
    ensures
        s.pressed(key, exists).1 is Quit <==> s.mode is Browse && key == Key::Char('q'),
{
}

/// Changing the order changes it to the next, or to the one by last reading, and
/// sorts by it.
pub proof fn the_order_key_sorts(s: ShelfView, a: bool)
    requires
        s.mode is Browse,
    ensures
        s.pressed(Key::Char('s'), a).0.order == order_after(s.order),
        s.pressed(Key::Char('s'), a).0.shown == filtered(
            entry_views(entries_sorted(s.all, order_after(s.order))),
            s.filter,
        ),
        s.pressed(Key::Char('r'), a).0.order is Recent,
        s.pressed(Key::Char('r'), a).0.shown == filtered(
            entry_views(entries_sorted(s.all, Order::Recent)),
            s.filter,
        ),
{
}

} // verus!
