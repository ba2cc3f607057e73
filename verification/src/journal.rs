//! The journal: append-only event log, one file per machine.
//!
//! The journal is the source of truth. Everything else, including the reading
//! position the reader shows, is folded out of it. Each machine writes only its
//! own file, so two machines syncing through a shared folder can never write the
//! same file and no conflict copies appear.
//!
//! Events are JSON, one per line, so a partly written last line costs at most
//! one event and never the file.

pub mod laws;

use vstd::prelude::*;
use vstd::slice::slice_subrange;
use vstd::utf8::{decode_utf8, encode_utf8_decode_utf8, encode_utf8_valid_utf8, valid_utf8};
use crate::annotation::{
    earlier, mark_before, marks_sorted, Annotation, AnnotationView, Color, Slice,
};
use crate::doc::{Locator, LocatorView};
use crate::failure::{join, joined};
use crate::identity::BookId;
use crate::paths::{file_stem, lossy_text, paths_equal, same_path, stem_of};
use crate::sort::{in_order, ranks, sorted_by, stable_sort};
use crate::table::{distinct_keys, entries_map, lemma_entry, lemma_push, lemma_update, Table};
use crate::text::{
    blank, chars_of, copy_text, decimal, decimal_of, is_blank_text, lemma_decimal_is_injective,
    lemma_no_hyphen, lemma_signed_is_injective, lemma_text_order, push_chars,
    push_text, same, same_bytes, signed_decimal, signed_decimal_of, sorts_before, text_less, text_of, text_opt,
    texts, trim, trimmed,
};

verus! {

/// A point in time: whole seconds since the epoch and nanoseconds within.
#[derive(Debug, Clone, Copy, PartialEq, Eq, Structural)]
pub struct Moment {
    pub seconds: i64,
    pub nanos: u32,
}

/// Whether `a` lies before `b`.
pub open spec fn precedes(a: Moment, b: Moment) -> bool {
    a.seconds < b.seconds || (a.seconds == b.seconds && a.nanos < b.nanos)
}

impl Moment {
    pub fn is_before(self, other: Moment) -> (r: bool)
        ensures
            r == precedes(self, other),
    {
        self.seconds < other.seconds || (self.seconds == other.seconds && self.nanos < other.nanos)
    }
}

/// A place within a series. `rank` orders places the way their numbers do, and
/// `label` is the number as it is written.
#[derive(Debug, PartialEq, Eq)]
pub struct SeriesIndex {
    pub rank: i32,
    pub label: String,
}

#[verifier::ext_equal]
pub struct SeriesIndexView {
    pub rank: i32,
    pub label: Seq<char>,
}

impl View for SeriesIndex {
    type V = SeriesIndexView;

    open spec fn view(&self) -> SeriesIndexView {
        SeriesIndexView { rank: self.rank, label: self.label@ }
    }
}

impl Clone for SeriesIndex {
    fn clone(&self) -> (r: Self)
        ensures
            r@ == self@,
    {
        SeriesIndex { rank: self.rank, label: self.label.clone() }
    }
}

pub open spec fn index_opt(o: Option<SeriesIndex>) -> Option<SeriesIndexView> {
    match o {
        Some(s) => Some(s@),
        None => None,
    }
}

pub open spec fn texts_opt(o: Option<Vec<String>>) -> Option<Seq<Seq<char>>> {
    match o {
        Some(v) => Some(texts(v@)),
        None => None,
    }
}

/// A correction to a book's metadata. Only the fields that changed are there; an
/// empty text clears a field.
#[derive(Debug)]
pub struct Patch {
    pub title: Option<String>,
    pub authors: Option<Vec<String>>,
    pub series: Option<String>,
    pub series_index: Option<SeriesIndex>,
    pub tags: Option<Vec<String>>,
    pub rating: Option<u8>,
    pub publisher: Option<String>,
    pub year: Option<i32>,
    pub language: Option<String>,
}

#[verifier::ext_equal]
pub struct PatchView {
    pub title: Option<Seq<char>>,
    pub authors: Option<Seq<Seq<char>>>,
    pub series: Option<Seq<char>>,
    pub series_index: Option<SeriesIndexView>,
    pub tags: Option<Seq<Seq<char>>>,
    pub rating: Option<u8>,
    pub publisher: Option<Seq<char>>,
    pub year: Option<i32>,
    pub language: Option<Seq<char>>,
}

impl View for Patch {
    type V = PatchView;

    open spec fn view(&self) -> PatchView {
        PatchView {
            title: text_opt(self.title),
            authors: texts_opt(self.authors),
            series: text_opt(self.series),
            series_index: index_opt(self.series_index),
            tags: texts_opt(self.tags),
            rating: self.rating,
            publisher: text_opt(self.publisher),
            year: self.year,
            language: text_opt(self.language),
        }
    }
}

#[derive(Debug)]
pub enum Payload {
    /// A book entered the library, or was seen again at a path.
    BookSeen { title: Option<String>, authors: Vec<String>, path: String },
    /// The reader moved to a position.
    PositionSet { href: String, block: usize, offset: usize },
    /// A passage was annotated.
    HighlightAdded {
        id: String,
        href: String,
        slices: Vec<Slice>,
        color: Color,
        quote: String,
    },
    /// A comment was written or rewritten. An empty text removes the comment
    /// but keeps the highlight.
    NoteSet { id: String, text: String },
    /// The colour of an existing annotation changed.
    ColorSet { id: String, color: Color },
    /// A highlight and its comment were deleted.
    AnnotationRemoved { id: String },
    /// Metadata was set or corrected.
    MetadataSet(Patch),
    /// A file is no longer where it was recorded.
    FileMissing { path: String },
}

#[verifier::ext_equal]
pub enum PayloadView {
    BookSeen { title: Option<Seq<char>>, authors: Seq<Seq<char>>, path: Seq<char> },
    PositionSet(LocatorView),
    HighlightAdded {
        id: Seq<char>,
        href: Seq<char>,
        slices: Seq<Slice>,
        color: Color,
        quote: Seq<char>,
    },
    NoteSet { id: Seq<char>, text: Seq<char> },
    ColorSet { id: Seq<char>, color: Color },
    AnnotationRemoved { id: Seq<char> },
    MetadataSet(PatchView),
    FileMissing { path: Seq<char> },
}

impl View for Payload {
    type V = PayloadView;

    open spec fn view(&self) -> PayloadView {
        match *self {
            Payload::BookSeen { title, authors, path } => PayloadView::BookSeen {
                title: text_opt(title),
                authors: texts(authors@),
                path: path@,
            },
            Payload::PositionSet { href, block, offset } => PayloadView::PositionSet(
                LocatorView { href: href@, block, offset },
            ),
            Payload::HighlightAdded { id, href, slices, color, quote } => {
                PayloadView::HighlightAdded {
                    id: id@,
                    href: href@,
                    slices: slices@,
                    color,
                    quote: quote@,
                }
            },
            Payload::NoteSet { id, text } => PayloadView::NoteSet { id: id@, text: text@ },
            Payload::ColorSet { id, color } => PayloadView::ColorSet { id: id@, color },
            Payload::AnnotationRemoved { id } => PayloadView::AnnotationRemoved { id: id@ },
            Payload::MetadataSet(patch) => PayloadView::MetadataSet(patch@),
            Payload::FileMissing { path } => PayloadView::FileMissing { path: path@ },
        }
    }
}

#[derive(Debug)]
pub struct Event {
    pub at: Moment,
    pub host: String,
    pub book: String,
    pub payload: Payload,
}

#[verifier::ext_equal]
pub struct EventView {
    pub at: Moment,
    pub host: Seq<char>,
    pub book: Seq<char>,
    pub payload: PayloadView,
}

impl View for Event {
    type V = EventView;

    open spec fn view(&self) -> EventView {
        EventView { at: self.at, host: self.host@, book: self.book@, payload: self.payload@ }
    }
}

#[derive(Debug)]
pub struct StoredPosition {
    pub at: Moment,
    pub locator: Locator,
}

#[verifier::ext_equal]
pub struct PositionView {
    pub at: Moment,
    pub locator: LocatorView,
}

impl View for StoredPosition {
    type V = PositionView;

    open spec fn view(&self) -> PositionView {
        PositionView { at: self.at, locator: self.locator@ }
    }
}

/// What is known about a book without opening its file.
///
/// `BookSeen` fills in what the file itself says; `MetadataSet` carries
/// corrections and everything a book file cannot express, such as series and
/// tags. A correction wins over the file.
#[derive(Debug, PartialEq, Eq)]
pub struct BookRecord {
    pub title: Option<String>,
    pub authors: Vec<String>,
    /// Every file holding this book. The same book can sit at two paths, as a
    /// copy or in two formats, and both belong to one entry rather than making a
    /// second book of it.
    pub paths: Vec<String>,
    pub series: Option<String>,
    pub series_index: Option<SeriesIndex>,
    pub tags: Vec<String>,
    pub rating: Option<u8>,
    pub publisher: Option<String>,
    pub year: Option<i32>,
    pub language: Option<String>,
    /// True when the file was not found where it was last recorded.
    pub missing: bool,
}

#[verifier::ext_equal]
pub struct RecordView {
    pub title: Option<Seq<char>>,
    pub authors: Seq<Seq<char>>,
    pub paths: Seq<Seq<char>>,
    pub series: Option<Seq<char>>,
    pub series_index: Option<SeriesIndexView>,
    pub tags: Seq<Seq<char>>,
    pub rating: Option<u8>,
    pub publisher: Option<Seq<char>>,
    pub year: Option<i32>,
    pub language: Option<Seq<char>>,
    pub missing: bool,
}

impl View for BookRecord {
    type V = RecordView;

    open spec fn view(&self) -> RecordView {
        RecordView {
            title: text_opt(self.title),
            authors: texts(self.authors@),
            paths: texts(self.paths@),
            series: text_opt(self.series),
            series_index: index_opt(self.series_index),
            tags: texts(self.tags@),
            rating: self.rating,
            publisher: text_opt(self.publisher),
            year: self.year,
            language: text_opt(self.language),
            missing: self.missing,
        }
    }
}

impl Clone for BookRecord {
    fn clone(&self) -> (r: Self)
        ensures
            r@ == self@,
    {
        let r = BookRecord {
            title: self.title.clone(),
            authors: self.authors.clone(),
            paths: self.paths.clone(),
            series: self.series.clone(),
            series_index: match &self.series_index {
                Some(i) => Some(i.clone()),
                None => None,
            },
            tags: self.tags.clone(),
            rating: self.rating,
            publisher: self.publisher.clone(),
            year: self.year,
            language: self.language.clone(),
            missing: self.missing,
        };
        assert(texts(r.authors@) =~= texts(self.authors@));
        assert(texts(r.paths@) =~= texts(self.paths@));
        assert(texts(r.tags@) =~= texts(self.tags@));
        r
    }
}

/// A record that holds nothing but where the book lies.
pub open spec fn fresh_record(path: Seq<char>) -> RecordView {
    RecordView {
        title: None,
        authors: Seq::empty(),
        paths: if path.len() == 0 {
            Seq::empty()
        } else {
            seq![path]
        },
        series: None,
        series_index: None,
        tags: Seq::empty(),
        rating: None,
        publisher: None,
        year: None,
        language: None,
        missing: false,
    }
}

impl RecordView {
    pub open spec fn shown_title(self) -> Seq<char> {
        match self.title {
            Some(t) => t,
            None => if self.paths.len() == 0 {
                "Untitled"@
            } else {
                match stem_of(self.paths[0]) {
                    Some(s) => s,
                    None => "Untitled"@,
                }
            },
        }
    }

    pub open spec fn shown_authors(self) -> Seq<char> {
        if self.authors.len() == 0 {
            "-"@
        } else {
            joined(self.authors, ", "@)
        }
    }
}

impl BookRecord {
    pub fn new(path: String) -> (r: Self)
        ensures
            r@ == fresh_record(path@),
    {
        let mut paths: Vec<String> = Vec::new();
        let ghost p = path@;
        if !path.as_str().is_empty() {
            paths.push(path);
            assert(texts(paths@) =~= seq![p]);
        } else {
            assert(texts(paths@) =~= Seq::empty());
        }
        let r = BookRecord {
            title: None,
            authors: Vec::new(),
            paths,
            series: None,
            series_index: None,
            tags: Vec::new(),
            rating: None,
            publisher: None,
            year: None,
            language: None,
            missing: false,
        };
        assert(texts(r.authors@) =~= Seq::empty());
        assert(texts(r.tags@) =~= Seq::empty());
        r
    }

    /// The file to open. The first recorded one, which is where the book was
    /// first found.
    pub fn path(&self) -> (r: Option<&String>)
        ensures
            r is Some <==> self@.paths.len() > 0,
            r matches Some(p) ==> p@ == self@.paths[0],
    {
        if self.paths.len() > 0 {
            Some(&self.paths[0])
        } else {
            None
        }
    }

    /// Title to show, falling back to the file name so a book is never nameless.
    pub fn display_title(&self) -> (r: String)
        ensures
            r@ == self@.shown_title(),
    {
        match &self.title {
            Some(title) => title.clone(),
            None => match self.path() {
                Some(path) => match file_stem(path) {
                    Some(stem) => stem,
                    None => copy_text("Untitled"),
                },
                None => copy_text("Untitled"),
            },
        }
    }

    pub fn display_authors(&self) -> (r: String)
        ensures
            r@ == self@.shown_authors(),
    {
        if self.authors.len() == 0 {
            copy_text("-")
        } else {
            join(&self.authors, ", ")
        }
    }
}

/// A value without surrounding white space, or nothing when that leaves nothing.
pub open spec fn cleaned(value: Seq<char>) -> Option<Seq<char>> {
    if trim(value).len() == 0 {
        None
    } else {
        Some(trim(value))
    }
}

/// Trims a value and turns an empty one into `None`, so a cleared field is
/// really cleared rather than an empty string.
pub fn non_empty(value: String) -> (r: Option<String>)
    ensures
        text_opt(r) == cleaned(value@),
{
    let v = chars_of(&value);
    let t = trimmed(&v);
    if t.len() == 0 {
        None
    } else {
        Some(text_of(&t))
    }
}

/// The values that are left once each is cleaned.
pub open spec fn all_cleaned(values: Seq<Seq<char>>) -> Seq<Seq<char>>
    decreases values.len(),
{
    if values.len() == 0 {
        Seq::empty()
    } else {
        match cleaned(values.last()) {
            Some(v) => all_cleaned(values.drop_last()).push(v),
            None => all_cleaned(values.drop_last()),
        }
    }
}

fn clean_all(values: Vec<String>) -> (r: Vec<String>)
    ensures
        texts(r@) == all_cleaned(texts(values@)),
{
    let mut out: Vec<String> = Vec::new();
    let ghost all = texts(values@);
    assert(all.take(0) =~= Seq::<Seq<char>>::empty());
    assert(texts(out@) =~= Seq::<Seq<char>>::empty());
    for value in it: values
        invariant
            it.seq() == values@,
            all == texts(values@),
            texts(out@) == all_cleaned(all.take(it.index())),
    {
        let ghost i = it.index();
        let ghost before = out@;
        assert(all.take(i + 1).drop_last() =~= all.take(i));
        assert(all[i] == value@);
        match non_empty(value) {
            Some(v) => {
                out.push(v);
                assert(texts(out@) =~= texts(before).push(v@));
            },
            None => {},
        }
    }
    assert(all.take(all.len() as int) =~= all);
    out
}

/// Whether one of the paths is the one asked for.
pub open spec fn knows_path(paths: Seq<Seq<char>>, path: Seq<char>) -> bool {
    exists|i: int| 0 <= i < paths.len() && paths_equal(#[trigger] paths[i], path)
}

/// Whether a path is among the known ones.
pub fn has_path(paths: &Vec<String>, path: &str) -> (r: bool)
    ensures
        r == knows_path(texts(paths@), path@),
{
    let mut i: usize = 0;
    let ghost all = texts(paths@);
    while i < paths.len()
        invariant
            i <= paths@.len(),
            all == texts(paths@),
            forall|k: int| 0 <= k < i ==> !paths_equal(#[trigger] all[k], path@),
        decreases paths@.len() - i,
    {
        assert(all[i as int] == paths@[i as int]@);
        if same_path(&paths[i], path) {
            return true;
        }
        i += 1;
    }
    false
}

/// The paths other than the one given.
pub open spec fn paths_without(paths: Seq<Seq<char>>, path: Seq<char>) -> Seq<Seq<char>>
    decreases paths.len(),
{
    if paths.len() == 0 {
        Seq::empty()
    } else {
        let front = paths_without(paths.drop_last(), path);
        if paths_equal(paths.last(), path) {
            front
        } else {
            front.push(paths.last())
        }
    }
}

fn drop_path(paths: &Vec<String>, path: &str) -> (r: Vec<String>)
    ensures
        texts(r@) == paths_without(texts(paths@), path@),
{
    let mut out: Vec<String> = Vec::new();
    let ghost all = texts(paths@);
    let mut i: usize = 0;
    assert(all.take(0) =~= Seq::<Seq<char>>::empty());
    assert(texts(out@) =~= Seq::<Seq<char>>::empty());
    while i < paths.len()
        invariant
            i <= paths@.len(),
            all == texts(paths@),
            texts(out@) == paths_without(all.take(i as int), path@),
        decreases paths@.len() - i,
    {
        let ghost before = out@;
        assert(all.take(i + 1).drop_last() =~= all.take(i as int));
        if !same_path(&paths[i], path) {
            out.push(paths[i].clone());
            assert(texts(out@) =~= texts(before).push(all[i as int]));
        }
        i += 1;
    }
    assert(all.take(all.len() as int) =~= all);
    out
}

// ---------------------------------------------------------------------------
// What the events add up to
// ---------------------------------------------------------------------------
/// What the events add up to, as a mathematical value.
#[verifier::ext_equal]
pub struct StateView {
    pub positions: Map<Seq<char>, PositionView>,
    pub books: Map<Seq<char>, RecordView>,
    /// Annotations by book and id.
    pub marks: Map<Seq<char>, Map<Seq<char>, AnnotationView>>,
}

impl StateView {
    /// The annotations of a book, by id.
    pub open spec fn marks_of(self, book: Seq<char>) -> Map<Seq<char>, AnnotationView> {
        if self.marks.contains_key(book) {
            self.marks[book]
        } else {
            Map::empty()
        }
    }

    /// What is known of a book, starting from nothing but a path.
    pub open spec fn record_or(self, book: Seq<char>, path: Seq<char>) -> RecordView {
        if self.books.contains_key(book) {
            self.books[book]
        } else {
            fresh_record(path)
        }
    }
}

/// The empty library.
pub open spec fn nothing_known() -> StateView {
    StateView { positions: Map::empty(), books: Map::empty(), marks: Map::empty() }
}

/// A record after its book was seen at a path. A correction made later must not
/// be undone by seeing the file again, so the file's own values only fill what
/// is still empty.
pub open spec fn seen(
    record: RecordView,
    title: Option<Seq<char>>,
    authors: Seq<Seq<char>>,
    path: Seq<char>,
) -> RecordView {
    RecordView {
        title: if record.title is None {
            title
        } else {
            record.title
        },
        authors: if record.authors.len() == 0 {
            authors
        } else {
            record.authors
        },
        paths: if knows_path(record.paths, path) {
            record.paths
        } else {
            record.paths.push(path)
        },
        missing: false,
        ..record
    }
}

/// A text field after a correction: an empty text clears it, a missing one
/// leaves it be.
pub open spec fn patched_text(old: Option<Seq<char>>, new: Option<Seq<char>>) -> Option<Seq<char>> {
    match new {
        Some(v) => cleaned(v),
        None => old,
    }
}

pub open spec fn patched_list(old: Seq<Seq<char>>, new: Option<Seq<Seq<char>>>) -> Seq<Seq<char>> {
    match new {
        Some(v) => all_cleaned(v),
        None => old,
    }
}

/// A record after a correction.
pub open spec fn patched(record: RecordView, patch: PatchView) -> RecordView {
    RecordView {
        title: patched_text(record.title, patch.title),
        authors: patched_list(record.authors, patch.authors),
        series: patched_text(record.series, patch.series),
        series_index: match patch.series_index {
            Some(v) => Some(v),
            None => record.series_index,
        },
        tags: patched_list(record.tags, patch.tags),
        rating: match patch.rating {
            Some(v) => if v == 0 {
                None
            } else if v > 5 {
                Some(5u8)
            } else {
                Some(v)
            },
            None => record.rating,
        },
        publisher: patched_text(record.publisher, patch.publisher),
        year: match patch.year {
            Some(v) => if v == 0 {
                None
            } else {
                Some(v)
            },
            None => record.year,
        },
        language: patched_text(record.language, patch.language),
        ..record
    }
}

/// A record after one of its files was not found. Only a book without any file
/// left counts as missing.
pub open spec fn without_file(record: RecordView, path: Seq<char>) -> RecordView {
    let left = paths_without(record.paths, path);
    RecordView { paths: left, missing: left.len() == 0, ..record }
}

/// The note that a text leaves.
pub open spec fn noted(text: Seq<char>) -> Option<Seq<char>> {
    if blank(text) {
        None
    } else {
        Some(text)
    }
}

/// What one event makes of what was known before.
pub open spec fn applied(state: StateView, event: EventView) -> StateView {
    let book = event.book;
    match event.payload {
        PayloadView::PositionSet(locator) => if state.positions.contains_key(book) && precedes(
            event.at,
            state.positions[book].at,
        ) {
            state
        } else {
            StateView {
                positions: state.positions.insert(book, PositionView { at: event.at, locator }),
                ..state
            }
        },
        PayloadView::BookSeen { title, authors, path } => StateView {
            books: state.books.insert(
                book,
                seen(state.record_or(book, path), title, authors, path),
            ),
            ..state
        },
        PayloadView::MetadataSet(patch) => StateView {
            books: state.books.insert(book, patched(state.record_or(book, Seq::empty()), patch)),
            ..state
        },
        PayloadView::FileMissing { path } => if state.books.contains_key(book) {
            StateView {
                books: state.books.insert(book, without_file(state.books[book], path)),
                ..state
            }
        } else {
            state
        },
        PayloadView::HighlightAdded { id, href, slices, color, quote } => StateView {
            marks: state.marks.insert(
                book,
                state.marks_of(book).insert(
                    id,
                    AnnotationView { id, href, slices, color, quote, note: None },
                ),
            ),
            ..state
        },
        PayloadView::NoteSet { id, text } => if state.marks_of(book).contains_key(id) {
            StateView {
                marks: state.marks.insert(
                    book,
                    state.marks_of(book).insert(
                        id,
                        AnnotationView { note: noted(text), ..state.marks_of(book)[id] },
                    ),
                ),
                ..state
            }
        } else {
            state
        },
        PayloadView::ColorSet { id, color } => if state.marks_of(book).contains_key(id) {
            StateView {
                marks: state.marks.insert(
                    book,
                    state.marks_of(book).insert(
                        id,
                        AnnotationView { color, ..state.marks_of(book)[id] },
                    ),
                ),
                ..state
            }
        } else {
            state
        },
        PayloadView::AnnotationRemoved { id } => if state.marks_of(book).contains_key(id) {
            StateView {
                marks: state.marks.insert(book, state.marks_of(book).remove(id)),
                ..state
            }
        } else {
            state
        },
    }
}

/// Events applied one after the other.
pub open spec fn folded(state: StateView, events: Seq<Event>) -> StateView
    decreases events.len(),
{
    if events.len() == 0 {
        state
    } else {
        applied(folded(state, events.drop_last()), events.last()@)
    }
}

/// What the events add up to. Rebuilt on startup, never stored.
#[derive(Debug)]
pub struct State {
    pub positions: Table<StoredPosition>,
    pub books: Table<BookRecord>,
    /// Annotations per book, keyed by id so later events can amend them.
    pub annotations: Table<Table<Annotation>>,
}

/// Annotations are filed under their own ids.
pub open spec fn filed(t: Table<Annotation>) -> bool {
    &&& t.wf()
    &&& forall|i: int| 0 <= i < t.entries@.len() ==> (#[trigger] t.entries@[i]).1.id@ == t.entries@[i].0@
}

/// Annotations in the order they are filed in.
pub open spec fn filed_views(t: Table<Annotation>) -> Seq<AnnotationView> {
    t.entries@.map_values(|e: (String, Annotation)| e.1@)
}

pub open spec fn mark_views(t: Table<Annotation>) -> Map<Seq<char>, AnnotationView> {
    t@.map_values(|a: Annotation| a@)
}

impl View for State {
    type V = StateView;

    open spec fn view(&self) -> StateView {
        StateView {
            positions: self.positions@.map_values(|p: StoredPosition| p@),
            books: self.books@.map_values(|r: BookRecord| r@),
            marks: self.annotations@.map_values(|t: Table<Annotation>| mark_views(t)),
        }
    }
}

impl State {
    pub open spec fn wf(&self) -> bool {
        &&& self.positions.wf()
        &&& self.books.wf()
        &&& self.annotations.wf()
        &&& forall|i: int|
            0 <= i < self.annotations.entries@.len() ==> filed(
                (#[trigger] self.annotations.entries@[i]).1,
            )
    }

    pub fn new() -> (r: Self)
        ensures
            r.wf(),
            r@ == nothing_known(),
    {
        let r = State { positions: Table::new(), books: Table::new(), annotations: Table::new() };
        assert(r@ =~= nothing_known());
        r
    }

    /// The last known position of a book. Where two machines disagree, the newer
    /// timestamp wins.
    pub fn position(&self, book: &BookId) -> (r: Option<&Locator>)
        requires
            self.wf(),
        ensures
            r is Some <==> self@.positions.contains_key(book@),
            r matches Some(l) ==> l@ == self@.positions[book@].locator,
    {
        match self.positions.get(book.as_str()) {
            Some(p) => Some(&p.locator),
            None => None,
        }
    }

    /// When a position was last recorded for a book, which is when it was last
    /// read. Taken from the event's own timestamp, so it holds across machines.
    pub fn last_read(&self, book: &BookId) -> (r: Option<Moment>)
        requires
            self.wf(),
        ensures
            r is Some <==> self@.positions.contains_key(book@),
            r matches Some(at) ==> at == self@.positions[book@].at,
    {
        match self.positions.get(book.as_str()) {
            Some(p) => Some(p.at),
            None => None,
        }
    }

    pub fn book(&self, book: &BookId) -> (r: Option<&BookRecord>)
        requires
            self.wf(),
        ensures
            r is Some <==> self@.books.contains_key(book@),
            r matches Some(b) ==> b@ == self@.books[book@],
    {
        self.books.get(book.as_str())
    }

    /// Every book in the library, with its identity.
    pub fn books(&self) -> (r: &Vec<(String, BookRecord)>)
        requires
            self.wf(),
        ensures
            distinct_keys(r@),
            self@.books == entries_map(r@).map_values(|b: BookRecord| b@),
    {
        &self.books.entries
    }
}

/// The order annotations are listed in: by chapter, then by where they start.
pub open spec fn listed_before(a: Annotation, b: Annotation) -> bool {
    text_less(a@.href, b@.href) || (a@.href == b@.href && earlier(
        a@.beginning(),
        b@.beginning(),
    ))
}

/// The listing order ranks annotations.
pub proof fn lemma_listing_ranks()
    ensures
        ranks(|a: Annotation, b: Annotation| listed_before(a, b)),
{
    let less = |a: Annotation, b: Annotation| listed_before(a, b);
    assert forall|a: Annotation| !(#[trigger] less(a, a)) by {
        lemma_text_order(a@.href, a@.href, a@.href);
    }
    assert forall|a: Annotation, b: Annotation| #[trigger] less(a, b) implies !less(b, a) by {
        lemma_text_order(a@.href, b@.href, a@.href);
    }
    assert forall|a: Annotation, b: Annotation, c: Annotation|
        !(#[trigger] less(a, b)) && !(#[trigger] less(b, c)) implies !less(a, c) by {
        lemma_text_order(a@.href, b@.href, c@.href);
        lemma_text_order(c@.href, b@.href, a@.href);
        lemma_text_order(b@.href, a@.href, c@.href);
        lemma_text_order(a@.href, c@.href, b@.href);
        lemma_text_order(c@.href, a@.href, b@.href);
        lemma_text_order(b@.href, c@.href, a@.href);
    }
}

/// Whether `a` is listed before `b`.
pub(crate) fn comes_first(a: &Annotation, b: &Annotation) -> (r: bool)
    ensures
        r == listed_before(*a, *b),
{
    let p = a.start();
    let q = b.start();
    sorts_before(&a.href, &b.href) || (same(&a.href, &b.href) && (p.0 < q.0 || (p.0 == q.0 && p.1
        < q.1)))
}

/// `list` holds each of the annotations once, ordered by where they start.
pub open spec fn lists(list: Seq<Annotation>, marks: Map<Seq<char>, AnnotationView>) -> bool {
    &&& in_order(list, |a: Annotation, b: Annotation| listed_before(a, b))
    &&& forall|i: int|
        0 <= i < list.len() ==> marks.contains_key((#[trigger] list[i])@.id)
            && marks[list[i]@.id] == list[i]@
    &&& forall|id: Seq<char>| #[trigger]
        marks.contains_key(id) ==> exists|i: int|
            0 <= i < list.len() && (#[trigger] list[i])@.id == id
    &&& forall|i: int, j: int|
        0 <= i < j < list.len() ==> (#[trigger] list[i])@.id != (#[trigger] list[j])@.id
}

impl State {
    /// A book's annotations in the order they are listed in. Those that start at
    /// the same place keep the order they are filed in.
    pub open spec fn marks_listed(&self, book: Seq<char>) -> Seq<AnnotationView> {
        if self.annotations@.contains_key(book) {
            marks_sorted(filed_views(self.annotations@[book]))
        } else {
            Seq::empty()
        }
    }

    /// A book's annotations, ordered by where they start in the text.
    pub fn annotations(&self, book: &BookId) -> (r: Vec<Annotation>)
        requires
            self.wf(),
        ensures
            lists(r@, self@.marks_of(book@)),
            r@.map_values(|a: Annotation| a@) == self.marks_listed(book@),
    {
        let mut all: Vec<Annotation> = Vec::new();
        let ghost marks = self@.marks_of(book@);
        match self.annotations.find(book.as_str()) {
            Some(i) => {
                let by_id = &self.annotations.entries[i].1;
                assert(filed(self.annotations.entries@[i as int].1));
                assert(marks =~= mark_views(*by_id));
                let mut k: usize = 0;
                while k < by_id.entries.len()
                    invariant
                        k <= by_id.entries@.len(),
                        filed(*by_id),
                        all@.len() == k,
                        forall|j: int| 0 <= j < k ==> (#[trigger] all@[j])@ == by_id.entries@[j].1@,
                    decreases by_id.entries@.len() - k,
                {
                    all.push(by_id.entries[k].1.clone());
                    k += 1;
                }
                proof {
                    let e = by_id.entries@;
                    assert forall|j: int| 0 <= j < all@.len() implies marks.contains_key(
                        (#[trigger] all@[j])@.id,
                    ) && marks[all@[j]@.id] == all@[j]@ by {
                        lemma_entry(e, j);
                    }
                    assert forall|id: Seq<char>| #[trigger]
                        marks.contains_key(id) implies exists|j: int|
                        0 <= j < all@.len() && (#[trigger] all@[j])@.id == id by {
                        let j = choose|j: int| 0 <= j < e.len() && (#[trigger] e[j]).0@ == id;
                        assert(all@[j]@.id == id);
                    }
                    assert forall|a: int, b: int| 0 <= a < b < all@.len() implies (
                    #[trigger] all@[a])@.id != (#[trigger] all@[b])@.id by {
                        assert(e[a].0@ != e[b].0@);
                    }
                }
            },
            None => {
                assert(marks =~= Map::empty());
            },
        }
        let ghost before = all@;
        let ghost less = |a: Annotation, b: Annotation| listed_before(a, b);
        let sorted = stable_sort(all, comes_first, Ghost(less));
        proof {
            let f = |a: Annotation| a@;
            let image_less = |a: AnnotationView, b: AnnotationView| mark_before(a, b);
            crate::sort::lemma_sort_of_images(before, f, less, image_less);
            if self.annotations@.contains_key(book@) {
                assert(before.map_values(f) =~= filed_views(self.annotations@[book@]));
            } else {
                assert(before.map_values(f) =~= Seq::<AnnotationView>::empty());
                assert(sorted@.map_values(f) =~= Seq::<AnnotationView>::empty());
            }
        }
        proof {
            lemma_listing_ranks();
            crate::sort::sorting_puts_in_order(before, less);
            crate::sort::lemma_sorting_permutes(before, less);
            let f = choose|f: Seq<int>| crate::sort::rearranges(f, before, sorted@);
            assert forall|id: Seq<char>| #[trigger] marks.contains_key(id) implies exists|i: int|
                0 <= i < sorted@.len() && (#[trigger] sorted@[i])@.id == id by {
                let j = choose|j: int| 0 <= j < before.len() && (#[trigger] before[j])@.id == id;
                assert(crate::sort::names(f, j));
                let i = choose|i: int| 0 <= i < f.len() && #[trigger] f[i] == j;
                assert(sorted@[i] == before[f[i]]);
            }
            assert forall|i: int| 0 <= i < sorted@.len() implies marks.contains_key(
                (#[trigger] sorted@[i])@.id,
            ) && marks[sorted@[i]@.id] == sorted@[i]@ by {
                assert(sorted@[i] == before[f[i]]);
            }
            assert forall|i: int, j: int| 0 <= i < j < sorted@.len() implies (
            #[trigger] sorted@[i])@.id != (#[trigger] sorted@[j])@.id by {
                assert(sorted@[i] == before[f[i]]);
                assert(sorted@[j] == before[f[j]]);
                assert(f[i] != f[j]);
                if f[i] < f[j] {
                    assert(before[f[i]]@.id != before[f[j]]@.id);
                } else {
                    assert(before[f[j]]@.id != before[f[i]]@.id);
                }
            }
        }
        sorted
    }

    /// What is known of a book so far, or a record with nothing but a path.
    fn record_for(&self, book: &str, path: String) -> (r: BookRecord)
        requires
            self.wf(),
        ensures
            r@ == self@.record_or(book@, path@),
    {
        match self.books.get(book) {
            Some(record) => record.clone(),
            None => BookRecord::new(path),
        }
    }

    fn put_record(&mut self, book: String, record: BookRecord)
        requires
            old(self).wf(),
        ensures
            final(self).wf(),
            final(self)@ == (StateView {
                books: old(self)@.books.insert(book@, record@),
                ..old(self)@
            }),
    {
        self.books.insert(book, record);
        assert(self@.books =~= old(self)@.books.insert(book@, record@));
        assert(self@.positions =~= old(self)@.positions);
        assert(self@.marks =~= old(self)@.marks);
    }

    /// An annotation by its book and id.
    fn mark(&self, book: &str, id: &str) -> (r: Option<&Annotation>)
        requires
            self.wf(),
        ensures
            r is Some <==> self@.marks_of(book@).contains_key(id@),
            r matches Some(a) ==> a@ == self@.marks_of(book@)[id@] && a.id@ == id@,
    {
        match self.annotations.find(book) {
            Some(i) => {
                assert(filed(self.annotations.entries@[i as int].1));
                let by_id = &self.annotations.entries[i].1;
                match by_id.find(id) {
                    Some(k) => Some(&by_id.entries[k].1),
                    None => None,
                }
            },
            None => None,
        }
    }

    /// Files an annotation under its id.
    fn put_mark(&mut self, book: String, id: String, annotation: Annotation)
        requires
            old(self).wf(),
            annotation.id@ == id@,
        ensures
            final(self).wf(),
            final(self)@ == (StateView {
                marks: old(self)@.marks.insert(
                    book@,
                    old(self)@.marks_of(book@).insert(id@, annotation@),
                ),
                ..old(self)@
            }),
    {
        let ghost e = self.annotations.entries@;
        let mut by_id: Table<Annotation> = Table::new();
        match self.annotations.find(&book) {
            Some(i) => {
                assert(filed(e[i as int].1));
                by_id = copy_marks(&self.annotations.entries[i].1);
                assert(mark_views(by_id) =~= self@.marks_of(book@));
            },
            None => {
                assert(mark_views(by_id) =~= Map::empty());
            },
        }
        let ghost before = mark_views(by_id);
        by_id.file(id, annotation);
        assert(mark_views(by_id) =~= before.insert(id@, annotation@));
        self.put_marks(book, by_id);
    }

    fn put_marks(&mut self, book: String, by_id: Table<Annotation>)
        requires
            old(self).wf(),
            filed(by_id),
        ensures
            final(self).wf(),
            final(self)@ == (StateView {
                marks: old(self)@.marks.insert(book@, mark_views(by_id)),
                ..old(self)@
            }),
    {
        let ghost e = self.annotations.entries@;
        match self.annotations.find(&book) {
            Some(i) => {
                proof {
                    lemma_update(e, i as int, by_id);
                }
                self.annotations.entries[i].1 = by_id;
                assert(self.annotations.entries@ =~= e.update(i as int, (e[i as int].0, by_id)));
            },
            None => {
                proof {
                    lemma_push(e, book, by_id);
                }
                self.annotations.entries.push((book, by_id));
            },
        }
        assert(self@.marks =~= old(self)@.marks.insert(book@, mark_views(by_id)));
        assert(self@.positions =~= old(self)@.positions);
        assert(self@.books =~= old(self)@.books);
    }

    fn apply_position(&mut self, book: String, at: Moment, locator: Locator)
        requires
            old(self).wf(),
        ensures
            final(self).wf(),
            final(self)@ == (if old(self)@.positions.contains_key(book@) && precedes(
                at,
                old(self)@.positions[book@].at,
            ) {
                old(self)@
            } else {
                StateView {
                    positions: old(self)@.positions.insert(
                        book@,
                        PositionView { at, locator: locator@ },
                    ),
                    ..old(self)@
                }
            }),
    {
        match self.positions.get(&book) {
            Some(existing) => {
                if at.is_before(existing.at) {
                    return;
                }
            },
            None => {},
        }
        self.positions.insert(book, StoredPosition { at, locator });
        assert(self@.positions =~= old(self)@.positions.insert(
            book@,
            PositionView { at, locator: locator@ },
        ));
        assert(self@.books =~= old(self)@.books);
        assert(self@.marks =~= old(self)@.marks);
    }

    fn apply_seen(
        &mut self,
        book: String,
        title: Option<String>,
        authors: Vec<String>,
        path: String,
    )
        requires
            old(self).wf(),
        ensures
            final(self).wf(),
            final(self)@ == (StateView {
                books: old(self)@.books.insert(
                    book@,
                    seen(
                        old(self)@.record_or(book@, path@),
                        text_opt(title),
                        texts(authors@),
                        path@,
                    ),
                ),
                ..old(self)@
            }),
    {
        let mut record = self.record_for(&book, path.clone());
        let ghost was = record@;
        if !has_path(&record.paths, &path) {
            record.paths.push(path);
            assert(texts(record.paths@) =~= was.paths.push(path@));
        }
        record.missing = false;
        if record.title.is_none() {
            record.title = title;
        }
        if record.authors.len() == 0 {
            record.authors = authors;
        }
        assert(record@ =~= seen(was, text_opt(title), texts(authors@), path@));
        self.put_record(book, record);
    }

    fn apply_patch(&mut self, book: String, patch: Patch)
        requires
            old(self).wf(),
        ensures
            final(self).wf(),
            final(self)@ == (StateView {
                books: old(self)@.books.insert(
                    book@,
                    patched(old(self)@.record_or(book@, Seq::empty()), patch@),
                ),
                ..old(self)@
            }),
    {
        let mut record = self.record_for(&book, String::new());
        let ghost was = record@;
        let ghost wanted = patch@;
        if let Some(value) = patch.title {
            record.title = non_empty(value);
        }
        if let Some(value) = patch.authors {
            record.authors = clean_all(value);
        }
        if let Some(value) = patch.series {
            record.series = non_empty(value);
        }
        if let Some(value) = patch.series_index {
            record.series_index = Some(value);
        }
        if let Some(value) = patch.tags {
            record.tags = clean_all(value);
        }
        if let Some(value) = patch.rating {
            record.rating = if value == 0 {
                None
            } else if value > 5 {
                Some(5)
            } else {
                Some(value)
            };
        }
        if let Some(value) = patch.publisher {
            record.publisher = non_empty(value);
        }
        if let Some(value) = patch.year {
            record.year = if value == 0 {
                None
            } else {
                Some(value)
            };
        }
        if let Some(value) = patch.language {
            record.language = non_empty(value);
        }
        assert(record@ =~= patched(was, wanted));
        self.put_record(book, record);
    }

    fn apply_missing(&mut self, book: String, path: String)
        requires
            old(self).wf(),
        ensures
            final(self).wf(),
            final(self)@ == (if old(self)@.books.contains_key(book@) {
                StateView {
                    books: old(self)@.books.insert(
                        book@,
                        without_file(old(self)@.books[book@], path@),
                    ),
                    ..old(self)@
                }
            } else {
                old(self)@
            }),
    {
        let record = match self.books.get(&book) {
            Some(known) => {
                let mut record = known.clone();
                let ghost was = record@;
                record.paths = drop_path(&record.paths, &path);
                record.missing = record.paths.len() == 0;
                assert(record@ =~= without_file(was, path@));
                record
            },
            None => {
                return;
            },
        };
        self.put_record(book, record);
    }

    /// Takes one event into account.
    pub fn apply(&mut self, event: Event)
        requires
            old(self).wf(),
        ensures
            final(self).wf(),
            final(self)@ == applied(old(self)@, event@),
    {
        let book = event.book;
        match event.payload {
            Payload::PositionSet { href, block, offset } => {
                self.apply_position(book, event.at, Locator { href, block, offset });
            },
            Payload::BookSeen { title, authors, path } => {
                self.apply_seen(book, title, authors, path);
            },
            Payload::HighlightAdded { id, href, slices, color, quote } => {
                let annotation = Annotation {
                    id: id.clone(),
                    href,
                    slices,
                    color,
                    quote,
                    note: None,
                };
                self.put_mark(book, id, annotation);
            },
            Payload::NoteSet { id, text } => {
                let found = match self.mark(&book, &id) {
                    Some(known) => Some(known.clone()),
                    None => None,
                };
                if let Some(mut annotation) = found {
                    let ghost was = annotation@;
                    annotation.note = if is_blank_text(&text) {
                        None
                    } else {
                        Some(text)
                    };
                    assert(annotation@ =~= (AnnotationView { note: noted(text@), ..was }));
                    self.put_mark(book, id, annotation);
                }
            },
            Payload::ColorSet { id, color } => {
                let found = match self.mark(&book, &id) {
                    Some(known) => Some(known.clone()),
                    None => None,
                };
                if let Some(mut annotation) = found {
                    let ghost was = annotation@;
                    annotation.color = color;
                    assert(annotation@ =~= (AnnotationView { color, ..was }));
                    self.put_mark(book, id, annotation);
                }
            },
            Payload::AnnotationRemoved { id } => {
                if self.mark(&book, &id).is_some() {
                    let ghost before = self@.marks_of(book@);
                    let mut by_id: Table<Annotation> = Table::new();
                    match self.annotations.find(&book) {
                        Some(i) => {
                            assert(filed(self.annotations.entries@[i as int].1));
                            by_id = copy_marks(&self.annotations.entries[i].1);
                            assert(mark_views(by_id) =~= before);
                        },
                        None => {},
                    }
                    by_id.unfile(&id);
                    assert(mark_views(by_id) =~= before.remove(id@));
                    self.put_marks(book, by_id);
                }
            },
            Payload::MetadataSet(patch) => {
                self.apply_patch(book, patch);
            },
            Payload::FileMissing { path } => {
                self.apply_missing(book, path);
            },
        }
    }
}

fn copy_marks(t: &Table<Annotation>) -> (r: Table<Annotation>)
    requires
        filed(*t),
    ensures
        filed(r),
        mark_views(r) == mark_views(*t),
{
    let mut out: Vec<(String, Annotation)> = Vec::new();
    let mut i: usize = 0;
    while i < t.entries.len()
        invariant
            i <= t.entries@.len(),
            out@.len() == i,
            forall|k: int|
                0 <= k < i ==> (#[trigger] out@[k]).0@ == t.entries@[k].0@ && out@[k].1@
                    == t.entries@[k].1@,
        decreases t.entries@.len() - i,
    {
        out.push((t.entries[i].0.clone(), t.entries[i].1.clone()));
        i += 1;
    }
    let r = Table { entries: out };
    proof {
        let e = t.entries@;
        let f = r.entries@;
        assert forall|a: int, b: int| 0 <= a < b < f.len() implies (#[trigger] f[a]).0@ != (
        #[trigger] f[b]).0@ by {
            assert(e[a].0@ != e[b].0@);
        }
        assert forall|k: Seq<char>| #[trigger] mark_views(r).contains_key(k) <==> mark_views(
            *t,
        ).contains_key(k) by {
            if crate::table::has_key(e, k) {
                let a = choose|a: int| 0 <= a < e.len() && (#[trigger] e[a]).0@ == k;
                assert(f[a].0@ == k);
            }
            if crate::table::has_key(f, k) {
                let a = choose|a: int| 0 <= a < f.len() && (#[trigger] f[a]).0@ == k;
                assert(e[a].0@ == k);
            }
        }
        assert forall|k: Seq<char>| #[trigger]
            mark_views(r).contains_key(k) implies mark_views(r)[k] == mark_views(*t)[k] by {
            let a = choose|a: int| 0 <= a < f.len() && (#[trigger] f[a]).0@ == k;
            lemma_entry(f, a);
            lemma_entry(e, a);
        }
        assert(mark_views(r) =~= mark_views(*t));
        assert forall|a: int| 0 <= a < f.len() implies (#[trigger] f[a]).1.id@ == f[a].0@ by {
            assert(e[a].1.id@ == e[a].0@);
            assert(f[a].1@ == e[a].1@);
        }
    }
    r
}

impl Table<Annotation> {
    fn file(&mut self, id: String, annotation: Annotation)
        requires
            filed(*old(self)),
            annotation.id@ == id@,
        ensures
            filed(*final(self)),
            final(self)@ == old(self)@.insert(id@, annotation),
    {
        match self.find(&id) {
            Some(i) => {
                proof {
                    lemma_update(self.entries@, i as int, annotation);
                }
                self.entries[i].1 = annotation;
                assert(self.entries@ =~= old(self).entries@.update(
                    i as int,
                    (old(self).entries@[i as int].0, annotation),
                ));
            },
            None => {
                proof {
                    lemma_push(self.entries@, id, annotation);
                }
                self.entries.push((id, annotation));
            },
        }
    }

    fn unfile(&mut self, id: &str)
        requires
            filed(*old(self)),
        ensures
            filed(*final(self)),
            final(self)@ == old(self)@.remove(id@),
    {
        match self.find(id) {
            Some(i) => {
                proof {
                    crate::table::lemma_remove(self.entries@, i as int);
                }
                self.entries.remove(i);
            },
            None => {
                assert(self@ =~= self@.remove(id@));
            },
        }
    }
}

// ---------------------------------------------------------------------------
// The journal itself
// ---------------------------------------------------------------------------
/// Whether `a` was recorded before `b`.
pub open spec fn recorded_before(a: Event, b: Event) -> bool {
    precedes(a.at, b.at)
}

fn is_older(a: &Event, b: &Event) -> (r: bool)
    ensures
        r == recorded_before(*a, *b),
{
    a.at.is_before(b.at)
}

/// The events in the order they happened; at the same instant, in the order they
/// were read.
pub open spec fn in_time_order(events: Seq<Event>) -> Seq<Event> {
    sorted_by(events, |a: Event, b: Event| recorded_before(a, b))
}

/// The writing end of the journal on this machine.
#[derive(Debug)]
pub struct Journal {
    pub host: String,
    /// The last position written, to avoid recording every keystroke.
    pub last_written: Option<Locator>,
    /// Distinguishes ids created within the same nanosecond.
    pub id_counter: u64,
}

pub open spec fn locator_opt(o: Option<Locator>) -> Option<LocatorView> {
    match o {
        Some(l) => Some(l@),
        None => None,
    }
}

/// An annotation id: machine, instant and running number.
pub open spec fn id_text(host: Seq<char>, now: int, counter: nat) -> Seq<char> {
    host + "-"@ + signed_decimal(now) + "-"@ + decimal(counter)
}

/// The name of a machine's journal file.
pub open spec fn file_name_of(host: Seq<char>) -> Seq<char> {
    "journal-"@ + host + ".jsonl"@
}

impl Journal {
    /// The journal of the machine with this name, with nothing written yet.
    pub fn open(host: String) -> (r: Self)
        ensures
            r.host@ == host@,
            r.last_written is None,
            r.id_counter == 0,
    {
        Journal { host, last_written: None, id_counter: 0 }
    }

    /// The file this machine writes to.
    pub fn file_name(&self) -> (r: String)
        ensures
            r@ == file_name_of(self.host@),
    {
        let mut out: Vec<char> = Vec::new();
        push_text(&mut out, "journal-");
        push_text(&mut out, &self.host);
        push_text(&mut out, ".jsonl");
        text_of(&out)
    }

    /// Folds the events of every journal into a state, in time order so the
    /// newest position wins regardless of which file it came from.
    pub fn replay(events: Vec<Event>) -> (r: State)
        ensures
            r.wf(),
            r@ == folded(nothing_known(), in_time_order(events@)),
    {
        let sorted = stable_sort(
            events,
            is_older,
            Ghost(|a: Event, b: Event| recorded_before(a, b)),
        );
        let mut state = State::new();
        let ghost all = sorted@;
        assert(all.take(0) =~= Seq::<Event>::empty());
        for event in it: sorted
            invariant
                it.seq() == all,
                state.wf(),
                state@ == folded(nothing_known(), all.take(it.index())),
        {
            let ghost i = it.index();
            assert(all.take(i + 1).drop_last() =~= all.take(i));
            state.apply(event);
        }
        assert(all.take(all.len() as int) =~= all);
        state
    }

    /// What to write down for a payload.
    pub fn event(&self, at: Moment, book: &BookId, payload: Payload) -> (r: Event)
        ensures
            r@ == (EventView { at, host: self.host@, book: book@, payload: payload@ }),
    {
        Event { at, host: self.host.clone(), book: copy_text(book.as_str()), payload }
    }

    /// Treats a position as already recorded. Called at startup with the
    /// position from the journal, so reopening a book without moving adds no
    /// event, and after a position was written.
    pub fn assume_written(&mut self, locator: Option<Locator>)
        ensures
            locator_opt(final(self).last_written) == locator_opt(locator),
            final(self).host@ == old(self).host@,
            final(self).id_counter == old(self).id_counter,
    {
        self.last_written = locator;
    }

    /// A fresh annotation id. The hostname keeps ids from two machines apart,
    /// the timestamp keeps them apart within one machine, and the counter covers
    /// the case of two annotations inside the same nanosecond.
    pub fn next_id(&mut self, now: i64) -> (r: String)
        requires
            old(self).id_counter < u64::MAX,
        ensures
            r@ == id_text(old(self).host@, now as int, (old(self).id_counter + 1) as nat),
            final(self).id_counter == old(self).id_counter + 1,
            final(self).host@ == old(self).host@,
            locator_opt(final(self).last_written) == locator_opt(old(self).last_written),
    {
        self.id_counter = self.id_counter + 1;
        let mut out: Vec<char> = chars_of(&self.host);
        push_text(&mut out, "-");
        let stamp = signed_decimal_of(now);
        push_chars(&mut out, &stamp);
        push_text(&mut out, "-");
        let counter = decimal_of(self.id_counter);
        push_chars(&mut out, &counter);
        text_of(&out)
    }

    /// What to record for a position: nothing when it is the one already
    /// written.
    pub fn record_position(&self, locator: &Locator) -> (r: Option<Payload>)
        ensures
            r is None <==> locator_opt(self.last_written) == Some(locator@),
            r matches Some(p) ==> p@ == PayloadView::PositionSet(locator@),
    {
        if let Some(last) = &self.last_written {
            if last.block == locator.block && last.offset == locator.offset && same(
                &last.href,
                &locator.href,
            ) {
                return None;
            }
        }
        Some(
            Payload::PositionSet {
                href: locator.href.clone(),
                block: locator.block,
                offset: locator.offset,
            },
        )
    }
}

// ---------------------------------------------------------------------------
// What holds of the journal
// ---------------------------------------------------------------------------
/// Replaying puts the events in time order, whichever file they came from, and
/// loses none of them.
pub proof fn replay_follows_the_clock(events: Seq<Event>)
    ensures
        in_order(in_time_order(events), |a: Event, b: Event| recorded_before(a, b)),
        in_time_order(events).to_multiset() == events.to_multiset(),
{
    let less = |a: Event, b: Event| recorded_before(a, b);
    assert(ranks(less));
    crate::sort::sorting_puts_in_order(events, less);
    crate::sort::sorting_keeps_the_items(events, less);
}

/// The views of a sequence of events.
pub open spec fn event_views(s: Seq<Event>) -> Seq<EventView> {
    s.map_values(|e: Event| e@)
}

proof fn lemma_folded_views(state: StateView, s: Seq<Event>, t: Seq<Event>)
    requires
        event_views(s) == event_views(t),
    ensures
        folded(state, s) == folded(state, t),
    decreases s.len(),
{
    assert(s.len() == event_views(s).len() && t.len() == event_views(t).len());
    if s.len() > 0 {
        assert(event_views(s).last() == s.last()@ && event_views(t).last() == t.last()@);
        assert(event_views(s.drop_last()) =~= event_views(s).drop_last());
        assert(event_views(t.drop_last()) =~= event_views(t).drop_last());
        lemma_folded_views(state, s.drop_last(), t.drop_last());
    }
}

/// Which files the events stand in, and in which order they are read, makes no
/// difference: two listings of the same events replay to one state. No two
/// different events may carry the same instant.
pub proof fn listings_replay_alike(s: Seq<Event>, t: Seq<Event>)
    requires
        event_views(s).to_multiset() == event_views(t).to_multiset(),
        forall|i: int, j: int|
            0 <= i < j < s.len() && (#[trigger] s[i]).at == (#[trigger] s[j]).at ==> s[i]@ == s[j]@,
    ensures
        folded(nothing_known(), in_time_order(s)) == folded(nothing_known(), in_time_order(t)),
{
    let less = |a: Event, b: Event| recorded_before(a, b);
    let view_less = |a: EventView, b: EventView| precedes(a.at, b.at);
    let f = |e: Event| e@;
    crate::sort::lemma_sort_of_images(s, f, less, view_less);
    crate::sort::lemma_sort_of_images(t, f, less, view_less);
    let v = event_views(s);
    assert(ranks(view_less));
    assert forall|x: EventView, y: EventView|
        v.contains(x) && v.contains(y) && x != y implies #[trigger] view_less(x, y) || view_less(
        y,
        x,
    ) by {
        let i = choose|i: int| 0 <= i < v.len() && v[i] == x;
        let j = choose|j: int| 0 <= j < v.len() && v[j] == y;
        assert(v[i] == s[i]@ && v[j] == s[j]@);
    }
    crate::sort::listings_sort_alike(v, event_views(t), view_less);
    lemma_folded_views(nothing_known(), in_time_order(s), in_time_order(t));
}

/// Where two machines disagree about a position, the newer timestamp wins, and
/// it makes no difference which of the two is read first.
pub proof fn the_newest_position_wins(
    state: StateView,
    book: Seq<char>,
    older: EventView,
    newer: EventView,
    was: LocatorView,
    is: LocatorView,
)
    requires
        older.book == book,
        newer.book == book,
        older.payload == PayloadView::PositionSet(was),
        newer.payload == PayloadView::PositionSet(is),
        precedes(older.at, newer.at),
        state.positions.contains_key(book) ==> !precedes(newer.at, state.positions[book].at),
    ensures
        applied(applied(state, older), newer).positions[book].locator == is,
        applied(applied(state, newer), older).positions[book].locator == is,
        applied(applied(state, older), newer).positions[book].at == newer.at,
        applied(applied(state, newer), older).positions[book].at == newer.at,
{
}

/// A sequence that ends in a part without hyphens behind a hyphen is split there
/// in one way only.
proof fn lemma_last_hyphen(a: Seq<char>, x: Seq<char>, b: Seq<char>, y: Seq<char>)
    requires
        a + "-"@ + x == b + "-"@ + y,
        forall|i: int| 0 <= i < x.len() ==> #[trigger] x[i] != '-',
        forall|i: int| 0 <= i < y.len() ==> #[trigger] y[i] != '-',
    ensures
        a == b,
        x == y,
{
    reveal_strlit("-");
    let s = a + "-"@ + x;
    let t = b + "-"@ + y;
    assert(s.len() == a.len() + 1 + x.len() && t.len() == b.len() + 1 + y.len());
    if a.len() < b.len() {
        assert(s[b.len() as int] == x[b.len() - a.len() - 1]);
        assert(t[b.len() as int] == '-');
    } else if b.len() < a.len() {
        assert(t[a.len() as int] == y[a.len() - b.len() - 1]);
        assert(s[a.len() as int] == '-');
    }
    assert(a =~= s.take(a.len() as int));
    assert(b =~= t.take(a.len() as int));
    assert(x =~= s.skip(a.len() as int + 1));
    assert(y =~= t.skip(a.len() as int + 1));
}

/// Annotation ids are fresh. The running number keeps any two apart, the instant
/// those of one machine, and the machine those of two, where the clock does not
/// run before the epoch.
pub proof fn ids_are_fresh(
    host1: Seq<char>,
    now1: int,
    counter1: nat,
    host2: Seq<char>,
    now2: int,
    counter2: nat,
)
    ensures
        counter1 != counter2 ==> id_text(host1, now1, counter1) != id_text(host2, now2, counter2),
        host1 == host2 && now1 != now2 ==> id_text(host1, now1, counter1) != id_text(
            host2,
            now2,
            counter2,
        ),
        host1 != host2 && now1 >= 0 && now2 >= 0 ==> id_text(host1, now1, counter1) != id_text(
            host2,
            now2,
            counter2,
        ),
{
    let front1 = host1 + "-"@ + signed_decimal(now1);
    let front2 = host2 + "-"@ + signed_decimal(now2);
    lemma_no_hyphen(counter1);
    lemma_no_hyphen(counter2);
    if id_text(host1, now1, counter1) == id_text(host2, now2, counter2) {
        lemma_last_hyphen(front1, decimal(counter1), front2, decimal(counter2));
        lemma_decimal_is_injective(counter1, counter2);
        if host1 == host2 {
            let n = host1.len() + "-"@.len();
            assert(signed_decimal(now1) =~= front1.skip(n as int));
            assert(signed_decimal(now2) =~= front2.skip(n as int));
            lemma_signed_is_injective(now1, now2);
        }
        if now1 >= 0 && now2 >= 0 {
            lemma_no_hyphen(now1 as nat);
            lemma_no_hyphen(now2 as nat);
            lemma_last_hyphen(host1, signed_decimal(now1), host2, signed_decimal(now2));
        }
    }
}

/// A position never gives way to an older one.
pub proof fn positions_never_go_back(state: StateView, event: EventView, book: Seq<char>)
    requires
        state.positions.contains_key(book),
    ensures
        applied(state, event).positions.contains_key(book),
        !precedes(applied(state, event).positions[book].at, state.positions[book].at),
{
}

/// An event about one book leaves everything known about another alone.
pub proof fn books_do_not_interfere(state: StateView, event: EventView, other: Seq<char>)
    requires
        event.book != other,
    ensures
        applied(state, event).positions.contains_key(other) == state.positions.contains_key(other),
        state.positions.contains_key(other) ==> applied(state, event).positions[other]
            == state.positions[other],
        applied(state, event).books.contains_key(other) == state.books.contains_key(other),
        state.books.contains_key(other) ==> applied(state, event).books[other]
            == state.books[other],
        applied(state, event).marks_of(other) == state.marks_of(other),
{
}

/// Seeing a file again never undoes a correction: a title, authors, series,
/// tags, rating and the rest stay as they were.
pub proof fn seeing_a_book_undoes_no_correction(
    state: StateView,
    event: EventView,
    title: Option<Seq<char>>,
    authors: Seq<Seq<char>>,
    path: Seq<char>,
)
    requires
        event.payload == (PayloadView::BookSeen { title, authors, path }),
        state.books.contains_key(event.book),
    ensures
        ({
            let before = state.books[event.book];
            let after = applied(state, event).books[event.book];
            &&& before.title is Some ==> after.title == before.title
            &&& before.authors.len() > 0 ==> after.authors == before.authors
            &&& after.series == before.series
            &&& after.series_index == before.series_index
            &&& after.tags == before.tags
            &&& after.rating == before.rating
            &&& after.publisher == before.publisher
            &&& after.year == before.year
            &&& after.language == before.language
            &&& forall|i: int| 0 <= i < before.paths.len() ==> after.paths[i] == #[trigger] before.paths[i]
        }),
{
}

/// Seeing a book twice at the same place records its file once.
pub proof fn a_file_is_recorded_once(
    record: RecordView,
    title: Option<Seq<char>>,
    authors: Seq<Seq<char>>,
    path: Seq<char>,
)
    ensures
        seen(seen(record, title, authors, path), title, authors, path).paths == seen(
            record,
            title,
            authors,
            path,
        ).paths,
{
    let once = seen(record, title, authors, path);
    if !knows_path(record.paths, path) {
        assert(once.paths[record.paths.len() as int] == path);
    }
    assert(knows_path(once.paths, path));
}

/// A comment written on an annotation is there afterwards, an empty one clears
/// it, and the highlight itself stays either way.
pub proof fn a_comment_is_kept_until_cleared(
    state: StateView,
    event: EventView,
    id: Seq<char>,
    text: Seq<char>,
)
    requires
        event.payload == (PayloadView::NoteSet { id, text }),
        state.marks_of(event.book).contains_key(id),
    ensures
        ({
            let before = state.marks_of(event.book)[id];
            let marks = applied(state, event).marks_of(event.book);
            &&& marks.contains_key(id)
            &&& marks[id].note == (if blank(text) {
                None
            } else {
                Some(text)
            })
            &&& marks[id].slices == before.slices
            &&& marks[id].quote == before.quote
            &&& marks[id].color == before.color
        }),
{
}

/// Removing an annotation takes its comment along and leaves the others.
pub proof fn removal_takes_the_comment_along(
    state: StateView,
    event: EventView,
    id: Seq<char>,
    other: Seq<char>,
)
    requires
        event.payload == (PayloadView::AnnotationRemoved { id }),
        other != id,
    ensures
        !applied(state, event).marks_of(event.book).contains_key(id),
        applied(state, event).marks_of(event.book).contains_key(other) == state.marks_of(
            event.book,
        ).contains_key(other),
        state.marks_of(event.book).contains_key(other) ==> applied(state, event).marks_of(
            event.book,
        )[other] == state.marks_of(event.book)[other],
{
}

/// Events about annotations that are gone change nothing.
pub proof fn amending_what_is_gone_changes_nothing(
    state: StateView,
    event: EventView,
    id: Seq<char>,
    text: Seq<char>,
    color: Color,
)
    requires
        !state.marks_of(event.book).contains_key(id),
        event.payload == (PayloadView::NoteSet { id, text }) || event.payload == (
        PayloadView::ColorSet { id, color }) || event.payload == (
        PayloadView::AnnotationRemoved { id }),
    ensures
        applied(state, event) == state,
{
}

/// A correction that sets a field to empty clears it, and one that leaves a
/// field out leaves it be.
pub proof fn a_patch_touches_only_its_fields(record: RecordView, patch: PatchView)
    ensures
        patch.title is None ==> patched(record, patch).title == record.title,
        patch.authors is None ==> patched(record, patch).authors == record.authors,
        patch.series is None ==> patched(record, patch).series == record.series,
        patch.series_index is None ==> patched(record, patch).series_index == record.series_index,
        patch.tags is None ==> patched(record, patch).tags == record.tags,
        patch.rating is None ==> patched(record, patch).rating == record.rating,
        patch.publisher is None ==> patched(record, patch).publisher == record.publisher,
        patch.year is None ==> patched(record, patch).year == record.year,
        patch.language is None ==> patched(record, patch).language == record.language,
        patched(record, patch).paths == record.paths,
        patched(record, patch).missing == record.missing,
        patch.title == Some(Seq::<char>::empty()) ==> patched(record, patch).title is None,
        patch.series == Some(Seq::<char>::empty()) ==> patched(record, patch).series is None,
        patch.rating is Some ==> (patched(record, patch).rating matches Some(n) ==> 1 <= n <= 5),
{
    crate::text::lemma_trim_empty(Seq::<char>::empty());
}

// ---------------------------------------------------------------------------
// The lines of a journal file
// ---------------------------------------------------------------------------
/// The first line end at or after `i`, or the end of the bytes.
pub open spec fn line_end(b: Seq<u8>, i: int) -> int
    decreases b.len() - i,
{
    if 0 <= i < b.len() && b[i] != 10 {
        line_end(b, i + 1)
    } else {
        i
    }
}

/// The bytes of the first line, which ends at `end`, without its line end.
pub open spec fn line_bytes(b: Seq<u8>, end: int) -> Seq<u8> {
    if 0 < end < b.len() && b[end - 1] == 13 {
        b.take(end - 1)
    } else {
        b.take(end)
    }
}

/// What a line says: nothing where it is blank or no text at all.
pub open spec fn line_read(b: Seq<u8>) -> Seq<Seq<char>> {
    if valid_utf8(b) && !blank(decode_utf8(b)) {
        seq![decode_utf8(b)]
    } else {
        Seq::empty()
    }
}

/// The lines of a file that say something.
pub open spec fn lines_read(b: Seq<u8>) -> Seq<Seq<char>>
    decreases b.len(),
{
    let end = line_end(b, 0);
    let first = line_read(line_bytes(b, end));
    if b.len() == 0 {
        Seq::empty()
    } else if end < 0 || end >= b.len() {
        first
    } else {
        first + lines_read(b.skip(end + 1))
    }
}

proof fn lemma_line_end(b: Seq<u8>, i: int)
    requires
        0 <= i <= b.len(),
    ensures
        i <= line_end(b, i) <= b.len(),
        line_end(b, i) < b.len() ==> b[line_end(b, i)] == 10,
        forall|k: int| i <= k < line_end(b, i) ==> b[k] != 10,
    decreases b.len() - i,
{
    if i < b.len() && b[i] != 10 {
        lemma_line_end(b, i + 1);
    }
}

proof fn lemma_line_end_is(b: Seq<u8>, i: int, end: int)
    requires
        0 <= i <= end <= b.len(),
        forall|k: int| i <= k < end ==> b[k] != 10,
        end < b.len() ==> b[end] == 10,
    ensures
        line_end(b, i) == end,
    decreases end - i,
{
    if i < end {
        lemma_line_end_is(b, i + 1, end);
    }
}

/// Lines are read on their own: a file that ends its last line reads the same
/// whatever is appended to it.
pub proof fn lines_are_read_on_their_own(a: Seq<u8>, b: Seq<u8>)
    requires
        a.len() > 0,
        a.last() == 10,
    ensures
        lines_read(a + b) == lines_read(a) + lines_read(b),
    decreases a.len(),
{
    let end = line_end(a, 0);
    lemma_line_end(a, 0);
    assert(end < a.len());
    lemma_line_end_is(a + b, 0, end);
    assert(line_bytes(a + b, end) =~= line_bytes(a, end));
    let rest = a.skip(end + 1);
    assert((a + b).skip(end + 1) =~= rest + b);
    let first = line_read(line_bytes(a, end));
    assert(lines_read(a + b) == first + lines_read(rest + b));
    assert(lines_read(a) == first + lines_read(rest));
    if rest.len() == 0 {
        assert(rest + b =~= b);
        assert(lines_read(rest) =~= Seq::<Seq<char>>::empty());
    } else {
        assert(rest.last() == 10);
        lines_are_read_on_their_own(rest, b);
    }
    assert(first + (lines_read(rest) + lines_read(b)) =~= first + lines_read(rest) + lines_read(b));
}

/// A line that is blank or no text hides none of the others.
pub proof fn a_damaged_line_hides_no_other(a: Seq<u8>, damaged: Seq<u8>, b: Seq<u8>)
    requires
        a.len() > 0 ==> a.last() == 10,
        forall|k: int| 0 <= k < damaged.len() ==> damaged[k] != 10,
        line_read(line_bytes(damaged.push(10), damaged.len() as int)).len() == 0,
    ensures
        lines_read(a + damaged.push(10) + b) == lines_read(a) + lines_read(b),
{
    let d = damaged.push(10);
    lemma_line_end_is(d, 0, damaged.len() as int);
    assert(lines_read(d.skip(damaged.len() as int + 1)) =~= Seq::<Seq<char>>::empty());
    assert(lines_read(d) =~= Seq::<Seq<char>>::empty());
    lines_are_read_on_their_own(d, b);
    assert(lines_read(d + b) =~= lines_read(b));
    assert(a + d + b =~= a + (d + b));
    if a.len() > 0 {
        lines_are_read_on_their_own(a, d + b);
    } else {
        assert(a + (d + b) =~= d + b);
    }
    assert(lines_read(a + d + b) =~= lines_read(a) + lines_read(b));
}

/// Reads one line. None where it is blank or no UTF-8.
fn read_line(bytes: &[u8]) -> (r: Option<String>)
    ensures
        (match r {
            Some(s) => seq![s@],
            None => Seq::empty(),
        }) == line_read(bytes@),
{
    let text = lossy_text(bytes);
    proof {
        encode_utf8_decode_utf8(text@);
        encode_utf8_valid_utf8(text@);
    }
    if same_bytes(text.as_str().as_bytes(), bytes) && !is_blank_text(&text) {
        Some(text)
    } else {
        None
    }
}

/// The lines of a journal file, one event each. A line that is blank or no UTF-8
/// is left out: one damaged event must not hide the rest.
pub fn journal_lines(bytes: &Vec<u8>) -> (r: Vec<String>)
    ensures
        texts(r@) == lines_read(bytes@),
{
    let mut out: Vec<String> = Vec::new();
    let mut from: usize = 0;
    let ghost all = bytes@;
    assert(all.skip(0) =~= all);
    assert(texts(out@) + lines_read(all) =~= lines_read(all));
    while from < bytes.len()
        invariant
            all == bytes@,
            from <= bytes@.len(),
            texts(out@) + lines_read(all.skip(from as int)) == lines_read(all),
        decreases bytes@.len() - from,
    {
        let ghost here = all.skip(from as int);
        let mut end: usize = from;
        while end < bytes.len() && bytes[end] != 10
            invariant
                all == bytes@,
                from <= end <= bytes@.len(),
                forall|k: int| from <= k < end ==> all[k] != 10,
            decreases bytes@.len() - end,
        {
            end += 1;
        }
        proof {
            lemma_line_end_is(here, 0, end - from);
        }
        let stop = if from < end && end < bytes.len() && bytes[end - 1] == 13 {
            end - 1
        } else {
            end
        };
        let line = slice_subrange(bytes.as_slice(), from, stop);
        assert(line@ =~= line_bytes(here, end - from));
        let ghost before = texts(out@);
        if let Some(text) = read_line(line) {
            out.push(text);
        }
        assert(texts(out@) =~= before + line_read(line@));
        if end == bytes.len() {
            assert(lines_read(here) =~= line_read(line@));
            from = end;
            assert(all.skip(from as int).len() == 0);
        } else {
            assert(here.skip(end - from + 1) =~= all.skip(end + 1));
            from = end + 1;
        }
        assert(texts(out@) + lines_read(all.skip(from as int)) =~= lines_read(all));
    }
    assert(texts(out@) + lines_read(all.skip(from as int)) =~= texts(out@));
    out
}

/// A file whose last line is ended.
pub open spec fn ended(file: Seq<u8>) -> Seq<u8> {
    if file.len() == 0 || file.last() == 10 {
        file
    } else {
        file.push(10)
    }
}

/// What to write for one more line, given the last byte of the file. A line that
/// was only partly written is ended first.
pub open spec fn appended(last: Option<u8>, line: Seq<u8>) -> Seq<u8> {
    match last {
        Some(b) => if b == 10 {
            line.push(10)
        } else {
            seq![10u8] + line.push(10)
        },
        None => line.push(10),
    }
}

/// What to write for one more line. `last` is the last byte of the file so far.
pub fn line_to_append(last: Option<u8>, line: &[u8]) -> (r: Vec<u8>)
    ensures
        r@ == appended(last, line@),
{
    let mut out: Vec<u8> = Vec::new();
    if let Some(b) = last {
        if b != 10 {
            out.push(10);
        }
    }
    let ghost front = out@;
    let mut i: usize = 0;
    while i < line.len()
        invariant
            i <= line@.len(),
            out@ == front + line@.take(i as int),
        decreases line@.len() - i,
    {
        out.push(line[i]);
        i += 1;
        assert(line@.take(i as int) =~= line@.take(i - 1).push(line@[i - 1]));
        assert(out@ =~= front + line@.take(i as int));
    }
    out.push(10);
    assert(line@.take(line@.len() as int) =~= line@);
    assert(out@ =~= appended(last, line@));
    out
}

/// A line that was only partly written costs one event at most: what is written
/// after it is read on its own.
pub proof fn an_append_is_read_on_its_own(file: Seq<u8>, line: Seq<u8>)
    requires
        forall|k: int| 0 <= k < line.len() ==> line[k] != 10,
    ensures
        lines_read(
            file + appended(
                if file.len() == 0 {
                    None
                } else {
                    Some(file.last())
                },
                line,
            ),
        ) == lines_read(ended(file)) + line_read(line_bytes(line.push(10), line.len() as int)),
{
    let l = line.push(10);
    let n = line.len() as int;
    lemma_line_end_is(l, 0, n);
    assert(lines_read(l.skip(n + 1)) =~= Seq::<Seq<char>>::empty());
    assert(lines_read(l) =~= line_read(line_bytes(l, n)));
    let f = ended(file);
    let last = if file.len() == 0 {
        None
    } else {
        Some(file.last())
    };
    assert(file + appended(last, line) =~= f + l);
    if f.len() > 0 {
        lines_are_read_on_their_own(f, l);
    } else {
        assert(f + l =~= l);
        assert(lines_read(f) + lines_read(l) =~= lines_read(l));
    }
}

} // verus!
