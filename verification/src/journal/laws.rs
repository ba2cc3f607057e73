//! What every event leaves behind.

use vstd::prelude::*;
use crate::annotation::{AnnotationView, Color, Slice};
use crate::doc::LocatorView;
use crate::failure::{joined, joining_keeps_every_part};
use crate::gather::{gathers, lemma_gather};
use crate::journal::{
    all_cleaned, applied, patched, paths_without, precedes, EventView, PatchView, PayloadView,
    RecordView, StateView,
};
use crate::paths::{paths_equal, stem_of};
use crate::text::{blank, lemma_trim_empty, occurs_at, trim};

verus! {

/// A value that was set: the text without the white space around it, and nothing
/// where there is nothing else.
pub open spec fn is_set(field: Option<Seq<char>>, value: Seq<char>) -> bool {
    if blank(value) {
        field is None
    } else {
        field == Some(trim(value))
    }
}

/// The values that say anything, each without the white space around it.
pub open spec fn said_in(values: Seq<Seq<char>>) -> spec_fn(int) -> Option<Seq<char>> {
    |k: int|
        if blank(values[k]) {
            None
        } else {
            Some(trim(values[k]))
        }
}

proof fn lemma_cleaned(values: Seq<Seq<char>>, n: int) -> (at: Seq<int>)
    requires
        0 <= n <= values.len(),
    ensures
        gathers(at, all_cleaned(values.take(n)), n, said_in(values)),
    decreases n,
{
    if n == 0 {
        Seq::empty()
    } else {
        let before = lemma_cleaned(values, n - 1);
        assert(values.take(n).drop_last() =~= values.take(n - 1));
        lemma_trim_empty(values[n - 1]);
        lemma_gather(before, all_cleaned(values.take(n - 1)), n - 1, said_in(values))
    }
}

/// A correction sets what it names: a text without the white space around it, a list
/// of those of its values that say anything, a rating of at most five. What is set to
/// nothing is cleared.
pub proof fn a_patch_sets_its_fields(record: RecordView, patch: PatchView)
    ensures
        ({
            let r = patched(record, patch);
            &&& patch.title matches Some(v) ==> is_set(r.title, v)
            &&& patch.series matches Some(v) ==> is_set(r.series, v)
            &&& patch.publisher matches Some(v) ==> is_set(r.publisher, v)
            &&& patch.language matches Some(v) ==> is_set(r.language, v)
            &&& patch.series_index is Some ==> r.series_index == patch.series_index
            &&& patch.authors matches Some(v) ==> exists|at: Seq<int>| #[trigger]
                gathers(at, r.authors, v.len() as int, said_in(v))
            &&& patch.tags matches Some(v) ==> exists|at: Seq<int>| #[trigger]
                gathers(at, r.tags, v.len() as int, said_in(v))
            &&& patch.rating matches Some(v) ==> (if v == 0 {
                r.rating is None
            } else {
                r.rating matches Some(x) && x <= v && x <= 5 && (x == v || x == 5)
            })
            &&& patch.year matches Some(v) ==> (if v == 0 {
                r.year is None
            } else {
                r.year == Some(v)
            })
        }),
{
    if let Some(v) = patch.title {
        lemma_trim_empty(v);
    }
    if let Some(v) = patch.series {
        lemma_trim_empty(v);
    }
    if let Some(v) = patch.publisher {
        lemma_trim_empty(v);
    }
    if let Some(v) = patch.language {
        lemma_trim_empty(v);
    }
    let r = patched(record, patch);
    if let Some(v) = patch.authors {
        let at = lemma_cleaned(v, v.len() as int);
        assert(v.take(v.len() as int) =~= v);
        assert(gathers(at, r.authors, v.len() as int, said_in(v)));
    }
    if let Some(v) = patch.tags {
        let at = lemma_cleaned(v, v.len() as int);
        assert(v.take(v.len() as int) =~= v);
        assert(gathers(at, r.tags, v.len() as int, said_in(v)));
    }
}

/// A correction reaches its book, known or not, and no other.
pub proof fn a_correction_reaches_its_book(state: StateView, event: EventView, patch: PatchView)
    requires
        event.payload == PayloadView::MetadataSet(patch),
    ensures
        ({
            let after = applied(state, event);
            &&& after.books.contains_key(event.book)
            &&& state.books.contains_key(event.book) ==> after.books[event.book] == patched(
                state.books[event.book],
                patch,
            )
            &&& !state.books.contains_key(event.book) ==> after.books[event.book].paths.len() == 0
            &&& forall|other: Seq<char>|
                other != event.book ==> (#[trigger] after.books.contains_key(other)
                    == state.books.contains_key(other)) && (state.books.contains_key(other)
                    ==> after.books[other] == state.books[other])
            &&& after.positions == state.positions && after.marks == state.marks
        }),
{
}

/// A book that is seen is known, with a file, and is not missing. It gets the title
/// and the authors that came along where it has none; all else about it stays.
pub proof fn a_book_that_is_seen_is_known(
    state: StateView,
    event: EventView,
    title: Option<Seq<char>>,
    authors: Seq<Seq<char>>,
    path: Seq<char>,
)
    requires
        event.payload == (PayloadView::BookSeen { title, authors, path }),
    ensures
        ({
            let after = applied(state, event);
            let r = after.books[event.book];
            &&& after.books.contains_key(event.book)
            &&& !r.missing
            &&& exists|i: int| 0 <= i < r.paths.len() && paths_equal(#[trigger] r.paths[i], path)
            &&& !state.books.contains_key(event.book) ==> r.title == title && r.authors == authors
                && r.series is None && r.series_index is None && r.tags.len() == 0 && r.rating is None
                && r.publisher is None && r.year is None && r.language is None && (forall|i: int|
                0 <= i < r.paths.len() ==> #[trigger] r.paths[i] == path) && (path.len() > 0
                ==> r.paths.len() == 1)
            &&& state.books.contains_key(event.book) ==> ({
                let old = state.books[event.book];
                &&& old.title is None ==> r.title == title
                &&& old.authors.len() == 0 ==> r.authors == authors
                &&& r.series == old.series && r.series_index == old.series_index && r.tags
                    == old.tags && r.rating == old.rating && r.publisher == old.publisher && r.year
                    == old.year && r.language == old.language
                &&& r.paths.len() >= old.paths.len() && r.paths.take(old.paths.len() as int)
                    == old.paths && r.paths.len() <= old.paths.len() + 1
            })
            &&& after.positions == state.positions && after.marks == state.marks
        }),
{
    let after = applied(state, event);
    let r = after.books[event.book];
    let old = state.record_or(event.book, path);
    if crate::journal::knows_path(old.paths, path) {
        let i = choose|i: int| 0 <= i < old.paths.len() && paths_equal(#[trigger] old.paths[i], path);
        assert(paths_equal(r.paths[i], path));
        assert(r.paths.take(old.paths.len() as int) =~= old.paths);
    } else {
        let n = old.paths.len() as int;
        assert(r.paths[n] == path);
        assert(paths_equal(r.paths[n], path));
        assert(r.paths.take(n) =~= old.paths);
        if !state.books.contains_key(event.book) && path.len() > 0 {
            assert(old.paths[0] == path);
            assert(paths_equal(old.paths[0], path));
        }
    }
    if !state.books.contains_key(event.book) && path.len() > 0 {
        assert(old.paths =~= seq![path]);
        assert(paths_equal(old.paths[0], path));
    }
}

/// The files other than the one that went missing.
pub open spec fn other_files(paths: Seq<Seq<char>>, path: Seq<char>) -> spec_fn(int) -> Option<
    Seq<char>,
> {
    |k: int|
        if paths_equal(paths[k], path) {
            None
        } else {
            Some(paths[k])
        }
}

proof fn lemma_others(paths: Seq<Seq<char>>, path: Seq<char>, n: int) -> (at: Seq<int>)
    requires
        0 <= n <= paths.len(),
    ensures
        gathers(at, paths_without(paths.take(n), path), n, other_files(paths, path)),
    decreases n,
{
    if n == 0 {
        Seq::empty()
    } else {
        let before = lemma_others(paths, path, n - 1);
        assert(paths.take(n).drop_last() =~= paths.take(n - 1));
        lemma_gather(before, paths_without(paths.take(n - 1), path), n - 1, other_files(paths, path))
    }
}

/// A file that went missing is forgotten, and no other. The book is missing once its
/// last file is gone, and all else about it stays.
pub proof fn a_missing_file_is_forgotten(state: StateView, event: EventView, path: Seq<char>)
    requires
        event.payload == (PayloadView::FileMissing { path }),
        state.books.contains_key(event.book),
    ensures
        ({
            let old = state.books[event.book];
            let r = applied(state, event).books[event.book];
            &&& applied(state, event).books.contains_key(event.book)
            &&& exists|at: Seq<int>| #[trigger]
                gathers(at, r.paths, old.paths.len() as int, other_files(old.paths, path))
            &&& r.missing == (r.paths.len() == 0)
            &&& r == (RecordView { paths: r.paths, missing: r.missing, ..old })
        }),
{
    let old = state.books[event.book];
    let r = applied(state, event).books[event.book];
    let at = lemma_others(old.paths, path, old.paths.len() as int);
    assert(old.paths.take(old.paths.len() as int) =~= old.paths);
    assert(gathers(at, r.paths, old.paths.len() as int, other_files(old.paths, path)));
}

/// A position that is not older than the one known is the one known.
pub proof fn a_position_is_where_it_was_set(
    state: StateView,
    event: EventView,
    locator: LocatorView,
)
    requires
        event.payload == PayloadView::PositionSet(locator),
    ensures
        ({
            let after = applied(state, event);
            &&& after.positions.contains_key(event.book)
            &&& !(state.positions.contains_key(event.book) && precedes(
                event.at,
                state.positions[event.book].at,
            )) ==> after.positions[event.book].locator == locator && after.positions[event.book].at
                == event.at
            &&& state.positions.contains_key(event.book) && precedes(
                event.at,
                state.positions[event.book].at,
            ) ==> after == state
            &&& after.books == state.books && after.marks == state.marks
        }),
{
}

/// A passage that is marked is known under its id, with all that was said of it and
/// without a comment. Every other mark stays.
pub proof fn a_mark_is_what_was_marked(
    state: StateView,
    event: EventView,
    id: Seq<char>,
    href: Seq<char>,
    slices: Seq<Slice>,
    color: Color,
    quote: Seq<char>,
    other: Seq<char>,
)
    requires
        event.payload == (PayloadView::HighlightAdded { id, href, slices, color, quote }),
        other != id,
    ensures
        ({
            let after = applied(state, event).marks_of(event.book);
            let before = state.marks_of(event.book);
            &&& after.contains_key(id)
            &&& after[id].id == id && after[id].href == href && after[id].slices == slices
                && after[id].color == color && after[id].quote == quote && after[id].note is None
            &&& after.contains_key(other) == before.contains_key(other)
            &&& before.contains_key(other) ==> after[other] == before[other]
            &&& applied(state, event).books == state.books && applied(state, event).positions
                == state.positions
        }),
{
}

/// A new colour changes the colour of its mark and nothing else.
pub proof fn a_colour_changes_nothing_else(
    state: StateView,
    event: EventView,
    id: Seq<char>,
    color: Color,
    other: Seq<char>,
)
    requires
        event.payload == (PayloadView::ColorSet { id, color }),
        state.marks_of(event.book).contains_key(id),
        other != id,
    ensures
        ({
            let after = applied(state, event).marks_of(event.book);
            let before = state.marks_of(event.book);
            &&& after.contains_key(id)
            &&& after[id] == (AnnotationView { color, ..before[id] })
            &&& after.contains_key(other) == before.contains_key(other)
            &&& before.contains_key(other) ==> after[other] == before[other]
            &&& applied(state, event).books == state.books && applied(state, event).positions
                == state.positions
        }),
{
}

/// A book is shown under its title, or under the name of its first file; its authors
/// are all named, in order.
pub proof fn a_book_is_shown_under_its_name(record: RecordView, i: int)
    ensures
        record.title matches Some(t) ==> record.shown_title() == t,
        record.title is None && record.paths.len() > 0 && stem_of(record.paths[0]) is Some
            ==> record.shown_title() == stem_of(record.paths[0])->0,
        0 <= i < record.authors.len() ==> exists|p: int| #[trigger]
            occurs_at(record.shown_authors(), record.authors[i], p),
        record.authors.len() == 1 ==> record.shown_authors() == record.authors[0],
{
    if 0 <= i < record.authors.len() {
        let at = joining_keeps_every_part(record.authors, ", "@);
        assert(record.shown_authors() == joined(record.authors, ", "@));
        assert(occurs_at(record.shown_authors(), record.authors[i], at[i]));
    }
}

} // verus!
