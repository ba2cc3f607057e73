//! What holds of every answer of the tools.

use vstd::prelude::*;
use crate::annotation::AnnotationView;
use crate::app::target::spine_exact;
use crate::epub::{chapter_at, entry_title, BookView, SpineView};
use crate::export::markdown::{markdown, on_one_line};
use crate::gather::{
    gathers, lemma_gather, lemma_listed, lemma_listed_within, lemma_says, lemma_says_add, listed,
    says,
};
use crate::journal::{RecordView, State};
use crate::library::{filtered, rows, rows_sorted, EntryView, Order};
use crate::mcp::json::JsonView;
use crate::mcp::reading::{
    chapter_asked, chapter_lines, chapter_text, context, file_lines, hit_text, hits_in_book,
    hits_text, in_three_columns, labelled, record_head, record_text, spine_by_name, tag_list,
    AFTER, BEFORE, MAX_CHAPTER_CHARS,
};
use crate::mcp::{accepted, arguments_of, file_for, ReceivedView};
use crate::mcp::tools::{
    all_marks, asked_books, authors_part, book_from, book_marks, book_row, book_rows,
    books_text, limit_of, mark_text, marks_text, order_from, position_row, position_rows,
    positions_text, read_part, resolved, rows_read, series_part, titled_like, wanted_marks,
    written,
};
use crate::paths::file_name_of;
use crate::search::{all_hits, Hit};
use crate::text::{blank, contains_text, decimal, number_value, occurs_at, text_lowercase, trim};

verus! {

// ---------------------------------------------------------------------------
// Which book
// ---------------------------------------------------------------------------
/// The books whose title holds a text.
pub open spec fn titled_by(state: State, needle: Seq<char>) -> spec_fn(int) -> Option<
    (Seq<char>, RecordView),
> {
    |k: int|
        if contains_text(text_lowercase(state.books.entries@[k].1@.shown_title()), needle) {
            Some((state.books.entries@[k].0@, state.books.entries@[k].1@))
        } else {
            None
        }
}

proof fn lemma_titled(state: State, needle: Seq<char>, n: int) -> (at: Seq<int>)
    requires
        0 <= n <= state.books.entries@.len(),
    ensures
        gathers(
            at,
            titled_like(state.books.entries@.take(n), needle),
            n,
            titled_by(state, needle),
        ),
    decreases n,
{
    let all = state.books.entries@;
    if n == 0 {
        Seq::empty()
    } else {
        let before = lemma_titled(state, needle, n - 1);
        assert(all.take(n).drop_last() =~= all.take(n - 1));
        lemma_gather(before, titled_like(all.take(n - 1), needle), n - 1, titled_by(state, needle))
    }
}

/// A book is found by its id, or by a part of its title that no other book's title
/// has, whatever the case of its letters.
pub proof fn a_book_is_found_by_its_id_or_title(state: State, args: JsonView, wanted: Seq<char>)
    requires
        args.text_in("book"@) == Some(wanted),
    ensures
        blank(wanted) ==> resolved(state, args) is Err,
        !blank(wanted) && occurs_at(wanted, "sha256:"@, 0) ==> (match resolved(state, args) {
            Ok((id, record)) => id == wanted && state@.books.contains_key(id)
                && state@.books[id] == record,
            Err(_) => !state@.books.contains_key(wanted),
        }),
        !blank(wanted) && !occurs_at(wanted, "sha256:"@, 0) ==> ({
            let all = state.books.entries@;
            let of = titled_by(state, text_lowercase(trim(wanted)));
            match resolved(state, args) {
                Ok(pair) => exists|k: int|
                    0 <= k < all.len() && #[trigger] of(k) == Some(pair) && forall|j: int|
                        0 <= j < all.len() && j != k ==> (#[trigger] of(j)) is None,
                Err(_) => !(exists|k: int|
                    0 <= k < all.len() && (#[trigger] of(k)) is Some && forall|j: int|
                        0 <= j < all.len() && j != k ==> (#[trigger] of(j)) is None),
            }
        }),
{
    let all = state.books.entries@;
    let needle = text_lowercase(trim(wanted));
    let of = titled_by(state, needle);
    let n = all.len() as int;
    let at = lemma_titled(state, needle, n);
    assert(all.take(n) =~= all);
    let found = titled_like(all, needle);
    assert(gathers(at, found, n, of));
    if found.len() == 1 {
        let k = at[0];
        assert(of(k) == Some(found[0]));
        assert forall|j: int| 0 <= j < n && j != k implies (#[trigger] of(j)) is None by {
            if of(j) is Some {
                assert(crate::gather::is_at(at, j));
            }
        }
    } else if found.len() == 0 {
        assert forall|k: int| 0 <= k < n implies (#[trigger] of(k)) is None by {
            if of(k) is Some {
                assert(crate::gather::is_at(at, k));
            }
        }
    } else {
        assert(at[0] < at[1]);
        assert(of(at[0]) is Some && of(at[1]) is Some);
    }
}

/// A limit that is asked for is kept as far as the tool goes.
pub proof fn limits_are_kept(args: JsonView, usual: int, most: int)
    ensures
        match args.natural_in("limit"@) {
            Some(n) => limit_of(args, usual, most) <= n && limit_of(args, usual, most) <= most && (
            n <= most ==> limit_of(args, usual, most) == n),
            None => limit_of(args, usual, most) == usual,
        },
{
}

// ---------------------------------------------------------------------------
// The list of books
// ---------------------------------------------------------------------------
/// What a row says of a book: its title, its id, its authors or its series.
pub open spec fn told(e: EntryView, what: int) -> Seq<char> {
    if what == 0 {
        e.record.shown_title()
    } else if what == 1 {
        e.id
    } else if what == 2 && e.record.authors.len() > 0 {
        e.record.shown_authors()
    } else if what == 3 && e.record.series is Some {
        e.record.series->0
    } else {
        Seq::empty()
    }
}

/// What the first `n` rows say.
pub open spec fn told_of(rows: Seq<EntryView>, n: int, what: int) -> Seq<Seq<char>> {
    Seq::new(n as nat, |i: int| told(rows[i], what))
}

#[verifier::rlimit(30)]
proof fn lemma_row(e: EntryView, what: int)
    ensures
        says(book_row(e), told(e, what)),
{
    let t = e.record.shown_title();
    let a = authors_part(e);
    let s = series_part(e);
    let r = read_part(e);
    let row = book_row(e);
    if what == 0 {
        assert(row =~= "- "@ + t + (a + s + r + "\n  id: "@ + e.id + "\n"@));
        lemma_says("- "@, t, a + s + r + "\n  id: "@ + e.id + "\n"@);
    } else if what == 1 {
        lemma_says("- "@ + t + a + s + r + "\n  id: "@, e.id, "\n"@);
    } else if what == 2 && e.record.authors.len() > 0 {
        let x = e.record.shown_authors();
        let rest = s + r + "\n  id: "@ + e.id + "\n"@;
        assert(row =~= ("- "@ + t + " — "@) + x + rest);
        lemma_says("- "@ + t + " — "@, x, rest);
    } else if what == 3 && e.record.series is Some {
        let x = e.record.series->0;
        let tail = r + "\n  id: "@ + e.id + "\n"@;
        match e.record.series_index {
            Some(at) => {
                let rest = " "@ + at.label + "]"@ + tail;
                assert(row =~= ("- "@ + t + a + " ["@) + x + rest);
                lemma_says("- "@ + t + a + " ["@, x, rest);
            },
            None => {
                let rest = "]"@ + tail;
                assert(row =~= ("- "@ + t + a + " ["@) + x + rest);
                lemma_says("- "@ + t + a + " ["@, x, rest);
            },
        }
    } else {
        assert(row =~= Seq::<char>::empty() + Seq::<char>::empty() + row);
        lemma_says(Seq::empty(), Seq::empty(), row);
    }
}

proof fn lemma_rows(rows: Seq<EntryView>, n: nat, what: int) -> (at: Seq<int>)
    requires
        n <= rows.len(),
    ensures
        listed(at, book_rows(rows, n), told_of(rows, n as int, what)),
    decreases n,
{
    if n == 0 {
        Seq::empty()
    } else {
        let m = (n - 1) as nat;
        let before = lemma_rows(rows, m, what);
        lemma_row(rows[n - 1], what);
        let at = lemma_listed(
            before,
            book_rows(rows, m),
            told_of(rows, m as int, what),
            book_row(rows[n - 1]),
            told(rows[n - 1], what),
        );
        assert(told_of(rows, m as int, what).push(told(rows[n - 1], what)) =~= told_of(
            rows,
            n as int,
            what,
        ));
        at
    }
}

/// The filter that is asked for.
pub open spec fn needle_of(args: JsonView) -> Seq<char> {
    match args.text_in("filter"@) {
        Some(s) => s,
        None => Seq::empty(),
    }
}

/// The smaller of two numbers.
pub open spec fn fewer(a: int, b: int) -> int {
    if a < b {
        a
    } else {
        b
    }
}

/// The list names the books that the filter keeps, in the order asked for and as far
/// as the limit goes: each with its title, its id, its authors and its series.
pub proof fn the_list_names_its_books(all: Seq<EntryView>, args: JsonView, what: int)
    requires
        0 <= limit_of(args, 50, 500),
    ensures
        ({
            let shown = filtered(rows_sorted(all, order_from(args)), needle_of(args));
            exists|at: Seq<int>| #[trigger]
                listed(
                    at,
                    books_text(all, args),
                    told_of(shown, fewer(shown.len() as int, limit_of(args, 50, 500)), what),
                )
        }),
{
    let limit = limit_of(args, 50, 500);
    let order = order_from(args);
    let needle = match args.text_in("filter"@) {
        Some(s) => s,
        None => ""@,
    };
    let sorted = rows_sorted(all, order);
    let shown = filtered(sorted, needle);
    let count = if shown.len() < limit {
        shown.len() as int
    } else {
        limit
    };
    let head = decimal(count as nat) + " of "@ + decimal(sorted.len()) + " books, ordered by "@
        + crate::library::order_label(order) + "\n\n"@;
    let body = book_rows(shown, count as nat);
    let tail = if shown.len() > limit {
        "\n("@ + decimal((shown.len() - limit) as nat) + " more not shown)\n"@
    } else {
        Seq::empty()
    };
    let at = lemma_rows(shown, count as nat, what);
    let r = lemma_listed_within(at, head, body, tail, told_of(shown, count, what));
    reveal_strlit("");
    assert(""@ =~= Seq::<char>::empty());
    assert(needle == needle_of(args));
    assert(books_text(all, args) =~= head + body + tail);
    assert(listed(
        r,
        books_text(all, args),
        told_of(shown, fewer(shown.len() as int, limit_of(args, 50, 500)), what),
    ));
}

/// The order of the list is the one that is asked for, by title unless one is.
pub proof fn the_order_is_the_one_asked_for(args: JsonView)
    ensures
        args.text_in("order"@) == Some("author"@) ==> order_from(args) is Author,
        args.text_in("order"@) == Some("series"@) ==> order_from(args) is Series,
        args.text_in("order"@) == Some("recent"@) ==> order_from(args) is Recent,
        args.text_in("order"@) == Some("title"@) ==> order_from(args) is Title,
        args.text_in("order"@) is None ==> order_from(args) is Title,
{
    reveal_strlit("author");
    reveal_strlit("series");
    reveal_strlit("recent");
    reveal_strlit("title");
    assert("author"@[0] == 'a' && "series"@[0] == 's' && "recent"@[0] == 'r');
    assert("title"@.len() == 5 && "author"@.len() == 6 && "series"@.len() == 6 && "recent"@.len()
        == 6);
}

// ---------------------------------------------------------------------------
// Reading positions
// ---------------------------------------------------------------------------
/// The books that were read.
pub open spec fn read_in(all: Seq<EntryView>) -> spec_fn(int) -> Option<EntryView> {
    |k: int|
        if all[k].last_read is Some {
            Some(all[k])
        } else {
            None
        }
}

proof fn lemma_read(all: Seq<EntryView>, n: int) -> (at: Seq<int>)
    requires
        0 <= n <= all.len(),
    ensures
        gathers(at, rows_read(all.take(n)), n, read_in(all)),
    decreases n,
{
    if n == 0 {
        Seq::empty()
    } else {
        let before = lemma_read(all, n - 1);
        assert(all.take(n).drop_last() =~= all.take(n - 1));
        lemma_gather(before, rows_read(all.take(n - 1)), n - 1, read_in(all))
    }
}

/// Of some books, those are kept that were read, in their order.
pub proof fn only_what_was_read_is_kept(all: Seq<EntryView>)
    ensures
        exists|at: Seq<int>| #[trigger] gathers(at, rows_read(all), all.len() as int, read_in(all)),
{
    let at = lemma_read(all, all.len() as int);
    assert(all.take(all.len() as int) =~= all);
    assert(gathers(at, rows_read(all), all.len() as int, read_in(all)));
}

proof fn lemma_position_row(state: State, e: EntryView)
    ensures
        says(position_row(state, e), e.record.shown_title()),
        state@.positions.contains_key(e.id) ==> says(
            position_row(state, e),
            state@.positions[e.id].locator.href,
        ),
{
    let t = e.record.shown_title();
    let when = match e.last_read {
        Some(at) => written(at, "%Y-%m-%d %H:%M UTC"@),
        None => Seq::empty(),
    };
    let after = " — "@ + e.record.shown_authors() + "\n  last read: "@ + when + "\n"@;
    let head = "- "@ + t + " — "@ + e.record.shown_authors() + "\n  last read: "@ + when + "\n"@;
    assert(head =~= "- "@ + t + after);
    lemma_says("- "@, t, after);
    if state@.positions.contains_key(e.id) {
        let at = state@.positions[e.id].locator;
        let rest = " block "@ + decimal(at.block as nat) + "\n  id: "@ + e.id + "\n"@;
        assert(position_row(state, e) =~= head + ("  at: "@ + at.href + rest));
        lemma_says_add(head, "  at: "@ + at.href + rest, t);
        assert(position_row(state, e) =~= (head + "  at: "@) + at.href + rest);
        lemma_says(head + "  at: "@, at.href, rest);
    }
}

proof fn lemma_position_rows(state: State, read: Seq<EntryView>, n: nat) -> (at: Seq<int>)
    requires
        n <= read.len(),
    ensures
        listed(at, position_rows(state, read, n), told_of(read, n as int, 0)),
    decreases n,
{
    if n == 0 {
        Seq::empty()
    } else {
        let m = (n - 1) as nat;
        let before = lemma_position_rows(state, read, m);
        lemma_position_row(state, read[n - 1]);
        let at = lemma_listed(
            before,
            position_rows(state, read, m),
            told_of(read, m as int, 0),
            position_row(state, read[n - 1]),
            told(read[n - 1], 0),
        );
        assert(told_of(read, m as int, 0).push(told(read[n - 1], 0)) =~= told_of(
            read,
            n as int,
            0,
        ));
        at
    }
}

/// The reading positions name the books that were read, the freshest first, as far as
/// the limit goes.
pub proof fn positions_name_what_was_read(state: State, args: JsonView)
    requires
        0 <= limit_of(args, 20, 200),
        rows_read(rows(state)).len() > 0,
    ensures
        ({
            let read = rows_sorted(rows_read(rows(state)), Order::Recent);
            read.len() > 0 ==> exists|at: Seq<int>| #[trigger]
                listed(
                    at,
                    positions_text(state, args),
                    told_of(read, fewer(read.len() as int, limit_of(args, 20, 200)), 0),
                )
        }),
{
    let read = rows_sorted(rows_read(rows(state)), Order::Recent);
    let limit = limit_of(args, 20, 200);
    let count = if read.len() < limit {
        read.len() as int
    } else {
        limit
    };
    if read.len() > 0 {
        let head = decimal(read.len()) + " books with a reading position\n\n"@;
        let at = lemma_position_rows(state, read, count as nat);
        let body = position_rows(state, read, count as nat);
        let r = lemma_listed_within(at, head, body, Seq::empty(), told_of(read, count, 0));
        assert(positions_text(state, args) =~= head + body + Seq::<char>::empty());
        assert(listed(
            r,
            positions_text(state, args),
            told_of(read, fewer(read.len() as int, limit_of(args, 20, 200)), 0),
        ));
    }
}

// ---------------------------------------------------------------------------
// Annotations
// ---------------------------------------------------------------------------
/// The annotations that are asked for: all, or those with a comment.
pub open spec fn asked_in(marks: Seq<AnnotationView>, notes_only: bool) -> spec_fn(int) -> Option<
    AnnotationView,
> {
    |k: int|
        if !notes_only || (marks[k].note matches Some(n) && !blank(n)) {
            Some(marks[k])
        } else {
            None
        }
}

proof fn lemma_wanted(marks: Seq<AnnotationView>, notes_only: bool, n: int) -> (at: Seq<int>)
    requires
        0 <= n <= marks.len(),
    ensures
        gathers(at, wanted_marks(marks.take(n), notes_only), n, asked_in(marks, notes_only)),
    decreases n,
{
    if n == 0 {
        Seq::empty()
    } else {
        let before = lemma_wanted(marks, notes_only, n - 1);
        assert(marks.take(n).drop_last() =~= marks.take(n - 1));
        lemma_gather(
            before,
            wanted_marks(marks.take(n - 1), notes_only),
            n - 1,
            asked_in(marks, notes_only),
        )
    }
}

/// Of the annotations of a book all are given, or all with a comment, in their order.
pub proof fn the_annotations_asked_for_are_given(marks: Seq<AnnotationView>, notes_only: bool)
    ensures
        exists|at: Seq<int>| #[trigger]
            gathers(
                at,
                wanted_marks(marks, notes_only),
                marks.len() as int,
                asked_in(marks, notes_only),
            ),
{
    let at = lemma_wanted(marks, notes_only, marks.len() as int);
    assert(marks.take(marks.len() as int) =~= marks);
    assert(gathers(
        at,
        wanted_marks(marks, notes_only),
        marks.len() as int,
        asked_in(marks, notes_only),
    ));
}

proof fn lemma_mark_text(a: AnnotationView)
    ensures
        says(mark_text(a), on_one_line(a.quote)),
        a.note matches Some(note) ==> says(mark_text(a), on_one_line(note)),
{
    let lead = "- "@ + crate::annotation::name_of(a.color) + " · "@ + a.href + "\n"@ + "  > "@;
    let q = on_one_line(a.quote);
    let head = lead + q + "\n"@;
    lemma_says(lead, q, "\n"@);
    if let Some(note) = a.note {
        let n = on_one_line(note);
        let rest = "  note: "@ + n + "\n"@;
        assert(mark_text(a) =~= head + rest);
        lemma_says_add(head, rest, q);
        lemma_says("  note: "@, n, "\n"@);
        lemma_says_add(head, rest, n);
    }
}

proof fn lemma_marks_text(marks: Seq<AnnotationView>, k: int)
    requires
        0 <= k < marks.len(),
    ensures
        says(marks_text(marks), on_one_line(marks[k].quote)),
        marks[k].note matches Some(note) ==> says(marks_text(marks), on_one_line(note)),
    decreases marks.len(),
{
    let d = marks.drop_last();
    let front = marks_text(d);
    let row = mark_text(marks.last());
    if k < d.len() {
        lemma_marks_text(d, k);
        assert(d[k] == marks[k]);
    } else {
        lemma_mark_text(marks.last());
    }
    lemma_says_add(front, row, on_one_line(marks[k].quote));
    if let Some(note) = marks[k].note {
        lemma_says_add(front, row, on_one_line(note));
    }
}

/// The annotations of every book that is asked about are given: each with the passage
/// and the comment, below the title of its book.
pub proof fn every_annotation_is_given(
    state: State,
    books: Seq<(Seq<char>, RecordView)>,
    notes_only: bool,
    b: int,
    k: int,
)
    requires
        0 <= b < books.len(),
        0 <= k < wanted_marks(state.marks_listed(books[b].0), notes_only).len(),
    ensures
        ({
            let text = all_marks(state, books, notes_only).0;
            let a = wanted_marks(state.marks_listed(books[b].0), notes_only)[k];
            &&& says(text, on_one_line(a.quote))
            &&& a.note matches Some(note) ==> says(text, on_one_line(note))
            &&& says(text, books[b].1.shown_title())
        }),
    decreases books.len(),
{
    let d = books.drop_last();
    let front = all_marks(state, d, notes_only).0;
    let last = books.last();
    let marks = wanted_marks(state.marks_listed(last.0), notes_only);
    let row = book_marks(last.1, marks);
    let a = wanted_marks(state.marks_listed(books[b].0), notes_only)[k];
    let title = books[b].1.shown_title();
    if b < d.len() {
        assert(d[b] == books[b]);
        every_annotation_is_given(state, d, notes_only, b, k);
    } else {
        lemma_marks_text(marks, k);
        let body = marks_text(marks);
        let head = "\n## "@ + title + " — "@ + last.1.shown_authors() + "\n\n"@;
        assert(row =~= head + body);
        lemma_says_add(head, body, on_one_line(a.quote));
        if let Some(note) = a.note {
            lemma_says_add(head, body, on_one_line(note));
        }
        let after = " — "@ + last.1.shown_authors() + "\n\n"@;
        assert(head =~= "\n## "@ + title + after);
        lemma_says("\n## "@, title, after);
        lemma_says_add(head, body, title);
    }
    lemma_says_add(front, row, on_one_line(a.quote));
    lemma_says_add(front, row, title);
    if let Some(note) = a.note {
        lemma_says_add(front, row, on_one_line(note));
    }
}

/// The whole library is asked about where no book is named, and else the one that is.
pub proof fn the_books_asked_about(state: State, args: JsonView)
    ensures
        args.text_in("book"@) is None ==> (asked_books(state, args) matches Ok(books)
            && books.len() == state.books.entries@.len() && forall|i: int|
            0 <= i < books.len() ==> (#[trigger] books[i]).0 == state.books.entries@[i].0@),
        args.text_in("book"@) is Some ==> (match asked_books(state, args) {
            Ok(books) => books.len() == 1 && resolved(state, args) == Ok::<
                _,
                Seq<Seq<char>>,
            >(books[0]),
            Err(_) => resolved(state, args) is Err,
        }),
{
}

// ---------------------------------------------------------------------------
// One book
// ---------------------------------------------------------------------------
/// What the line of a chapter says: its title or its file.
pub open spec fn chapter_told(spine: Seq<SpineView>, i: int, file: bool) -> Seq<char> {
    if file {
        spine[i].href
    } else {
        entry_title(spine[i], i)
    }
}

/// What the lines of the first `n` chapters say.
pub open spec fn chapters_told(spine: Seq<SpineView>, n: int, file: bool) -> Seq<Seq<char>> {
    Seq::new(n as nat, |i: int| chapter_told(spine, i, file))
}

proof fn lemma_chapters(spine: Seq<SpineView>, n: nat, file: bool) -> (at: Seq<int>)
    requires
        n <= spine.len(),
    ensures
        listed(at, chapter_lines(spine, n), chapters_told(spine, n as int, file)),
    decreases n,
{
    if n == 0 {
        Seq::empty()
    } else {
        let m = (n - 1) as nat;
        let before = lemma_chapters(spine, m, file);
        let number = in_three_columns(n) + ". "@;
        let title = entry_title(spine[n - 1], n - 1);
        let href = spine[n - 1].href;
        let row = number + title + "  ("@ + href + ")\n"@;
        assert(chapter_lines(spine, n) =~= chapter_lines(spine, m) + row);
        if file {
            lemma_says(number + title + "  ("@, href, ")\n"@);
        } else {
            let after = "  ("@ + href + ")\n"@;
            assert(row =~= number + title + after);
            lemma_says(number, title, after);
        }
        let parts = chapters_told(spine, m as int, file);
        let at = lemma_listed(
            before,
            chapter_lines(spine, m),
            parts,
            row,
            chapter_told(spine, n - 1, file),
        );
        assert(parts.push(chapter_told(spine, n - 1, file)) =~= chapters_told(
            spine,
            n as int,
            file,
        ));
        at
    }
}

/// Every chapter of a book is listed with its title and its file, in reading order.
pub proof fn every_chapter_is_listed(spine: Seq<SpineView>, file: bool)
    ensures
        exists|at: Seq<int>| #[trigger]
            listed(
                at,
                chapter_lines(spine, spine.len()),
                chapters_told(spine, spine.len() as int, file),
            ),
{
    let at = lemma_chapters(spine, spine.len(), file);
    assert(listed(
        at,
        chapter_lines(spine, spine.len()),
        chapters_told(spine, spine.len() as int, file),
    ));
}

proof fn lemma_files(paths: Seq<Seq<char>>, k: int)
    requires
        0 <= k < paths.len(),
    ensures
        says(file_lines(paths), paths[k]),
    decreases paths.len(),
{
    let d = paths.drop_last();
    let row = "- file: "@ + paths.last() + "\n"@;
    assert(file_lines(paths) =~= file_lines(d) + row);
    if k < d.len() {
        lemma_files(d, k);
        assert(d[k] == paths[k]);
    } else {
        lemma_says("- file: "@, paths.last(), "\n"@);
    }
    lemma_says_add(file_lines(d), row, paths[k]);
}

/// What is said of a book: its title, id and authors, its series, language and tags
/// where it has any, and every file.
#[verifier::rlimit(30)]
pub proof fn a_book_is_described_in_full(id: Seq<char>, record: RecordView, k: int, t: int)
    ensures
        says(record_text(id, record), record.shown_title()),
        says(record_text(id, record), id),
        says(record_text(id, record), record.shown_authors()),
        record.series matches Some(s) ==> says(record_text(id, record), s),
        record.language matches Some(s) ==> says(record_text(id, record), s),
        0 <= k < record.paths.len() ==> says(record_text(id, record), record.paths[k]),
        0 <= t < record.tags.len() ==> says(record_text(id, record), record.tags[t]),
{
    let title = record.shown_title();
    let authors = record.shown_authors();
    let head = record_head(id, record);
    let series = labelled("- series: "@, record.series);
    let tags = labelled("- tags: "@, tag_list(record));
    let language = labelled("- language: "@, record.language);
    let files = file_lines(record.paths);
    let all = record_text(id, record);
    assert(all == head + series + tags + language + files);
    let a = "\n\n"@ + "- id: "@ + id + "\n"@ + "- author: "@ + authors + "\n"@;
    assert(head =~= "# "@ + title + a);
    lemma_says("# "@, title, a);
    let b = "\n"@ + "- author: "@ + authors + "\n"@;
    assert(head =~= ("# "@ + title + "\n\n"@ + "- id: "@) + id + b);
    lemma_says("# "@ + title + "\n\n"@ + "- id: "@, id, b);
    lemma_says(
        "# "@ + title + "\n\n"@ + "- id: "@ + id + "\n"@ + "- author: "@,
        authors,
        "\n"@,
    );
    lemma_in_five(head, series, tags, language, files, title);
    lemma_in_five(head, series, tags, language, files, id);
    lemma_in_five(head, series, tags, language, files, authors);
    if let Some(s) = record.series {
        lemma_says("- series: "@, s, "\n"@);
        lemma_in_five(head, series, tags, language, files, s);
    }
    if let Some(s) = record.language {
        lemma_says("- language: "@, s, "\n"@);
        lemma_in_five(head, series, tags, language, files, s);
    }
    if 0 <= k < record.paths.len() {
        lemma_files(record.paths, k);
        lemma_in_five(head, series, tags, language, files, record.paths[k]);
    }
    if 0 <= t < record.tags.len() {
        let list = crate::failure::joined(record.tags, ", "@);
        let at = crate::failure::joining_keeps_every_part(record.tags, ", "@);
        assert(occurs_at(list, record.tags[t], at[t]));
        assert(says(list, record.tags[t]));
        assert(tags =~= "- tags: "@ + (list + "\n"@));
        lemma_says_add(list, "\n"@, record.tags[t]);
        lemma_says_add("- tags: "@, list + "\n"@, record.tags[t]);
        lemma_in_five(head, series, tags, language, files, record.tags[t]);
    }
}

proof fn lemma_in_five(
    a: Seq<char>,
    b: Seq<char>,
    c: Seq<char>,
    d: Seq<char>,
    e: Seq<char>,
    part: Seq<char>,
)
    ensures
        says(a, part) || says(b, part) || says(c, part) || says(d, part) || says(e, part) ==> says(
            a + b + c + d + e,
            part,
        ),
{
    lemma_says_add(a, b, part);
    lemma_says_add(a + b, c, part);
    lemma_says_add(a + b + c, d, part);
    lemma_says_add(a + b + c + d, e, part);
}

// ---------------------------------------------------------------------------
// One chapter
// ---------------------------------------------------------------------------
proof fn lemma_exact(spine: Seq<SpineView>, wanted: Seq<char>, i: int)
    requires
        0 <= i <= spine.len(),
    ensures
        match spine_exact(spine, wanted, i) {
            Some(k) => i <= k < spine.len() && spine[k].href == wanted && forall|j: int|
                i <= j < k ==> (#[trigger] spine[j]).href != wanted,
            None => forall|j: int| i <= j < spine.len() ==> (#[trigger] spine[j]).href != wanted,
        },
    decreases spine.len() - i,
{
    if i < spine.len() {
        lemma_exact(spine, wanted, i + 1);
    }
}

proof fn lemma_by_name(spine: Seq<SpineView>, name: Option<Seq<char>>, i: int)
    requires
        0 <= i <= spine.len(),
    ensures
        match spine_by_name(spine, name, i) {
            Some(k) => i <= k < spine.len() && file_name_of(spine[k].href) == name && forall|
                j: int,
            |
                i <= j < k ==> file_name_of((#[trigger] spine[j]).href) != name,
            None => forall|j: int|
                i <= j < spine.len() ==> file_name_of((#[trigger] spine[j]).href) != name,
        },
    decreases spine.len() - i,
{
    if i < spine.len() {
        lemma_by_name(spine, name, i + 1);
    }
}

/// A chapter is found by its number in the reading order, by its path, or else by the
/// name of its file: the first that fits.
pub proof fn a_chapter_is_found_by_number_or_name(spine: Seq<SpineView>, wanted: Seq<char>)
    ensures
        number_value(trim(wanted)) matches Some(n) ==> (1 <= n <= spine.len() && n <= usize::MAX
            ==> chapter_asked(spine, wanted) == Ok::<int, Seq<Seq<char>>>(n - 1)) && (n > spine.len()
            && n <= usize::MAX ==> chapter_asked(spine, wanted) is Err),
        number_value(trim(wanted)) is None ==> (match chapter_asked(spine, wanted) {
            Ok(k) => 0 <= k < spine.len() && (spine[k].href == wanted && (forall|j: int|
                0 <= j < k ==> (#[trigger] spine[j]).href != wanted) || (forall|j: int|
                0 <= j < spine.len() ==> (#[trigger] spine[j]).href != wanted) && file_name_of(
                spine[k].href,
            ) == file_name_of(wanted) && (forall|j: int|
                0 <= j < k ==> file_name_of((#[trigger] spine[j]).href) != file_name_of(wanted))),
            Err(_) => forall|j: int|
                0 <= j < spine.len() ==> (#[trigger] spine[j]).href != wanted && file_name_of(
                    spine[j].href,
                ) != file_name_of(wanted),
        }),
{
    lemma_exact(spine, wanted, 0);
    lemma_by_name(spine, file_name_of(wanted), 0);
}

/// The text of a chapter is given under a line that says which it is: all of it, or
/// as much as an answer holds.
pub proof fn a_chapter_is_given_in_full(
    state: State,
    args: JsonView,
    file: Result<Seq<u8>, Seq<Seq<char>>>,
)
    requires
        chapter_text(state, args, file) is Ok,
    ensures
        ({
            let text = chapter_text(state, args, file)->Ok_0;
            let (id, record) = resolved(state, args)->Ok_0;
            let book = book_from(record, file)->Ok_0;
            let index = chapter_asked(book.spine, args.text_in("chapter"@)->0)->Ok_0;
            let chapter = chapter_at(book, index)->Ok_0;
            let title = entry_title(book.spine[index], index);
            let md = markdown(chapter, Some(record.shown_title()), Some(title));
            &&& resolved(state, args) is Ok
            &&& chapter_at(book, index) is Ok
            &&& md.len() <= MAX_CHAPTER_CHARS ==> says(text, md) && text.len() > md.len()
                && text.skip(text.len() - md.len()) == md
            &&& md.len() > MAX_CHAPTER_CHARS ==> says(text, md.take(MAX_CHAPTER_CHARS as int))
            &&& says(text, title)
            &&& says(text, chapter.href)
        }),
{
    let text = chapter_text(state, args, file)->Ok_0;
    let (id, record) = resolved(state, args)->Ok_0;
    let book = book_from(record, file)->Ok_0;
    let index = chapter_asked(book.spine, args.text_in("chapter"@)->0)->Ok_0;
    let chapter = chapter_at(book, index)->Ok_0;
    let title = entry_title(book.spine[index], index);
    let md = markdown(chapter, Some(record.shown_title()), Some(title));
    let lead = "chapter "@ + decimal((index + 1) as nat) + " of "@ + decimal(book.spine.len())
        + " · "@;
    let head = lead + title + " · "@ + chapter.href + "\n\n"@;
    let body = crate::mcp::reading::capped(md);
    assert(text == head + body);
    reveal_strlit("\n\n");
    if md.len() <= MAX_CHAPTER_CHARS {
        assert(text =~= head + md + Seq::<char>::empty());
        lemma_says(head, md, Seq::empty());
        assert(text.skip(text.len() - md.len()) =~= md);
    } else {
        let cut = md.take(MAX_CHAPTER_CHARS as int);
        assert(text =~= head + cut + "\n\n[truncated]\n"@);
        lemma_says(head, cut, "\n\n[truncated]\n"@);
    }
    let a = " · "@ + chapter.href + "\n\n"@ + body;
    assert(text =~= lead + title + a);
    lemma_says(lead, title, a);
    let b = "\n\n"@ + body;
    assert(text =~= (lead + title + " · "@) + chapter.href + b);
    lemma_says(lead + title + " · "@, chapter.href, b);
}

// ---------------------------------------------------------------------------
// Searching
// ---------------------------------------------------------------------------
/// The text around a match holds the match itself, on one line.
pub proof fn a_match_is_shown_in_its_context(text: Seq<char>, offset: int, length: int)
    requires
        0 <= offset,
        0 <= length,
        offset + length <= text.len(),
    ensures
        says(
            context(text, offset, length),
            on_one_line(text.subrange(offset, offset + length)),
        ),
        context(text, offset, length).len() <= length + BEFORE + AFTER + 2,
{
    let start = if offset - BEFORE < 0 {
        0
    } else {
        offset - BEFORE
    };
    let end = if offset + length + AFTER < text.len() {
        offset + length + AFTER
    } else {
        text.len() as int
    };
    let left = if start > 0 {
        seq!['…']
    } else {
        Seq::empty()
    };
    let right = if end < text.len() {
        seq!['…']
    } else {
        Seq::empty()
    };
    let a = on_one_line(left + text.subrange(start, offset));
    let m = on_one_line(text.subrange(offset, offset + length));
    let z = on_one_line(text.subrange(offset + length, end) + right);
    assert(context(text, offset, length) =~= a + m + z);
    lemma_says(a, m, z);
}

proof fn lemma_hits(
    chapter: crate::doc::ChapterView,
    title: Seq<char>,
    index: int,
    hits: Seq<Hit>,
    length: int,
    n: nat,
    k: int,
)
    requires
        0 <= k < n <= hits.len(),
        0 <= hits[k].0 < chapter.blocks.len(),
    ensures
        ({
            let t = hits_text(chapter, title, index, hits, length, n);
            &&& says(t, context(chapter.blocks[hits[k].0 as int].plain(), hits[k].1 as int, length))
            &&& says(t, chapter.href)
            &&& says(t, title)
        }),
    decreases n,
{
    let m = (n - 1) as nat;
    let front = hits_text(chapter, title, index, hits, length, m);
    let row = hit_text(chapter, title, index, hits[n - 1], length);
    let around = context(chapter.blocks[hits[k].0 as int].plain(), hits[k].1 as int, length);
    if k < m {
        lemma_hits(chapter, title, index, hits, length, m, k);
    } else {
        let lead = "- chapter "@ + decimal((index + 1) as nat) + " ("@;
        let a = ") · "@ + chapter.href + "\n  "@ + around + "\n"@;
        assert(row =~= lead + title + a);
        lemma_says(lead, title, a);
        let b = "\n  "@ + around + "\n"@;
        assert(row =~= (lead + title + ") · "@) + chapter.href + b);
        lemma_says(lead + title + ") · "@, chapter.href, b);
        lemma_says(lead + title + ") · "@ + chapter.href + "\n  "@, around, "\n"@);
    }
    lemma_says_add(front, row, around);
    lemma_says_add(front, row, chapter.href);
    lemma_says_add(front, row, title);
}

/// A search in a book shows every match, as long as the limit is not reached: with
/// the title and the file of its chapter and the text around it.
pub proof fn every_match_in_a_book_is_shown(
    book: BookView,
    query: Seq<char>,
    limit: int,
    n: nat,
    c: int,
    k: int,
)
    requires
        0 <= limit,
        0 <= c < n,
        hits_in_book(book, query, limit, n).1 < limit,
        chapter_at(book, c) is Ok,
        0 <= k < all_hits(chapter_at(book, c)->Ok_0.blocks, query).len(),
        ({
            let chapter = chapter_at(book, c)->Ok_0;
            0 <= all_hits(chapter.blocks, query)[k].0 < chapter.blocks.len()
        }),
    ensures
        ({
            let text = hits_in_book(book, query, limit, n).0;
            let chapter = chapter_at(book, c)->Ok_0;
            let hit = all_hits(chapter.blocks, query)[k];
            &&& says(
                text,
                context(chapter.blocks[hit.0 as int].plain(), hit.1 as int, query.len() as int),
            )
            &&& says(text, chapter.href)
            &&& says(text, entry_title(book.spine[c], c))
        }),
    decreases n,
{
    let m = (n - 1) as nat;
    let (front, found) = hits_in_book(book, query, limit, m);
    let chapter = chapter_at(book, c)->Ok_0;
    let hit = all_hits(chapter.blocks, query)[k];
    let title = entry_title(book.spine[c], c);
    let around = context(chapter.blocks[hit.0 as int].plain(), hit.1 as int, query.len() as int);
    crate::mcp::reading::a_book_search_stays_within_its_limit(book, query, limit, n);
    crate::mcp::reading::a_book_search_stays_within_its_limit(book, query, limit, m);
    if c < m {
        assert(found < limit);
        every_match_in_a_book_is_shown(book, query, limit, m, c, k);
        if let Ok(last) = chapter_at(book, n - 1) {
            let hits = all_hits(last.blocks, query);
            let count = if hits.len() < limit - found {
                hits.len() as int
            } else {
                limit - found
            };
            let row = hits_text(
                last,
                entry_title(book.spine[n - 1], n - 1),
                n - 1,
                hits,
                query.len() as int,
                count as nat,
            );
            lemma_says_add(front, row, around);
            lemma_says_add(front, row, chapter.href);
            lemma_says_add(front, row, title);
        }
    } else {
        let hits = all_hits(chapter.blocks, query);
        assert(hits.len() < limit - found);
        let row = hits_text(chapter, title, c, hits, query.len() as int, hits.len());
        lemma_hits(chapter, title, c, hits, query.len() as int, hits.len(), k);
        lemma_says_add(front, row, around);
        lemma_says_add(front, row, chapter.href);
        lemma_says_add(front, row, title);
    }
}

// ---------------------------------------------------------------------------
// Requests
// ---------------------------------------------------------------------------
/// The file that is read for a request is the first of the book that it names, and only
/// a tool that reads a book has one read.
pub proof fn the_file_read_is_the_book_asked_for(request: JsonView, params: JsonView, state: State)
    requires
        request.field("params"@) == Some(params),
    ensures
        match file_for(request, state) {
            Some(path) => params.text_in("name"@) matches Some(name) && (name == "get_book"@ || name
                == "read_chapter"@ || name == "search_book"@) && (resolved(
                state,
                arguments_of(params),
            ) matches Ok((id, record)) && record.paths.len() > 0 && record.paths[0] == path),
            None => (params.text_in("name"@) == Some("get_book"@) || params.text_in("name"@)
                == Some("read_chapter"@)) ==> (resolved(state, arguments_of(params)) matches Ok(
                (id, record),
            ) ==> record.paths.len() == 0),
        },
        params.field("arguments"@) matches Some(args) ==> arguments_of(params) == args,
{
}

/// A line that parses is taken as the request it is; any other is answered with what
/// is wrong with it.
pub proof fn every_line_is_taken_or_answered(parsed: Result<JsonView, Seq<char>>)
    ensures
        match parsed {
            Ok(request) => accepted(parsed) == ReceivedView::Request(request),
            Err(reason) => accepted(parsed) is Refused,
        },
{
}

} // verus!
