//! The tools a model can call.

use vstd::prelude::*;
use crate::annotation::{name_of, Annotation, AnnotationView};
use crate::doc::clipped;
use crate::epub::{book_opened, Book, BookView};
use crate::export::markdown::on_one_line;
use crate::failure::{join, joined, Failure};
use crate::identity::BookId;
use crate::journal::{BookRecord, Moment, RecordView, State};
use crate::library::{
    entries, entry_views, filter, filtered, lemma_rows_sorted, order_label, rows, rows_sorted, sort,
    Entry, EntryView, Order,
};
use crate::mcp::json::{Json, JsonView};
use crate::text::{
    blank, chars_of, contains_text, copy_text, decimal, decimal_of, has_text, is_blank_text,
    lower_text, occurs_at, push_chars, push_text, quote_text, quoted_text, same, stands_at,
    text_lowercase, text_of, text_opt, texts, trim, trimmed,
};

verus! {

// ----- dates -----
/// A moment as chrono writes it in a pattern. Moments outside the range of its
/// calendar have no text.
pub uninterp spec fn moment_text(seconds: i64, nanos: u32, pattern: Seq<char>) -> Option<Seq<char>>;

/// `chrono::DateTime::<Utc>::from_timestamp` and `format`. Claims that the text,
/// or its absence, depends on the moment and the pattern alone.
#[verifier::external_body]
fn format_moment(at: Moment, pattern: &str) -> (r: Option<String>)
    requires
        pattern@ == "%Y-%m-%d"@ || pattern@ == "%Y-%m-%d %H:%M UTC"@,
    ensures
        text_opt(r) == moment_text(at.seconds, at.nanos, pattern@),
{
    chrono::DateTime::from_timestamp(at.seconds, at.nanos).map(|t| t.format(pattern).to_string())
}

/// A moment in a pattern, or nothing where it has no text.
pub open spec fn written(at: Moment, pattern: Seq<char>) -> Seq<char> {
    match moment_text(at.seconds, at.nanos, pattern) {
        Some(t) => t,
        None => Seq::empty(),
    }
}

fn push_moment(out: &mut Vec<char>, at: Moment, pattern: &str)
    requires
        pattern@ == "%Y-%m-%d"@ || pattern@ == "%Y-%m-%d %H:%M UTC"@,
    ensures
        final(out)@ == old(out)@ + written(at, pattern@),
{
    match format_moment(at, pattern) {
        Some(t) => push_text(out, &t),
        None => {
            assert(out@ =~= old(out)@ + Seq::<char>::empty());
        },
    }
}

pub(crate) fn push_number(out: &mut Vec<char>, n: usize)
    ensures
        final(out)@ == old(out)@ + decimal(n as nat),
{
    let digits = decimal_of(n as u64);
    push_chars(out, &digits);
}

/// How many rows were asked for.
pub open spec fn limit_of(args: JsonView, usual: int, most: int) -> int {
    match args.natural_in("limit"@) {
        Some(n) => if n > most {
            most
        } else {
            n
        },
        None => usual,
    }
}

pub(crate) fn read_limit(args: &Json, usual: usize, most: usize) -> (r: usize)
    requires
        usual <= most <= 1000,
    ensures
        r == limit_of(args.view(), usual as int, most as int),
{
    match args.natural_in("limit") {
        Some(n) => if n > most as u64 {
            most
        } else {
            n as usize
        },
        None => usual,
    }
}

// ----- which book -----
/// The books whose title holds a text, in the order they are filed in.
pub open spec fn titled_like(books: Seq<(String, BookRecord)>, needle: Seq<char>) -> Seq<
    (Seq<char>, RecordView),
>
    decreases books.len(),
{
    if books.len() == 0 {
        Seq::empty()
    } else {
        let front = titled_like(books.drop_last(), needle);
        let record = books.last().1@;
        if contains_text(text_lowercase(record.shown_title()), needle) {
            front.push((books.last().0@, record))
        } else {
            front
        }
    }
}

/// How a book is named where several match.
pub open spec fn candidate(book: (Seq<char>, RecordView)) -> Seq<char> {
    book.1.shown_title() + " ("@ + book.0 + ")"@
}

/// The names of the first `n` books.
pub open spec fn candidates(books: Seq<(Seq<char>, RecordView)>, n: nat) -> Seq<Seq<char>> {
    Seq::new(n, |i: int| candidate(books[i]))
}

/// The book that is asked for: by id, or by a title that holds the text. A title
/// that several books have is refused rather than guessed.
pub open spec fn resolved(state: State, args: JsonView) -> Result<
    (Seq<char>, RecordView),
    Seq<Seq<char>>,
> {
    match args.text_in("book"@) {
        None => Err(seq!["no book given"@]),
        Some(wanted) => if blank(wanted) {
            Err(seq!["no book given"@])
        } else if occurs_at(wanted, "sha256:"@, 0) {
            if state@.books.contains_key(wanted) {
                Ok((wanted, state@.books[wanted]))
            } else {
                Err(seq!["no book with id "@ + wanted])
            }
        } else {
            let found = titled_like(state.books.entries@, text_lowercase(trim(wanted)));
            if found.len() == 0 {
                Err(seq!["no book matching "@ + quoted_text(wanted)])
            } else if found.len() == 1 {
                Ok(found[0])
            } else {
                let shown = if found.len() < 10 {
                    found.len()
                } else {
                    10
                };
                Err(
                    seq![
                        decimal(found.len()) + " books match "@ + quoted_text(wanted)
                            + "; name one by id:\n"@ + joined(candidates(found, shown), "\n"@),
                    ],
                )
            }
        },
    }
}

/// A book with its id.
#[derive(Debug)]
pub struct Found {
    pub id: BookId,
    pub record: BookRecord,
}

impl Found {
    pub open spec fn pair(&self) -> (Seq<char>, RecordView) {
        (self.id@, self.record@)
    }
}

pub open spec fn found_pairs(s: Seq<Found>) -> Seq<(Seq<char>, RecordView)> {
    s.map_values(|f: Found| f.pair())
}

fn find_titled(books: &Vec<(String, BookRecord)>, needle: &str) -> (r: Vec<Found>)
    ensures
        found_pairs(r@) == titled_like(books@, needle@),
        r@.len() == found_pairs(r@).len(),
{
    let mut out: Vec<Found> = Vec::new();
    let mut i: usize = 0;
    assert(books@.take(0) =~= Seq::<(String, BookRecord)>::empty());
    assert(found_pairs(out@) =~= Seq::<(Seq<char>, RecordView)>::empty());
    while i < books.len()
        invariant
            i <= books@.len(),
            found_pairs(out@) == titled_like(books@.take(i as int), needle@),
        decreases books@.len() - i,
    {
        assert(books@.take(i + 1).drop_last() =~= books@.take(i as int));
        let title = books[i].1.display_title();
        let lower = lower_text(&title);
        let lower = chars_of(&lower);
        if has_text(&lower, needle) {
            let ghost before = out@;
            let f = Found {
                id: BookId::from_text(books[i].0.clone()),
                record: books[i].1.clone(),
            };
            out.push(f);
            assert(found_pairs(out@) =~= found_pairs(before).push(f.pair()));
        }
        i += 1;
    }
    assert(books@.take(books@.len() as int) =~= books@);
    out
}

fn name_candidates(found: &Vec<Found>, n: usize) -> (r: Vec<String>)
    requires
        n <= found@.len(),
    ensures
        texts(r@) == candidates(found_pairs(found@), n as nat),
{
    let mut out: Vec<String> = Vec::new();
    let mut i: usize = 0;
    while i < n
        invariant
            i <= n <= found@.len(),
            out@.len() == i,
            forall|k: int|
                0 <= k < i ==> (#[trigger] out@[k])@ == candidate(found_pairs(found@)[k]),
        decreases n - i,
    {
        assert(found_pairs(found@)[i as int] == found@[i as int].pair());
        let title = found[i].record.display_title();
        let mut text = chars_of(&title);
        push_text(&mut text, " (");
        push_text(&mut text, found[i].id.as_str());
        push_text(&mut text, ")");
        out.push(text_of(&text));
        i += 1;
    }
    assert(texts(out@) =~= candidates(found_pairs(found@), n as nat));
    out
}

pub(crate) fn fail(message: String) -> (r: Failure)
    ensures
        r@ == seq![message@],
{
    Failure::new(message)
}

pub(crate) fn joined_text(a: &str, b: &str) -> (r: String)
    ensures
        r@ == a@ + b@,
{
    let mut out = chars_of(a);
    push_text(&mut out, b);
    text_of(&out)
}

/// Finds a book by id or by a title that contains the given text.
///
/// A model will more often have a title than a hash, so both work. An ambiguous
/// title is refused rather than guessed, with the candidates named.
pub fn resolve_book(state: &State, args: &Json) -> (r: Result<Found, Failure>)
    requires
        state.wf(),
    ensures
        match resolved(*state, args.view()) {
            Ok(pair) => r matches Ok(f) && f.pair() == pair,
            Err(report) => r matches Err(e) && e@ == report,
        },
{
    let wanted = match args.text_in("book") {
        Some(w) => w,
        None => {
            return Err(fail(copy_text("no book given")));
        },
    };
    if is_blank_text(wanted) {
        return Err(fail(copy_text("no book given")));
    }
    let whole = chars_of(wanted);
    let prefix = chars_of("sha256:");
    if stands_at(&whole, &prefix, 0) {
        let id = BookId::from_text(copy_text(wanted));
        return match state.book(&id) {
            Some(record) => {
                let record = record.clone();
                Ok(Found { id, record })
            },
            None => Err(fail(joined_text("no book with id ", wanted))),
        };
    }
    let needle = trimmed(&whole);
    let needle = text_of(&needle);
    let needle = lower_text(&needle);
    let mut found = find_titled(&state.books.entries, &needle);
    let total = found.len();
    if total == 0 {
        let quoted = quote_text(wanted);
        return Err(fail(joined_text("no book matching ", &quoted)));
    }
    if total == 1 {
        assert(found_pairs(found@)[0] == found@[0].pair());
        let only = found.remove(0);
        return Ok(only);
    }
    let shown: usize = if total < 10 {
        total
    } else {
        10
    };
    let names = name_candidates(&found, shown);
    let list = join(&names, "\n");
    let quoted = quote_text(wanted);
    let mut text: Vec<char> = decimal_of(total as u64);
    push_text(&mut text, " books match ");
    push_text(&mut text, &quoted);
    push_text(&mut text, "; name one by id:\n");
    push_text(&mut text, &list);
    Err(fail(text_of(&text)))
}

/// A book opened from the bytes of its file, which may not have been readable.
pub open spec fn book_from(record: RecordView, file: Result<Seq<u8>, Seq<Seq<char>>>) -> Result<
    BookView,
    Seq<Seq<char>>,
> {
    if record.paths.len() == 0 {
        Err(seq!["no file recorded for "@ + record.shown_title()])
    } else {
        let path = record.paths[0];
        match file {
            Err(report) => Err(seq!["cannot read "@ + path] + report),
            Ok(bytes) => match book_opened(bytes, path) {
                Err(report) => Err(seq!["cannot read "@ + path] + report),
                Ok(book) => Ok(book),
            },
        }
    }
}

pub open spec fn file_view(file: Result<Vec<u8>, Failure>) -> Result<Seq<u8>, Seq<Seq<char>>> {
    match file {
        Ok(bytes) => Ok(bytes@),
        Err(e) => Err(e@),
    }
}

pub(crate) fn open_book(record: &BookRecord, file: Result<Vec<u8>, Failure>) -> (r: Result<Book, Failure>)
    ensures
        match book_from(record@, file_view(file)) {
            Ok(b) => r matches Ok(book) && book@ == b,
            Err(report) => r matches Err(e) && e@ == report,
        },
{
    let path = match record.path() {
        Some(p) => p,
        None => {
            let title = record.display_title();
            return Err(fail(joined_text("no file recorded for ", &title)));
        },
    };
    let opened = match file {
        Ok(bytes) => Book::open(bytes, path),
        Err(e) => Err(e),
    };
    match opened {
        Ok(book) => Ok(book),
        Err(e) => {
            let ghost report = e@;
            let e = e.context(joined_text("cannot read ", path));
            assert(e@ =~= seq!["cannot read "@ + path@] + report);
            Err(e)
        },
    }
}

// ----- list_books -----
pub open spec fn order_from(args: JsonView) -> Order {
    match args.text_in("order"@) {
        Some(s) => if s == "author"@ {
            Order::Author
        } else if s == "series"@ {
            Order::Series
        } else if s == "recent"@ {
            Order::Recent
        } else {
            Order::Title
        },
        None => Order::Title,
    }
}

fn read_order(args: &Json) -> (r: Order)
    ensures
        r == order_from(args.view()),
{
    match args.text_in("order") {
        Some(s) => if same(s, "author") {
            Order::Author
        } else if same(s, "series") {
            Order::Series
        } else if same(s, "recent") {
            Order::Recent
        } else {
            Order::Title
        },
        None => Order::Title,
    }
}

/// What a row says of the authors.
pub open spec fn authors_part(e: EntryView) -> Seq<char> {
    if e.record.authors.len() > 0 {
        " — "@ + e.record.shown_authors()
    } else {
        Seq::empty()
    }
}

/// What a row says of the series.
pub open spec fn series_part(e: EntryView) -> Seq<char> {
    match e.record.series {
        Some(series) => match e.record.series_index {
            Some(at) => " ["@ + series + " "@ + at.label + "]"@,
            None => " ["@ + series + "]"@,
        },
        None => Seq::empty(),
    }
}

/// What a row says of the last reading.
pub open spec fn read_part(e: EntryView) -> Seq<char> {
    match e.last_read {
        Some(at) => " · read "@ + written(at, "%Y-%m-%d"@),
        None => Seq::empty(),
    }
}

/// One row of the list of books.
pub open spec fn book_row(e: EntryView) -> Seq<char> {
    "- "@ + e.record.shown_title() + authors_part(e) + series_part(e) + read_part(e) + "\n  id: "@
        + e.id + "\n"@
}

/// The first `n` rows.
pub open spec fn book_rows(rows: Seq<EntryView>, n: nat) -> Seq<char>
    decreases n,
{
    if n == 0 {
        Seq::empty()
    } else {
        book_rows(rows, (n - 1) as nat) + book_row(rows[n - 1])
    }
}

pub open spec fn books_text(all: Seq<EntryView>, args: JsonView) -> Seq<char> {
    let limit = limit_of(args, 50, 500);
    let order = order_from(args);
    let needle = match args.text_in("filter"@) {
        Some(s) => s,
        None => ""@,
    };
    let sorted = rows_sorted(all, order);
    let shown = filtered(sorted, needle);
    let count = if shown.len() < limit {
        shown.len() as int
    } else {
        limit
    };
    let head = decimal(count as nat) + " of "@ + decimal(sorted.len()) + " books, ordered by "@
        + order_label(order) + "\n\n"@;
    let body = head + book_rows(shown, count as nat);
    if shown.len() > limit {
        body + "\n("@ + decimal((shown.len() - limit) as nat) + " more not shown)\n"@
    } else {
        body
    }
}

fn push_authors(out: &mut Vec<char>, e: &Entry)
    ensures
        final(out)@ == old(out)@ + authors_part(e@),
{
    let ghost before = out@;
    if e.record.authors.len() > 0 {
        push_text(out, " — ");
        let authors = e.record.display_authors();
        push_text(out, &authors);
    }
    assert(out@ =~= before + authors_part(e@));
}

fn push_series(out: &mut Vec<char>, e: &Entry)
    ensures
        final(out)@ == old(out)@ + series_part(e@),
{
    let ghost before = out@;
    if let Some(series) = &e.record.series {
        push_text(out, " [");
        push_text(out, series);
        if let Some(at) = &e.record.series_index {
            push_text(out, " ");
            push_text(out, &at.label);
        }
        push_text(out, "]");
    }
    assert(out@ =~= before + series_part(e@));
}

fn push_read(out: &mut Vec<char>, e: &Entry)
    ensures
        final(out)@ == old(out)@ + read_part(e@),
{
    let ghost before = out@;
    if let Some(at) = e.last_read {
        push_text(out, " · read ");
        push_moment(out, at, "%Y-%m-%d");
    }
    assert(out@ =~= before + read_part(e@));
}

fn push_book_row(out: &mut Vec<char>, e: &Entry)
    ensures
        final(out)@ == old(out)@ + book_row(e@),
{
    let ghost before = out@;
    push_text(out, "- ");
    let title = e.record.display_title();
    push_text(out, &title);
    push_authors(out, e);
    push_series(out, e);
    push_read(out, e);
    push_text(out, "\n  id: ");
    push_text(out, e.id.as_str());
    push_text(out, "\n");
    assert(out@ =~= before + book_row(e@));
}

pub fn list_books(state: &State, args: &Json) -> (r: String)
    requires
        state.wf(),
    ensures
        r@ == books_text(rows(*state), args.view()),
{
    let needle = match args.text_in("filter") {
        Some(s) => copy_text(s),
        None => copy_text(""),
    };
    let limit = read_limit(args, 50, 500);
    let order = read_order(args);
    let mut all = entries(state);
    let ghost unsorted = all@;
    sort(&mut all, order);
    proof {
        lemma_rows_sorted(unsorted, order);
    }
    let shown = filter(&all, &needle);
    let total = shown.len();
    assert(entry_views(shown@).len() == total);
    assert(entry_views(all@).len() == all@.len());
    let count = if total < limit {
        total
    } else {
        limit
    };
    let mut out: Vec<char> = Vec::new();
    push_number(&mut out, count);
    assert(out@ =~= decimal(count as nat));
    push_text(&mut out, " of ");
    push_number(&mut out, all.len());
    push_text(&mut out, " books, ordered by ");
    push_text(&mut out, order.label());
    push_text(&mut out, "\n\n");
    let ghost head = out@;
    let ghost views = entry_views(shown@);
    let mut i: usize = 0;
    assert(out@ =~= head + book_rows(views, 0));
    while i < count
        invariant
            i <= count <= shown@.len(),
            views == entry_views(shown@),
            out@ == head + book_rows(views, i as nat),
        decreases count - i,
    {
        push_book_row(&mut out, &shown[i]);
        i += 1;
        assert(views[i - 1] == shown@[i - 1]@);
        assert(out@ =~= head + book_rows(views, i as nat));
    }
    if total > limit {
        push_text(&mut out, "\n(");
        push_number(&mut out, total - limit);
        push_text(&mut out, " more not shown)\n");
    }
    text_of(&out)
}

// ----- annotations -----
/// The annotations of a book that are asked for.
pub open spec fn wanted_marks(marks: Seq<AnnotationView>, notes_only: bool) -> Seq<AnnotationView>
    decreases marks.len(),
{
    if marks.len() == 0 {
        marks
    } else {
        let front = wanted_marks(marks.drop_last(), notes_only);
        if !notes_only || marks.last().noted() {
            front.push(marks.last())
        } else {
            front
        }
    }
}

pub open spec fn mark_text(a: AnnotationView) -> Seq<char> {
    let head = "- "@ + name_of(a.color) + " · "@ + a.href + "\n"@ + "  > "@ + on_one_line(a.quote)
        + "\n"@;
    match a.note {
        Some(note) => head + "  note: "@ + on_one_line(note) + "\n"@,
        None => head,
    }
}

pub open spec fn marks_text(marks: Seq<AnnotationView>) -> Seq<char>
    decreases marks.len(),
{
    if marks.len() == 0 {
        Seq::empty()
    } else {
        marks_text(marks.drop_last()) + mark_text(marks.last())
    }
}

/// What is said of one book. A book without such annotations is passed over.
pub open spec fn book_marks(record: RecordView, marks: Seq<AnnotationView>) -> Seq<char> {
    if marks.len() == 0 {
        Seq::empty()
    } else {
        "\n## "@ + record.shown_title() + " — "@ + record.shown_authors() + "\n\n"@ + marks_text(
            marks,
        )
    }
}

/// The annotations of some books, and how many there are.
pub open spec fn all_marks(
    state: State,
    books: Seq<(Seq<char>, RecordView)>,
    notes_only: bool,
) -> (Seq<char>, int)
    decreases books.len(),
{
    if books.len() == 0 {
        (Seq::empty(), 0)
    } else {
        let (text, total) = all_marks(state, books.drop_last(), notes_only);
        let marks = wanted_marks(state.marks_listed(books.last().0), notes_only);
        (text + book_marks(books.last().1, marks), clipped(total + marks.len()))
    }
}

/// All books, in the order they are filed in.
pub open spec fn every_book(state: State) -> Seq<(Seq<char>, RecordView)> {
    state.books.entries@.map_values(|e: (String, BookRecord)| (e.0@, e.1@))
}

/// One book, or the whole library.
pub open spec fn asked_books(state: State, args: JsonView) -> Result<
    Seq<(Seq<char>, RecordView)>,
    Seq<Seq<char>>,
> {
    if args.text_in("book"@) is Some {
        match resolved(state, args) {
            Ok(pair) => Ok(seq![pair]),
            Err(report) => Err(report),
        }
    } else {
        Ok(every_book(state))
    }
}

pub open spec fn annotations_text(state: State, args: JsonView) -> Result<
    Seq<char>,
    Seq<Seq<char>>,
> {
    let notes_only = args.bool_in("with_notes_only"@) == Some(true);
    match asked_books(state, args) {
        Err(report) => Err(report),
        Ok(books) => {
            let (text, total) = all_marks(state, books, notes_only);
            if total == 0 {
                Ok("no annotations"@)
            } else {
                Ok(decimal(total as nat) + " annotations\n"@ + text)
            }
        },
    }
}

fn push_on_one_line(out: &mut Vec<char>, s: &str)
    ensures
        final(out)@ == old(out)@ + on_one_line(s@),
{
    let ghost before = out@;
    assert(out@ =~= before + on_one_line(s@.take(0)));
    for c in it: s.chars()
        invariant
            it.seq() == s@,
            out@ == before + on_one_line(s@.take(it.index() as int)),
    {
        let ghost k = it.index() as int;
        out.push(
            if c == '\n' {
                ' '
            } else {
                c
            },
        );
        assert(out@ =~= before + on_one_line(s@.take(k + 1)));
    }
    assert(s@.take(s@.len() as int) =~= s@);
}

fn push_mark(out: &mut Vec<char>, a: &Annotation)
    ensures
        final(out)@ == old(out)@ + mark_text(a@),
{
    let ghost before = out@;
    push_text(out, "- ");
    push_text(out, a.color.label());
    push_text(out, " · ");
    push_text(out, &a.href);
    push_text(out, "\n");
    push_text(out, "  > ");
    push_on_one_line(out, &a.quote);
    push_text(out, "\n");
    if let Some(note) = &a.note {
        push_text(out, "  note: ");
        push_on_one_line(out, note);
        push_text(out, "\n");
    }
    assert(out@ =~= before + mark_text(a@));
}

fn keep_marks(all: Vec<Annotation>, notes_only: bool) -> (r: Vec<Annotation>)
    ensures
        r@.map_values(|a: Annotation| a@) == wanted_marks(
            all@.map_values(|a: Annotation| a@),
            notes_only,
        ),
{
    let ghost views = all@.map_values(|a: Annotation| a@);
    let mut out: Vec<Annotation> = Vec::new();
    assert(views.take(0) =~= Seq::<AnnotationView>::empty());
    assert(out@.map_values(|a: Annotation| a@) =~= Seq::<AnnotationView>::empty());
    for a in it: all
        invariant
            it.seq() == all@,
            views == all@.map_values(|a: Annotation| a@),
            out@.map_values(|a: Annotation| a@) == wanted_marks(
                views.take(it.index() as int),
                notes_only,
            ),
    {
        let ghost k = it.index() as int;
        assert(views.take(k + 1).drop_last() =~= views.take(k));
        assert(views.take(k + 1).last() == a@);
        if !notes_only || a.has_note() {
            let ghost before = out@.map_values(|a: Annotation| a@);
            out.push(a);
            assert(out@.map_values(|a: Annotation| a@) =~= before.push(a@));
        }
    }
    assert(views.take(views.len() as int) =~= views);
    out
}

fn push_book_marks(out: &mut Vec<char>, record: &BookRecord, marks: &Vec<Annotation>)
    ensures
        final(out)@ == old(out)@ + book_marks(record@, marks@.map_values(|a: Annotation| a@)),
{
    let ghost before = out@;
    let ghost views = marks@.map_values(|a: Annotation| a@);
    if marks.len() == 0 {
        assert(out@ =~= before + book_marks(record@, views));
        return;
    }
    push_text(out, "\n## ");
    let title = record.display_title();
    push_text(out, &title);
    push_text(out, " — ");
    let authors = record.display_authors();
    push_text(out, &authors);
    push_text(out, "\n\n");
    let ghost start = out@;
    let mut i: usize = 0;
    assert(views.take(0) =~= Seq::<AnnotationView>::empty());
    assert(out@ =~= start + marks_text(views.take(0)));
    while i < marks.len()
        invariant
            i <= marks@.len(),
            views == marks@.map_values(|a: Annotation| a@),
            out@ == start + marks_text(views.take(i as int)),
        decreases marks@.len() - i,
    {
        push_mark(out, &marks[i]);
        assert(views.take(i + 1).drop_last() =~= views.take(i as int));
        assert(views.take(i + 1).last() == marks@[i as int]@);
        i += 1;
        assert(out@ =~= start + marks_text(views.take(i as int)));
    }
    assert(views.take(views.len() as int) =~= views);
    assert(out@ =~= before + book_marks(record@, views));
}

fn find_asked(state: &State, args: &Json) -> (r: Result<Vec<Found>, Failure>)
    requires
        state.wf(),
    ensures
        match asked_books(*state, args.view()) {
            Ok(books) => r matches Ok(f) && found_pairs(f@) == books,
            Err(report) => r matches Err(e) && e@ == report,
        },
{
    let mut out: Vec<Found> = Vec::new();
    if args.text_in("book").is_some() {
        return match resolve_book(state, args) {
            Ok(found) => {
                out.push(found);
                assert(found_pairs(out@) =~= seq![found.pair()]);
                Ok(out)
            },
            Err(e) => Err(e),
        };
    }
    let books = &state.books.entries;
    let mut i: usize = 0;
    while i < books.len()
        invariant
            i <= books@.len(),
            books@ == state.books.entries@,
            out@.len() == i,
            forall|k: int|
                0 <= k < i ==> (#[trigger] out@[k]).pair() == (books@[k].0@, books@[k].1@),
        decreases books@.len() - i,
    {
        out.push(
            Found { id: BookId::from_text(books[i].0.clone()), record: books[i].1.clone() },
        );
        i += 1;
    }
    assert(found_pairs(out@) =~= every_book(*state));
    Ok(out)
}

/// Highlights and comments of one book, or of the whole library.
pub fn annotations(state: &State, args: &Json) -> (r: Result<String, Failure>)
    requires
        state.wf(),
    ensures
        match annotations_text(*state, args.view()) {
            Ok(t) => r matches Ok(s) && s@ == t,
            Err(report) => r matches Err(e) && e@ == report,
        },
{
    let notes_only = match args.bool_in("with_notes_only") {
        Some(b) => b,
        None => false,
    };
    let books = match find_asked(state, args) {
        Ok(b) => b,
        Err(e) => {
            return Err(e);
        },
    };
    let ghost pairs = found_pairs(books@);
    let mut out: Vec<char> = Vec::new();
    let mut total: usize = 0;
    let mut i: usize = 0;
    assert(pairs.take(0) =~= Seq::<(Seq<char>, RecordView)>::empty());
    assert(out@ =~= Seq::<char>::empty());
    while i < books.len()
        invariant
            i <= books@.len(),
            state.wf(),
            pairs == found_pairs(books@),
            (out@, total as int) == all_marks(*state, pairs.take(i as int), notes_only),
        decreases books@.len() - i,
    {
        let ghost before = out@;
        let all = state.annotations(&books[i].id);
        let marks = keep_marks(all, notes_only);
        push_book_marks(&mut out, &books[i].record, &marks);
        let count = marks.len();
        total = match total.checked_add(count) {
            Some(n) => n,
            None => usize::MAX,
        };
        proof {
            let seen = pairs.take(i + 1);
            assert(seen.drop_last() =~= pairs.take(i as int));
            assert(seen.last() == books@[i as int].pair());
            let kept = wanted_marks(state.marks_listed(seen.last().0), notes_only);
            assert(marks@.map_values(|a: Annotation| a@) == kept);
            assert(kept.len() == count);
        }
        i += 1;
    }
    assert(pairs.take(pairs.len() as int) =~= pairs);
    if total == 0 {
        return Ok(copy_text("no annotations"));
    }
    let mut text: Vec<char> = decimal_of(total as u64);
    push_text(&mut text, " annotations\n");
    push_chars(&mut text, &out);
    Ok(text_of(&text))
}

// ----- reading positions -----
/// The rows of books that were read.
pub open spec fn rows_read(rows: Seq<EntryView>) -> Seq<EntryView>
    decreases rows.len(),
{
    if rows.len() == 0 {
        rows
    } else {
        let front = rows_read(rows.drop_last());
        if rows.last().last_read is Some {
            front.push(rows.last())
        } else {
            front
        }
    }
}

/// Where reading left off in one book.
pub open spec fn position_row(state: State, e: EntryView) -> Seq<char> {
    let head = "- "@ + e.record.shown_title() + " — "@ + e.record.shown_authors()
        + "\n  last read: "@ + (match e.last_read {
        Some(at) => written(at, "%Y-%m-%d %H:%M UTC"@),
        None => Seq::empty(),
    }) + "\n"@;
    if state@.positions.contains_key(e.id) {
        let at = state@.positions[e.id].locator;
        head + "  at: "@ + at.href + " block "@ + decimal(at.block as nat) + "\n  id: "@ + e.id
            + "\n"@
    } else {
        head
    }
}

pub open spec fn position_rows(state: State, rows: Seq<EntryView>, n: nat) -> Seq<char>
    decreases n,
{
    if n == 0 {
        Seq::empty()
    } else {
        position_rows(state, rows, (n - 1) as nat) + position_row(state, rows[n - 1])
    }
}

pub open spec fn positions_text(state: State, args: JsonView) -> Seq<char> {
    let limit = limit_of(args, 20, 200);
    let read = rows_sorted(rows_read(rows(state)), Order::Recent);
    if read.len() == 0 {
        "nothing read yet"@
    } else {
        let count = if read.len() < limit {
            read.len() as int
        } else {
            limit
        };
        decimal(read.len()) + " books with a reading position\n\n"@ + position_rows(
            state,
            read,
            count as nat,
        )
    }
}

pub(crate) fn keep_read(all: Vec<Entry>) -> (r: Vec<Entry>)
    ensures
        entry_views(r@) == rows_read(entry_views(all@)),
{
    let ghost views = entry_views(all@);
    let mut out: Vec<Entry> = Vec::new();
    assert(views.take(0) =~= Seq::<EntryView>::empty());
    assert(entry_views(out@) =~= Seq::<EntryView>::empty());
    for e in it: all
        invariant
            it.seq() == all@,
            views == entry_views(all@),
            entry_views(out@) == rows_read(views.take(it.index() as int)),
    {
        let ghost k = it.index() as int;
        assert(views.take(k + 1).drop_last() =~= views.take(k));
        assert(views.take(k + 1).last() == e@);
        if e.last_read.is_some() {
            let ghost before = entry_views(out@);
            out.push(e);
            assert(entry_views(out@) =~= before.push(e@));
        }
    }
    assert(views.take(views.len() as int) =~= views);
    out
}

fn push_position(out: &mut Vec<char>, state: &State, e: &Entry)
    requires
        state.wf(),
    ensures
        final(out)@ == old(out)@ + position_row(*state, e@),
{
    let ghost before = out@;
    push_text(out, "- ");
    let title = e.record.display_title();
    push_text(out, &title);
    push_text(out, " — ");
    let authors = e.record.display_authors();
    push_text(out, &authors);
    push_text(out, "\n  last read: ");
    let ghost at_read = out@;
    if let Some(at) = e.last_read {
        push_moment(out, at, "%Y-%m-%d %H:%M UTC");
    }
    assert(out@ =~= at_read + (match e@.last_read {
        Some(at) => written(at, "%Y-%m-%d %H:%M UTC"@),
        None => Seq::empty(),
    }));
    push_text(out, "\n");
    if let Some(at) = state.position(&e.id) {
        push_text(out, "  at: ");
        push_text(out, &at.href);
        push_text(out, " block ");
        push_number(out, at.block);
        push_text(out, "\n  id: ");
        push_text(out, e.id.as_str());
        push_text(out, "\n");
    }
    assert(out@ =~= before + position_row(*state, e@));
}

/// Where reading left off, most recent first.
pub fn reading_positions(state: &State, args: &Json) -> (r: String)
    requires
        state.wf(),
    ensures
        r@ == positions_text(*state, args.view()),
{
    let limit = read_limit(args, 20, 200);
    let all = entries(state);
    let mut read = keep_read(all);
    let ghost unsorted = read@;
    sort(&mut read, Order::Recent);
    proof {
        lemma_rows_sorted(unsorted, Order::Recent);
    }
    let ghost views = entry_views(read@);
    let total = read.len();
    assert(views.len() == total);
    if total == 0 {
        return copy_text("nothing read yet");
    }
    let count = if total < limit {
        total
    } else {
        limit
    };
    let mut out: Vec<char> = decimal_of(total as u64);
    push_text(&mut out, " books with a reading position\n\n");
    let ghost head = out@;
    let mut i: usize = 0;
    assert(out@ =~= head + position_rows(*state, views, 0));
    while i < count
        invariant
            i <= count <= read@.len(),
            state.wf(),
            views == entry_views(read@),
            out@ == head + position_rows(*state, views, i as nat),
        decreases count - i,
    {
        push_position(&mut out, state, &read[i]);
        i += 1;
        assert(views[i - 1] == read@[i - 1]@);
        assert(out@ =~= head + position_rows(*state, views, i as nat));
    }
    text_of(&out)
}

} // verus!
