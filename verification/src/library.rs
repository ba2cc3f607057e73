//! The library: every book, with its metadata.
//!
//! This is a read model, folded out of the journal on startup. It is not stored:
//! the journal is the truth, and a few thousand events fold in milliseconds. A
//! database would add a schema and migrations for no gain at this size; it can
//! come when a full-text index over every book calls for one.
//!
//! A book is identified by the hash of its contents, never by its path, so
//! moving or renaming a file keeps its metadata, reading position and
//! annotations. See `identity`.

pub mod laws;

use vstd::prelude::*;
use crate::epub::{book_opened, Book, MetadataView};
use crate::failure::{join, joined};
use crate::identity::{id_of_digest, sha256_of, BookId};
use crate::journal::{
    has_path, knows_path, precedes, BookRecord, Moment, Patch, PatchView, Payload, PayloadView,
    RecordView, State, StateView,
};
use crate::paths::{extension, extension_of};
use crate::sort::{in_order, ranks, sorted_by, stable_sort};
use crate::text::{
    alphanumeric, ascii_lowered, blank, chars_are, chars_before, chars_of, contains_text,
    is_blank_text, lemma_text_order, lower_ascii_all, lower_text, occurs_at, stands_at, sub_chars,
    text_less, text_lowercase, text_of, texts, trim, trimmed,
};

verus! {

/// One row of the library.
#[derive(Debug)]
pub struct Entry {
    pub id: BookId,
    pub record: BookRecord,
    /// Share of the book read, when a position is known.
    pub progress: Option<u16>,
    /// When the book was last read, from the journal's own timestamps.
    pub last_read: Option<Moment>,
}

#[verifier::ext_equal]
pub struct EntryView {
    pub id: Seq<char>,
    pub record: RecordView,
    pub progress: Option<u16>,
    pub last_read: Option<Moment>,
}

impl View for Entry {
    type V = EntryView;

    open spec fn view(&self) -> EntryView {
        EntryView {
            id: self.id@,
            record: self.record@,
            progress: self.progress,
            last_read: self.last_read,
        }
    }
}

pub open spec fn entry_views(s: Seq<Entry>) -> Seq<EntryView> {
    s.map_values(|e: Entry| e@)
}

impl Clone for Entry {
    fn clone(&self) -> (r: Self)
        ensures
            r@ == self@,
    {
        Entry {
            id: self.id.clone(),
            record: self.record.clone(),
            progress: self.progress,
            last_read: self.last_read,
        }
    }
}

/// Copies a list of entries.
pub fn copy_entries(v: &Vec<Entry>) -> (r: Vec<Entry>)
    ensures
        entry_views(r@) == entry_views(v@),
{
    let mut out: Vec<Entry> = Vec::new();
    let mut i: usize = 0;
    while i < v.len()
        invariant
            i <= v@.len(),
            out@.len() == i,
            forall|k: int| 0 <= k < i ==> (#[trigger] out@[k])@ == v@[k]@,
        decreases v@.len() - i,
    {
        out.push(v[i].clone());
        i += 1;
    }
    assert(entry_views(out@) =~= entry_views(v@));
    out
}

/// How the list is ordered.
#[derive(Debug, Clone, Copy, PartialEq, Eq, Structural)]
pub enum Order {
    Title,
    Author,
    /// Series first, then position within it; books without a series last.
    Series,
    /// Most recently read first.
    Recent,
}

pub open spec fn order_label(order: Order) -> Seq<char> {
    match order {
        Order::Title => "title"@,
        Order::Author => "author"@,
        Order::Series => "series"@,
        Order::Recent => "recent"@,
    }
}

pub open spec fn order_after(order: Order) -> Order {
    match order {
        Order::Title => Order::Author,
        Order::Author => Order::Series,
        Order::Series => Order::Recent,
        Order::Recent => Order::Title,
    }
}

/// Going on four times comes back to where it began, and visits every order on
/// the way.
pub proof fn the_order_cycles_through_all_four(start: Order, wanted: Order)
    ensures
        order_after(order_after(order_after(order_after(start)))) == start,
        wanted == start || wanted == order_after(start) || wanted == order_after(order_after(start))
            || wanted == order_after(order_after(order_after(start))),
{
}

impl Order {
    pub fn label(self) -> (r: &'static str)
        ensures
            r@ == order_label(self),
    {
        match self {
            Order::Title => "title",
            Order::Author => "author",
            Order::Series => "series",
            Order::Recent => "recent",
        }
    }

    pub fn next(self) -> (r: Self)
        ensures
            r == order_after(self),
    {
        match self {
            Order::Title => Order::Author,
            Order::Author => Order::Series,
            Order::Series => Order::Recent,
            Order::Recent => Order::Title,
        }
    }
}

/// The row of a book.
pub open spec fn row_of(state: StateView, id: Seq<char>) -> EntryView {
    EntryView {
        id,
        record: state.books[id],
        progress: if state.positions.contains_key(id) {
            Some(0u16)
        } else {
            None
        },
        last_read: if state.positions.contains_key(id) {
            Some(state.positions[id].at)
        } else {
            None
        },
    }
}

/// `rows` holds one row for every known book.
pub open spec fn rows_of(rows: Seq<EntryView>, state: StateView) -> bool {
    &&& forall|i: int|
        0 <= i < rows.len() ==> state.books.contains_key((#[trigger] rows[i]).id) && rows[i]
            == row_of(state, rows[i].id)
    &&& forall|i: int, j: int|
        0 <= i < j < rows.len() ==> (#[trigger] rows[i]).id != (#[trigger] rows[j]).id
    &&& forall|id: Seq<char>| #[trigger]
        state.books.contains_key(id) ==> exists|i: int|
            0 <= i < rows.len() && (#[trigger] rows[i]).id == id
}

/// One row for every known book, in the order the books are filed in.
pub open spec fn rows(state: State) -> Seq<EntryView> {
    state.books.entries@.map_values(|e: (String, BookRecord)| row_of(state@, e.0@))
}

/// Builds the library from a replayed journal: one row for every known book.
pub fn entries(state: &State) -> (r: Vec<Entry>)
    requires
        state.wf(),
    ensures
        rows_of(entry_views(r@), state@),
        entry_views(r@) == rows(*state),
{
    let books = &state.books.entries;
    let mut out: Vec<Entry> = Vec::new();
    let mut i: usize = 0;
    while i < books.len()
        invariant
            i <= books@.len(),
            state.wf(),
            books@ == state.books.entries@,
            out@.len() == i,
            forall|k: int|
                0 <= k < i ==> (#[trigger] out@[k])@ == row_of(state@, books@[k].0@),
        decreases books@.len() - i,
    {
        proof {
            crate::table::lemma_entry(books@, i as int);
        }
        let id = BookId::from_text(books[i].0.clone());
        let last_read = state.last_read(&id);
        let progress: Option<u16> = match state.position(&id) {
            Some(_) => Some(0),
            None => None,
        };
        out.push(Entry { id, record: books[i].1.clone(), progress, last_read });
        i += 1;
    }
    proof {
        assert(entry_views(out@) =~= self::rows(*state));
        let rows = entry_views(out@);
        let e = books@;
        assert forall|k: int| 0 <= k < rows.len() implies state@.books.contains_key(
            (#[trigger] rows[k]).id,
        ) && rows[k] == row_of(state@, rows[k].id) by {
            assert(rows[k] == out@[k]@);
            crate::table::lemma_entry(e, k);
        }
        assert forall|a: int, b: int| 0 <= a < b < rows.len() implies (#[trigger] rows[a]).id != (
        #[trigger] rows[b]).id by {
            assert(rows[a] == out@[a]@ && rows[b] == out@[b]@);
            assert(e[a].0@ != e[b].0@);
        }
        assert forall|id: Seq<char>| #[trigger] state@.books.contains_key(id) implies exists|k: int|
            0 <= k < rows.len() && (#[trigger] rows[k]).id == id by {
            let k = choose|k: int| 0 <= k < e.len() && (#[trigger] e[k]).0@ == id;
            assert(rows[k] == out@[k]@);
            assert(rows[k].id == id);
        }
    }
    out
}

// ---------------------------------------------------------------------------
// Order
// ---------------------------------------------------------------------------
/// Sort key: lowercase, and a leading article dropped so "The Hobbit" files
/// under H.
pub open spec fn sort_text(text: Seq<char>) -> Seq<char> {
    let s = text_lowercase(trim(text));
    if occurs_at(s, "the "@, 0) {
        s.skip(4)
    } else if occurs_at(s, "a "@, 0) {
        s.skip(2)
    } else if occurs_at(s, "an "@, 0) {
        s.skip(3)
    } else if occurs_at(s, "der "@, 0) {
        s.skip(4)
    } else if occurs_at(s, "die "@, 0) {
        s.skip(4)
    } else if occurs_at(s, "das "@, 0) {
        s.skip(4)
    } else if occurs_at(s, "ein "@, 0) {
        s.skip(4)
    } else if occurs_at(s, "eine "@, 0) {
        s.skip(5)
    } else {
        s
    }
}

fn has_prefix(s: &Vec<char>, prefix: &str) -> (r: bool)
    ensures
        r == occurs_at(s@, prefix@, 0),
        r ==> prefix@.len() <= s@.len(),
{
    let p = chars_of(prefix);
    stands_at(s, &p, 0)
}

fn behind(s: &Vec<char>, n: usize) -> (r: Vec<char>)
    requires
        n <= s@.len(),
    ensures
        r@ == s@.skip(n as int),
{
    let r = sub_chars(s, n, s.len());
    assert(r@ =~= s@.skip(n as int));
    r
}

fn sort_chars(text: &str) -> (r: Vec<char>)
    ensures
        r@ == sort_text(text@),
{
    let v = chars_of(text);
    let t = trimmed(&v);
    let t = text_of(&t);
    let lower = lower_text(&t);
    let s = chars_of(&lower);
    proof {
        reveal_strlit("the ");
        reveal_strlit("a ");
        reveal_strlit("an ");
        reveal_strlit("der ");
        reveal_strlit("die ");
        reveal_strlit("das ");
        reveal_strlit("ein ");
        reveal_strlit("eine ");
    }
    if has_prefix(&s, "the ") {
        behind(&s, 4)
    } else if has_prefix(&s, "a ") {
        behind(&s, 2)
    } else if has_prefix(&s, "an ") {
        behind(&s, 3)
    } else if has_prefix(&s, "der ") {
        behind(&s, 4)
    } else if has_prefix(&s, "die ") {
        behind(&s, 4)
    } else if has_prefix(&s, "das ") {
        behind(&s, 4)
    } else if has_prefix(&s, "ein ") {
        behind(&s, 4)
    } else if has_prefix(&s, "eine ") {
        behind(&s, 5)
    } else {
        s
    }
}

/// The text a title or a name is sorted by.
pub fn sortable(text: &str) -> (r: String)
    ensures
        r@ == sort_text(text@),
{
    let v = sort_chars(text);
    text_of(&v)
}

/// What an entry is sorted by. Books that lack what the order goes by come last.
#[verifier::ext_equal]
pub struct SortKey {
    pub late: bool,
    pub group: Seq<char>,
    pub read: Option<Moment>,
    pub rank: int,
    pub title: Seq<char>,
}

/// The rank of a book that has no place in its series: that of the largest
/// finite number.
pub const LAST_RANK: i32 = 0x7f7f_ffff;

/// The first author, when there is one with a name.
pub open spec fn first_author(record: RecordView) -> Option<Seq<char>> {
    if record.authors.len() > 0 && !blank(record.authors[0]) {
        Some(record.authors[0])
    } else {
        None
    }
}

/// The key of an entry in an order.
pub open spec fn key_of(e: EntryView, order: Order) -> SortKey {
    let title = sort_text(e.record.shown_title());
    let plain = SortKey { late: false, group: Seq::empty(), read: None, rank: 0, title };
    match order {
        Order::Title => plain,
        // A book without an author belongs at the end, not in front of
        // everything: its placeholder would otherwise sort before the letters.
        Order::Author => match first_author(e.record) {
            Some(name) => SortKey { group: sort_text(name), ..plain },
            None => SortKey { late: true, ..plain },
        },
        // Books outside a series come last rather than clumping under an empty
        // heading.
        Order::Series => match e.record.series {
            Some(series) => SortKey {
                group: sort_text(series),
                rank: match e.record.series_index {
                    Some(i) => i.rank as int,
                    None => LAST_RANK as int,
                },
                title: Seq::empty(),
                ..plain
            },
            None => SortKey { late: true, ..plain },
        },
        // Most recently read first. A book never opened has no timestamp and
        // belongs at the end rather than among the fresh ones.
        Order::Recent => match e.last_read {
            Some(at) => SortKey { read: Some(at), title: Seq::empty(), ..plain },
            None => SortKey { late: true, ..plain },
        },
    }
}

/// Read more recently.
pub open spec fn fresher(a: Option<Moment>, b: Option<Moment>) -> bool {
    match (a, b) {
        (Some(x), Some(y)) => precedes(y, x),
        _ => false,
    }
}

/// Whether one key sorts before another: field by field.
pub open spec fn key_less(a: SortKey, b: SortKey) -> bool {
    if a.late != b.late {
        b.late
    } else if a.group != b.group {
        text_less(a.group, b.group)
    } else if fresher(a.read, b.read) || fresher(b.read, a.read) {
        fresher(a.read, b.read)
    } else if a.rank != b.rank {
        a.rank < b.rank
    } else {
        text_less(a.title, b.title)
    }
}

/// Whether one entry is listed before another.
pub open spec fn entry_less(a: Entry, b: Entry, order: Order) -> bool {
    key_less(key_of(a@, order), key_of(b@, order))
}

/// Keys of one order: all of them carry a moment when they are not late, or none
/// does.
pub open spec fn same_order(a: SortKey, b: SortKey) -> bool {
    a.late == b.late ==> (a.read is Some <==> b.read is Some)
}

proof fn lemma_key_order(a: SortKey, b: SortKey, c: SortKey)
    requires
        same_order(a, b),
        same_order(b, c),
        same_order(a, c),
    ensures
        !key_less(a, a),
        key_less(a, b) ==> !key_less(b, a),
        !key_less(a, b) && !key_less(b, c) ==> !key_less(a, c),
{
    lemma_text_order(a.group, b.group, c.group);
    lemma_text_order(b.group, a.group, c.group);
    lemma_text_order(c.group, b.group, a.group);
    lemma_text_order(b.group, c.group, a.group);
    lemma_text_order(a.group, c.group, b.group);
    lemma_text_order(c.group, a.group, b.group);
    lemma_text_order(a.title, b.title, c.title);
    lemma_text_order(b.title, a.title, c.title);
    lemma_text_order(c.title, b.title, a.title);
    lemma_text_order(b.title, c.title, a.title);
    lemma_text_order(a.title, c.title, b.title);
    lemma_text_order(c.title, a.title, b.title);
    lemma_text_order(a.title, a.title, a.title);
}

pub proof fn lemma_order_ranks(order: Order)
    ensures
        ranks(|a: Entry, b: Entry| entry_less(a, b, order)),
{
    let less = |a: Entry, b: Entry| entry_less(a, b, order);
    assert forall|a: Entry| !(#[trigger] less(a, a)) by {
        let k = key_of(a@, order);
        lemma_key_order(k, k, k);
    }
    assert forall|a: Entry, b: Entry| #[trigger] less(a, b) implies !less(b, a) by {
        lemma_key_order(key_of(a@, order), key_of(b@, order), key_of(a@, order));
    }
    assert forall|a: Entry, b: Entry, c: Entry|
        !(#[trigger] less(a, b)) && !(#[trigger] less(b, c)) implies !less(a, c) by {
        lemma_key_order(key_of(a@, order), key_of(b@, order), key_of(c@, order));
    }
}

/// A list in an order.
pub open spec fn entries_sorted(s: Seq<Entry>, order: Order) -> Seq<Entry> {
    sorted_by(s, |a: Entry, b: Entry| entry_less(a, b, order))
}

/// Rows in an order.
pub open spec fn rows_sorted(rows: Seq<EntryView>, order: Order) -> Seq<EntryView> {
    sorted_by(rows, |a: EntryView, b: EntryView| key_less(key_of(a, order), key_of(b, order)))
}

/// A sorted list shows its rows sorted.
pub proof fn lemma_rows_sorted(s: Seq<Entry>, order: Order)
    ensures
        entry_views(entries_sorted(s, order)) == rows_sorted(entry_views(s), order),
{
    let less = |a: Entry, b: Entry| entry_less(a, b, order);
    let image_less = |a: EntryView, b: EntryView| key_less(key_of(a, order), key_of(b, order));
    let f = |e: Entry| e@;
    crate::sort::lemma_sort_of_images(s, f, less, image_less);
    assert(entry_views(s) =~= s.map_values(f));
    assert(entry_views(entries_sorted(s, order)) =~= entries_sorted(s, order).map_values(f));
}

/// Sorting lists every entry, each in its place: nothing sorts before what is
/// listed ahead of it.
pub proof fn sorting_orders_the_list(s: Seq<Entry>, order: Order)
    ensures
        in_order(
            entries_sorted(s, order),
            |a: Entry, b: Entry| entry_less(a, b, order),
        ),
        entries_sorted(s, order).to_multiset() == s.to_multiset(),
{
    lemma_order_ranks(order);
    crate::sort::sorting_puts_in_order(s, |a: Entry, b: Entry| entry_less(a, b, order));
    crate::sort::sorting_keeps_the_items(s, |a: Entry, b: Entry| entry_less(a, b, order));
}

/// Books without an author, without a series or never read come last in the
/// order that goes by it.
pub proof fn what_is_missing_comes_last(s: Seq<Entry>, order: Order, i: int, j: int)
    requires
        0 <= i < entries_sorted(s, order).len(),
        0 <= j < entries_sorted(s, order).len(),
        key_of(entries_sorted(s, order)[i]@, order).late,
        !key_of(entries_sorted(s, order)[j]@, order).late,
    ensures
        j < i,
{
    sorting_orders_the_list(s, order);
    let r = entries_sorted(s, order);
    let less = |a: Entry, b: Entry| entry_less(a, b, order);
    if i < j {
        assert(!less(r[j], r[i]));
    }
}

/// An entry with what it is sorted by.
struct Keyed {
    late: bool,
    group: Vec<char>,
    read: Option<Moment>,
    rank: i32,
    title: Vec<char>,
    entry: Entry,
}

impl Keyed {
    spec fn key(&self) -> SortKey {
        SortKey {
            late: self.late,
            group: self.group@,
            read: self.read,
            rank: self.rank as int,
            title: self.title@,
        }
    }
}

fn make_key(entry: Entry, order: Order) -> (r: Keyed)
    ensures
        r.key() == key_of(entry@, order),
        r.entry == entry,
{
    let shown = entry.record.display_title();
    let title = sort_chars(&shown);
    let mut late = false;
    let mut group: Vec<char> = Vec::new();
    let mut read: Option<Moment> = None;
    let mut rank: i32 = 0;
    let mut keep_title = true;
    match order {
        Order::Title => {},
        Order::Author => {
            late = true;
            if entry.record.authors.len() > 0 {
                assert(entry@.record.authors[0] == entry.record.authors@[0]@);
                if !is_blank_text(&entry.record.authors[0]) {
                    late = false;
                    group = sort_chars(&entry.record.authors[0]);
                }
            }
        },
        Order::Series => {
            match &entry.record.series {
                Some(series) => {
                    group = sort_chars(series);
                    rank = match &entry.record.series_index {
                        Some(i) => i.rank,
                        None => LAST_RANK,
                    };
                    keep_title = false;
                },
                None => {
                    late = true;
                },
            }
        },
        Order::Recent => {
            match entry.last_read {
                Some(at) => {
                    read = Some(at);
                    keep_title = false;
                },
                None => {
                    late = true;
                },
            }
        },
    }
    let title: Vec<char> = if keep_title {
        title
    } else {
        Vec::new()
    };
    let r = Keyed { late, group, read, rank, title, entry };
    assert(r.key() =~= key_of(entry@, order));
    r
}

fn moment_fresher(a: Option<Moment>, b: Option<Moment>) -> (r: bool)
    ensures
        r == fresher(a, b),
{
    match (a, b) {
        (Some(x), Some(y)) => y.is_before(x),
        _ => false,
    }
}

fn keyed_before(a: &Keyed, b: &Keyed) -> (r: bool)
    ensures
        r == key_less(a.key(), b.key()),
{
    if a.late != b.late {
        return b.late;
    }
    if !crate::text::same_chars(&a.group, &b.group) {
        return chars_before(&a.group, &b.group);
    }
    if moment_fresher(a.read, b.read) {
        return true;
    }
    if moment_fresher(b.read, a.read) {
        return false;
    }
    if a.rank != b.rank {
        return a.rank < b.rank;
    }
    chars_before(&a.title, &b.title)
}

/// Sorts a list in place.
pub fn sort(entries: &mut Vec<Entry>, order: Order)
    ensures
        final(entries)@ == entries_sorted(old(entries)@, order),
{
    let mut taken: Vec<Entry> = Vec::new();
    let ghost start = entries@;
    std::mem::swap(&mut taken, entries);
    let mut keyed: Vec<Keyed> = Vec::new();
    for entry in it: taken
        invariant
            it.seq() == start,
            keyed@.len() == it.index(),
            forall|k: int|
                0 <= k < keyed@.len() ==> (#[trigger] keyed@[k]).entry == start[k] && keyed@[k].key()
                    == key_of(start[k]@, order),
    {
        keyed.push(make_key(entry, order));
    }
    let ghost made = keyed@;
    let ghost by_key = |a: Keyed, b: Keyed| key_less(a.key(), b.key());
    let sorted = stable_sort(keyed, keyed_before, Ghost(by_key));
    let ghost done = sorted@;
    let mut out: Vec<Entry> = Vec::new();
    for k in it: sorted
        invariant
            it.seq() == done,
            out@.len() == it.index(),
            forall|i: int| 0 <= i < out@.len() ==> #[trigger] out@[i] == done[i].entry,
    {
        out.push(k.entry);
    }
    proof {
        lemma_keyed_sort(made, start, order);
        assert(out@ =~= entries_sorted(start, order));
    }
    *entries = out;
}

/// Sorting entries with their keys sorts the entries.
proof fn lemma_keyed_sort(made: Seq<Keyed>, start: Seq<Entry>, order: Order)
    requires
        made.len() == start.len(),
        forall|k: int|
            0 <= k < made.len() ==> (#[trigger] made[k]).entry == start[k] && made[k].key()
                == key_of(start[k]@, order),
    ensures
        ({
            let done = sorted_by(made, |a: Keyed, b: Keyed| key_less(a.key(), b.key()));
            &&& done.len() == start.len()
            &&& done.map_values(|k: Keyed| k.entry) == entries_sorted(start, order)
            &&& forall|k: int|
                0 <= k < done.len() ==> (#[trigger] done[k]).key() == key_of(
                    done[k].entry@,
                    order,
                )
        }),
    decreases made.len(),
{
    let by_key = |a: Keyed, b: Keyed| key_less(a.key(), b.key());
    let by_entry = |a: Entry, b: Entry| entry_less(a, b, order);
    let f = |k: Keyed| k.entry;
    let done = sorted_by(made, by_key);
    if made.len() == 0 {
        assert(done.map_values(f) =~= Seq::<Entry>::empty());
        assert(start =~= Seq::<Entry>::empty());
    } else {
        let d = made.drop_last();
        let s = start.drop_last();
        lemma_keyed_sort(d, s, order);
        let front = sorted_by(d, by_key);
        let x = made.last();
        lemma_keyed_position(front, x, order);
        crate::sort::lemma_insert_position(front, x, by_key);
        let p = crate::sort::insert_position(front, x, by_key);
        assert(front.insert(p, x).map_values(f) =~= front.map_values(f).insert(p, x.entry));
        assert forall|k: int| 0 <= k < done.len() implies (#[trigger] done[k]).key() == key_of(
            done[k].entry@,
            order,
        ) by {
            if k < p {
                assert(done[k] == front[k]);
            } else if k > p {
                assert(done[k] == front[k - 1]);
            }
        }
    }
}

proof fn lemma_keyed_position(s: Seq<Keyed>, x: Keyed, order: Order)
    requires
        x.key() == key_of(x.entry@, order),
        forall|k: int| 0 <= k < s.len() ==> (#[trigger] s[k]).key() == key_of(s[k].entry@, order),
    ensures
        crate::sort::insert_position(
            s,
            x,
            |a: Keyed, b: Keyed| key_less(a.key(), b.key()),
        ) == crate::sort::insert_position(
            s.map_values(|k: Keyed| k.entry),
            x.entry,
            |a: Entry, b: Entry| entry_less(a, b, order),
        ),
    decreases s.len(),
{
    let f = |k: Keyed| k.entry;
    if s.len() > 0 {
        assert(s.map_values(f).drop_last() =~= s.drop_last().map_values(f));
        assert forall|k: int| 0 <= k < s.drop_last().len() implies (
        #[trigger] s.drop_last()[k]).key() == key_of(s.drop_last()[k].entry@, order) by {
            assert(s.drop_last()[k] == s[k]);
        }
        lemma_keyed_position(s.drop_last(), x, order);
    }
}

// ---------------------------------------------------------------------------
// Filter
// ---------------------------------------------------------------------------
/// The fields a filter looks at, lowercased.
pub open spec fn fields(e: EntryView) -> Seq<Seq<char>> {
    seq![
        text_lowercase(e.record.shown_title()),
        text_lowercase(e.record.shown_authors()),
        text_lowercase(
            match e.record.series {
                Some(s) => s,
                None => Seq::empty(),
            },
        ),
        text_lowercase(joined(e.record.tags, " "@)),
    ]
}

/// The needle stands at the start of a word: at the very beginning, or behind a
/// character that is neither a letter nor a digit.
pub open spec fn at_word_start(text: Seq<char>, needle: Seq<char>) -> bool {
    exists|i: int| #[trigger] occurs_at(text, needle, i) && (i == 0 || !alphanumeric(text[i - 1]))
}

/// Whether an entry matches a needle, at the start of a word or anywhere.
pub open spec fn entry_matches(e: EntryView, needle: Seq<char>, word_start: bool) -> bool {
    exists|i: int|
        0 <= i < fields(e).len() && (if word_start {
            at_word_start(#[trigger] fields(e)[i], needle)
        } else {
            contains_text(fields(e)[i], needle)
        })
}

/// The entries that match a needle, in their order.
pub open spec fn matching(s: Seq<EntryView>, needle: Seq<char>, word_start: bool) -> Seq<EntryView>
    decreases s.len(),
{
    if s.len() == 0 {
        s
    } else {
        let front = matching(s.drop_last(), needle, word_start);
        if entry_matches(s.last(), needle, word_start) {
            front.push(s.last())
        } else {
            front
        }
    }
}

/// What a filter keeps. A match at the start of a word counts first; only when
/// nothing matches that way does a match inside a word count. A blank filter
/// keeps everything.
pub open spec fn filtered(s: Seq<EntryView>, needle: Seq<char>) -> Seq<EntryView> {
    if blank(needle) {
        s
    } else {
        let n = text_lowercase(trim(needle));
        if matching(s, n, true).len() > 0 {
            matching(s, n, true)
        } else {
            matching(s, n, false)
        }
    }
}

/// True when the needle appears at the start of a word.
pub fn starts_a_word(text: &str, needle: &str) -> (r: bool)
    ensures
        r == at_word_start(text@, needle@),
{
    let s = chars_of(text);
    let n = chars_of(needle);
    let mut i: usize = 0;
    loop
        invariant
            i <= s@.len(),
            s@ == text@,
            n@ == needle@,
            forall|k: int|
                0 <= k < i ==> !(#[trigger] occurs_at(text@, needle@, k) && (k == 0
                    || !alphanumeric(text@[k - 1]))),
        decreases s@.len() - i,
    {
        if stands_at(&s, &n, i) {
            if i == 0 {
                assert(occurs_at(text@, needle@, 0));
                return true;
            }
            let before = s[i - 1];
            if !before.is_alphanumeric() {
                assert(occurs_at(text@, needle@, i as int));
                return true;
            }
        }
        if i >= s.len() {
            return false;
        }
        i += 1;
    }
}

fn field_texts(entry: &Entry) -> (r: Vec<String>)
    ensures
        texts(r@) == fields(entry@),
        r@.len() == 4,
{
    let record = &entry.record;
    let title = record.display_title();
    let authors = record.display_authors();
    let series = match &record.series {
        Some(s) => s.clone(),
        None => {
            let s = String::new();
            assert(s@ =~= Seq::<char>::empty());
            s
        },
    };
    let tags = join(&record.tags, " ");
    let mut out: Vec<String> = Vec::new();
    out.push(lower_text(&title));
    out.push(lower_text(&authors));
    out.push(lower_text(&series));
    out.push(lower_text(&tags));
    assert(texts(out@) =~= fields(entry@));
    out
}

fn matches_needle(entry: &Entry, needle: &str, word_start: bool) -> (r: bool)
    ensures
        r == entry_matches(entry@, needle@, word_start),
{
    let all = field_texts(entry);
    let ghost views = fields(entry@);
    let mut i: usize = 0;
    while i < all.len()
        invariant
            i <= all@.len(),
            texts(all@) == views,
            views == fields(entry@),
            forall|k: int|
                0 <= k < i ==> !(if word_start {
                    at_word_start(#[trigger] views[k], needle@)
                } else {
                    contains_text(views[k], needle@)
                }),
        decreases all@.len() - i,
    {
        assert(views[i as int] == all@[i as int]@);
        let found = if word_start {
            starts_a_word(&all[i], needle)
        } else {
            let v = chars_of(&all[i]);
            crate::text::has_text(&v, needle)
        };
        if found {
            assert(if word_start {
                at_word_start(fields(entry@)[i as int], needle@)
            } else {
                contains_text(fields(entry@)[i as int], needle@)
            });
            return true;
        }
        i += 1;
    }
    false
}

fn keep_matching(entries: &Vec<Entry>, needle: &str, word_start: bool) -> (r: Vec<Entry>)
    ensures
        entry_views(r@) == matching(entry_views(entries@), needle@, word_start),
{
    let mut out: Vec<Entry> = Vec::new();
    let ghost all = entry_views(entries@);
    let mut i: usize = 0;
    assert(all.take(0) =~= Seq::<EntryView>::empty());
    assert(entry_views(out@) =~= Seq::<EntryView>::empty());
    while i < entries.len()
        invariant
            i <= entries@.len(),
            all == entry_views(entries@),
            entry_views(out@) == matching(all.take(i as int), needle@, word_start),
        decreases entries@.len() - i,
    {
        assert(all.take(i + 1).drop_last() =~= all.take(i as int));
        assert(all[i as int] == entries@[i as int]@);
        if matches_needle(&entries[i], needle, word_start) {
            let ghost before = entry_views(out@);
            let copy = entries[i].clone();
            out.push(copy);
            assert(entry_views(out@) =~= before.push(copy@));
        }
        i += 1;
    }
    assert(all.take(all.len() as int) =~= all);
    out
}

/// Keeps the entries whose title, author, series or tags match the needle.
///
/// A match at the start of a word counts first: searching for "event" should find
/// "Event Sourcing" and "Eventsourcing", not "Practical Fraud Prevention". Only
/// when nothing matches that way does a match inside a word count, so a partial
/// word still finds something rather than nothing.
pub fn filter(entries: &Vec<Entry>, needle: &str) -> (r: Vec<Entry>)
    ensures
        entry_views(r@) == filtered(entry_views(entries@), needle@),
{
    if is_blank_text(needle) {
        return copy_entries(entries);
    }
    let v = chars_of(needle);
    let t = trimmed(&v);
    let t = text_of(&t);
    let lower = lower_text(&t);
    let found = keep_matching(entries, &lower, true);
    assert(entry_views(found@).len() == found@.len());
    if found.len() > 0 {
        return found;
    }
    keep_matching(entries, &lower, false)
}

/// A filter only leaves entries out: what it keeps stands in the list, in the
/// same order, and matches.
pub proof fn filtering_keeps_the_order(s: Seq<EntryView>, needle: Seq<char>, word_start: bool)
    ensures
        exists|at: Seq<int>| #[trigger] picks(at, s, matching(s, needle, word_start)),
        forall|i: int|
            0 <= i < matching(s, needle, word_start).len() ==> entry_matches(
                #[trigger] matching(s, needle, word_start)[i],
                needle,
                word_start,
            ),
    decreases s.len(),
{
    let kept = matching(s, needle, word_start);
    if s.len() == 0 {
        assert(picks(Seq::<int>::empty(), s, kept));
    } else {
        filtering_keeps_the_order(s.drop_last(), needle, word_start);
        let front = matching(s.drop_last(), needle, word_start);
        let at = choose|at: Seq<int>| #[trigger] picks(at, s.drop_last(), front);
        if entry_matches(s.last(), needle, word_start) {
            assert(picks(at.push(s.len() - 1), s, kept));
        } else {
            assert(picks(at, s, kept));
        }
    }
}

/// `at` are increasing places in `from` where the items of `to` stand.
pub open spec fn picks(at: Seq<int>, from: Seq<EntryView>, to: Seq<EntryView>) -> bool {
    &&& at.len() == to.len()
    &&& forall|i: int| 0 <= i < at.len() ==> 0 <= #[trigger] at[i] < from.len() && to[i] == from[at[i]]
    &&& forall|i: int, j: int| 0 <= i < j < at.len() ==> #[trigger] at[i] < #[trigger] at[j]
}

// ---------------------------------------------------------------------------
// Scan
// ---------------------------------------------------------------------------
/// Whether a file is a book, going by its extension.
pub open spec fn names_book(path: Seq<char>) -> bool {
    extension_of(path) matches Some(e) && ascii_lowered(e) == "epub"@
}

pub fn is_book(path: &str) -> (r: bool)
    ensures
        r == names_book(path@),
{
    match extension(path) {
        Some(e) => {
            let v = chars_of(&e);
            let lower = lower_ascii_all(&v);
            chars_are(&lower, "epub")
        },
        None => false,
    }
}

/// Depth limit, so a symlink loop cannot run away with the scan.
pub const MAX_DEPTH: usize = 12;

/// Whether a scan goes into a directory that deep.
pub fn is_within_reach(depth: usize) -> (r: bool)
    ensures
        r == (depth <= MAX_DEPTH),
{
    depth <= MAX_DEPTH
}

/// Whether a file or directory is hidden. Hidden directories hold caches and
/// version control, not books.
pub fn is_hidden(name: &str) -> (r: bool)
    ensures
        r == (name@.len() > 0 && name@[0] == '.'),
{
    let v = chars_of(name);
    v.len() > 0 && v[0] == '.'
}

/// What a scan makes of one file.
#[derive(Debug)]
pub enum Scanned {
    /// The file could not be read.
    Unreadable { message: String },
    /// The book is known, and at this very path.
    Known,
    /// Same contents at a path we did not know: either the file moved or there
    /// is a second copy. Both mean one more file for this book.
    Moved { id: BookId, seen: Payload },
    /// A new book, with what the file says about itself.
    Added { id: BookId, seen: Payload, details: Option<Payload> },
}

#[verifier::ext_equal]
pub enum ScannedView {
    Unreadable { message: Seq<char> },
    Known,
    Moved { id: Seq<char>, seen: PayloadView },
    Added { id: Seq<char>, seen: PayloadView, details: Option<PayloadView> },
}

impl View for Scanned {
    type V = ScannedView;

    open spec fn view(&self) -> ScannedView {
        match *self {
            Scanned::Unreadable { message } => ScannedView::Unreadable { message: message@ },
            Scanned::Known => ScannedView::Known,
            Scanned::Moved { id, seen } => ScannedView::Moved { id: id@, seen: seen@ },
            Scanned::Added { id, seen, details } => ScannedView::Added {
                id: id@,
                seen: seen@,
                details: match details {
                    Some(p) => Some(p@),
                    None => None,
                },
            },
        }
    }
}

/// A correction of nothing but the language.
pub open spec fn language_patch(language: Seq<char>) -> PatchView {
    PatchView {
        title: None,
        authors: None,
        series: None,
        series_index: None,
        tags: None,
        rating: None,
        publisher: None,
        year: None,
        language: Some(language),
    }
}

/// What is recorded of a new book: that it was seen, and the fields that do not
/// fit in there.
pub open spec fn added(id: Seq<char>, metadata: MetadataView, here: Seq<char>) -> ScannedView {
    ScannedView::Added {
        id,
        seen: PayloadView::BookSeen {
            title: metadata.title,
            authors: metadata.authors,
            path: here,
        },
        details: match metadata.language {
            Some(l) => Some(PayloadView::MetadataSet(language_patch(l))),
            None => None,
        },
    }
}

/// What is recorded of a book whose contents are known.
pub open spec fn met_again(id: Seq<char>, record: RecordView, here: Seq<char>) -> ScannedView {
    if knows_path(record.paths, here) {
        ScannedView::Known
    } else {
        ScannedView::Moved {
            id,
            seen: PayloadView::BookSeen {
                title: record.title,
                authors: record.authors,
                path: here,
            },
        }
    }
}

/// What a scan makes of a file with this content. `here` is where it lies,
/// `shown` the name it goes by in a report.
pub open spec fn scanned(
    state: StateView,
    content: Seq<u8>,
    shown: Seq<char>,
    here: Seq<char>,
) -> ScannedView {
    let id = id_of_digest(sha256_of(content));
    if state.books.contains_key(id) {
        met_again(id, state.books[id], here)
    } else {
        match book_opened(content, shown) {
            Err(report) => ScannedView::Unreadable { message: joined(report, ": "@) },
            Ok(book) => added(id, book.metadata, here),
        }
    }
}

fn meet_again(id: BookId, record: &BookRecord, here: String) -> (r: Scanned)
    ensures
        r@ == met_again(id@, record@, here@),
{
    if has_path(&record.paths, &here) {
        return Scanned::Known;
    }
    let copy = record.clone();
    Scanned::Moved {
        id,
        seen: Payload::BookSeen { title: copy.title, authors: copy.authors, path: here },
    }
}

fn add_new(id: BookId, book: Book, here: String) -> (r: Scanned)
    ensures
        r@ == added(id@, book@.metadata, here@),
{
    let metadata = book.metadata;
    let details = match metadata.language {
        Some(language) => {
            let patch = Patch {
                title: None,
                authors: None,
                series: None,
                series_index: None,
                tags: None,
                rating: None,
                publisher: None,
                year: None,
                language: Some(language),
            };
            assert(patch@ =~= language_patch(language@));
            Some(Payload::MetadataSet(patch))
        },
        None => None,
    };
    Scanned::Added {
        id,
        seen: Payload::BookSeen { title: metadata.title, authors: metadata.authors, path: here },
        details,
    }
}

/// Takes one file of a scan into account.
///
/// A file already known by its hash is not added again; if it turned up
/// elsewhere, only its path is corrected. Metadata from the book itself is
/// written once, on first sight, so a later correction of yours is never
/// overwritten by a re-scan.
pub fn scan(state: &State, content: Vec<u8>, shown: &str, here: String) -> (r: Scanned)
    requires
        state.wf(),
    ensures
        r@ == scanned(state@, content@, shown@, here@),
{
    let id = BookId::of_bytes(content.as_slice());
    if let Some(record) = state.book(&id) {
        return meet_again(id, record, here);
    }
    match Book::open(content, shown) {
        Ok(book) => add_new(id, book, here),
        Err(e) => Scanned::Unreadable { message: e.full() },
    }
}

/// What a scan did, for the report afterwards.
#[derive(Debug)]
pub struct ScanReport {
    pub seen: usize,
    pub added: usize,
    pub moved: usize,
    pub unreadable: Vec<(String, String)>,
}

#[verifier::ext_equal]
pub struct ReportView {
    pub seen: int,
    pub added: int,
    pub moved: int,
    pub unreadable: Seq<(Seq<char>, Seq<char>)>,
}

impl View for ScanReport {
    type V = ReportView;

    open spec fn view(&self) -> ReportView {
        ReportView {
            seen: self.seen as int,
            added: self.added as int,
            moved: self.moved as int,
            unreadable: self.unreadable@.map_values(|p: (String, String)| (p.0@, p.1@)),
        }
    }
}

/// A report after one more file.
pub open spec fn counted(report: ReportView, path: Seq<char>, outcome: ScannedView) -> ReportView {
    let r = ReportView { seen: report.seen + 1, ..report };
    match outcome {
        ScannedView::Unreadable { message } => ReportView {
            unreadable: r.unreadable.push((path, message)),
            ..r
        },
        ScannedView::Known => r,
        ScannedView::Moved { .. } => ReportView { moved: r.moved + 1, ..r },
        ScannedView::Added { .. } => ReportView { added: r.added + 1, ..r },
    }
}

impl Default for ScanReport {
    fn default() -> (r: Self)
        ensures
            r.wf(),
            r@ == (ReportView { seen: 0, added: 0, moved: 0, unreadable: Seq::empty() }),
    {
        let r = ScanReport { seen: 0, added: 0, moved: 0, unreadable: Vec::new() };
        assert(r@ =~= (ReportView { seen: 0, added: 0, moved: 0, unreadable: Seq::empty() }));
        r
    }
}

impl ScanReport {
    /// Each file that was seen counts once at most.
    pub open spec fn wf(&self) -> bool {
        self.added + self.moved + self.unreadable@.len() <= self.seen
    }

    /// Counts one more file.
    pub fn count(&mut self, path: String, outcome: &Scanned)
        requires
            old(self).wf(),
            old(self).seen < usize::MAX,
        ensures
            final(self).wf(),
            final(self)@ == counted(old(self)@, path@, outcome@),
    {
        self.seen = self.seen + 1;
        match outcome {
            Scanned::Unreadable { message } => {
                let ghost before = self@.unreadable;
                let pair = (path, message.clone());
                self.unreadable.push(pair);
                assert(self@.unreadable =~= before.push((pair.0@, pair.1@)));
            },
            Scanned::Known => {},
            Scanned::Moved { .. } => {
                self.moved = self.moved + 1;
            },
            Scanned::Added { .. } => {
                self.added = self.added + 1;
            },
        }
    }
}

/// Scanning a file that is known at its path records nothing.
pub proof fn a_second_scan_adds_nothing(
    state: StateView,
    content: Seq<u8>,
    shown: Seq<char>,
    here: Seq<char>,
)
    requires
        state.books.contains_key(id_of_digest(sha256_of(content))),
        knows_path(state.books[id_of_digest(sha256_of(content))].paths, here),
    ensures
        scanned(state, content, shown, here) == ScannedView::Known,
{
}

} // verus!
