//! What holds of every order and every filter of the library.

use vstd::prelude::*;
use crate::failure::joined;
use crate::journal::{precedes, RecordView};
use crate::library::{
    at_word_start, entries_sorted, entry_less, entry_matches, fields, filtered,
    filtering_keeps_the_order, key_less, key_of, lemma_order_ranks, matching, picks, sort_text,
    sorting_orders_the_list, Entry, EntryView, Order, LAST_RANK,
};
use crate::sort::{lemma_sorting_is_stable, rearranges, sorted_by, stably};
use crate::text::{
    all_ascii, ascii_lower, ascii_lowered, blank, contains_text, is_white, keep_end,
    lemma_keep_end, lemma_skip_white, lemma_text_order, occurs_at, skip_white, text_less,
    text_lowercase, trim, trim_end, trim_start,
};

verus! {

// ---------------------------------------------------------------------------
// Orders
// ---------------------------------------------------------------------------
/// The first author has a name.
pub open spec fn is_named(r: RecordView) -> bool {
    r.authors.len() > 0 && !blank(r.authors[0])
}

proof fn lemma_listed(s: Seq<Entry>, order: Order, i: int, j: int)
    requires
        0 <= i < j < entries_sorted(s, order).len(),
    ensures
        !key_less(
            key_of(entries_sorted(s, order)[j]@, order),
            key_of(entries_sorted(s, order)[i]@, order),
        ),
{
    sorting_orders_the_list(s, order);
    let less = |a: Entry, b: Entry| entry_less(a, b, order);
    let r = entries_sorted(s, order);
    assert(!less(r[j], r[i]));
}

/// By title: no book is listed behind one whose title sorts after its own.
pub proof fn titles_are_in_order(s: Seq<Entry>, i: int, j: int)
    requires
        0 <= i < j < entries_sorted(s, Order::Title).len(),
    ensures
        ({
            let a = entries_sorted(s, Order::Title)[i]@.record;
            let b = entries_sorted(s, Order::Title)[j]@.record;
            !text_less(sort_text(b.shown_title()), sort_text(a.shown_title()))
        }),
{
    lemma_listed(s, Order::Title, i, j);
}

/// By author: the first authors are in order, the title decides between books of
/// one author, and books without an author come last, by title among themselves.
pub proof fn authors_are_in_order(s: Seq<Entry>, i: int, j: int)
    requires
        0 <= i < j < entries_sorted(s, Order::Author).len(),
    ensures
        ({
            let a = entries_sorted(s, Order::Author)[i]@.record;
            let b = entries_sorted(s, Order::Author)[j]@.record;
            let x = sort_text(a.authors[0]);
            let y = sort_text(b.authors[0]);
            let titles = !text_less(sort_text(b.shown_title()), sort_text(a.shown_title()));
            &&& is_named(b) ==> is_named(a)
            &&& is_named(a) && is_named(b) ==> !text_less(y, x)
            &&& is_named(a) && is_named(b) && x == y ==> titles
            &&& !is_named(a) && !is_named(b) ==> titles
        }),
{
    lemma_listed(s, Order::Author, i, j);
    let a = entries_sorted(s, Order::Author)[i]@.record;
    let b = entries_sorted(s, Order::Author)[j]@.record;
    lemma_text_order(sort_text(a.authors[0]), sort_text(b.authors[0]), Seq::empty());
}

/// By series: the series are in order, the books of one series by their place in
/// it, those without a place behind the others, and books outside a series come
/// last, by title among themselves.
pub proof fn series_are_in_order(s: Seq<Entry>, i: int, j: int)
    requires
        0 <= i < j < entries_sorted(s, Order::Series).len(),
    ensures
        ({
            let a = entries_sorted(s, Order::Series)[i]@.record;
            let b = entries_sorted(s, Order::Series)[j]@.record;
            &&& b.series is Some ==> a.series is Some
            &&& a.series is Some && b.series is Some ==> !text_less(
                sort_text(b.series->0),
                sort_text(a.series->0),
            )
            &&& a.series is Some && b.series is Some && sort_text(a.series->0) == sort_text(
                b.series->0,
            ) && a.series_index is Some && b.series_index is Some ==> a.series_index->0.rank
                <= b.series_index->0.rank
            &&& a.series is Some && b.series is Some && sort_text(a.series->0) == sort_text(
                b.series->0,
            ) && a.series_index is None && b.series_index is Some ==> LAST_RANK
                <= b.series_index->0.rank
            &&& a.series is None && b.series is None ==> !text_less(
                sort_text(b.shown_title()),
                sort_text(a.shown_title()),
            )
        }),
{
    lemma_listed(s, Order::Series, i, j);
    let a = entries_sorted(s, Order::Series)[i]@.record;
    let b = entries_sorted(s, Order::Series)[j]@.record;
    if a.series is Some && b.series is Some {
        lemma_text_order(sort_text(a.series->0), sort_text(b.series->0), Seq::empty());
    }
}

/// By last read: what was read later comes first, and what was never read comes
/// last, by title among itself.
pub proof fn the_freshest_comes_first(s: Seq<Entry>, i: int, j: int)
    requires
        0 <= i < j < entries_sorted(s, Order::Recent).len(),
    ensures
        ({
            let a = entries_sorted(s, Order::Recent)[i]@;
            let b = entries_sorted(s, Order::Recent)[j]@;
            &&& b.last_read is Some ==> a.last_read is Some
            &&& a.last_read is Some && b.last_read is Some ==> !precedes(
                a.last_read->0,
                b.last_read->0,
            )
            &&& a.last_read is None && b.last_read is None ==> !text_less(
                sort_text(b.record.shown_title()),
                sort_text(a.record.shown_title()),
            )
        }),
{
    lemma_listed(s, Order::Recent, i, j);
}

/// Sorting moves every entry once, and those that an order does not tell apart
/// keep the order they came in.
pub proof fn sorting_is_stable(s: Seq<Entry>, order: Order)
    ensures
        exists|f: Seq<int>| #[trigger]
            rearranges(f, s, entries_sorted(s, order)) && stably(
                f,
                entries_sorted(s, order),
                |a: Entry, b: Entry| entry_less(a, b, order),
            ),
{
    let less = |a: Entry, b: Entry| entry_less(a, b, order);
    lemma_order_ranks(order);
    lemma_sorting_is_stable(s, less);
    let f = choose|f: Seq<int>| #[trigger]
        rearranges(f, s, sorted_by(s, less)) && stably(f, sorted_by(s, less), less);
    assert(entries_sorted(s, order) == sorted_by(s, less));
    assert(rearranges(f, s, entries_sorted(s, order)));
}

// ---------------------------------------------------------------------------
// Sort texts
// ---------------------------------------------------------------------------
/// An article that a title is not filed under, with the space behind it.
pub open spec fn is_article(s: Seq<char>) -> bool {
    let a = ascii_lowered(s);
    a == "the "@ || a == "a "@ || a == "an "@ || a == "der "@ || a == "die "@ || a == "das "@ || a
        == "ein "@ || a == "eine "@
}

proof fn lemma_lower_skip(s: Seq<char>, i: int)
    requires
        0 <= i <= s.len(),
    ensures
        skip_white(ascii_lowered(s), i) == skip_white(s, i),
    decreases s.len() - i,
{
    if i < s.len() {
        assert(is_white(ascii_lower(s[i])) == is_white(s[i]));
        lemma_lower_skip(s, i + 1);
    }
}

proof fn lemma_lower_keep(s: Seq<char>, n: int)
    requires
        0 <= n <= s.len(),
    ensures
        keep_end(ascii_lowered(s), n) == keep_end(s, n),
    decreases n,
{
    if n > 0 {
        assert(is_white(ascii_lower(s[n - 1])) == is_white(s[n - 1]));
        lemma_lower_keep(s, n - 1);
    }
}

/// Lowercase and trimming do not meet.
proof fn lemma_lower_trim(s: Seq<char>)
    ensures
        trim(ascii_lowered(s)) == ascii_lowered(trim(s)),
{
    let t = trim_start(s);
    lemma_lower_skip(s, 0);
    lemma_skip_white(s, 0);
    assert(trim_start(ascii_lowered(s)) =~= ascii_lowered(t));
    lemma_lower_keep(t, t.len() as int);
    lemma_keep_end(t, t.len() as int);
    assert(trim_end(ascii_lowered(t)) =~= ascii_lowered(trim_end(t)));
}

proof fn lemma_trim_ascii(s: Seq<char>)
    requires
        all_ascii(s),
    ensures
        all_ascii(trim(s)),
        text_lowercase(trim(s)) == ascii_lowered(trim(s)),
{
    lemma_skip_white(s, 0);
    let t = trim_start(s);
    assert forall|i: int| 0 <= i < t.len() implies crate::text::is_ascii(#[trigger] t[i]) by {
        assert(t[i] == s[skip_white(s, 0) + i]);
    }
    lemma_keep_end(t, t.len() as int);
    assert forall|i: int| 0 <= i < trim(s).len() implies crate::text::is_ascii(
        #[trigger] trim(s)[i],
    ) by {
        assert(trim(s)[i] == t[i]);
    }
}

/// Two texts that differ in the case of their letters are sorted alike.
pub proof fn case_does_not_decide_the_order(a: Seq<char>, b: Seq<char>)
    requires
        all_ascii(a),
        all_ascii(b),
        ascii_lowered(a) == ascii_lowered(b),
    ensures
        sort_text(a) == sort_text(b),
{
    lemma_trim_ascii(a);
    lemma_trim_ascii(b);
    lemma_lower_trim(a);
    lemma_lower_trim(b);
}

/// A leading article does not decide the order: what follows it does, in small
/// letters.
pub proof fn an_article_does_not_decide_the_order(article: Seq<char>, rest: Seq<char>)
    requires
        is_article(article),
        all_ascii(article),
        all_ascii(rest),
        rest.len() > 0,
        !is_white(rest[0]),
    ensures
        sort_text(article + rest) == ascii_lowered(trim_end(rest)),
{
    let s = article + rest;
    assert(all_ascii(s));
    reveal_strlit("the ");
    reveal_strlit("a ");
    reveal_strlit("an ");
    reveal_strlit("der ");
    reveal_strlit("die ");
    reveal_strlit("das ");
    reveal_strlit("ein ");
    reveal_strlit("eine ");
    let a = ascii_lowered(article);
    assert(a.len() == article.len());
    assert(a[0] == ascii_lower(article[0]));
    assert(!is_white(article[0]));
    assert(skip_white(s, 0) == 0);
    assert(trim_start(s) =~= s);
    lemma_keep_nonblank(rest, rest.len() as int, 0);
    crate::text::lemma_keep_suffix(article, rest, rest.len() as int);
    lemma_keep_end(rest, rest.len() as int);
    assert(trim(s) =~= article + trim_end(rest));
    lemma_trim_ascii(s);
    let low = ascii_lowered(trim(s));
    let tail = ascii_lowered(trim_end(rest));
    assert(low =~= a + tail);
    assert(low.skip(a.len() as int) =~= tail);
    assert(low.subrange(0, a.len() as int) =~= a);
    assert forall|p: Seq<char>| #[trigger] occurs_at(low, p, 0) && p.len() == a.len() implies p
        == a by {
        assert(low.subrange(0, p.len() as int) == p);
    }
    assert forall|p: Seq<char>, k: int|
        0 <= k < p.len() && #[trigger] occurs_at(low, p, 0) implies low[k] == #[trigger] p[k] by {
        assert(low.subrange(0, p.len() as int)[k] == low[k]);
    }
    lemma_only_article(low, a);
}

/// A text that begins with an article begins with no other.
proof fn lemma_only_article(low: Seq<char>, a: Seq<char>)
    requires
        occurs_at(low, a, 0),
        a == "the "@ || a == "a "@ || a == "an "@ || a == "der "@ || a == "die "@ || a == "das "@
            || a == "ein "@ || a == "eine "@,
    ensures
        occurs_at(low, "the "@, 0) ==> a == "the "@,
        occurs_at(low, "a "@, 0) ==> a == "a "@,
        occurs_at(low, "an "@, 0) ==> a == "an "@,
        occurs_at(low, "der "@, 0) ==> a == "der "@,
        occurs_at(low, "die "@, 0) ==> a == "die "@,
        occurs_at(low, "das "@, 0) ==> a == "das "@,
        occurs_at(low, "ein "@, 0) ==> a == "ein "@,
        occurs_at(low, "eine "@, 0) ==> a == "eine "@,
        "the "@.len() == 4 && "a "@.len() == 2 && "an "@.len() == 3 && "der "@.len() == 4
            && "die "@.len() == 4 && "das "@.len() == 4 && "ein "@.len() == 4 && "eine "@.len()
            == 5,
{
    reveal_strlit("the ");
    reveal_strlit("a ");
    reveal_strlit("an ");
    reveal_strlit("der ");
    reveal_strlit("die ");
    reveal_strlit("das ");
    reveal_strlit("ein ");
    reveal_strlit("eine ");
    lemma_begins(low, a);
    lemma_begins(low, "the "@);
    lemma_begins(low, "a "@);
    lemma_begins(low, "an "@);
    lemma_begins(low, "der "@);
    lemma_begins(low, "die "@);
    lemma_begins(low, "das "@);
    lemma_begins(low, "ein "@);
    lemma_begins(low, "eine "@);
}

/// The first characters of a text that begins with `p`.
proof fn lemma_begins(low: Seq<char>, p: Seq<char>)
    requires
        p.len() >= 2,
    ensures
        occurs_at(low, p, 0) ==> low.len() >= p.len() && low[0] == p[0] && low[1] == p[1],
        occurs_at(low, p, 0) && p.len() >= 3 ==> low[2] == p[2],
        occurs_at(low, p, 0) && p.len() >= 4 ==> low[3] == p[3],
        occurs_at(low, p, 0) && p.len() >= 5 ==> low[4] == p[4],
{
    if occurs_at(low, p, 0) {
        let q = low.subrange(0, p.len() as int);
        assert(q[0] == low[0] && q[1] == low[1]);
        if p.len() >= 3 {
            assert(q[2] == low[2]);
        }
        if p.len() >= 4 {
            assert(q[3] == low[3]);
        }
        if p.len() >= 5 {
            assert(q[4] == low[4]);
        }
    }
}

proof fn lemma_keep_nonblank(s: Seq<char>, n: int, k: int)
    requires
        0 <= k < n <= s.len(),
        !is_white(s[k]),
    ensures
        k < keep_end(s, n),
    decreases n,
{
    if n - 1 > k && is_white(s[n - 1]) {
        lemma_keep_nonblank(s, n - 1, k);
    }
}

/// A text without an article is sorted by all of it, in small letters and without
/// the white space around it.
pub proof fn other_texts_are_sorted_whole(s: Seq<char>)
    requires
        all_ascii(s),
        forall|n: int| 0 <= n <= trim(s).len() ==> !is_article(#[trigger] trim(s).take(n)),
    ensures
        sort_text(s) == ascii_lowered(trim(s)),
{
    lemma_trim_ascii(s);
    let t = trim(s);
    let low = ascii_lowered(t);
    assert forall|p: Seq<char>| #[trigger] occurs_at(low, p, 0) implies p == ascii_lowered(
        t.take(p.len() as int),
    ) by {
        assert(low.subrange(0, p.len() as int) =~= ascii_lowered(t.take(p.len() as int)));
    }
    assert(occurs_at(low, "the "@, 0) ==> is_article(t.take("the "@.len() as int)));
    assert(occurs_at(low, "a "@, 0) ==> is_article(t.take("a "@.len() as int)));
    assert(occurs_at(low, "an "@, 0) ==> is_article(t.take("an "@.len() as int)));
    assert(occurs_at(low, "der "@, 0) ==> is_article(t.take("der "@.len() as int)));
    assert(occurs_at(low, "die "@, 0) ==> is_article(t.take("die "@.len() as int)));
    assert(occurs_at(low, "das "@, 0) ==> is_article(t.take("das "@.len() as int)));
    assert(occurs_at(low, "ein "@, 0) ==> is_article(t.take("ein "@.len() as int)));
    assert(occurs_at(low, "eine "@, 0) ==> is_article(t.take("eine "@.len() as int)));
}

// ---------------------------------------------------------------------------
// Filter
// ---------------------------------------------------------------------------
/// A text speaks of the needle, which is in small letters: at the start of a
/// word, or anywhere.
pub open spec fn speaks(text: Seq<char>, needle: Seq<char>, word: bool) -> bool {
    exists|i: int| #[trigger]
        occurs_at(text_lowercase(text), needle, i) && (!word || i == 0
            || !crate::text::alphanumeric(text_lowercase(text)[i - 1]))
}

/// Title, authors, series or tags of a book speak of the needle.
pub open spec fn concerns(r: RecordView, needle: Seq<char>, word: bool) -> bool {
    ||| speaks(r.shown_title(), needle, word)
    ||| speaks(r.shown_authors(), needle, word)
    ||| speaks(
        match r.series {
            Some(s) => s,
            None => Seq::empty(),
        },
        needle,
        word,
    )
    ||| speaks(joined(r.tags, " "@), needle, word)
}

proof fn lemma_concerns(e: EntryView, needle: Seq<char>, word: bool)
    ensures
        entry_matches(e, needle, word) == concerns(e.record, needle, word),
{
    let f = fields(e);
    let r = e.record;
    let series = match r.series {
        Some(s) => s,
        None => Seq::empty(),
    };
    assert(f[0] == text_lowercase(r.shown_title()));
    assert(f[1] == text_lowercase(r.shown_authors()));
    assert(f[2] == text_lowercase(series));
    assert(f[3] == text_lowercase(joined(r.tags, " "@)));
    lemma_speaks(r.shown_title(), needle, word);
    lemma_speaks(r.shown_authors(), needle, word);
    lemma_speaks(series, needle, word);
    lemma_speaks(joined(r.tags, " "@), needle, word);
    if entry_matches(e, needle, word) {
        let i = choose|i: int|
            0 <= i < f.len() && (if word {
                at_word_start(#[trigger] f[i], needle)
            } else {
                contains_text(f[i], needle)
            });
        assert(i == 0 || i == 1 || i == 2 || i == 3);
    }
}

proof fn lemma_speaks(text: Seq<char>, needle: Seq<char>, word: bool)
    ensures
        speaks(text, needle, word) == (if word {
            at_word_start(text_lowercase(text), needle)
        } else {
            contains_text(text_lowercase(text), needle)
        }),
{
    let low = text_lowercase(text);
    if word && at_word_start(low, needle) {
        let i = choose|i: int| #[trigger]
            occurs_at(low, needle, i) && (i == 0 || !crate::text::alphanumeric(low[i - 1]));
        assert(occurs_at(text_lowercase(text), needle, i));
    }
    if !word && contains_text(low, needle) {
        let i = choose|i: int| #[trigger] occurs_at(low, needle, i);
        assert(occurs_at(text_lowercase(text), needle, i));
    }
}

proof fn lemma_matching(s: Seq<EntryView>, needle: Seq<char>, word: bool)
    ensures
        forall|e: EntryView| #[trigger]
            matching(s, needle, word).contains(e) <==> s.contains(e) && concerns(
                e.record,
                needle,
                word,
            ),
    decreases s.len(),
{
    let kept = matching(s, needle, word);
    if s.len() > 0 {
        let d = s.drop_last();
        let x = s.last();
        let front = matching(d, needle, word);
        lemma_matching(d, needle, word);
        lemma_concerns(x, needle, word);
        assert forall|e: EntryView| #[trigger] kept.contains(e) <==> s.contains(e) && concerns(
            e.record,
            needle,
            word,
        ) by {
            assert(s.contains(e) <==> d.contains(e) || e == x) by {
                if d.contains(e) {
                    let i = choose|i: int| 0 <= i < d.len() && d[i] == e;
                    assert(s[i] == e);
                }
                assert(s[s.len() - 1] == x);
                if s.contains(e) {
                    let i = choose|i: int| 0 <= i < s.len() && s[i] == e;
                    if i < d.len() {
                        assert(d[i] == e);
                    }
                }
            }
            if concerns(x.record, needle, word) {
                assert(kept == front.push(x));
                if front.contains(e) {
                    let i = choose|i: int| 0 <= i < front.len() && front[i] == e;
                    assert(kept[i] == e);
                }
                assert(kept[front.len() as int] == x);
                if kept.contains(e) {
                    let i = choose|i: int| 0 <= i < kept.len() && kept[i] == e;
                    if i < front.len() {
                        assert(front[i] == e);
                    }
                }
            }
        }
    }
}

/// A filter keeps the books whose title, authors, series or tags have the needle
/// at the start of a word. Where no book has it there, it keeps those that have it
/// anywhere. What it keeps stays in its order, and a blank filter keeps all.
pub proof fn a_filter_keeps_what_it_names(s: Seq<EntryView>, needle: Seq<char>, e: EntryView)
    ensures
        blank(needle) ==> filtered(s, needle) == s,
        exists|at: Seq<int>| #[trigger] picks(at, s, filtered(s, needle)),
        !blank(needle) ==> ({
            let n = text_lowercase(trim(needle));
            let any = exists|x: EntryView| #[trigger] s.contains(x) && concerns(x.record, n, true);
            filtered(s, needle).contains(e) <==> s.contains(e) && concerns(e.record, n, any)
        }),
{
    let n = text_lowercase(trim(needle));
    lemma_matching(s, n, true);
    lemma_matching(s, n, false);
    filtering_keeps_the_order(s, n, true);
    filtering_keeps_the_order(s, n, false);
    if blank(needle) {
        let at = Seq::new(s.len(), |i: int| i);
        assert(picks(at, s, filtered(s, needle)));
    } else if matching(s, n, true).len() > 0 {
        let x = matching(s, n, true)[0];
        assert(matching(s, n, true).contains(x));
        assert(s.contains(x) && concerns(x.record, n, true));
        let at = choose|at: Seq<int>| #[trigger] picks(at, s, matching(s, n, true));
        assert(picks(at, s, filtered(s, needle)));
    } else {
        assert forall|x: EntryView| #[trigger] s.contains(x) implies !concerns(
            x.record,
            n,
            true,
        ) by {
            assert(!matching(s, n, true).contains(x));
        }
        let at = choose|at: Seq<int>| #[trigger] picks(at, s, matching(s, n, false));
        assert(picks(at, s, filtered(s, needle)));
    }
}

/// The case of a needle and the white space around it make no difference.
pub proof fn needles_are_taken_without_their_case(
    s: Seq<EntryView>,
    a: Seq<char>,
    b: Seq<char>,
)
    requires
        all_ascii(a),
        all_ascii(b),
        ascii_lowered(trim(a)) == ascii_lowered(trim(b)),
    ensures
        filtered(s, a) == filtered(s, b),
{
    lemma_trim_ascii(a);
    lemma_trim_ascii(b);
    crate::text::lemma_trim_empty(a);
    crate::text::lemma_trim_empty(b);
    assert(trim(a).len() == ascii_lowered(trim(a)).len());
    assert(trim(b).len() == ascii_lowered(trim(b)).len());
}

} // verus!
