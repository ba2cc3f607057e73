//! Searching the whole library and opening a hit.
//!
//! Where qmd is installed, its index answers: fast, and by meaning as well as by
//! wording. Where it is not, the library is searched directly - slower, because
//! every book has to be unpacked, but the command works either way rather than
//! demanding a second tool.

pub mod laws;

use vstd::prelude::*;
use crate::doc::BlockView;
use crate::epub::{book_opened, chapter_at, entry_title, Book, BookView};
use crate::export::origin::{origin, parse_origin};
use crate::failure::{joined, Failure};
use crate::identity::BookId;
use crate::journal::{State, StateView};
use crate::library::{
    entries, entry_views, lemma_rows_sorted, rows, rows_sorted, sort, Entry, EntryView, Order,
};
use crate::paths::{join_path, path_joined};
use crate::search::{all_hits, block_hits, find_all, hits_in, matches_at, matches_from};
use crate::text::{
    blank, char_views, chars_are, chars_of, copy_text, find_chars, find_from, is_white,
    lemma_find_from, lines, lines_of, number_value, occurs_at, push_chars, push_text, read_number,
    stands_at, sub_chars, text_of, text_opt, trim, trim_start, trimmed, trimmed_start, white, words,
    words_of,
};

verus! {

/// One hit, whatever found it.
#[derive(Debug)]
pub struct Hit {
    /// Book title, for the list.
    pub book_title: String,
    pub chapter_title: String,
    /// What to open.
    pub book: BookId,
    pub chapter_href: Option<String>,
    /// Passage to jump to inside the chapter.
    pub passage: Option<String>,
    /// Text to show in the list.
    pub snippet: String,
}

#[verifier::ext_equal]
pub struct HitView {
    pub book_title: Seq<char>,
    pub chapter_title: Seq<char>,
    pub book: Seq<char>,
    pub chapter_href: Option<Seq<char>>,
    pub passage: Option<Seq<char>>,
    pub snippet: Seq<char>,
}

impl View for Hit {
    type V = HitView;

    open spec fn view(&self) -> HitView {
        HitView {
            book_title: self.book_title@,
            chapter_title: self.chapter_title@,
            book: self.book@,
            chapter_href: text_opt(self.chapter_href),
            passage: text_opt(self.passage),
            snippet: self.snippet@,
        }
    }
}

pub open spec fn hit_views(s: Seq<Hit>) -> Seq<HitView> {
    s.map_values(|h: Hit| h@)
}

/// Where the hits came from, for the status line.
#[derive(Debug, Clone, Copy, PartialEq, Eq, Structural)]
pub enum Source {
    /// qmd's index answered.
    Index,
    /// The books were read directly.
    Direct,
}

#[derive(Debug)]
pub struct Results {
    pub hits: Vec<Hit>,
    pub source: Source,
    pub query: String,
}

/// The answer of the index, where it has one. An index that is absent and one
/// that found nothing are the same: the library is then searched directly.
pub fn answered(index: Option<Vec<Hit>>, query: &str) -> (r: Option<Results>)
    ensures
        r is Some <==> index is Some && index->0@.len() > 0,
        r matches Some(found) ==> found.hits@ == index->0@ && found.source == Source::Index
            && found.query@ == query@,
{
    match index {
        Some(hits) => if hits.len() > 0 {
            Some(Results { hits, source: Source::Index, query: copy_text(query) })
        } else {
            None
        },
        None => None,
    }
}

// ----- words -----
/// The words of a text with one space between them.
pub open spec fn squeezed(s: Seq<char>) -> Seq<char> {
    joined(words_of(s), seq![' '])
}

/// Joins the first `n` words.
fn join_words(parts: &Vec<Vec<char>>, n: usize) -> (r: Vec<char>)
    requires
        n <= parts@.len(),
    ensures
        r@ == joined(char_views(parts@).take(n as int), seq![' ']),
{
    let ghost all = char_views(parts@);
    let mut out: Vec<char> = Vec::new();
    let mut i: usize = 0;
    assert(all.take(0) =~= Seq::<Seq<char>>::empty());
    while i < n
        invariant
            i <= n <= parts@.len(),
            all == char_views(parts@),
            out@ == joined(all.take(i as int), seq![' ']),
        decreases n - i,
    {
        let ghost before = out@;
        if i > 0 {
            out.push(' ');
            assert(out@ =~= before + seq![' ']);
        }
        push_chars(&mut out, &parts[i]);
        i += 1;
        assert(all.take(i as int).drop_last() =~= all.take(i - 1));
        assert(out@ =~= joined(all.take(i as int), seq![' ']));
    }
    out
}

pub(crate) fn squeeze(v: &Vec<char>) -> (r: Vec<char>)
    ensures
        r@ == squeezed(v@),
{
    let parts = words(v);
    let n = parts.len();
    assert(char_views(parts@).take(n as int) =~= char_views(parts@));
    join_words(&parts, n)
}

/// How many words of a passage are searched for.
pub const PASSAGE_WORDS: usize = 8;

/// The first words of a line, as something to search for, where there are at
/// least so many.
pub open spec fn words_from_first(line: Seq<char>, least: int) -> Option<Seq<char>> {
    let all = words_of(line);
    let first = if all.len() > PASSAGE_WORDS {
        all.take(PASSAGE_WORDS as int)
    } else {
        all
    };
    if first.len() < least {
        None
    } else {
        Some(joined(first, seq![' ']))
    }
}

/// The first words of a line. One word alone says too little.
pub open spec fn opening(line: Seq<char>) -> Option<Seq<char>> {
    words_from_first(line, 2)
}

pub(crate) fn opening_words(line: &Vec<char>, least: usize) -> (r: Option<String>)
    ensures
        text_opt(r) == words_from_first(line@, least as int),
{
    let all = words(line);
    let n = if all.len() > PASSAGE_WORDS {
        PASSAGE_WORDS
    } else {
        all.len()
    };
    assert(all@.len() == words_of(line@).len());
    if n < least {
        return None;
    }
    assert(n == all@.len() ==> char_views(all@).take(n as int) =~= char_views(all@));
    let first = join_words(&all, n);
    Some(text_of(&first))
}

// ----- via qmd -----
/// The payload of an answer of qmd: the JSON array that follows its progress
/// markers.
pub open spec fn payload(text: Seq<char>) -> Option<Seq<char>> {
    match find_from(text, seq!['['], 0) {
        Some(i) => Some(text.subrange(i, text.len() as int)),
        None => None,
    }
}

/// The JSON array in an answer of qmd, which writes progress markers to the same
/// stream.
pub fn payload_of(text: &str) -> (r: Option<String>)
    ensures
        text_opt(r) == payload(text@),
{
    let v = chars_of(text);
    let bracket: Vec<char> = vec!['['];
    assert(bracket@ =~= seq!['[']);
    match find_chars(&v, &bracket, 0) {
        Some(i) => {
            proof {
                lemma_find_from(v@, bracket@, 0);
            }
            let rest = sub_chars(&v, i, v.len());
            Some(text_of(&rest))
        },
        None => None,
    }
}

/// A chapter heading without the book title in front of it.
pub open spec fn without_book(title: Seq<char>, book: Seq<char>) -> Seq<char> {
    let prefix = book + " · "@;
    trim(
        if occurs_at(title, prefix, 0) {
            title.subrange(prefix.len() as int, title.len() as int)
        } else {
            title
        },
    )
}

/// Removes a leading book title from a chapter heading.
pub fn strip_book_prefix(title: &str, book: &str) -> (r: String)
    ensures
        r@ == without_book(title@, book@),
{
    let whole = chars_of(title);
    let mut prefix = chars_of(book);
    push_text(&mut prefix, " · ");
    let rest = if stands_at(&whole, &prefix, 0) {
        sub_chars(&whole, prefix.len(), whole.len())
    } else {
        whole
    };
    let kept = trimmed(&rest);
    text_of(&kept)
}

/// The last place of a character among the first `n`.
pub open spec fn last_place(s: Seq<char>, c: char, n: int) -> Option<int>
    decreases n,
{
    if n <= 0 || n > s.len() {
        None
    } else if s[n - 1] == c {
        Some(n - 1)
    } else {
        last_place(s, c, n - 1)
    }
}

pub(crate) fn find_last(v: &Vec<char>, c: char) -> (r: Option<usize>)
    ensures
        match last_place(v@, c, v@.len() as int) {
            Some(i) => r is Some && r->0 == i && i < v@.len(),
            None => r is None,
        },
{
    let mut n: usize = v.len();
    while n > 0
        invariant
            n <= v@.len(),
            last_place(v@, c, v@.len() as int) == last_place(v@, c, n as int),
        decreases n,
    {
        if v[n - 1] == c {
            return Some(n - 1);
        }
        n -= 1;
    }
    None
}

/// A reference and the line behind its last colon, where there is a number.
pub open spec fn reference_parts(reference: Seq<char>) -> (Seq<char>, Option<int>) {
    match last_place(reference, ':', reference.len() as int) {
        Some(i) => match number_value(reference.subrange(i + 1, reference.len() as int)) {
            Some(n) => if n <= usize::MAX {
                (reference.take(i), Some(n))
            } else {
                (reference, None)
            },
            None => (reference, None),
        },
        None => (reference, None),
    }
}

/// The file that a reference names. The name of the collection is dropped; the
/// rest is relative to the export.
pub open spec fn reference_path(body: Seq<char>, export_dir: Seq<char>) -> Seq<char> {
    if occurs_at(body, "qmd://"@, 0) {
        let rest = body.subrange("qmd://"@.len() as int, body.len() as int);
        path_joined(
            export_dir,
            match find_from(rest, seq!['/'], 0) {
                Some(i) => rest.subrange(i + 1, rest.len() as int),
                None => rest,
            },
        )
    } else {
        body
    }
}

/// Turns `qmd://collection/relative/path.md:12` into a path and a line.
pub fn split_qmd_reference(reference: &str, export_dir: &str) -> (r: (String, Option<usize>))
    ensures
        r.0@ == reference_path(reference_parts(reference@).0, export_dir@),
        match reference_parts(reference@).1 {
            Some(n) => r.1 is Some && r.1->0 == n,
            None => r.1 is None,
        },
{
    let whole = chars_of(reference);
    let total = whole.len();
    let mut body = chars_of(reference);
    let mut line: Option<usize> = None;
    if let Some(i) = find_last(&whole, ':') {
        let tail = sub_chars(&whole, i + 1, total);
        if let Some(n) = read_number(&tail, usize::MAX as u64) {
            body = sub_chars(&whole, 0, i);
            line = Some(n as usize);
            assert(whole@.subrange(0, i as int) =~= whole@.take(i as int));
        }
    }
    let scheme = chars_of("qmd://");
    let length = body.len();
    if !stands_at(&body, &scheme, 0) {
        return (text_of(&body), line);
    }
    let rest = sub_chars(&body, scheme.len(), length);
    let slash: Vec<char> = vec!['/'];
    assert(slash@ =~= seq!['/']);
    let n = rest.len();
    let relative = match find_chars(&rest, &slash, 0) {
        Some(i) => {
            proof {
                lemma_find_from(rest@, slash@, 0);
                assert(i + 1 <= n);
            }
            sub_chars(&rest, i + 1, n)
        },
        None => rest,
    };
    let relative = text_of(&relative);
    (join_path(export_dir, &relative), line)
}

/// A bare key: small letters and underscores.
pub open spec fn bare_key(key: Seq<char>) -> bool {
    key.len() > 0 && forall|i: int|
        0 <= i < key.len() ==> 'a' <= #[trigger] key[i] <= 'z' || key[i] == '_'
}

/// A line that belongs to the exported file rather than to the book: the front
/// matter, and qmd's own diff-style header.
pub open spec fn bookkeeping(line: Seq<char>) -> bool {
    let s = trim(line);
    ||| occurs_at(s, "@@"@, 0)
    ||| s == "---"@
    ||| match find_from(s, seq![':'], 0) {
        // A front matter entry: a bare key, a colon, then a quoted value.
        Some(i) => bare_key(s.take(i)) && occurs_at(
            trim_start(s.subrange(i + 1, s.len() as int)),
            seq!['"'],
            0,
        ),
        None => false,
    }
}

fn is_bare_key(v: &Vec<char>, n: usize) -> (r: bool)
    requires
        n <= v@.len(),
    ensures
        r == bare_key(v@.take(n as int)),
{
    let mut i: usize = 0;
    while i < n
        invariant
            i <= n <= v@.len(),
            forall|k: int| 0 <= k < i ==> 'a' <= #[trigger] v@[k] <= 'z' || v@[k] == '_',
        decreases n - i,
    {
        let c = v[i];
        if !(('a' <= c && c <= 'z') || c == '_') {
            assert(v@.take(n as int)[i as int] == c);
            return false;
        }
        i += 1;
    }
    proof {
        let key = v@.take(n as int);
        assert forall|k: int| 0 <= k < key.len() implies 'a' <= #[trigger] key[k] <= 'z' || key[k]
            == '_' by {
            assert(key[k] == v@[k]);
        }
    }
    n > 0
}

fn keeps_books(line: &Vec<char>) -> (r: bool)
    ensures
        r == bookkeeping(line@),
{
    let s = trimmed(line);
    let marker = chars_of("@@");
    if stands_at(&s, &marker, 0) || chars_are(&s, "---") {
        return true;
    }
    let colon: Vec<char> = vec![':'];
    assert(colon@ =~= seq![':']);
    let n = s.len();
    match find_chars(&s, &colon, 0) {
        Some(i) => {
            proof {
                lemma_find_from(s@, colon@, 0);
                assert(i + 1 <= n);
            }
            if !is_bare_key(&s, i) {
                return false;
            }
            let value = sub_chars(&s, i + 1, n);
            let value = trimmed_start(&value);
            let quote: Vec<char> = vec!['"'];
            assert(quote@ =~= seq!['"']);
            stands_at(&value, &quote, 0)
        },
        None => false,
    }
}

/// True for lines that belong to the exported file rather than to the book: the
/// front matter naming book and chapter, and qmd's own diff-style header.
///
/// Both are indexed along with the text, so a search for words that appear in a
/// chapter title finds them there. Showing that as the passage would put file
/// bookkeeping where the reader expects a sentence from the book.
pub fn is_bookkeeping(line: &str) -> (r: bool)
    ensures
        r == bookkeeping(line@),
{
    let v = chars_of(line);
    keeps_books(&v)
}

/// Lines of book text.
pub open spec fn prose(lines: Seq<Seq<char>>) -> Seq<Seq<char>>
    decreases lines.len(),
{
    if lines.len() == 0 {
        lines
    } else {
        let front = prose(lines.drop_last());
        if !bookkeeping(lines.last()) && !blank(lines.last()) {
            front.push(lines.last())
        } else {
            front
        }
    }
}

fn is_blank_line(v: &Vec<char>) -> (r: bool)
    ensures
        r == blank(v@),
{
    let mut i: usize = 0;
    while i < v.len()
        invariant
            i <= v@.len(),
            forall|k: int| 0 <= k < i ==> is_white(#[trigger] v@[k]),
        decreases v@.len() - i,
    {
        if !white(v[i]) {
            return false;
        }
        i += 1;
    }
    true
}

fn prose_of(text: &str) -> (r: Vec<Vec<char>>)
    ensures
        char_views(r@) == prose(lines_of(text@)),
{
    let v = chars_of(text);
    let all = lines(&v);
    let ghost views = char_views(all@);
    let mut out: Vec<Vec<char>> = Vec::new();
    let mut i: usize = 0;
    assert(views.take(0) =~= Seq::<Seq<char>>::empty());
    assert(char_views(out@) =~= Seq::<Seq<char>>::empty());
    while i < all.len()
        invariant
            i <= all@.len(),
            views == char_views(all@),
            views.len() == all@.len(),
            char_views(out@) == prose(views.take(i as int)),
        decreases all@.len() - i,
    {
        assert(views.take(i + 1).drop_last() =~= views.take(i as int));
        assert(views.take(i + 1).last() == all@[i as int]@);
        if !keeps_books(&all[i]) && !is_blank_line(&all[i]) {
            let ghost before = char_views(out@);
            let line = sub_chars(&all[i], 0, all[i].len());
            assert(line@ =~= all@[i as int]@);
            out.push(line);
            assert(char_views(out@) =~= before.push(line@));
        }
        i += 1;
    }
    assert(views.take(views.len() as int) =~= views);
    out
}

/// The first line at or after `i` that is no heading.
pub open spec fn first_unheaded(lines: Seq<Seq<char>>, i: int) -> Option<Seq<char>>
    decreases lines.len() - i,
{
    if i < 0 || i >= lines.len() {
        None
    } else if lines[i].len() > 0 && lines[i][0] == '#' {
        first_unheaded(lines, i + 1)
    } else {
        Some(lines[i])
    }
}

/// The first real sentence of a snippet.
pub open spec fn passage(snippet: Seq<char>) -> Option<Seq<char>> {
    match first_unheaded(prose(lines_of(snippet)), 0) {
        Some(line) => opening(line),
        None => None,
    }
}

/// The first real sentence of a snippet, as something to search for in the book.
pub fn passage_of(snippet: &str) -> (r: Option<String>)
    ensures
        text_opt(r) == passage(snippet@),
{
    let all = prose_of(snippet);
    let ghost views = char_views(all@);
    let mut i: usize = 0;
    while i < all.len()
        invariant
            i <= all@.len(),
            views == char_views(all@),
            views == prose(lines_of(snippet@)),
            views.len() == all@.len(),
            first_unheaded(views, 0) == first_unheaded(views, i as int),
        decreases all@.len() - i,
    {
        assert(views[i as int] == all@[i as int]@);
        if !(all[i].len() > 0 && all[i][0] == '#') {
            return opening_words(&all[i], 2);
        }
        i += 1;
    }
    None
}

/// What stands between the first and the second closing mark, or the whole text.
pub open spec fn after_front(text: Seq<char>) -> Seq<char> {
    let mark = seq!['\n', '-', '-', '-'];
    match find_from(text, mark, 0) {
        Some(i) => {
            let rest = text.subrange(i + 4, text.len() as int);
            match find_from(rest, mark, 0) {
                Some(j) => rest.take(j),
                None => rest,
            }
        },
        None => text,
    }
}

/// The first line at or after `i`, trimmed, that is book text and no heading.
pub open spec fn first_sentence(lines: Seq<Seq<char>>, i: int) -> Option<Seq<char>>
    decreases lines.len() - i,
{
    if i < 0 || i >= lines.len() {
        None
    } else {
        let s = trim(lines[i]);
        if s.len() > 0 && s[0] != '#' && !bookkeeping(s) {
            Some(s)
        } else {
            first_sentence(lines, i + 1)
        }
    }
}

/// The first sentence of an exported chapter, for a hit that matched its title.
pub fn first_prose(text: &str) -> (r: Option<String>)
    ensures
        text_opt(r) == first_sentence(lines_of(after_front(text@)), 0),
{
    let whole = chars_of(text);
    let total = whole.len();
    let mark: Vec<char> = vec!['\n', '-', '-', '-'];
    assert(mark@ =~= seq!['\n', '-', '-', '-']);
    let body = match find_chars(&whole, &mark, 0) {
        Some(i) => {
            proof {
                lemma_find_from(whole@, mark@, 0);
                assert(i + 4 <= total);
            }
            let rest = sub_chars(&whole, i + 4, total);
            match find_chars(&rest, &mark, 0) {
                Some(j) => {
                    proof {
                        lemma_find_from(rest@, mark@, 0);
                        assert(rest@.subrange(0, j as int) =~= rest@.take(j as int));
                    }
                    sub_chars(&rest, 0, j)
                },
                None => rest,
            }
        },
        None => whole,
    };
    let all = lines(&body);
    let ghost views = char_views(all@);
    let mut i: usize = 0;
    while i < all.len()
        invariant
            i <= all@.len(),
            views == char_views(all@),
            views == lines_of(after_front(text@)),
            views.len() == all@.len(),
            first_sentence(views, 0) == first_sentence(views, i as int),
        decreases all@.len() - i,
    {
        assert(views[i as int] == all@[i as int]@);
        let s = trimmed(&all[i]);
        if s.len() > 0 && s[0] != '#' && !keeps_books(&s) {
            return Some(text_of(&s));
        }
        i += 1;
    }
    None
}

/// Marks that Markdown puts in front of a line.
pub open spec fn is_mark(c: char) -> bool {
    c == '#' || c == '>' || c == '-' || c == '*' || c == ' '
}

pub open spec fn skip_marks(s: Seq<char>, i: int) -> int
    decreases s.len() - i,
{
    if 0 <= i < s.len() && is_mark(s[i]) {
        skip_marks(s, i + 1)
    } else {
        i
    }
}

/// A line without the marks in front of it.
pub(crate) fn strip_marks(raw: &Vec<char>) -> (r: Vec<char>)
    ensures
        r@ == raw@.subrange(skip_marks(raw@, 0), raw@.len() as int),
{
    let mut start: usize = 0;
    while start < raw.len() && (raw[start] == '#' || raw[start] == '>' || raw[start] == '-'
        || raw[start] == '*' || raw[start] == ' ')
        invariant
            start <= raw@.len(),
            skip_marks(raw@, 0) == skip_marks(raw@, start as int),
        decreases raw@.len() - start,
    {
        start += 1;
    }
    sub_chars(raw, start, raw.len())
}

/// The opening words on a line of a text, counted from one.
pub open spec fn words_on(text: Seq<char>, line: int) -> Option<Seq<char>> {
    let all = lines_of(text);
    let i = if line < 1 {
        0
    } else {
        line - 1
    };
    if i >= all.len() {
        None
    } else {
        let raw = trim(all[i]);
        opening(trim(raw.subrange(skip_marks(raw, 0), raw.len() as int)))
    }
}

/// The opening words on a line of an exported chapter, without the marks in front
/// of them.
pub fn line_text(text: &str, line: usize) -> (r: Option<String>)
    ensures
        text_opt(r) == words_on(text@, line as int),
{
    let v = chars_of(text);
    let all = lines(&v);
    assert(char_views(all@).len() == all@.len());
    let i = if line < 1 {
        0
    } else {
        line - 1
    };
    if i >= all.len() {
        return None;
    }
    assert(char_views(all@)[i as int] == all@[i as int]@);
    let raw = trimmed(&all[i]);
    let cleaned = strip_marks(&raw);
    let cleaned = trimmed(&cleaned);
    opening_words(&cleaned, 2)
}

/// A snippet as one line of book text.
pub open spec fn tidied(snippet: Seq<char>) -> Seq<char> {
    squeezed(joined(prose(lines_of(snippet)), seq![' ']))
}

/// Reduces a snippet to one line of book text for the list.
pub fn tidy(snippet: &str) -> (r: String)
    ensures
        r@ == tidied(snippet@),
{
    let body = prose_of(snippet);
    let n = body.len();
    assert(char_views(body@).take(n as int) =~= char_views(body@));
    let one = join_words(&body, n);
    let out = squeeze(&one);
    text_of(&out)
}

/// What an answer of the index leads to. `text` is the file it names, `line` the
/// line in it. A file without an origin, or of a book that is no longer in the
/// library, leads nowhere.
pub open spec fn index_hit(
    state: StateView,
    title: Seq<char>,
    snippet: Seq<char>,
    line: Option<usize>,
    text: Seq<char>,
) -> Option<HitView> {
    match origin(text) {
        None => None,
        Some(from) => if !state.books.contains_key(from.book) {
            None
        } else {
            let book_title = state.books[from.book].shown_title();
            let chapter_title = without_book(title, book_title);
            let shown = tidied(snippet);
            Some(
                HitView {
                    book_title,
                    chapter_title,
                    book: from.book,
                    chapter_href: from.chapter,
                    passage: match passage(snippet) {
                        Some(p) => Some(p),
                        None => match line {
                            Some(l) => words_on(text, l as int),
                            None => None,
                        },
                    },
                    // The match sat in the front matter where nothing is left, so
                    // the file holds the text to show.
                    snippet: if shown.len() > 0 {
                        shown
                    } else {
                        match first_sentence(lines_of(after_front(text)), 0) {
                            Some(s) => s,
                            None => chapter_title,
                        }
                    },
                },
            )
        },
    }
}

/// Turns an answer of the index into a hit.
pub fn hit_from_index(
    state: &State,
    title: &str,
    snippet: &str,
    line: Option<usize>,
    text: &str,
) -> (r: Option<Hit>)
    requires
        state.wf(),
    ensures
        match index_hit(state@, title@, snippet@, line, text@) {
            Some(h) => r is Some && r->0@ == h,
            None => r is None,
        },
{
    let from = match parse_origin(text) {
        Some(o) => o,
        None => {
            return None;
        },
    };
    let book = BookId::from_text(from.book);
    let record = match state.book(&book) {
        Some(r) => r,
        None => {
            return None;
        },
    };
    let book_title = record.display_title();
    // The exported heading names the book as well, which a search engine needs
    // but a list that already shows the book does not.
    let chapter_title = strip_book_prefix(title, &book_title);
    let mut shown = tidy(snippet);
    let passage = match passage_of(snippet) {
        Some(p) => Some(p),
        None => match line {
            Some(l) => line_text(text, l),
            None => None,
        },
    };
    if shown.as_str().is_empty() {
        shown = match first_prose(text) {
            Some(s) => s,
            None => chapter_title.clone(),
        };
    }
    Some(
        Hit {
            book_title,
            chapter_title,
            book,
            chapter_href: from.chapter,
            passage,
            snippet: shown,
        },
    )
}

// ----- without qmd -----
/// The books in the order they are searched in: recently read ones first, because
/// what is looked for is more likely there.
pub fn candidates(state: &State) -> (r: Vec<Entry>)
    requires
        state.wf(),
    ensures
        entry_views(r@) == rows_sorted(rows(*state), Order::Recent),
{
    let mut all = entries(state);
    let ghost before = all@;
    sort(&mut all, Order::Recent);
    proof {
        lemma_rows_sorted(before, Order::Recent);
    }
    all
}

/// How much text is shown before and after a match.
pub const BEFORE: usize = 40;

pub const AFTER: usize = 140;

/// The text around a match, on one line, with an ellipsis wherever it was cut.
pub open spec fn window(text: Seq<char>, offset: int, length: int) -> Seq<char> {
    let start = if offset - BEFORE < 0 {
        0
    } else if offset - BEFORE > text.len() {
        text.len() as int
    } else {
        offset - BEFORE
    };
    let end = if offset + length + AFTER < text.len() {
        offset + length + AFTER
    } else {
        text.len() as int
    };
    let left = if start > 0 {
        seq!['…']
    } else {
        Seq::empty()
    };
    let right = if end < text.len() {
        seq!['…']
    } else {
        Seq::empty()
    };
    squeezed(left + text.subrange(start, end) + right)
}

/// The text around a match, on one line.
pub fn around(text: &str, offset: usize, length: usize) -> (r: String)
    ensures
        r@ == window(text@, offset as int, length as int),
{
    let v = chars_of(text);
    let total = v.len();
    let start = if offset < BEFORE {
        0
    } else if offset - BEFORE > total {
        total
    } else {
        offset - BEFORE
    };
    let end = match offset.checked_add(length) {
        Some(n) => match n.checked_add(AFTER) {
            Some(m) => if m < total {
                m
            } else {
                total
            },
            None => total,
        },
        None => total,
    };
    let mut out: Vec<char> = Vec::new();
    if start > 0 {
        out.push('…');
    }
    let middle = sub_chars(&v, start, end);
    let ghost left = out@;
    push_chars(&mut out, &middle);
    if end < total {
        out.push('…');
    }
    proof {
        let right = if end < total {
            seq!['…']
        } else {
            Seq::<char>::empty()
        };
        let l = if start > 0 {
            seq!['…']
        } else {
            Seq::<char>::empty()
        };
        assert(left =~= l);
        assert(out@ =~= l + v@.subrange(start as int, end as int) + right);
    }
    let out = squeeze(&out);
    text_of(&out)
}

/// The hit in a chapter, if it holds the query. One per chapter: a list of forty
/// hits from one chapter would bury the other books.
pub open spec fn chapter_hit(
    entry: EntryView,
    book: BookView,
    index: int,
    query: Seq<char>,
) -> Option<HitView> {
    match chapter_at(book, index) {
        Err(_) => None,
        Ok(chapter) => {
            let found = all_hits(chapter.blocks, query);
            if found.len() == 0 {
                None
            } else {
                let block = found[0].0 as int;
                let text = if block < chapter.blocks.len() {
                    chapter.blocks[block].plain()
                } else {
                    Seq::empty()
                };
                Some(
                    HitView {
                        book_title: entry.record.shown_title(),
                        chapter_title: entry_title(book.spine[index], index),
                        book: entry.id,
                        chapter_href: Some(chapter.href),
                        passage: Some(query),
                        snippet: window(text, found[0].1 as int, query.len() as int),
                    },
                )
            }
        },
    }
}

/// The hits with those of the chapters from `index` on added, until there are
/// enough.
pub open spec fn hits_from(
    hits: Seq<HitView>,
    entry: EntryView,
    book: BookView,
    query: Seq<char>,
    limit: int,
    index: int,
) -> Seq<HitView>
    decreases book.spine.len() - index,
{
    if index < 0 || index >= book.spine.len() || hits.len() >= limit {
        hits
    } else {
        match chapter_hit(entry, book, index, query) {
            Some(h) => hits_from(hits.push(h), entry, book, query, limit, index + 1),
            None => hits_from(hits, entry, book, query, limit, index + 1),
        }
    }
}

fn find_in_chapter(entry: &Entry, book: &Book, index: usize, query: &str) -> (r: Option<Hit>)
    requires
        index < book.spine@.len(),
        index < book@.spine.len(),
    ensures
        match chapter_hit(entry@, book@, index as int, query@) {
            Some(h) => r is Some && r->0@ == h,
            None => r is None,
        },
{
    let n = book.spine.len();
    let chapter = match book.chapter(index) {
        Ok(c) => c,
        Err(_) => {
            return None;
        },
    };
    let found = find_all(&chapter, query);
    if found.len() == 0 {
        return None;
    }
    let (block, offset) = found[0];
    assert(chapter@.blocks.len() == chapter.blocks@.len());
    let text = if block < chapter.blocks.len() {
        assert(chapter@.blocks[block as int] == chapter.blocks@[block as int]@);
        chapter.blocks[block].plain_text()
    } else {
        let t = String::new();
        assert(t@ =~= Seq::<char>::empty());
        t
    };
    let wanted = chars_of(query);
    assert(book@.spine[index as int] == book.spine@[index as int]@);
    Some(
        Hit {
            book_title: entry.record.display_title(),
            chapter_title: book.spine[index].shown_title(index),
            book: entry.id.clone(),
            chapter_href: Some(chapter.href.clone()),
            passage: Some(copy_text(query)),
            snippet: around(&text, offset, wanted.len()),
        },
    )
}

/// Searches one book and adds what it finds to the hits, up to `limit` in all. A
/// book that cannot be opened holds nothing.
pub fn search_directly(
    hits: &mut Vec<Hit>,
    entry: &Entry,
    archive: Vec<u8>,
    shown: &str,
    query: &str,
    limit: usize,
)
    ensures
        hit_views(final(hits)@) == (match book_opened(archive@, shown@) {
            Ok(book) => hits_from(
                hit_views(old(hits)@),
                entry@,
                book,
                query@,
                limit as int,
                0,
            ),
            Err(_) => hit_views(old(hits)@),
        }),
{
    let ghost before = hit_views(hits@);
    let book = match Book::open(archive, shown) {
        Ok(b) => b,
        Err(_) => {
            return;
        },
    };
    let n = book.spine.len();
    assert(book@.spine.len() == n);
    let mut index: usize = 0;
    while index < n && hits.len() < limit
        invariant
            index <= n,
            n == book.spine@.len(),
            n == book@.spine.len(),
            hits_from(before, entry@, book@, query@, limit as int, 0) == hits_from(
                hit_views(hits@),
                entry@,
                book@,
                query@,
                limit as int,
                index as int,
            ),
        decreases n - index,
    {
        let ghost had = hits@;
        if let Some(hit) = find_in_chapter(entry, &book, index, query) {
            hits.push(hit);
            assert(hit_views(hits@) =~= hit_views(had).push(hit@));
        }
        index += 1;
    }
}

/// The file to open for a hit.
pub fn file_of(hit: &Hit, state: &State) -> (r: Result<String, Failure>)
    requires
        state.wf(),
    ensures
        state@.books.contains_key(hit@.book) && state@.books[hit@.book].paths.len() > 0
            ==> (r matches Ok(p) && p@ == state@.books[hit@.book].paths[0]),
        !(state@.books.contains_key(hit@.book) && state@.books[hit@.book].paths.len() > 0)
            ==> (r matches Err(e) && e@ == seq!["no file recorded for "@ + hit@.book_title]),
{
    if let Some(record) = state.book(&hit.book) {
        if let Some(path) = record.path() {
            return Ok(path.clone());
        }
    }
    let mut text = chars_of("no file recorded for ");
    push_text(&mut text, &hit.book_title);
    Err(Failure::new(text_of(&text)))
}

// ----- laws -----
/// A search never finds more than it was asked for, and keeps what it had.
pub proof fn a_search_stays_within_its_limit(
    hits: Seq<HitView>,
    entry: EntryView,
    book: BookView,
    query: Seq<char>,
    limit: int,
    index: int,
)
    ensures
        ({
            let all = hits_from(hits, entry, book, query, limit, index);
            &&& hits.len() <= all.len()
            &&& all.take(hits.len() as int) == hits
            &&& hits.len() <= limit ==> all.len() <= limit
            &&& forall|i: int|
                hits.len() <= i < all.len() ==> (#[trigger] all[i]).book == entry.id
                    && all[i].passage == Some(query)
        }),
    decreases book.spine.len() - index,
{
    if index < 0 || index >= book.spine.len() || hits.len() >= limit {
        assert(hits.take(hits.len() as int) =~= hits);
    } else {
        match chapter_hit(entry, book, index, query) {
            Some(h) => {
                let more = hits.push(h);
                let all = hits_from(more, entry, book, query, limit, index + 1);
                a_search_stays_within_its_limit(more, entry, book, query, limit, index + 1);
                assert(all.take(hits.len() as int) =~= hits) by {
                    assert(all.take(more.len() as int).take(hits.len() as int) =~= all.take(
                        hits.len() as int,
                    ));
                    assert(more.take(hits.len() as int) =~= hits);
                }
                assert forall|i: int| hits.len() <= i < all.len() implies (
                #[trigger] all[i]).book == entry.id && all[i].passage == Some(query) by {
                    if i == hits.len() {
                        assert(all.take(more.len() as int)[i] == all[i]);
                    }
                }
            },
            None => {
                a_search_stays_within_its_limit(hits, entry, book, query, limit, index + 1);
            },
        }
    }
}

/// A chapter of a book can be shown and holds the query.
pub open spec fn chapter_holds(book: BookView, c: int, query: Seq<char>) -> bool {
    chapter_at(book, c) matches Ok(chapter) && exists|b: int, o: int|
        0 <= b < chapter.blocks.len() && #[trigger] matches_at(
            chapter.blocks[b].plain(),
            query,
            o,
        )
}

/// The hits behind the first `had` stand for the chapters `of`, from `index` on in
/// reading order: each names its chapter and that chapter holds the query.
pub open spec fn stand_for(
    of: Seq<int>,
    all: Seq<HitView>,
    had: int,
    book: BookView,
    query: Seq<char>,
    index: int,
) -> bool {
    &&& of.len() == all.len() - had
    &&& forall|i: int|
        0 <= i < of.len() ==> index <= #[trigger] of[i] < book.spine.len() && chapter_holds(
            book,
            of[i],
            query,
        ) && all[had + i].chapter_href == Some(book.spine[of[i]].href) && all[had
            + i].chapter_title == entry_title(book.spine[of[i]], of[i])
    &&& forall|i: int, j: int| 0 <= i < j < of.len() ==> #[trigger] of[i] < #[trigger] of[j]
}

/// A chapter is among those that hits stand for.
pub open spec fn stands_in(of: Seq<int>, c: int) -> bool {
    exists|i: int| 0 <= i < of.len() && #[trigger] of[i] == c
}

proof fn lemma_some_match(s: Seq<char>, needle: Seq<char>, at: int, o: int)
    requires
        0 <= at,
        needle.len() > 0,
    ensures
        at <= o && matches_at(s, needle, o) ==> matches_from(s, needle, at).len() > 0,
        matches_from(s, needle, at).len() > 0 ==> matches_at(
            s,
            needle,
            matches_from(s, needle, at)[0],
        ),
    decreases s.len() - at,
{
    if at < s.len() && !matches_at(s, needle, at) {
        lemma_some_match(s, needle, at + 1, o);
    }
}

proof fn lemma_some_hit(blocks: Seq<BlockView>, needle: Seq<char>, n: int)
    requires
        0 <= n <= blocks.len(),
    ensures
        hits_in(blocks, needle, n).len() > 0 ==> needle.len() > 0 && exists|b: int, o: int|
            0 <= b < n && #[trigger] matches_at(blocks[b].plain(), needle, o),
        needle.len() > 0 && hits_in(blocks, needle, n).len() == 0 ==> forall|b: int, o: int|
            0 <= b < n ==> !(#[trigger] matches_at(blocks[b].plain(), needle, o)),
    decreases n,
{
    if n > 0 {
        lemma_some_hit(blocks, needle, n - 1);
        let text = blocks[n - 1].plain();
        let front = hits_in(blocks, needle, n - 1);
        let back = block_hits(text, needle, n - 1);
        assert(back.len() == matches_from(text, needle, 0).len());
        if needle.len() > 0 {
            lemma_some_match(text, needle, 0, 0);
            if hits_in(blocks, needle, n).len() == 0 {
                assert(front.len() == 0 && back.len() == 0);
                assert forall|b: int, o: int| 0 <= b < n implies !(#[trigger] matches_at(
                    blocks[b].plain(),
                    needle,
                    o,
                )) by {
                    if b == n - 1 {
                        lemma_some_match(text, needle, 0, o);
                    }
                }
            } else if front.len() > 0 {
                let (b, o) = choose|b: int, o: int|
                    0 <= b < n - 1 && #[trigger] matches_at(blocks[b].plain(), needle, o);
                assert(0 <= b < n && matches_at(blocks[b].plain(), needle, o));
            } else {
                assert(matches_at(blocks[n - 1].plain(), needle, matches_from(text, needle, 0)[0]));
            }
        }
    }
}

/// Every hit that a search adds names a chapter of the book that holds the query.
/// The chapters come in reading order, each once, and none is passed over before
/// the limit is reached.
#[verifier::rlimit(30)]
pub proof fn hits_name_the_chapters_that_match(
    hits: Seq<HitView>,
    entry: EntryView,
    book: BookView,
    query: Seq<char>,
    limit: int,
    index: int,
)
    requires
        0 <= index,
    ensures
        ({
            let all = hits_from(hits, entry, book, query, limit, index);
            exists|of: Seq<int>| #[trigger]
                stand_for(of, all, hits.len() as int, book, query, index) && (all.len() < limit
                    && query.len() > 0 ==> forall|c: int|
                    index <= c < book.spine.len() && #[trigger] chapter_holds(book, c, query)
                        ==> stands_in(of, c))
        }),
    decreases book.spine.len() - index,
{
    let all = hits_from(hits, entry, book, query, limit, index);
    let had = hits.len() as int;
    if index >= book.spine.len() || hits.len() >= limit {
        assert(stand_for(Seq::<int>::empty(), all, had, book, query, index));
    } else {
        if let Ok(chapter) = chapter_at(book, index) {
            lemma_some_hit(chapter.blocks, query, chapter.blocks.len() as int);
        }
        match chapter_hit(entry, book, index, query) {
            Some(h) => {
                let more = hits.push(h);
                a_search_stays_within_its_limit(more, entry, book, query, limit, index + 1);
                hits_name_the_chapters_that_match(more, entry, book, query, limit, index + 1);
                let rest = choose|of: Seq<int>| #[trigger]
                    stand_for(of, all, had + 1, book, query, index + 1) && (all.len() < limit
                        && query.len() > 0 ==> forall|c: int|
                        index + 1 <= c < book.spine.len() && #[trigger] chapter_holds(
                            book,
                            c,
                            query,
                        ) ==> stands_in(of, c));
                let of = seq![index] + rest;
                assert(chapter_holds(book, index, query));
                assert(all[had] == h) by {
                    assert(all.take(more.len() as int)[had] == more[had]);
                }
                assert forall|i: int| 0 <= i < of.len() implies index <= #[trigger] of[i]
                    < book.spine.len() && chapter_holds(book, of[i], query) && all[had
                    + i].chapter_href == Some(book.spine[of[i]].href) && all[had + i].chapter_title
                    == entry_title(book.spine[of[i]], of[i]) by {
                    if i > 0 {
                        assert(of[i] == rest[i - 1]);
                        assert(all[had + i] == all[had + 1 + (i - 1)]);
                    }
                }
                assert forall|i: int, j: int| 0 <= i < j < of.len() implies #[trigger] of[i]
                    < #[trigger] of[j] by {
                    assert(of[j] == rest[j - 1]);
                    if i > 0 {
                        assert(of[i] == rest[i - 1]);
                    }
                }
                assert(stand_for(of, all, had, book, query, index));
                if all.len() < limit && query.len() > 0 {
                    assert forall|c: int|
                        index <= c < book.spine.len() && #[trigger] chapter_holds(
                            book,
                            c,
                            query,
                        ) implies stands_in(of, c) by {
                        if c == index {
                            assert(of[0] == c);
                        } else {
                            let i = choose|i: int| 0 <= i < rest.len() && #[trigger] rest[i] == c;
                            assert(of[i + 1] == c);
                        }
                    }
                }
            },
            None => {
                hits_name_the_chapters_that_match(hits, entry, book, query, limit, index + 1);
                let of = choose|of: Seq<int>| #[trigger]
                    stand_for(of, all, had, book, query, index + 1) && (all.len() < limit
                        && query.len() > 0 ==> forall|c: int|
                        index + 1 <= c < book.spine.len() && #[trigger] chapter_holds(
                            book,
                            c,
                            query,
                        ) ==> stands_in(of, c));
                assert(stand_for(of, all, had, book, query, index));
                assert(query.len() > 0 ==> !chapter_holds(book, index, query));
            },
        }
    }
}

} // verus!
