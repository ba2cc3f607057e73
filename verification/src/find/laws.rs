//! What holds of every answer of the index.

use vstd::prelude::*;
use crate::export::origin::origin;
use crate::find::{
    after_front, bookkeeping, first_sentence, index_hit, last_place, opening, passage,
    prose, reference_parts, reference_path, skip_marks, squeezed, tidied, window,
    without_book, words_from_first, words_on, AFTER, BEFORE,
};
use crate::failure::joined;
use crate::gather::{gathers, lemma_gather, lemma_says, says};
use crate::journal::StateView;
use crate::paths::path_joined;
use crate::text::{
    blank, find_from, is_white, lemma_skip_white, lemma_word_end, lines_of, number_value,
    occurs_at, skip_white, trim, word_end, words_from, words_of,
};

verus! {

/// An answer leads to the book and the chapter that its file was written from, and
/// only where that book is in the library; it always has something to show.
pub proof fn an_answer_leads_to_its_book(
    state: StateView,
    title: Seq<char>,
    snippet: Seq<char>,
    line: Option<usize>,
    text: Seq<char>,
)
    ensures
        match origin(text) {
            Some(from) => match index_hit(state, title, snippet, line, text) {
                Some(hit) => state.books.contains_key(from.book) && hit.book == from.book
                    && hit.chapter_href == from.chapter && hit.book_title
                    == state.books[from.book].shown_title() && (tidied(snippet).len() > 0
                    ==> hit.snippet == tidied(snippet)) && (hit.snippet.len() == 0
                    ==> hit.chapter_title.len() == 0) && (passage(snippet) is Some ==> hit.passage
                    == passage(snippet)) && (passage(snippet) is None && line is Some
                    ==> hit.passage == words_on(text, line->0 as int)) && (passage(snippet) is None
                    && line is None ==> hit.passage is None),
                None => !state.books.contains_key(from.book),
            },
            None => index_hit(state, title, snippet, line, text) is None,
        },
{
    lemma_sentence(lines_of(after_front(text)), 0);
}

proof fn lemma_sentence(lines: Seq<Seq<char>>, i: int)
    requires
        0 <= i,
    ensures
        match first_sentence(lines, i) {
            Some(s) => exists|k: int|
                i <= k < lines.len() && #[trigger] trim(lines[k]) == s && s.len() > 0 && s[0] != '#'
                    && !bookkeeping(s) && forall|j: int|
                    i <= j < k ==> #[trigger] no_sentence(lines[j]),
            None => forall|j: int| i <= j < lines.len() ==> #[trigger] no_sentence(lines[j]),
        },
    decreases lines.len() - i,
{
    if i < lines.len() {
        let s = trim(lines[i]);
        if s.len() > 0 && s[0] != '#' && !bookkeeping(s) {
            assert(trim(lines[i]) == s);
        } else {
            lemma_sentence(lines, i + 1);
            if let Some(r) = first_sentence(lines, i + 1) {
                let k = choose|k: int|
                    i + 1 <= k < lines.len() && #[trigger] trim(lines[k]) == r && r.len() > 0 && r[0]
                        != '#' && !bookkeeping(r) && forall|j: int|
                        i + 1 <= j < k ==> #[trigger] no_sentence(lines[j]);
                assert forall|j: int| i <= j < k implies #[trigger] no_sentence(lines[j]) by {}
                assert(trim(lines[k]) == r);
            }
        }
    }
}

/// A line that is empty, a heading, or part of the front matter.
pub open spec fn no_sentence(line: Seq<char>) -> bool {
    let s = trim(line);
    s.len() == 0 || s[0] == '#' || bookkeeping(s)
}

/// Where a snippet has no text, the first sentence of the chapter stands for it.
pub proof fn the_first_sentence_stands_in(lines: Seq<Seq<char>>)
    ensures
        match first_sentence(lines, 0) {
            Some(s) => exists|k: int|
                0 <= k < lines.len() && #[trigger] trim(lines[k]) == s && !no_sentence(lines[k])
                    && forall|j: int| 0 <= j < k ==> #[trigger] no_sentence(lines[j]),
            None => forall|j: int| 0 <= j < lines.len() ==> #[trigger] no_sentence(lines[j]),
        },
{
    lemma_sentence(lines, 0);
    if let Some(s) = first_sentence(lines, 0) {
        let k = choose|k: int|
            0 <= k < lines.len() && #[trigger] trim(lines[k]) == s && s.len() > 0 && s[0] != '#'
                && !bookkeeping(s) && forall|j: int| 0 <= j < k ==> #[trigger] no_sentence(lines[j]);
        assert(trim(lines[k]) == s && !no_sentence(lines[k]));
    }
}

/// The lines that hold text of the book.
pub open spec fn prose_by(lines: Seq<Seq<char>>) -> spec_fn(int) -> Option<Seq<char>> {
    |k: int|
        if bookkeeping(lines[k]) || blank(lines[k]) {
            None
        } else {
            Some(lines[k])
        }
}

proof fn lemma_prose(lines: Seq<Seq<char>>, n: int) -> (at: Seq<int>)
    requires
        0 <= n <= lines.len(),
    ensures
        gathers(at, prose(lines.take(n)), n, prose_by(lines)),
    decreases n,
{
    if n == 0 {
        assert(lines.take(0) =~= Seq::empty());
        Seq::empty()
    } else {
        let before = lemma_prose(lines, n - 1);
        assert(lines.take(n).drop_last() =~= lines.take(n - 1));
        lemma_gather(before, prose(lines.take(n - 1)), n - 1, prose_by(lines))
    }
}

/// A snippet is shown with every line of book text, in order, and with nothing of the
/// front matter.
pub proof fn a_snippet_keeps_its_text(snippet: Seq<char>)
    ensures
        exists|at: Seq<int>| #[trigger]
            gathers(
                at,
                prose(lines_of(snippet)),
                lines_of(snippet).len() as int,
                prose_by(lines_of(snippet)),
            ),
        solid(tidied(snippet)) == solid(joined(prose(lines_of(snippet)), seq![' '])),
{
    let lines = lines_of(snippet);
    let n = lines.len() as int;
    let at = lemma_prose(lines, n);
    assert(lines.take(n) =~= lines);
    assert(gathers(at, prose(lines), n, prose_by(lines)));
    squeezing_keeps_all_but_white_space(joined(prose(lines), seq![' ']));
}

/// A text without its white space.
pub open spec fn solid(s: Seq<char>) -> Seq<char>
    decreases s.len(),
{
    if s.len() == 0 {
        s
    } else if is_white(s.last()) {
        solid(s.drop_last())
    } else {
        solid(s.drop_last()).push(s.last())
    }
}

proof fn lemma_solid_add(a: Seq<char>, b: Seq<char>)
    ensures
        solid(a + b) == solid(a) + solid(b),
    decreases b.len(),
{
    if b.len() == 0 {
        assert(a + b =~= a);
        assert(solid(a) + solid(b) =~= solid(a));
    } else {
        assert((a + b).drop_last() =~= a + b.drop_last());
        lemma_solid_add(a, b.drop_last());
        assert(solid(a + b) =~= solid(a) + solid(b));
    }
}

proof fn lemma_solid_white(s: Seq<char>)
    requires
        forall|k: int| 0 <= k < s.len() ==> is_white(#[trigger] s[k]),
    ensures
        solid(s) == Seq::<char>::empty(),
    decreases s.len(),
{
    if s.len() > 0 {
        assert(is_white(s[s.len() - 1]));
        lemma_solid_white(s.drop_last());
    }
}

/// The words of a text one behind the other.
spec fn run_together(words: Seq<Seq<char>>) -> Seq<char>
    decreases words.len(),
{
    if words.len() == 0 {
        Seq::empty()
    } else {
        run_together(words.drop_last()) + words.last()
    }
}

proof fn lemma_run_together(first: Seq<char>, rest: Seq<Seq<char>>)
    ensures
        run_together(seq![first] + rest) == first + run_together(rest),
    decreases rest.len(),
{
    let all = seq![first] + rest;
    if rest.len() == 0 {
        assert(all.drop_last() =~= Seq::<Seq<char>>::empty());
        assert(all.last() == first);
        assert(run_together(all.drop_last()) == Seq::<char>::empty());
        assert(Seq::<char>::empty() + first =~= first);
        assert(first + run_together(rest) =~= first);
    } else {
        assert(all.drop_last() =~= seq![first] + rest.drop_last());
        lemma_run_together(first, rest.drop_last());
        assert(run_together(all) =~= first + run_together(rest));
    }
}

proof fn lemma_solid_words(s: Seq<char>, i: int)
    requires
        0 <= i <= s.len(),
    ensures
        solid(run_together(words_from(s, i))) == solid(s.skip(i)),
    decreases s.len() - i,
{
    let a = skip_white(s, i);
    lemma_skip_white(s, i);
    let gap = s.subrange(i, a);
    lemma_solid_white(gap);
    if a >= s.len() {
        assert(s.skip(i) =~= gap);
    } else {
        let b = word_end(s, a);
        lemma_word_end(s, a);
        let word = s.subrange(a, b);
        lemma_solid_words(s, b);
        lemma_run_together(word, words_from(s, b));
        lemma_solid_add(word, run_together(words_from(s, b)));
        assert(s.skip(i) =~= gap + (word + s.skip(b)));
        lemma_solid_add(word, s.skip(b));
        lemma_solid_add(gap, word + s.skip(b));
        assert(solid(s.skip(i)) =~= solid(word) + solid(s.skip(b)));
    }
}

proof fn lemma_solid_joined(words: Seq<Seq<char>>)
    ensures
        solid(joined(words, seq![' '])) == solid(run_together(words)),
    decreases words.len(),
{
    if words.len() == 1 {
        assert(run_together(words.drop_last()) =~= Seq::<char>::empty());
        assert(joined(words, seq![' ']) =~= run_together(words));
    } else if words.len() > 1 {
        let front = words.drop_last();
        lemma_solid_joined(front);
        let space = seq![' '];
        lemma_solid_white(space);
        assert(joined(words, space) =~= joined(front, space) + space + words.last());
        lemma_solid_add(joined(front, space) + space, words.last());
        lemma_solid_add(joined(front, space), space);
        lemma_solid_add(run_together(front), words.last());
        assert(solid(joined(front, space)) + Seq::<char>::empty() =~= solid(joined(front, space)));
    }
}

/// To put a text on one line takes nothing from it but white space.
pub proof fn squeezing_keeps_all_but_white_space(s: Seq<char>)
    ensures
        solid(squeezed(s)) == solid(s),
{
    lemma_solid_words(s, 0);
    lemma_solid_joined(words_of(s));
    assert(s.skip(0) =~= s);
}

/// A chapter is named without its book.
pub proof fn a_chapter_is_named_without_its_book(book: Seq<char>, chapter: Seq<char>)
    ensures
        without_book(book + " · "@ + chapter, book) == trim(chapter),
        !occurs_at(chapter, book + " · "@, 0) ==> without_book(chapter, book) == trim(chapter),
{
    let prefix = book + " · "@;
    let title = prefix + chapter;
    assert(title.subrange(0, prefix.len() as int) =~= prefix);
    assert(occurs_at(title, prefix, 0));
    assert(title.subrange(prefix.len() as int, title.len() as int) =~= chapter);
}

/// The place of a character that does not stand behind it again.
proof fn lemma_last(s: Seq<char>, c: char, i: int, n: int)
    requires
        0 <= i < n <= s.len(),
        s[i] == c,
        forall|k: int| i < k < n ==> #[trigger] s[k] != c,
    ensures
        last_place(s, c, n) == Some(i),
    decreases n,
{
    if i < n - 1 {
        assert(s[n - 1] != c);
        lemma_last(s, c, i, n - 1);
    }
}

/// A reference is a file and, behind a last colon, the number of a line.
pub proof fn a_reference_names_file_and_line(path: Seq<char>, digits: Seq<char>)
    requires
        !digits.contains(':'),
    ensures
        reference_parts(path.push(':') + digits) == (match number_value(digits) {
            Some(n) => if n <= usize::MAX {
                (path, Some(n))
            } else {
                (path.push(':') + digits, None::<int>)
            },
            None => (path.push(':') + digits, None::<int>),
        }),
{
    let s = path.push(':') + digits;
    let i = path.len() as int;
    assert forall|k: int| i < k < s.len() implies #[trigger] s[k] != ':' by {
        assert(s[k] == digits[k - i - 1]);
        assert(digits.contains(digits[k - i - 1]));
    }
    lemma_last(s, ':', i, s.len() as int);
    assert(s.subrange(i + 1, s.len() as int) =~= digits);
    assert(s.take(i) =~= path);
}

proof fn lemma_slash(name: Seq<char>, s: Seq<char>, i: int)
    requires
        0 <= i <= name.len(),
        !name.contains('/'),
        s.len() > name.len(),
        s.take(name.len() as int) == name,
        s[name.len() as int] == '/',
    ensures
        find_from(s, seq!['/'], i) == Some(name.len() as int),
    decreases name.len() - i,
{
    if i < name.len() {
        assert(name.contains(name[i]));
        assert(s.take(name.len() as int)[i] == s[i]);
        assert(s.subrange(i, i + 1)[0] == s[i]);
        lemma_slash(name, s, i + 1);
    } else {
        assert(s.subrange(i, i + 1) =~= seq!['/']);
    }
}

/// What stands behind the name of the collection is a file of the export; a plain path
/// is taken as it is.
pub proof fn a_reference_is_a_file_of_the_export(
    collection: Seq<char>,
    file: Seq<char>,
    export_dir: Seq<char>,
)
    requires
        !collection.contains('/'),
    ensures
        reference_path("qmd://"@ + (collection.push('/') + file), export_dir) == path_joined(
            export_dir,
            file,
        ),
        !occurs_at(file, "qmd://"@, 0) ==> reference_path(file, export_dir) == file,
{
    reveal_strlit("qmd://");
    let lead = "qmd://"@;
    let rest = collection.push('/') + file;
    let body = lead + rest;
    assert(body.subrange(0, lead.len() as int) =~= lead);
    assert(occurs_at(body, lead, 0));
    assert(body.subrange(lead.len() as int, body.len() as int) =~= rest);
    assert(rest.take(collection.len() as int) =~= collection);
    lemma_slash(collection, rest, 0);
    assert(rest.subrange(collection.len() as int + 1, rest.len() as int) =~= file);
}

/// A mark that stands in front of a line of Markdown.
pub open spec fn leads(c: char) -> bool {
    c == '#' || c == '>' || c == '-' || c == '*' || c == ' '
}

/// The first `m` characters are all the marks that a line begins with.
pub open spec fn led_by(s: Seq<char>, m: int) -> bool {
    &&& 0 <= m <= s.len()
    &&& forall|k: int| 0 <= k < m ==> leads(#[trigger] s[k])
    &&& m < s.len() ==> !leads(s[m])
}

proof fn lemma_skip_marks(s: Seq<char>, i: int)
    requires
        0 <= i <= s.len(),
    ensures
        i <= skip_marks(s, i) <= s.len(),
        forall|k: int| i <= k < skip_marks(s, i) ==> leads(#[trigger] s[k]),
        skip_marks(s, i) < s.len() ==> !leads(s[skip_marks(s, i)]),
    decreases s.len() - i,
{
    if i < s.len() && leads(s[i]) {
        lemma_skip_marks(s, i + 1);
    }
}

/// The words on a line are those of that line, counted from one, without the marks in
/// front of it.
pub proof fn the_words_on_a_line(text: Seq<char>, line: int)
    requires
        1 <= line,
    ensures
        line > lines_of(text).len() ==> words_on(text, line) is None,
        line <= lines_of(text).len() ==> exists|m: int| #[trigger]
            led_by(trim(lines_of(text)[line - 1]), m) && words_on(text, line) == opening(
                trim(trim(lines_of(text)[line - 1]).skip(m)),
            ),
{
    if line <= lines_of(text).len() {
        let raw = trim(lines_of(text)[line - 1]);
        lemma_skip_marks(raw, 0);
        let m = skip_marks(raw, 0);
        assert(raw.subrange(m, raw.len() as int) =~= raw.skip(m));
        assert(led_by(raw, m) && words_on(text, line) == opening(trim(raw.skip(m))));
    }
}

/// The opening words of a line are its first eight, or all where it has fewer, and
/// there are none where it has too few.
pub proof fn opening_words_are_the_first(line: Seq<char>, least: int)
    requires
        0 <= least <= 8,
    ensures
        words_of(line).len() < least <==> words_from_first(line, least) is None,
        words_from_first(line, least) matches Some(t) ==> t == joined(
            words_of(line).take(
                if words_of(line).len() < 8 {
                    words_of(line).len() as int
                } else {
                    8
                },
            ),
            seq![' '],
        ),
        opening(line) is None <==> words_of(line).len() < 2,
{
    assert(words_of(line).take(words_of(line).len() as int) =~= words_of(line));
}

/// The text of a file stands behind its front matter.
pub proof fn text_stands_behind_the_front_matter(front: Seq<char>, rest: Seq<char>)
    requires
        find_from(front + (seq!['\n', '-', '-', '-'] + rest), seq!['\n', '-', '-', '-'], 0) == Some(
            front.len() as int,
        ),
        find_from(rest, seq!['\n', '-', '-', '-'], 0) is None,
    ensures
        after_front(front + (seq!['\n', '-', '-', '-'] + rest)) == rest,
{
    let mark = seq!['\n', '-', '-', '-'];
    let text = front + (mark + rest);
    assert(text.subrange(front.len() as int + 4, text.len() as int) =~= rest);
}

/// The text around a match holds the match itself, and before and behind it what stands
/// there in the text, as far as a snippet reaches, with nothing taken out but white
/// space and with an ellipsis where it was cut.
pub proof fn a_snippet_shows_the_match(text: Seq<char>, offset: int, length: int)
    requires
        0 <= offset,
        0 <= length,
        offset + length <= text.len(),
    ensures
        ({
            let start = if offset < BEFORE {
                0
            } else {
                offset - BEFORE
            };
            let end = if offset + length + AFTER < text.len() {
                offset + length + AFTER
            } else {
                text.len() as int
            };
            let shown = solid(window(text, offset, length));
            &&& says(shown, solid(text.subrange(offset, offset + length)))
            &&& says(shown, solid(text.subrange(start, end)))
            &&& start > 0 ==> shown.len() > 0 && shown[0] == '…'
            &&& end < text.len() ==> shown.len() > 0 && shown.last() == '…'
            &&& start == 0 && end == text.len() ==> shown == solid(text)
        }),
{
    let start = if offset < BEFORE {
        0
    } else {
        offset - BEFORE
    };
    let end = if offset + length + AFTER < text.len() {
        offset + length + AFTER
    } else {
        text.len() as int
    };
    let left = if start > 0 {
        seq!['…']
    } else {
        Seq::empty()
    };
    let right = if end < text.len() {
        seq!['…']
    } else {
        Seq::empty()
    };
    let middle = text.subrange(start, end);
    let whole = left + middle + right;
    assert(window(text, offset, length) == squeezed(whole));
    squeezing_keeps_all_but_white_space(whole);
    lemma_solid_add(left + middle, right);
    lemma_solid_add(left, middle);
    let before = text.subrange(start, offset);
    let own = text.subrange(offset, offset + length);
    let behind = text.subrange(offset + length, end);
    assert(middle =~= before + own + behind);
    lemma_solid_add(before + own, behind);
    lemma_solid_add(before, own);
    lemma_says(solid(left), solid(middle), solid(right));
    let a = solid(left) + solid(before);
    let b = solid(behind) + solid(right);
    lemma_says(a, solid(own), b);
    assert(solid(whole) =~= a + solid(own) + b);
    lemma_solid_dots();
    if start == 0 && end == text.len() {
        assert(middle =~= text);
        assert(whole =~= text);
    }
}

proof fn lemma_solid_dots()
    ensures
        solid(seq!['…']) == seq!['…'],
        solid(Seq::<char>::empty()) == Seq::<char>::empty(),
{
    let s = seq!['…'];
    assert(!is_white('…'));
    assert(s.drop_last() =~= Seq::<char>::empty());
    assert(solid(s.drop_last()) == Seq::<char>::empty());
    assert(solid(s) =~= s);
}

} // verus!
