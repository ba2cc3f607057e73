//! Words, link targets and the chapters they lead to.

use vstd::prelude::*;
use crate::doc::{
    Block, BlockKind, BlockView, Chapter, ChapterView, KindView, Run, RunStyle, RunView,
    plain_style, run_views,
};
use crate::epub::{Book, BookView, SpineView, chapter_at};
use crate::paths::{directory, directory_of, file_name, file_name_of, tidied, tidy_path};
use crate::text::{
    blank, chars_of, contains_text, find_chars, find_from, has_text, is_white, occurs_at, push_chars,
    push_text, same, slice_text, stands_at, text_of, text_opt, white,
};

verus! {

/// The first position at or after `i` that holds white space.
pub open spec fn word_stop(s: Seq<char>, i: int) -> int
    decreases s.len() - i,
{
    if 0 <= i < s.len() && !is_white(s[i]) {
        word_stop(s, i + 1)
    } else {
        i
    }
}

/// The start of the word behind the one at `from`: the current word is left,
/// then the gap behind it.
pub open spec fn word_after(s: Seq<char>, from: int) -> Option<int> {
    let at = crate::text::skip_white(s, word_stop(s, from));
    if at < s.len() {
        Some(at)
    } else {
        None
    }
}

/// Start of the next word behind the one at `from`, if one exists in this block.
pub fn next_word_start(s: &Vec<char>, from: usize) -> (r: Option<usize>)
    ensures
        (match r {
            Some(i) => Some(i as int),
            None => None,
        }) == word_after(s@, from as int),
        r matches Some(i) ==> i < s@.len(),
{
    let mut at: usize = from;
    while at < s.len() && !white(s[at])
        invariant
            from <= at,
            word_stop(s@, from as int) == word_stop(s@, at as int),
        decreases s@.len() - at,
    {
        at += 1;
    }
    let ghost stop = at as int;
    while at < s.len() && white(s[at])
        invariant
            stop <= at,
            0 <= stop,
            crate::text::skip_white(s@, stop) == crate::text::skip_white(s@, at as int),
        decreases s@.len() - at,
    {
        at += 1;
    }
    if at < s.len() {
        Some(at)
    } else {
        None
    }
}

/// Going back from `i` over white space.
pub open spec fn back_over_gap(s: Seq<char>, i: int) -> int
    decreases i,
{
    if 0 < i < s.len() && is_white(s[i]) {
        back_over_gap(s, i - 1)
    } else {
        i
    }
}

/// Going back from `i` to the start of its word.
pub open spec fn back_to_start(s: Seq<char>, i: int) -> int
    decreases i,
{
    if 0 < i <= s.len() && !is_white(s[i - 1]) {
        back_to_start(s, i - 1)
    } else {
        i
    }
}

/// The start of the word before `from`. None where only white space stands there.
pub open spec fn word_before(s: Seq<char>, from: int) -> Option<int> {
    let end = back_over_gap(s, from - 1);
    if from <= 0 || is_white(s[end]) {
        None
    } else {
        Some(back_to_start(s, end))
    }
}

/// A word begins at `i`: a character that is no white space, behind white space
/// or at the very front.
pub open spec fn begins_word(s: Seq<char>, i: int) -> bool {
    0 <= i < s.len() && !is_white(s[i]) && (i == 0 || is_white(s[i - 1]))
}

proof fn lemma_back_over_gap(s: Seq<char>, i: int)
    requires
        0 <= i < s.len(),
    ensures
        0 <= back_over_gap(s, i) <= i,
        back_over_gap(s, i) > 0 ==> !is_white(s[back_over_gap(s, i)]),
        forall|k: int| back_over_gap(s, i) < k <= i ==> is_white(#[trigger] s[k]),
    decreases i,
{
    if i > 0 && is_white(s[i]) {
        lemma_back_over_gap(s, i - 1);
    }
}

proof fn lemma_back_to_start(s: Seq<char>, i: int)
    requires
        0 <= i < s.len(),
        !is_white(s[i]),
    ensures
        0 <= back_to_start(s, i) <= i,
        begins_word(s, back_to_start(s, i)),
        forall|k: int| back_to_start(s, i) <= k <= i ==> !is_white(#[trigger] s[k]),
    decreases i,
{
    if i > 0 && !is_white(s[i - 1]) {
        lemma_back_to_start(s, i - 1);
    }
}

/// The word before a place is the last one that begins in front of it. There is
/// none exactly where only white space stands in front of it.
pub proof fn the_word_before_is_the_last_to_begin(s: Seq<char>, from: int)
    requires
        0 <= from <= s.len(),
    ensures
        (word_before(s, from) is None) == blank(s.take(from)),
        word_before(s, from) matches Some(i) ==> i < from && begins_word(s, i),
        word_before(s, from) matches Some(i) ==> (forall|k: int|
            i < k < from ==> !#[trigger] begins_word(s, k)),
{
    if from > 0 {
        let end = back_over_gap(s, from - 1);
        lemma_back_over_gap(s, from - 1);
        if is_white(s[end]) {
            assert forall|k: int| 0 <= k < from implies is_white(#[trigger] s.take(from)[k]) by {
                assert(s.take(from)[k] == s[k]);
            }
        } else {
            assert(s.take(from)[end] == s[end]);
            lemma_back_to_start(s, end);
        }
    }
}

/// Start of the word before `from`, if one exists in this block.
pub fn previous_word_start(s: &Vec<char>, from: usize) -> (r: Option<usize>)
    requires
        from <= s@.len(),
    ensures
        (match r {
            Some(i) => Some(i as int),
            None => None,
        }) == word_before(s@, from as int),
        (r is None) == blank(s@.take(from as int)),
        r matches Some(i) ==> i < from && begins_word(s@, i as int),
{
    proof {
        the_word_before_is_the_last_to_begin(s@, from as int);
    }
    if from == 0 {
        return None;
    }
    let mut at: usize = from - 1;
    while at > 0 && white(s[at])
        invariant
            at < from <= s@.len(),
            back_over_gap(s@, from - 1) == back_over_gap(s@, at as int),
        decreases at,
    {
        at -= 1;
    }
    if white(s[at]) {
        return None;
    }
    let ghost gap = at as int;
    while at > 0 && !white(s[at - 1])
        invariant
            at < from <= s@.len(),
            back_to_start(s@, gap) == back_to_start(s@, at as int),
        decreases at,
    {
        at -= 1;
    }
    Some(at)
}

/// The file part of a link target.
pub open spec fn target_file(target: Seq<char>) -> Seq<char> {
    match find_from(target, "#"@, 0) {
        Some(i) => target.take(i),
        None => target,
    }
}

/// The fragment of a link target. A trailing hash names none.
pub open spec fn target_fragment(target: Seq<char>) -> Option<Seq<char>> {
    match find_from(target, "#"@, 0) {
        Some(i) => if i + 1 < target.len() {
            Some(target.skip(i + 1))
        } else {
            None
        },
        None => None,
    }
}

/// Splits a link target into its file part and its fragment.
pub fn split_target(target: &str) -> (r: (String, Option<String>))
    ensures
        r.0@ == target_file(target@),
        text_opt(r.1) == target_fragment(target@),
{
    let v = chars_of(target);
    let n = v.len();
    let hash = chars_of("#");
    proof {
        reveal_strlit("#");
    }
    match find_chars(&v, &hash, 0) {
        Some(i) => {
            let file = slice_text(&v, 0, i);
            assert(file@ =~= target@.take(i as int));
            let fragment = if i + 1 < n {
                let f = slice_text(&v, i + 1, n);
                assert(f@ =~= target@.skip(i + 1));
                Some(f)
            } else {
                None
            };
            (file, fragment)
        },
        None => (text_of(&v), None),
    }
}

/// A link's file part, seen from the container root.
pub open spec fn href_resolved(from: Seq<char>, target: Seq<char>) -> Seq<char> {
    let base = directory_of(from);
    if base.len() == 0 || (target.len() > 0 && target[0] == '/') {
        tidied(target)
    } else {
        tidied(base + "/"@ + target)
    }
}

/// Resolves a link's file part against the chapter it appears in.
pub fn resolve_href(from: &str, target: &str) -> (r: String)
    ensures
        r@ == href_resolved(from@, target@),
{
    let base = directory(from);
    let t = chars_of(target);
    if base.as_str().is_empty() || (t.len() > 0 && t[0] == '/') {
        return tidy_path(&t);
    }
    let mut whole = chars_of(&base);
    push_text(&mut whole, "/");
    push_chars(&mut whole, &t);
    tidy_path(&whole)
}

/// Whether a link leads out of the book.
pub open spec fn is_external(target: Seq<char>) -> bool {
    contains_text(target, "://"@) || occurs_at(target, "mailto:"@, 0)
}

pub(crate) fn leads_out(target: &str) -> (r: bool)
    ensures
        r == is_external(target@),
{
    let v = chars_of(target);
    if has_text(&v, "://") {
        return true;
    }
    let p = chars_of("mailto:");
    stands_at(&v, &p, 0)
}

// ---------------------------------------------------------------------------
// Chapters
// ---------------------------------------------------------------------------
/// What is shown instead of a chapter that cannot be read.
pub open spec fn placeholder(href: Seq<char>, message: Seq<char>) -> ChapterView {
    ChapterView {
        href,
        blocks: seq![
            BlockView {
                kind: KindView::Paragraph,
                runs: seq![
                    RunView {
                        text: "This chapter could not be read: "@ + message,
                        style: plain_style(),
                    },
                ],
            },
        ],
        links: Seq::empty(),
        anchors: Map::empty(),
    }
}

/// A chapter of the book, or a readable placeholder where it cannot be parsed.
pub open spec fn chapter_shown(book: BookView, index: int) -> ChapterView {
    match chapter_at(book, index) {
        Ok(c) => c,
        Err(report) => placeholder(
            if 0 <= index < book.spine.len() {
                book.spine[index].href
            } else {
                Seq::empty()
            },
            if report.len() == 0 {
                Seq::empty()
            } else {
                report[0]
            },
        ),
    }
}

fn make_placeholder(href: String, message: &str) -> (r: Chapter)
    ensures
        r.wf(),
        r@ == placeholder(href@, message@),
{
    let mut text = chars_of("This chapter could not be read: ");
    push_text(&mut text, message);
    let run = Run {
        text: text_of(&text),
        style: RunStyle { bold: false, italic: false, code: false, link: false },
    };
    let mut runs: Vec<Run> = Vec::new();
    runs.push(run);
    assert(run_views(runs@) =~= seq![run@]);
    let block = Block { kind: BlockKind::Paragraph, runs };
    let mut chapter = Chapter::default();
    chapter.href = href;
    chapter.blocks.push(block);
    assert(crate::doc::block_views(chapter.blocks@) =~= seq![block@]);
    assert(chapter@ =~= placeholder(href@, message@));
    chapter
}

/// Loads a chapter, turning a parse failure into a readable placeholder rather
/// than ending the session.
pub fn load_chapter(book: &Book, index: usize) -> (r: Chapter)
    ensures
        r.wf(),
        r@ == chapter_shown(book@, index as int),
{
    match book.chapter(index) {
        Ok(chapter) => chapter,
        Err(e) => {
            let href = if index < book.spine.len() {
                assert(book@.spine[index as int] == book.spine@[index as int]@);
                book.spine[index].href.clone()
            } else {
                let s = String::new();
                assert(s@ =~= Seq::<char>::empty());
                s
            };
            assert(book@.spine.len() == book.spine@.len());
            let message = e.short();
            make_placeholder(href, &message)
        },
    }
}

/// The first chapter with that href from `i` on.
pub open spec fn spine_exact(spine: Seq<SpineView>, href: Seq<char>, i: int) -> Option<int>
    decreases spine.len() - i,
{
    if i < 0 || i >= spine.len() {
        None
    } else if spine[i].href == href {
        Some(i)
    } else {
        spine_exact(spine, href, i + 1)
    }
}

/// How many of the first `n` chapters have a file of that name, and the last of
/// them.
pub open spec fn spine_named(spine: Seq<SpineView>, name: Seq<char>, n: int) -> (int, int)
    decreases n,
{
    if n <= 0 || n > spine.len() {
        (0, 0)
    } else {
        let before = spine_named(spine, name, n - 1);
        if file_name_of(spine[n - 1].href) == Some(name) {
            (before.0 + 1, n - 1)
        } else {
            before
        }
    }
}

/// The chapter that an href means.
///
/// An exact match first. Failing that, the file name alone decides: books
/// exported from publishing tools often keep links to a directory that no longer
/// exists, such as `../Text/01.htm` when the file sits beside its neighbours.
/// Only when it is unambiguous: two files of the same name in different
/// directories would be a guess.
pub open spec fn chapter_for(spine: Seq<SpineView>, href: Seq<char>) -> Option<int> {
    match spine_exact(spine, href, 0) {
        Some(i) => Some(i),
        None => match file_name_of(href) {
            None => None,
            Some(name) => {
                let found = spine_named(spine, name, spine.len() as int);
                if found.0 == 1 {
                    Some(found.1)
                } else {
                    None
                }
            },
        },
    }
}

pub open spec fn index_opt(o: Option<usize>) -> Option<int> {
    match o {
        Some(i) => Some(i as int),
        None => None,
    }
}

/// The chapter that has exactly this href.
pub(crate) fn find_exact(book: &Book, href: &str) -> (r: Option<usize>)
    ensures
        index_opt(r) == spine_exact(book@.spine, href@, 0),
        r matches Some(i) ==> i < book@.spine.len(),
{
    let mut i: usize = 0;
    assert(book@.spine.len() == book.spine@.len());
    while i < book.spine.len()
        invariant
            i <= book.spine@.len(),
            book@.spine.len() == book.spine@.len(),
            spine_exact(book@.spine, href@, 0) == spine_exact(book@.spine, href@, i as int),
        decreases book.spine@.len() - i,
    {
        assert(book@.spine[i as int] == book.spine@[i as int]@);
        if same(&book.spine[i].href, href) {
            return Some(i);
        }
        i += 1;
    }
    None
}

/// Finds a chapter in the reading order.
pub fn find_in_spine(book: &Book, href: &str) -> (r: Option<usize>)
    ensures
        index_opt(r) == chapter_for(book@.spine, href@),
        r matches Some(i) ==> i < book@.spine.len(),
{
    if let Some(i) = find_exact(book, href) {
        return Some(i);
    }
    let name = match file_name(href) {
        Some(n) => n,
        None => {
            return None;
        },
    };
    let mut count: usize = 0;
    let mut last: usize = 0;
    let mut i: usize = 0;
    assert(book@.spine.len() == book.spine@.len());
    while i < book.spine.len()
        invariant
            i <= book.spine@.len(),
            book@.spine.len() == book.spine@.len(),
            count <= i,
            count > 0 ==> last < i,
            spine_named(book@.spine, name@, i as int) == (count as int, last as int),
        decreases book.spine@.len() - i,
    {
        assert(book@.spine[i as int] == book.spine@[i as int]@);
        let hit = match file_name(&book.spine[i].href) {
            Some(n) => same(&n, &name),
            None => false,
        };
        if hit {
            count += 1;
            last = i;
        }
        i += 1;
    }
    if count == 1 {
        Some(last)
    } else {
        None
    }
}

} // verus!
