//! What holds of every link, every match in another chapter and every list in the
//! reader.

use vstd::prelude::*;
use crate::annotation::Color;
use crate::app::motions::plain_key;
use crate::app::show::at_or_before;
use crate::app::target::{
    chapter_for, chapter_shown, href_resolved, is_external, spine_exact, target_file,
    target_fragment, word_after, word_before,
};
use crate::app::{AppView, ChangeView, EditView, RequestView};
use crate::doc::{ChapterView, LocatorView};
use crate::epub::{chapter_at, BookView};
use crate::gather::{lemma_says, says};
use crate::input::Key;
use crate::layout::line_at;
use crate::search::all_hits;

verus! {

// ---------------------------------------------------------------------------
// Links
// ---------------------------------------------------------------------------
proof fn lemma_first_link(chapter: ChapterView, block: int, offset: int, from: int)
    requires
        0 <= from <= chapter.links.len(),
    ensures
        match chapter.first_link(block, offset, from) {
            Some(k) => from <= k < chapter.links.len() && chapter.links[k].block == block
                && chapter.links[k].start <= offset < chapter.links[k].end && forall|j: int|
                from <= j < k ==> !((#[trigger] chapter.links[j]).block == block
                    && chapter.links[j].start <= offset < chapter.links[j].end),
            None => forall|j: int|
                from <= j < chapter.links.len() ==> !((#[trigger] chapter.links[j]).block == block
                    && chapter.links[j].start <= offset < chapter.links[j].end),
        },
    decreases chapter.links.len() - from,
{
    if from < chapter.links.len() {
        lemma_first_link(chapter, block, offset, from + 1);
    }
}

/// The link under the cursor is the first whose text the cursor stands on.
pub proof fn the_link_here_covers_the_cursor(s: AppView, at: (usize, usize))
    requires
        s.cursor_text() == Some(at),
    ensures
        match s.link_here() {
            Some(k) => 0 <= k < s.chapter.links.len() && s.chapter.links[k].block == at.0
                && s.chapter.links[k].start <= at.1 < s.chapter.links[k].end,
            None => forall|j: int|
                0 <= j < s.chapter.links.len() ==> !((#[trigger] s.chapter.links[j]).block == at.0
                    && s.chapter.links[j].start <= at.1 < s.chapter.links[j].end),
        },
{
    lemma_first_link(s.chapter, at.0 as int, at.1 as int, 0);
}

/// A link leads to the chapter that it names, to the place that it names there, or else
/// to the top of that chapter, and the way back is remembered. A link out of the book,
/// or to a file that is not read, leads nowhere.
pub proof fn a_link_leads_where_it_points(s: AppView, i: int)
    requires
        s.link_here() == Some(i),
    ensures
        ({
            let after = s.link_followed();
            let target = s.chapter.links[i].target;
            let href = if target_file(target).len() == 0 {
                s.chapter.href
            } else {
                href_resolved(s.chapter.href, target_file(target))
            };
            let stays = after.chapter_index == s.chapter_index && after.chapter == s.chapter
                && after.jumps == s.jumps && after.scroll == s.scroll;
            if is_external(target) {
                stays && after.status == Some("external link: "@ + target)
            } else {
                match chapter_for(s.book.spine, href) {
                    None => stays,
                    Some(index) => {
                        let chapter = if index == s.chapter_index || index < 0 || index
                            >= s.book.spine.len() {
                            s.chapter
                        } else {
                            chapter_shown(s.book, index)
                        };
                        let place = match target_fragment(target) {
                            Some(name) => if chapter.anchors.contains_key(name) {
                                chapter.anchors[name]
                            } else {
                                (0usize, 0usize)
                            },
                            None => (0usize, 0usize),
                        };
                        &&& after.chapter == chapter
                        &&& 0 <= index < s.book.spine.len() ==> after.chapter_index == index
                        &&& after.pending_cursor == Some(place)
                        &&& after.pending_restore == Some(
                            LocatorView { href: chapter.href, block: place.0, offset: place.1 },
                        )
                        &&& after.jumps.len() == s.jumps.len() + 1
                        &&& after.jumps.drop_last() == s.jumps
                        &&& s.position() matches Some(p) ==> after.jumps.last().view == p
                        &&& after.jumps.last().cursor == s.cursor_text()
                    },
                }
            }
        }),
{
    reveal(AppView::link_followed);
    reveal(AppView::gone_to);
    let after = s.link_followed();
    if after.jumps.len() > s.jumps.len() {
        assert(after.jumps.drop_last() =~= s.jumps);
    }
}

// ---------------------------------------------------------------------------
// Chapters
// ---------------------------------------------------------------------------
/// A chapter that can be read is shown as it is; one that cannot is replaced by a line
/// that says why, under the same name.
pub proof fn an_unreadable_chapter_says_why(book: BookView, index: int)
    requires
        0 <= index < book.spine.len(),
    ensures
        match chapter_at(book, index) {
            Ok(chapter) => chapter_shown(book, index) == chapter,
            Err(report) => {
                let shown = chapter_shown(book, index);
                &&& shown.href == book.spine[index].href
                &&& shown.blocks.len() == 1 && shown.blocks[0].runs.len() == 1
                &&& report.len() > 0 ==> says(shown.blocks[0].runs[0].text, report[0])
            },
        },
{
    if let Err(report) = chapter_at(book, index) {
        if report.len() > 0 {
            let lead = "This chapter could not be read: "@;
            lemma_says(lead, report[0], Seq::empty());
            assert(lead + report[0] + Seq::<char>::empty() =~= lead + report[0]);
        }
    }
}

/// A chapter has a match.
pub open spec fn has_match(s: AppView, index: int) -> bool {
    all_hits(chapter_shown(s.book, index).blocks, s.search.query).len() > 0
}

proof fn lemma_nearest(s: AppView, index: int, forward: bool)
    requires
        0 <= index < s.book.spine.len(),
    ensures
        match s.chapter_with_match(index, forward) {
            Some(k) => 0 <= k < s.book.spine.len() && has_match(s, k) && (if forward {
                index < k && forall|j: int| index < j < k ==> !#[trigger] has_match(s, j)
            } else {
                k < index && forall|j: int| k < j < index ==> !#[trigger] has_match(s, j)
            }),
            None => if forward {
                forall|j: int| index < j < s.book.spine.len() ==> !#[trigger] has_match(s, j)
            } else {
                forall|j: int| 0 <= j < index ==> !#[trigger] has_match(s, j)
            },
        },
    decreases (if forward {
        s.book.spine.len() - index
    } else {
        index
    }),
{
    let next = if forward {
        index + 1
    } else {
        index - 1
    };
    if 0 <= next < s.book.spine.len() {
        if !has_match(s, next) {
            lemma_nearest(s, next, forward);
        }
    }
}

/// Past the last match of a chapter the search goes on to the nearest chapter that has
/// one: to its first match on the way forward, to its last on the way back. Where no
/// chapter is left with one, nothing moves.
pub proof fn a_search_goes_on_to_the_nearest_chapter(s: AppView, forward: bool)
    requires
        0 <= s.chapter_index < s.book.spine.len(),
    ensures
        match s.chapter_with_match(s.chapter_index, forward) {
            Some(k) => {
                let after = s.looked_on(forward);
                let hits = all_hits(chapter_shown(s.book, k).blocks, s.search.query);
                &&& has_match(s, k)
                &&& forward ==> s.chapter_index < k && forall|j: int|
                    s.chapter_index < j < k ==> !#[trigger] has_match(s, j)
                &&& !forward ==> k < s.chapter_index && forall|j: int|
                    k < j < s.chapter_index ==> !#[trigger] has_match(s, j)
                &&& after.chapter_index == k && after.chapter == chapter_shown(s.book, k)
                &&& after.search.hits == hits && after.search.query == s.search.query
                &&& forward ==> after.search.current == Some(0usize)
                &&& !forward && hits.len() <= usize::MAX ==> after.search.current is Some
                    && after.search.current->0 == hits.len() - 1
            },
            None => {
                let after = s.looked_on(forward);
                &&& after.chapter_index == s.chapter_index && after.chapter == s.chapter
                &&& after.search == s.search && after.scroll == s.scroll
                &&& forward ==> forall|j: int|
                    s.chapter_index < j < s.book.spine.len() ==> !#[trigger] has_match(s, j)
                &&& !forward ==> forall|j: int|
                    0 <= j < s.chapter_index ==> !#[trigger] has_match(s, j)
            },
        },
{
    reveal(AppView::looked_on);
    lemma_nearest(s, s.chapter_index, forward);
}

// ---------------------------------------------------------------------------
// The list of annotations
// ---------------------------------------------------------------------------
/// The list moves by one entry, leads to the passage of the entry under its cursor, and
/// asks for changes to that entry alone.
pub proof fn the_list_works_on_its_entry(s: AppView, color: Color)
    requires
        0 <= s.annotations_cursor < s.annotations.len(),
    ensures
        ({
            let a = s.annotations[s.annotations_cursor];
            let opened = s.annotations_key(Key::Enter);
            &&& s.listing().mode is Annotations
            &&& s.annotations_cursor + 1 < s.annotations.len() ==> s.annotations_key(
                Key::Down,
            ).annotations_cursor == s.annotations_cursor + 1 && s.annotations_key(
                Key::Down,
            ).annotations_key(Key::Up).annotations_cursor == s.annotations_cursor
            &&& s.annotations_key(Key::Char('d')).request == Some(
                RequestView::Write(ChangeView::Remove { id: a.id }),
            )
            &&& s.recoloring_selected(color).request == Some(
                RequestView::Write(ChangeView::Recolor { id: a.id, color }),
            )
            &&& s.annotations_key(Key::Char('e')).pending_edit == Some(
                EditView {
                    annotation_id: a.id,
                    initial_text: match a.note {
                        Some(n) => n,
                        None => Seq::empty(),
                    },
                    quote: a.quote,
                },
            )
            &&& opened.mode is Reading
            &&& opened.pending_restore == Some(
                LocatorView { href: a.href, block: a.beginning().0, offset: a.beginning().1 },
            )
            &&& spine_exact(s.book.spine, a.href, 0) matches Some(k) ==> (0 <= k
                < s.book.spine.len() ==> opened.chapter_index == k && (k != s.chapter_index
                ==> opened.chapter == chapter_shown(s.book, k)))
        }),
{
    reveal(AppView::gone_to);
    reveal(AppView::annotations_key);
    reveal(AppView::passage_shown);
    reveal(AppView::listing);
}

// ---------------------------------------------------------------------------
// Places in the text
// ---------------------------------------------------------------------------
/// A cursor that is put on a place of the text stands on it, wherever a line shows that
/// place.
pub proof fn a_cursor_stands_where_it_is_put(s: AppView, at: (usize, usize), line: int)
    requires
        line_at(s.lines, at.0 as int, at.1 as int) == Some(line),
        0 <= line < s.lines.len(),
        s.lines[line].block == at.0,
        0 <= s.lines[line].offset <= at.1 < s.lines[line].offset + s.line_len(line),
    ensures
        s.cursor_at(at) == Some((line, at.1 - s.lines[line].offset)),
        (AppView { cursor: s.cursor_at(at), ..s }).cursor_text() == Some(at),
{
}

/// A selection begins where the cursor stands.
pub proof fn a_selection_begins_at_the_cursor(s: AppView, linewise: bool, at: (usize, usize))
    requires
        s.cursor_text() == Some(at),
    ensures
        ({
            let after = s.selecting(linewise);
            &&& after.mode is Visual
            &&& after.anchor == Some(at)
            &&& after.linewise == linewise
            &&& after.cursor == s.cursor
            &&& !linewise ==> after.selection() == Some((at, at))
        }),
{
    reveal(AppView::selecting);
}

/// A selection by lines reaches from the first character of its first line to the last
/// of its last line.
pub proof fn lines_are_selected_whole(
    s: AppView,
    anchor: (usize, usize),
    head: (usize, usize),
    first: int,
    last: int,
)
    requires
        s.mode is Visual,
        s.linewise,
        s.anchor == Some(anchor),
        s.cursor_text() == Some(head),
        at_or_before(anchor, head),
        line_at(s.lines, anchor.0 as int, anchor.1 as int) == Some(first),
        line_at(s.lines, head.0 as int, head.1 as int) == Some(last),
        0 <= first < s.lines.len(),
        0 <= last < s.lines.len(),
        s.line_len(last) >= 1,
        0 <= s.lines[first].block <= usize::MAX,
        0 <= s.lines[first].offset <= usize::MAX,
        0 <= s.lines[last].block <= usize::MAX,
        0 <= s.lines[last].offset,
        s.lines[last].offset + s.line_len(last) <= usize::MAX,
    ensures
        s.selection() matches Some((start, end)) && start.0 == s.lines[first].block && start.1
            == s.lines[first].offset && end.0 == s.lines[last].block && end.1
            == s.lines[last].offset + s.line_len(last) - 1,
{
}

/// The position that is written is the one on screen, and it is written only where it
/// is not the one written last.
pub proof fn the_position_on_screen_is_written(s: AppView, aloud: bool, at: LocatorView)
    requires
        s.position() == Some(at),
    ensures
        at.href == s.chapter.href,
        s.last_written == Some(at) ==> s.saved(aloud) == s,
        s.last_written != Some(at) ==> s.saved(aloud).request == Some(
            RequestView::Save { locator: at, aloud },
        ),
        0 <= s.lines[s.scroll].block <= usize::MAX ==> at.block == s.lines[s.scroll].block,
        0 <= s.lines[s.scroll].offset <= usize::MAX ==> at.offset == s.lines[s.scroll].offset,
{
}

// ---------------------------------------------------------------------------
// Keys
// ---------------------------------------------------------------------------
/// A key while a cursor stands in the text moves it as the key says, each key of a pair
/// against the other; what works on the text is asked of the place under the cursor.
pub proof fn keys_move_the_cursor(s: AppView, now: int)
    requires
        s.mode is Normal || s.mode is Visual,
        s.pending is None,
    ensures
        ({
            let t = AppView { request: None, ..s };
            &&& s.pressed(plain_key(Key::Char('l')), now) == t.moved_sideways(true)
            &&& s.pressed(plain_key(Key::Right), now) == t.moved_sideways(true)
            &&& s.pressed(plain_key(Key::Char('h')), now) == t.moved_sideways(false)
            &&& s.pressed(plain_key(Key::Left), now) == t.moved_sideways(false)
            &&& s.pressed(plain_key(Key::Char('j')), now) == t.moved_lines(true, 1)
            &&& s.pressed(plain_key(Key::Down), now) == t.moved_lines(true, 1)
            &&& s.pressed(plain_key(Key::Char('k')), now) == t.moved_lines(false, 1)
            &&& s.pressed(plain_key(Key::Up), now) == t.moved_lines(false, 1)
            &&& s.pressed(plain_key(Key::Char('w')), now) == t.moved_word(true)
            &&& s.pressed(plain_key(Key::Char('b')), now) == t.moved_word(false)
            &&& s.pressed(plain_key(Key::Char('0')), now) == t.moved_to_edge(false)
            &&& s.pressed(plain_key(Key::Char('$')), now) == t.moved_to_edge(true)
            &&& s.mode is Normal ==> s.pressed(plain_key(Key::Enter), now) == t.link_followed()
            &&& s.mode is Normal ==> s.pressed(plain_key(Key::Char('e')), now) == t.editing_here()
            &&& s.mode is Normal ==> s.pressed(plain_key(Key::Char('d')), now) == t.deleting()
            &&& s.mode is Normal ==> s.pressed(plain_key(Key::Char('n')), now) == t.matched(true)
            &&& s.mode is Normal ==> s.pressed(plain_key(Key::Char('N')), now) == t.matched(false)
            &&& s.mode is Normal ==> s.pressed(plain_key(Key::Char('v')), now) == t.selecting(false)
            &&& s.mode is Normal ==> s.pressed(plain_key(Key::Char('V')), now) == t.selecting(true)
        }),
{
    reveal(AppView::cursor_key);
}

/// A word forward puts the cursor on the next beginning of a word in its block, and a
/// word back on the one before.
pub proof fn words_are_stepped_over(s: AppView, block: usize, offset: usize)
    requires
        s.cursor_text() == Some((block, offset)),
        block < s.chapter.blocks.len(),
    ensures
        ({
            let text = s.chapter.blocks[block as int].plain();
            &&& word_after(text, offset as int) matches Some(k) ==> s.moved_word(true).cursor
                == s.cursor_at((block, k as usize))
            &&& offset <= text.len() ==> (word_before(text, offset as int) matches Some(k)
                ==> s.moved_word(false).cursor == s.cursor_at((block, k as usize)))
        }),
{
    reveal(AppView::moved_word);
}

} // verus!
