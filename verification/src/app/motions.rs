//! What holds of every motion, every selection and every request in the reader.

use vstd::prelude::*;
use crate::annotation::{key_of, place_of, AnnotationView, Color, Slice};
use crate::app::reader::sources_in;
use crate::app::report::{marks_in, pictured, row_of, FetchView};
use crate::app::response::color_for;
use crate::app::show::{
    at_or_before, first_with_id, last_block, mark_at, note_of, notes_of, picture_box,
    placements_of, quote_of, quote_parts, real_slots, slice_quote, slices_between, with_color,
    with_note, without_id,
};
use crate::app::target::{
    begins_word, chapter_for, chapter_shown, spine_exact, spine_named, target_file,
    target_fragment, word_after, word_stop,
};
use crate::app::{AppView, ChangeView, EditView, RequestView, SlotView};
use crate::doc::{BlockView, KindView, LocatorView};
use crate::epub::SpineView;
use crate::failure::{joined, joining_keeps_every_part};
use crate::gather::{gathers, is_at, lemma_gather, says};
use crate::input::{Key, KeyPress};
use crate::layout::{
    laid_out, lemma_selectable_from, selectable_below, selectable_from, LayoutOptions, LineView,
    NoteView,
};
use crate::paths::file_name_of;
use crate::search::{all_hits, first_not_before};
use crate::shelf::{less_by, smaller};
use crate::text::{find_from, is_white, lemma_skip_white, occurs_at, skip_white, trim};
use crate::theme::ThemeView;

verus! {

/// A key without a modifier.
pub open spec fn plain_key(key: Key) -> KeyPress {
    KeyPress { key, ctrl: false }
}

// ---------------------------------------------------------------------------
// Scrolling
// ---------------------------------------------------------------------------
/// One line down and one up leads back, as long as there is text below.
pub proof fn scrolling_back_undoes_scrolling(s: AppView, now: int)
    requires
        s.wf(),
        s.mode is Reading,
        s.pending is None,
        s.scroll < s.max_scroll(),
    ensures
        s.pressed(plain_key(Key::Down), now).scroll == s.scroll + 1,
        s.pressed(plain_key(Key::Char('j')), now).scroll == s.scroll + 1,
        s.pressed(plain_key(Key::Down), now).pressed(plain_key(Key::Up), now).scroll == s.scroll,
        s.pressed(plain_key(Key::Char('j')), now).pressed(plain_key(Key::Char('k')), now).scroll
            == s.scroll,
        s.pressed(plain_key(Key::Down), now).lines == s.lines,
{
    reveal(AppView::read_key);
}

/// A screenful moves by what is seen, less two lines, half a screenful by half of it,
/// and neither goes past the ends of the chapter.
pub proof fn screenfuls_stop_at_the_ends(s: AppView, now: int)
    requires
        s.wf(),
        s.mode is Reading,
        s.pending is None,
        s.view_height >= 4,
    ensures
        ({
            let page = s.view_height - 2;
            let half = s.view_height as int / 2;
            let last = s.max_scroll();
            let down = s.pressed(plain_key(Key::PageDown), now).scroll;
            let up = s.pressed(plain_key(Key::PageUp), now).scroll;
            let half_down = s.pressed(KeyPress { key: Key::Char('d'), ctrl: true }, now).scroll;
            let half_up = s.pressed(KeyPress { key: Key::Char('u'), ctrl: true }, now).scroll;
            &&& down == (if s.scroll + page <= last {
                s.scroll + page
            } else {
                last
            })
            &&& half_down == (if s.scroll + half <= last {
                s.scroll + half
            } else {
                last
            })
            &&& s.scroll <= last ==> up == (if s.scroll >= page {
                s.scroll - page
            } else {
                0
            })
            &&& s.scroll <= last ==> half_up == (if s.scroll >= half {
                s.scroll - half
            } else {
                0
            })
            &&& s.pressed(plain_key(Key::Char('G')), now).scroll == last
            &&& s.pressed(plain_key(Key::Char('g')), now).pressed(
                plain_key(Key::Char('g')),
                now,
            ).scroll == 0
        }),
{
    reveal(AppView::read_key);
    reveal(AppView::sequenced);
}

// ---------------------------------------------------------------------------
// Chapters
// ---------------------------------------------------------------------------
/// The next chapter and back again is the chapter it was, shown from its top; at the
/// ends of the book nothing moves.
pub proof fn chapters_come_one_after_the_other(s: AppView, now: int)
    requires
        s.wf(),
        s.mode is Reading,
        s.pending is None,
    ensures
        ({
            let next = s.pressed(plain_key(Key::Char('L')), now);
            let back = s.pressed(plain_key(Key::Char('H')), now);
            &&& s.chapter_index + 1 < s.book.spine.len() ==> next.chapter_index == s.chapter_index
                + 1 && next.chapter == chapter_shown(s.book, s.chapter_index + 1) && next.scroll
                == 0 && next.pressed(plain_key(Key::Char('H')), now).chapter_index
                == s.chapter_index
            &&& s.chapter_index + 1 == s.book.spine.len() ==> next.chapter_index == s.chapter_index
                && next.chapter == s.chapter && next.scroll == s.scroll
            &&& s.chapter_index > 0 ==> back.chapter_index == s.chapter_index - 1 && back.chapter
                == chapter_shown(s.book, s.chapter_index - 1) && back.scroll == 0
            &&& s.chapter_index == 0 ==> back.chapter_index == 0 && back.chapter == s.chapter
        }),
{
    reveal(AppView::read_key);
    reveal(AppView::chapter_stepped);
    reveal(AppView::gone_to);
}

/// The table of contents opens at the chapter on screen, moves one entry at a time,
/// and leads to the entry under its cursor.
pub proof fn contents_lead_to_their_chapter(s: AppView, now: int)
    requires
        s.wf(),
        s.pending is None,
    ensures
        s.mode is Reading ==> s.pressed(plain_key(Key::Tab), now).mode is Contents && s.pressed(
            plain_key(Key::Tab),
            now,
        ).contents_cursor == s.chapter_index,
        s.mode is Contents && s.contents_cursor + 1 < s.book.spine.len() ==> s.pressed(
            plain_key(Key::Down),
            now,
        ).contents_cursor == s.contents_cursor + 1 && s.pressed(plain_key(Key::Down), now).pressed(
            plain_key(Key::Up),
            now,
        ).contents_cursor == s.contents_cursor,
        s.mode is Contents && s.contents_cursor < s.book.spine.len() ==> ({
            let after = s.pressed(plain_key(Key::Enter), now);
            after.chapter_index == s.contents_cursor && after.chapter == chapter_shown(
                s.book,
                s.contents_cursor,
            ) && after.mode is Reading
        }),
        s.mode is Contents ==> s.pressed(plain_key(Key::Esc), now).chapter == s.chapter && s.pressed(
            plain_key(Key::Esc),
            now,
        ).mode is Reading,
{
    reveal(AppView::read_key);
    reveal(AppView::contents_key);
    reveal(AppView::gone_to);
}

/// A chapter by its path, or else by its file's name where only one has it.
pub proof fn a_link_leads_to_its_chapter(spine: Seq<SpineView>, href: Seq<char>)
    ensures
        match chapter_for(spine, href) {
            Some(k) => 0 <= k < spine.len() && (spine[k].href == href && (forall|j: int|
                0 <= j < k ==> (#[trigger] spine[j]).href != href) || ((forall|j: int|
                0 <= j < spine.len() ==> (#[trigger] spine[j]).href != href) && file_name_of(
                spine[k].href,
            ) == file_name_of(href) && file_name_of(href) is Some && (forall|j: int|
                0 <= j < spine.len() && j != k ==> file_name_of((#[trigger] spine[j]).href)
                    != file_name_of(href)))),
            None => forall|j: int| 0 <= j < spine.len() ==> (#[trigger] spine[j]).href != href,
        },
{
    lemma_exact(spine, href, 0);
    if let Some(name) = file_name_of(href) {
        lemma_named(spine, name, spine.len() as int);
    }
}

proof fn lemma_exact(spine: Seq<SpineView>, href: Seq<char>, i: int)
    requires
        0 <= i <= spine.len(),
    ensures
        match spine_exact(spine, href, i) {
            Some(k) => i <= k < spine.len() && spine[k].href == href && forall|j: int|
                i <= j < k ==> (#[trigger] spine[j]).href != href,
            None => forall|j: int| i <= j < spine.len() ==> (#[trigger] spine[j]).href != href,
        },
    decreases spine.len() - i,
{
    if i < spine.len() {
        lemma_exact(spine, href, i + 1);
    }
}

proof fn lemma_named(spine: Seq<SpineView>, name: Seq<char>, n: int)
    requires
        0 <= n <= spine.len(),
    ensures
        ({
            let (count, last) = spine_named(spine, name, n);
            &&& 0 <= count
            &&& count == 0 ==> forall|j: int|
                0 <= j < n ==> file_name_of((#[trigger] spine[j]).href) != Some(name)
            &&& count > 0 ==> 0 <= last < n && file_name_of(spine[last].href) == Some(name)
            &&& count == 1 ==> forall|j: int|
                0 <= j < n && j != last ==> file_name_of((#[trigger] spine[j]).href) != Some(name)
        }),
    decreases n,
{
    if n > 0 {
        lemma_named(spine, name, n - 1);
    }
}

/// A link is a file and, behind the first hash, a place in it.
pub proof fn a_link_is_file_and_place(file: Seq<char>, place: Seq<char>)
    requires
        !file.contains('#'),
    ensures
        target_file(file.push('#') + place) == file,
        place.len() > 0 ==> target_fragment(file.push('#') + place) == Some(place),
        target_file(file) == file,
        target_fragment(file) is None,
{
    reveal_strlit("#");
    assert("#"@ =~= seq!['#']);
    let s = file.push('#') + place;
    assert(s.take(file.len() as int) =~= file);
    lemma_hash(file, s, 0);
    assert(s.skip(file.len() as int + 1) =~= place);
    lemma_no_hash(file, 0);
}

proof fn lemma_hash(file: Seq<char>, s: Seq<char>, i: int)
    requires
        0 <= i <= file.len(),
        !file.contains('#'),
        s.len() > file.len(),
        s.take(file.len() as int) == file,
        s[file.len() as int] == '#',
    ensures
        find_from(s, seq!['#'], i) == Some(file.len() as int),
    decreases file.len() - i,
{
    if i < file.len() {
        assert(file.contains(file[i]));
        assert(s.take(file.len() as int)[i] == s[i]);
        assert(s.subrange(i, i + 1)[0] == s[i]);
        lemma_hash(file, s, i + 1);
    } else {
        assert(s.subrange(i, i + 1) =~= seq!['#']);
    }
}

proof fn lemma_no_hash(file: Seq<char>, i: int)
    requires
        0 <= i <= file.len(),
        !file.contains('#'),
    ensures
        find_from(file, seq!['#'], i) is None,
    decreases file.len() - i,
{
    if i < file.len() {
        assert(file.contains(file[i]));
        assert(file.subrange(i, i + 1)[0] == file[i]);
        lemma_no_hash(file, i + 1);
    }
}

// ---------------------------------------------------------------------------
// The cursor
// ---------------------------------------------------------------------------
/// A step to the right and one to the left leads back within a line.
pub proof fn left_undoes_right(s: AppView, line: int, column: int)
    requires
        s.wf(),
        s.cursor == Some((line, column)),
        0 <= line < s.lines.len(),
        0 <= column,
        column + 1 < s.line_len(line),
    ensures
        s.moved_sideways(true).cursor == Some((line, column + 1)),
        s.moved_sideways(true).moved_sideways(false).cursor == s.cursor,
{
    reveal(AppView::moved_sideways);
}

/// From the end of a line a step to the right leads to the first character of the next
/// line of text, and one to the left from there to the last character of the line it
/// came from.
pub proof fn steps_cross_from_line_to_line(s: AppView, line: int, next: int)
    requires
        s.wf(),
        0 <= line < next < s.lines.len(),
        s.lines[line].selectable(),
        s.lines[next].selectable(),
        forall|k: int| line < k < next ==> !(#[trigger] s.lines[k]).selectable(),
        s.cursor == Some((line, s.line_len(line) - 1)),
    ensures
        s.moved_sideways(true).cursor == Some((next, 0int)),
        s.moved_sideways(true).moved_sideways(false).cursor == s.cursor,
{
    reveal(AppView::moved_sideways);
    lemma_selectable_from(s.lines, line + 1);
    lemma_next(s.lines, line + 1, next);
    lemma_previous(s.lines, next, line);
}

proof fn lemma_next(lines: Seq<LineView>, i: int, next: int)
    requires
        0 <= i <= next < lines.len(),
        lines[next].selectable(),
        forall|k: int| i <= k < next ==> !(#[trigger] lines[k]).selectable(),
    ensures
        selectable_from(lines, i) == Some(next),
    decreases next - i,
{
    if i < next {
        assert(!lines[i].selectable());
        lemma_next(lines, i + 1, next);
    }
}

proof fn lemma_previous(lines: Seq<LineView>, n: int, line: int)
    requires
        0 <= line < n <= lines.len(),
        lines[line].selectable(),
        forall|k: int| line < k < n ==> !(#[trigger] lines[k]).selectable(),
    ensures
        selectable_below(lines, n) == Some(line),
    decreases n,
{
    if line < n - 1 {
        assert(!lines[n - 1].selectable());
        lemma_previous(lines, n - 1, line);
    }
}

/// One line of text down and one up leads back to the line.
pub proof fn up_undoes_down(s: AppView, line: int, column: int, next: int)
    requires
        s.wf(),
        0 <= line < next < s.lines.len(),
        s.lines[line].selectable(),
        s.lines[next].selectable(),
        forall|k: int| line < k < next ==> !(#[trigger] s.lines[k]).selectable(),
        s.cursor == Some((line, column)),
        0 <= column < s.line_len(line),
    ensures
        s.moved_lines(true, 1).cursor == Some(
            (
                next,
                if column < s.line_len(next) {
                    column
                } else {
                    s.line_len(next) - 1
                },
            ),
        ),
        s.moved_lines(true, 1).moved_lines(false, 1).cursor matches Some(c) && c.0 == line && (column
            < s.line_len(next) ==> c.1 == column),
{
    reveal(AppView::moved_lines);
    reveal_with_fuel(AppView::line_stepped, 2);
    lemma_next(s.lines, line + 1, next);
    lemma_previous(s.lines, next, line);
    let down = s.moved_lines(true, 1);
    assert(down.lines == s.lines);
    assert(s.line_len(next) > 0);
}

/// The ends of a line are its first and its last character.
pub proof fn edges_are_the_ends_of_the_line(s: AppView, line: int, column: int)
    requires
        s.cursor == Some((line, column)),
        0 <= line < s.lines.len(),
        s.lines[line].selectable(),
    ensures
        s.moved_to_edge(false).cursor == Some((line, 0int)),
        s.moved_to_edge(true).cursor == Some((line, s.line_len(line) - 1)),
{
}

proof fn lemma_word_stop(s: Seq<char>, i: int)
    requires
        0 <= i <= s.len(),
    ensures
        i <= word_stop(s, i) <= s.len(),
        forall|k: int| i <= k < word_stop(s, i) ==> !is_white(#[trigger] s[k]),
        word_stop(s, i) < s.len() ==> is_white(s[word_stop(s, i)]),
    decreases s.len() - i,
{
    if i < s.len() && !is_white(s[i]) {
        lemma_word_stop(s, i + 1);
    }
}

/// The next word is the first that begins behind the cursor.
pub proof fn the_next_word_is_the_first_to_begin(s: Seq<char>, from: int)
    requires
        0 <= from <= s.len(),
    ensures
        match word_after(s, from) {
            Some(k) => from < k < s.len() && begins_word(s, k) && forall|j: int|
                from < j < k ==> !(#[trigger] begins_word(s, j)),
            None => forall|j: int|
                from < j < s.len() ==> !(#[trigger] begins_word(s, j)),
        },
{
    let a = word_stop(s, from);
    lemma_word_stop(s, from);
    lemma_skip_white(s, a);
    let b = skip_white(s, a);
    assert forall|j: int| from < j < b implies !(#[trigger] begins_word(
        s,
        j,
    )) by {
        if j < a {
            assert(!is_white(s[j - 1]));
        } else {
            assert(is_white(s[j]));
        }
    }
    if b < s.len() {
        assert(a < b) by {
            if a == b {
                assert(is_white(s[a]));
            }
        }
        assert(is_white(s[b - 1]));
    }
}

// ---------------------------------------------------------------------------
// Selections
// ---------------------------------------------------------------------------
/// A place lies within one of some slices.
pub open spec fn covered(slices: Seq<Slice>, block: int, offset: int) -> bool {
    exists|i: int|
        0 <= i < slices.len() && (#[trigger] slices[i]).block == block && slices[i].start <= offset
            < slices[i].end
}

proof fn lemma_covered_push(slices: Seq<Slice>, s: Slice, block: int, offset: int)
    ensures
        covered(slices.push(s), block, offset) == (covered(slices, block, offset) || (s.block
            == block && s.start <= offset < s.end)),
{
    let all = slices.push(s);
    if covered(slices, block, offset) {
        let i = choose|i: int|
            0 <= i < slices.len() && (#[trigger] slices[i]).block == block && slices[i].start
                <= offset < slices[i].end;
        assert(all[i] == slices[i]);
    }
    if s.block == block && s.start <= offset < s.end {
        assert(all[slices.len() as int] == s);
    }
    if covered(all, block, offset) {
        let i = choose|i: int|
            0 <= i < all.len() && (#[trigger] all[i]).block == block && all[i].start <= offset
                < all[i].end;
        if i < slices.len() {
            assert(slices[i] == all[i]);
        }
    }
}

proof fn lemma_slices(
    blocks: Seq<BlockView>,
    start: (usize, usize),
    end: (usize, usize),
    n: int,
    block: int,
    offset: int,
)
    requires
        slices_between(blocks, start, end, n) is Some,
        start.0 <= end.0,
        n <= end.0 + 1,
        start.0 <= n,
        forall|b: int|
            0 <= b < blocks.len() ==> (#[trigger] blocks[b]).plain().len() <= usize::MAX,
    ensures
        covered(slices_between(blocks, start, end, n)->0, block, offset) <==> (start.0 <= block < n
            && block < blocks.len() && 0 <= offset < blocks[block].plain().len() && (block == start.0
            ==> start.1 <= offset) && (block == end.0 ==> offset <= end.1)),
    decreases n,
{
    if n > start.0 {
        lemma_slices(blocks, start, end, n - 1, block, offset);
        let front = slices_between(blocks, start, end, n - 1)->0;
        let b = n - 1;
        let len = blocks[b].plain().len() as int;
        let from = if b == start.0 {
            start.1 as int
        } else {
            0
        };
        let to = if b == end.0 {
            smaller(end.1 + 1, len)
        } else {
            len
        };
        if from < to {
            lemma_covered_push(
                front,
                Slice { block: b as usize, start: from as usize, end: to as usize },
                block,
                offset,
            );
        }
    }
}

/// A selection covers every character from its start to its end, both included, and
/// no other.
pub proof fn a_selection_covers_what_lies_between(
    blocks: Seq<BlockView>,
    start: (usize, usize),
    end: (usize, usize),
    block: int,
    offset: int,
)
    requires
        at_or_before(start, end),
        slices_between(blocks, start, end, end.0 + 1) is Some,
        forall|b: int|
            0 <= b < blocks.len() ==> (#[trigger] blocks[b]).plain().len() <= usize::MAX,
    ensures
        covered(slices_between(blocks, start, end, end.0 + 1)->0, block, offset) <==> (0 <= block
            < blocks.len() && 0 <= offset < blocks[block].plain().len() && (block > start.0 || (block
            == start.0 && offset >= start.1)) && (block < end.0 || (block == end.0 && offset
            <= end.1))),
{
    lemma_slices(blocks, start, end, end.0 + 1, block, offset);
}

/// A selection runs from where it began to the cursor, whichever comes first.
pub proof fn a_selection_runs_both_ways(s: AppView, anchor: (usize, usize), head: (usize, usize))
    requires
        s.mode is Visual,
        !s.linewise,
        s.anchor == Some(anchor),
        s.cursor_text() == Some(head),
    ensures
        s.selection() matches Some((a, b)) && at_or_before(a, b) && ((a == anchor && b == head) || (a
            == head && b == anchor)),
{
}

/// The texts of some slices that say anything.
pub open spec fn quoted_by(blocks: Seq<BlockView>, slices: Seq<Slice>) -> spec_fn(int) -> Option<
    Seq<char>,
> {
    |k: int|
        if slice_quote(blocks, slices[k]).len() > 0 {
            Some(slice_quote(blocks, slices[k]))
        } else {
            None
        }
}

proof fn lemma_parts(blocks: Seq<BlockView>, slices: Seq<Slice>, n: int) -> (at: Seq<int>)
    requires
        0 <= n <= slices.len(),
    ensures
        gathers(at, quote_parts(blocks, slices.take(n)), n, quoted_by(blocks, slices)),
    decreases n,
{
    if n == 0 {
        Seq::empty()
    } else {
        let before = lemma_parts(blocks, slices, n - 1);
        assert(slices.take(n).drop_last() =~= slices.take(n - 1));
        lemma_gather(
            before,
            quote_parts(blocks, slices.take(n - 1)),
            n - 1,
            quoted_by(blocks, slices),
        )
    }
}

/// A quote holds the text of every slice that says anything, in order, as the block
/// has it but for the white space around it.
pub proof fn a_quote_is_what_was_selected(blocks: Seq<BlockView>, slices: Seq<Slice>, k: int)
    requires
        0 <= k < slices.len(),
    ensures
        ({
            let s = slices[k];
            s.block < blocks.len() && s.start < s.end <= blocks[s.block as int].plain().len()
                ==> ({
                let text = trim(
                    blocks[s.block as int].plain().subrange(s.start as int, s.end as int),
                );
                text.len() > 0 ==> says(quote_of(blocks, slices), text)
            })
        }),
        exists|at: Seq<int>| #[trigger]
            gathers(
                at,
                quote_parts(blocks, slices),
                slices.len() as int,
                quoted_by(blocks, slices),
            ),
        quote_of(blocks, slices) == joined(quote_parts(blocks, slices), " "@),
{
    let n = slices.len() as int;
    let at = lemma_parts(blocks, slices, n);
    assert(slices.take(n) =~= slices);
    let parts = quote_parts(blocks, slices);
    let of = quoted_by(blocks, slices);
    assert(gathers(at, parts, n, of));
    let s = slices[k];
    if s.block < blocks.len() && s.start < s.end <= blocks[s.block as int].plain().len() {
        let text = trim(blocks[s.block as int].plain().subrange(s.start as int, s.end as int));
        if text.len() > 0 {
            assert(of(k) == Some(text));
            assert(is_at(at, k));
            let i = choose|i: int| 0 <= i < at.len() && #[trigger] at[i] == k;
            assert(parts[i] == text);
            let places = joining_keeps_every_part(parts, " "@);
            assert(occurs_at(joined(parts, " "@), parts[i], places[i]));
        }
    }
}

/// A passage that is marked is asked for as it was selected: in this chapter, in this
/// colour, with its slices and its text, under a new id.
pub proof fn a_mark_is_asked_for_as_selected(
    s: AppView,
    color: Color,
    then_comment: bool,
    now: int,
)
    ensures
        ({
            let after = s.annotated(color, then_comment, now);
            match s.selection_slices() {
                Some(slices) => after.request matches Some(
                    RequestView::Write(ChangeView::Highlight { annotation, then_comment: c }),
                ) && annotation.href == s.chapter.href && annotation.color == color
                    && annotation.slices == slices && annotation.quote == quote_of(
                    s.chapter.blocks,
                    slices,
                ) && annotation.note is None && c == then_comment && after.id_counter
                    == s.id_counter + 1,
                None => after.request == s.request && after.id_counter == s.id_counter,
            }
        }),
{
    reveal(AppView::annotated);
}

/// Every colour has its own key, and `y` alone marks in yellow.
pub proof fn colours_have_their_keys(color: Color, s: AppView, now: int)
    requires
        s.mode is Visual,
        s.pending is None,
    ensures
        color_for(key_of(color)) == Some(color),
        ({
            let t = AppView { pending: None, request: None, ..s };
            &&& s.pressed(plain_key(Key::Char('y')), now) == t.annotated(Color::Yellow, false, now)
            &&& s.pressed(plain_key(Key::Char('a')), now) == t.annotated(Color::Yellow, true, now)
            &&& s.pressed(plain_key(Key::Char('m')), now).pressed(
                plain_key(Key::Char(key_of(color))),
                now,
            ) == t.annotated(color, false, now)
        }),
{
    reveal(AppView::cursor_key);
    reveal(AppView::sequenced);
    let t = AppView { pending: None, request: None, ..s };
    let m = s.pressed(plain_key(Key::Char('m')), now);
    assert(m == t.pending_key('m'));
    assert((AppView { pending: None, request: None, ..m }) == t);
}

// ---------------------------------------------------------------------------
// Annotations
// ---------------------------------------------------------------------------
proof fn lemma_mark(annotations: Seq<AnnotationView>, href: Seq<char>, at: (usize, usize), i: int)
    requires
        0 <= i <= annotations.len(),
    ensures
        match mark_at(annotations, href, at, i) {
            Some(k) => i <= k < annotations.len() && annotations[k].href == href && covered(
                annotations[k].slices,
                at.0 as int,
                at.1 as int,
            ) && forall|j: int|
                i <= j < k ==> !((#[trigger] annotations[j]).href == href && covered(
                    annotations[j].slices,
                    at.0 as int,
                    at.1 as int,
                )),
            None => forall|j: int|
                i <= j < annotations.len() ==> !((#[trigger] annotations[j]).href == href && covered(
                    annotations[j].slices,
                    at.0 as int,
                    at.1 as int,
                )),
        },
    decreases annotations.len() - i,
{
    if i < annotations.len() {
        lemma_covers(annotations[i], at);
        lemma_mark(annotations, href, at, i + 1);
    }
}

proof fn lemma_covers(a: AnnotationView, at: (usize, usize))
    ensures
        a.covers_at(at.0 as int, at.1 as int) == covered(a.slices, at.0 as int, at.1 as int),
{
    if a.covers_at(at.0 as int, at.1 as int) {
        let i = choose|i: int|
            0 <= i < a.slices.len() && (#[trigger] a.slices[i]).holds(at.0 as int, at.1 as int);
        assert(a.slices[i].block == at.0);
    }
    if covered(a.slices, at.0 as int, at.1 as int) {
        let i = choose|i: int|
            0 <= i < a.slices.len() && (#[trigger] a.slices[i]).block == at.0 && a.slices[i].start
                <= at.1 < a.slices[i].end;
        assert(a.slices[i].holds(at.0 as int, at.1 as int));
    }
}

/// The annotation under the cursor is the first of this chapter that covers it, and
/// what is asked of an annotation is asked of that one.
pub proof fn requests_go_to_the_annotation_under_the_cursor(
    s: AppView,
    at: (usize, usize),
    color: Color,
)
    requires
        s.cursor_text() == Some(at),
    ensures
        match s.mark_here() {
            Some(k) => 0 <= k < s.annotations.len() && s.annotations[k].href == s.chapter.href
                && covered(s.annotations[k].slices, at.0 as int, at.1 as int)
                && s.deleting_here().request == Some(
                RequestView::Write(ChangeView::Remove { id: s.annotations[k].id }),
            ) && s.recoloring_here(color).request == Some(
                RequestView::Write(ChangeView::Recolor { id: s.annotations[k].id, color }),
            ) && (s.annotations[k].noted() ==> s.clearing_note().request == Some(
                RequestView::Write(ChangeView::ClearNote { id: s.annotations[k].id }),
            )) && (!s.annotations[k].noted() ==> s.deleting().request == Some(
                RequestView::Write(ChangeView::Remove { id: s.annotations[k].id }),
            )) && (s.annotations[k].noted() ==> s.deleting().request == s.request
                && s.deleting().pending == Some('d')) && s.editing_here().pending_edit == Some(
                EditView {
                    annotation_id: s.annotations[k].id,
                    initial_text: match s.annotations[k].note {
                        Some(n) => n,
                        None => Seq::empty(),
                    },
                    quote: s.annotations[k].quote,
                },
            ),
            None => (forall|j: int|
                0 <= j < s.annotations.len() ==> !((#[trigger] s.annotations[j]).href
                    == s.chapter.href && covered(
                    s.annotations[j].slices,
                    at.0 as int,
                    at.1 as int,
                ))) && s.deleting_here().request == s.request && s.recoloring_here(color).request
                == s.request && s.editing_here().pending_edit == s.pending_edit,
        },
{
    reveal(AppView::deleting);
    reveal(AppView::clearing_note);
    lemma_mark(s.annotations, s.chapter.href, at, 0);
}

proof fn lemma_last_block(slices: Seq<Slice>)
    ensures
        match last_block(slices) {
            Some(b) => (exists|i: int| 0 <= i < slices.len() && (#[trigger] slices[i]).block == b)
                && forall|i: int| 0 <= i < slices.len() ==> (#[trigger] slices[i]).block <= b,
            None => slices.len() == 0,
        },
    decreases slices.len(),
{
    if slices.len() > 0 {
        let d = slices.drop_last();
        lemma_last_block(d);
        let b = last_block(slices)->0;
        assert forall|i: int| 0 <= i < slices.len() implies (#[trigger] slices[i]).block <= b by {
            if i < d.len() {
                assert(d[i] == slices[i]);
            }
        }
        if last_block(d) == Some(b) {
            let i = choose|i: int| 0 <= i < d.len() && (#[trigger] d[i]).block == b;
            assert(slices[i].block == b);
        } else {
            assert(slices[slices.len() - 1].block == b);
        }
    }
}

/// The comment of an annotation as a chapter shows it.
pub open spec fn comment_by(
    annotations: Seq<AnnotationView>,
    href: Seq<char>,
    theme: ThemeView,
) -> spec_fn(int) -> Option<NoteView> {
    |k: int| note_of(annotations[k], href, theme)
}

proof fn lemma_notes(
    annotations: Seq<AnnotationView>,
    href: Seq<char>,
    theme: ThemeView,
    n: int,
) -> (at: Seq<int>)
    requires
        0 <= n <= annotations.len(),
    ensures
        gathers(
            at,
            notes_of(annotations.take(n), href, theme),
            n,
            comment_by(annotations, href, theme),
        ),
    decreases n,
{
    if n == 0 {
        Seq::empty()
    } else {
        let before = lemma_notes(annotations, href, theme, n - 1);
        assert(annotations.take(n).drop_last() =~= annotations.take(n - 1));
        lemma_gather(
            before,
            notes_of(annotations.take(n - 1), href, theme),
            n - 1,
            comment_by(annotations, href, theme),
        )
    }
}

/// Every comment of a chapter is shown, in the colour of its annotation, below the
/// last block that the annotation reaches.
pub proof fn comments_are_shown_where_they_belong(
    annotations: Seq<AnnotationView>,
    href: Seq<char>,
    theme: ThemeView,
    k: int,
)
    requires
        0 <= k < annotations.len(),
    ensures
        exists|at: Seq<int>| #[trigger]
            gathers(
                at,
                notes_of(annotations, href, theme),
                annotations.len() as int,
                comment_by(annotations, href, theme),
            ),
        ({
            let a = annotations[k];
            match comment_by(annotations, href, theme)(k) {
                Some(n) => a.href == href && a.note == Some(n.text) && n.color
                    == theme.marks[place_of(a.color)] && (exists|i: int|
                    0 <= i < a.slices.len() && (#[trigger] a.slices[i]).block == n.block) && (forall|
                    i: int,
                |
                    0 <= i < a.slices.len() ==> (#[trigger] a.slices[i]).block <= n.block),
                None => a.href != href || a.note is None || a.slices.len() == 0,
            }
        }),
{
    let n = annotations.len() as int;
    let at = lemma_notes(annotations, href, theme, n);
    assert(annotations.take(n) =~= annotations);
    assert(gathers(
        at,
        notes_of(annotations, href, theme),
        n,
        comment_by(annotations, href, theme),
    ));
    lemma_last_block(annotations[k].slices);
}

/// The annotations of a chapter.
pub open spec fn held_by(annotations: Seq<AnnotationView>, href: Seq<char>) -> spec_fn(
    int,
) -> Option<AnnotationView> {
    |k: int|
        if annotations[k].href == href {
            Some(annotations[k])
        } else {
            None
        }
}

proof fn lemma_marks_in(annotations: Seq<AnnotationView>, href: Seq<char>, n: int) -> (at: Seq<int>)
    requires
        0 <= n <= annotations.len(),
    ensures
        gathers(at, marks_in(annotations.take(n), href), n, held_by(annotations, href)),
    decreases n,
{
    if n == 0 {
        Seq::empty()
    } else {
        let before = lemma_marks_in(annotations, href, n - 1);
        assert(annotations.take(n).drop_last() =~= annotations.take(n - 1));
        lemma_gather(before, marks_in(annotations.take(n - 1), href), n - 1, held_by(annotations, href))
    }
}

/// Of a chapter's annotations none is passed over, and none of another chapter's is
/// among them.
pub proof fn a_chapter_has_its_annotations(annotations: Seq<AnnotationView>, href: Seq<char>)
    ensures
        exists|at: Seq<int>| #[trigger]
            gathers(
                at,
                marks_in(annotations, href),
                annotations.len() as int,
                held_by(annotations, href),
            ),
{
    let n = annotations.len() as int;
    let at = lemma_marks_in(annotations, href, n);
    assert(annotations.take(n) =~= annotations);
    assert(gathers(at, marks_in(annotations, href), n, held_by(annotations, href)));
}

proof fn lemma_first_id(annotations: Seq<AnnotationView>, id: Seq<char>, i: int)
    requires
        0 <= i <= annotations.len(),
    ensures
        match first_with_id(annotations, id, i) {
            Some(k) => i <= k < annotations.len() && annotations[k].id == id,
            None => forall|j: int| i <= j < annotations.len() ==> (#[trigger] annotations[j]).id != id,
        },
    decreases annotations.len() - i,
{
    if i < annotations.len() {
        lemma_first_id(annotations, id, i + 1);
    }
}

/// A comment or a colour goes to the annotation of its id, where there is one, and to
/// no other; of that annotation nothing else changes.
pub proof fn a_change_reaches_its_annotation(
    annotations: Seq<AnnotationView>,
    id: Seq<char>,
    note: Option<Seq<char>>,
    color: Color,
    k: int,
)
    requires
        0 <= k < annotations.len(),
        forall|i: int, j: int|
            0 <= i < j < annotations.len() ==> (#[trigger] annotations[i]).id != (
            #[trigger] annotations[j]).id,
    ensures
        ({
            let noted = with_note(annotations, id, note);
            let colored = with_color(annotations, id, color);
            let a = annotations[k];
            &&& noted.len() == annotations.len()
            &&& colored.len() == annotations.len()
            &&& a.id == id ==> noted[k].note == note && colored[k].color == color
            &&& a.id != id ==> noted[k] == a && colored[k] == a
            &&& noted[k].color == a.color && colored[k].note == a.note
            &&& noted[k].id == a.id && noted[k].href == a.href && noted[k].slices == a.slices
                && noted[k].quote == a.quote
            &&& colored[k].id == a.id && colored[k].href == a.href && colored[k].slices == a.slices
                && colored[k].quote == a.quote
        }),
{
    lemma_first_id(annotations, id, 0);
}

/// The annotations of another id than this.
pub open spec fn other_by(annotations: Seq<AnnotationView>, id: Seq<char>) -> spec_fn(
    int,
) -> Option<AnnotationView> {
    |k: int|
        if annotations[k].id == id {
            None
        } else {
            Some(annotations[k])
        }
}

proof fn lemma_others(annotations: Seq<AnnotationView>, id: Seq<char>, n: int) -> (at: Seq<int>)
    requires
        0 <= n <= annotations.len(),
    ensures
        gathers(at, without_id(annotations.take(n), id), n, other_by(annotations, id)),
    decreases n,
{
    if n == 0 {
        assert(annotations.take(0) =~= Seq::empty());
        Seq::empty()
    } else {
        let before = lemma_others(annotations, id, n - 1);
        assert(annotations.take(n).drop_last() =~= annotations.take(n - 1));
        lemma_gather(
            before,
            without_id(annotations.take(n - 1), id),
            n - 1,
            other_by(annotations, id),
        )
    }
}

/// To remove an annotation takes out that one alone; the others stay in order.
pub proof fn a_removal_takes_out_one_alone(annotations: Seq<AnnotationView>, id: Seq<char>)
    ensures
        exists|at: Seq<int>| #[trigger]
            gathers(
                at,
                without_id(annotations, id),
                annotations.len() as int,
                other_by(annotations, id),
            ),
{
    let n = annotations.len() as int;
    let at = lemma_others(annotations, id, n);
    assert(annotations.take(n) =~= annotations);
    assert(gathers(at, without_id(annotations, id), n, other_by(annotations, id)));
}

// ---------------------------------------------------------------------------
// Pictures
// ---------------------------------------------------------------------------
/// The pictures of a chapter that name a file.
pub open spec fn source_by(blocks: Seq<BlockView>) -> spec_fn(int) -> Option<(int, Seq<char>)> {
    |k: int|
        match blocks[k].kind {
            KindView::Image { src: Some(src) } => Some((k, src)),
            _ => None,
        }
}

proof fn lemma_sources(blocks: Seq<BlockView>, n: int) -> (at: Seq<int>)
    requires
        0 <= n <= blocks.len(),
    ensures
        gathers(at, sources_in(blocks, n), n, source_by(blocks)),
    decreases n,
{
    if n == 0 {
        Seq::empty()
    } else {
        let before = lemma_sources(blocks, n - 1);
        lemma_gather(before, sources_in(blocks, n - 1), n - 1, source_by(blocks))
    }
}

/// Every picture of a chapter that names a file is measured, in order.
pub proof fn every_picture_is_measured(blocks: Seq<BlockView>)
    ensures
        exists|at: Seq<int>| #[trigger]
            gathers(
                at,
                sources_in(blocks, blocks.len() as int),
                blocks.len() as int,
                source_by(blocks),
            ),
{
    let at = lemma_sources(blocks, blocks.len() as int);
    assert(gathers(
        at,
        sources_in(blocks, blocks.len() as int),
        blocks.len() as int,
        source_by(blocks),
    ));
}

/// The share of a chapter that was read grows with the scroll position from nothing to
/// all of it, and a chapter that fits the screen is read.
pub proof fn progress_grows(s: AppView, further: int)
    requires
        0 <= s.scroll <= further,
        s.view_height >= 1,
    ensures
        0 <= s.progressed() <= 100,
        s.progressed() <= (AppView { scroll: further, ..s }).progressed(),
        s.lines.len() <= s.view_height ==> s.progressed() == 100,
        s.lines.len() > s.view_height && s.scroll == 0 ==> s.progressed() == 0,
        s.lines.len() > s.view_height && s.scroll >= s.lines.len() - s.view_height ==> s.progressed()
            == 100,
{
    if s.lines.len() > s.view_height {
        let last = s.lines.len() - s.view_height;
        let a = smaller(s.scroll, last);
        let b = smaller(further, last);
        assert(0 <= a * 100 / last <= b * 100 / last <= 100) by (nonlinear_arith)
            requires
                0 <= a <= b <= last,
                last > 0,
        ;
        assert(last * 100 / last == 100) by (nonlinear_arith)
            requires
                last > 0,
        ;
        assert(0int / last == 0) by (nonlinear_arith)
            requires
                last > 0,
        ;
    }
}

// ---------------------------------------------------------------------------
// Searching
// ---------------------------------------------------------------------------
/// A search is typed like a filter: each key adds its character, a backspace takes it
/// back, and escape leaves without a search.
pub proof fn a_search_is_what_was_typed(s: AppView, c: char, now: int)
    requires
        s.mode is Search,
        s.pending is None,
        s.request is None,
    ensures
        s.pressed(plain_key(Key::Char(c)), now).search_input == s.search_input.push(c),
        s.pressed(plain_key(Key::Char(c)), now).pressed(
            plain_key(Key::Backspace),
            now,
        ).search_input == s.search_input,
        s.pressed(plain_key(Key::Esc), now).search == s.search,
        s.pressed(plain_key(Key::Esc), now).mode is Reading,
{
    reveal(AppView::search_key);
    assert(s.search_input.push(c).drop_last() =~= s.search_input);
}

/// A search in a chapter that has a match from the reading position on goes to the
/// first of these.
pub proof fn a_search_starts_at_the_reading_position(s: AppView, at: LocatorView, i: int)
    requires
        s.search_input.len() > 0,
        s.position() == Some(at),
        first_not_before(
            all_hits(s.chapter.blocks, s.search_input),
            (at.block, at.offset),
            0,
        ) == Some(i),
        0 <= i < all_hits(s.chapter.blocks, s.search_input).len(),
        all_hits(s.chapter.blocks, s.search_input).len() <= usize::MAX,
    ensures
        ({
            let after = s.searched();
            let hits = all_hits(s.chapter.blocks, s.search_input);
            &&& after.search.query == s.search_input
            &&& after.search.hits == hits
            &&& after.search.current == Some(i as usize)
            &&& after.chapter_index == s.chapter_index
            &&& after.mode is Reading
            &&& after.pending_restore == Some(
                LocatorView { href: s.chapter.href, block: hits[i].0, offset: hits[i].1 },
            )
        }),
{
    reveal(AppView::searched);
}

/// The next match and the one before it are one apart, and going to one shows it.
pub proof fn matches_come_one_after_the_other(s: AppView, i: usize)
    requires
        s.search.query.len() > 0,
        s.search.current == Some(i),
        i + 1 < s.search.hits.len(),
        s.search.hits.len() <= usize::MAX,
    ensures
        ({
            let next = s.matched(true);
            let back = next.matched(false);
            &&& next.search.current == Some((i + 1) as usize)
            &&& next.pending_restore == Some(
                LocatorView {
                    href: s.chapter.href,
                    block: s.search.hits[i + 1].0,
                    offset: s.search.hits[i + 1].1,
                },
            )
            &&& back.search == s.search
            &&& back.chapter_index == s.chapter_index
        }),
{
    reveal(AppView::matched);
}

// ---------------------------------------------------------------------------
// The window
// ---------------------------------------------------------------------------
/// A picture has a row among the lines from one up to another.
pub open spec fn on_rows(lines: Seq<LineView>, from: int, to: int, block: usize) -> bool {
    exists|i: int|
        from <= i < to && 0 <= i < lines.len() && (#[trigger] lines[i]).kind is Image
            && lines[i].block == block
}

proof fn lemma_on_rows(lines: Seq<LineView>, from: int, to: int, block: usize)
    ensures
        pictured(lines, from, to, block) == on_rows(lines, from, to, block),
{
    if pictured(lines, from, to, block) {
        let i = choose|i: int| from <= i < to && #[trigger] row_of(lines, i, block);
        assert(lines[i].kind is Image);
    }
    if on_rows(lines, from, to, block) {
        let i = choose|i: int|
            from <= i < to && 0 <= i < lines.len() && (#[trigger] lines[i]).kind is Image
                && lines[i].block == block;
        assert(row_of(lines, i, block));
    }
}

/// The pictures that are held and lie within one window before or behind the view.
pub open spec fn near_by(s: AppView, held: Seq<usize>) -> spec_fn(int) -> Option<usize> {
    |k: int|
        if on_rows(
            s.lines,
            if s.scroll < s.view_height {
                0
            } else {
                s.scroll - s.view_height
            },
            s.scroll + 2 * s.view_height,
            held[k],
        ) {
            Some(held[k])
        } else {
            None
        }
}

/// The pictures that are in view and not held, under their number.
pub open spec fn due_by(s: AppView, kept: Seq<usize>) -> spec_fn(int) -> Option<FetchView> {
    |k: int|
        if on_rows(s.lines, s.scroll, s.scroll + s.view_height, s.image_slots[k].block)
            && !kept.contains(s.image_slots[k].block) {
            Some(
                FetchView {
                    id: k + 1,
                    block: s.image_slots[k].block,
                    src: s.image_slots[k].src,
                },
            )
        } else {
            None
        }
}

proof fn lemma_kept(s: AppView, held: Seq<usize>, n: int) -> (at: Seq<int>)
    requires
        0 <= n <= held.len(),
    ensures
        gathers(at, s.pictures_kept(held.take(n)), n, near_by(s, held)),
    decreases n,
{
    if n == 0 {
        assert(held.take(0) =~= Seq::empty());
        Seq::empty()
    } else {
        let before = lemma_kept(s, held, n - 1);
        assert(held.take(n).drop_last() =~= held.take(n - 1));
        lemma_on_rows(
            s.lines,
            less_by(s.scroll, s.view_height as int),
            s.scroll + 2 * s.view_height,
            held[n - 1],
        );
        lemma_gather(before, s.pictures_kept(held.take(n - 1)), n - 1, near_by(s, held))
    }
}

proof fn lemma_due(s: AppView, kept: Seq<usize>, n: nat) -> (at: Seq<int>)
    requires
        n <= s.image_slots.len(),
    ensures
        gathers(at, s.pictures_due(kept, n), n as int, due_by(s, kept)),
    decreases n,
{
    if n == 0 {
        Seq::empty()
    } else {
        let before = lemma_due(s, kept, (n - 1) as nat);
        lemma_on_rows(
            s.lines,
            s.scroll,
            s.scroll + s.view_height,
            s.image_slots[n - 1].block,
        );
        lemma_gather(before, s.pictures_due(kept, (n - 1) as nat), n - 1, due_by(s, kept))
    }
}

/// Every picture in view that is not held is fetched, and every picture that is held
/// stays as long as it is within a window of the view; no other is.
pub proof fn pictures_are_fetched_where_they_are_seen(s: AppView, held: Seq<usize>)
    requires
        s.scroll >= 0,
    ensures
        exists|at: Seq<int>| #[trigger]
            gathers(at, s.pictures_kept(held), held.len() as int, near_by(s, held)),
        exists|at: Seq<int>| #[trigger]
            gathers(
                at,
                s.pictures_due(held, s.image_slots.len()),
                s.image_slots.len() as int,
                due_by(s, held),
            ),
{
    let n = held.len() as int;
    let at = lemma_kept(s, held, n);
    assert(held.take(n) =~= held);
    assert(gathers(at, s.pictures_kept(held), n, near_by(s, held)));
    let due = lemma_due(s, held, s.image_slots.len());
    assert(gathers(
        due,
        s.pictures_due(held, s.image_slots.len()),
        s.image_slots.len() as int,
        due_by(s, held),
    ));
}

/// The pictures that take any room.
pub open spec fn roomy_by(slots: Seq<SlotView>) -> spec_fn(int) -> Option<SlotView> {
    |k: int|
        if slots[k].rows > 0 {
            Some(slots[k])
        } else {
            None
        }
}

proof fn lemma_roomy(slots: Seq<SlotView>, n: int) -> (at: Seq<int>)
    requires
        0 <= n <= slots.len(),
    ensures
        gathers(at, real_slots(slots.take(n)), n, roomy_by(slots)),
    decreases n,
{
    if n == 0 {
        assert(slots.take(0) =~= Seq::empty());
        Seq::empty()
    } else {
        let before = lemma_roomy(slots, n - 1);
        assert(slots.take(n).drop_last() =~= slots.take(n - 1));
        lemma_gather(before, real_slots(slots.take(n - 1)), n - 1, roomy_by(slots))
    }
}

/// A new window lays the chapter on screen out for its width, with the comments of the
/// chapter and with every picture that takes any room; a window of the same size
/// leaves the lines as they are. The book, the chapter and the annotations stay.
pub proof fn a_new_window_lays_the_chapter_out(
    s: AppView,
    width: u16,
    height: u16,
    slots: Seq<SlotView>,
)
    requires
        height >= 1,
    ensures
        ({
            let after = s.prepared(width, height, slots);
            let same = width == s.laid_out_for && height == s.view_height && s.lines.len() > 0;
            &&& after.view_height == height
            &&& after.chapter == s.chapter && after.book == s.book && after.annotations
                == s.annotations && after.chapter_index == s.chapter_index
            &&& same ==> after.lines == s.lines && after.image_slots == s.image_slots
            &&& !same ==> after.laid_out_for == width && after.lines == laid_out(
                s.chapter.blocks,
                width,
                s.options,
                notes_of(s.annotations, s.chapter.href, s.theme),
                placements_of(after.image_slots),
            )
            &&& !same && width >= 8 ==> after.image_slots == real_slots(slots)
            &&& !same && width < 8 ==> after.image_slots.len() == 0
        }),
        exists|at: Seq<int>| #[trigger]
            gathers(at, real_slots(slots), slots.len() as int, roomy_by(slots)),
{
    let n = slots.len() as int;
    let at = lemma_roomy(slots, n);
    assert(slots.take(n) =~= slots);
    assert(gathers(at, real_slots(slots), n, roomy_by(slots)));
}

/// A picture never takes more than the window: no wider than the text, no higher than
/// four fifths of the window wherever that leaves it four rows.
pub proof fn a_picture_leaves_room_for_text(width: u16, height: u16, options: LayoutOptions)
    ensures
        ({
            let (columns, rows) = picture_box(width, height, options);
            &&& rows <= height
            &&& width < 8 ==> columns == 0 && rows == 0
            &&& width >= 8 ==> columns >= 8 && columns <= width
            &&& width >= 8 && options.max_width >= 8 ==> columns <= options.max_width
            &&& width >= 8 && height >= 5 ==> 5 * rows <= 4 * height + 2 && 5 * rows >= 4 * height
                - 2 && rows < height
            &&& width >= 8 && height < 5 ==> rows == (if height < 4 {
                height
            } else {
                4
            })
        }),
{
}

} // verus!
