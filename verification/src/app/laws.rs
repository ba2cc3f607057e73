//! What holds of the reader whatever is typed.

use vstd::prelude::*;
use crate::annotation::{mark_before, marks_sorted, AnnotationView, Color};
use crate::app::{payload_of, AppView, ChangeView, RequestView};
use crate::app::response::failure_text;
use crate::app::show::{first_with_id, line_for, without_id};
use crate::app::target::chapter_for;
use crate::doc::{BlockView, LocatorView};
use crate::input::{Key, KeyPress};
use crate::journal::{applied, id_text, ids_are_fresh, noted, EventView, StateView};
use crate::layout::laws::{comments_stand_below_their_block, lines_agree_with_their_blocks};
use crate::layout::{
    holds_no_text, laid_out, layout_keeps_the_text_positions, ImagePlacement, LayoutOptions,
    LineKind, LineView, NoteView,
};
use crate::sort::in_order;
use crate::text::{lemma_text_order, lemma_trim_empty, trim};

verus! {

impl AppView {
    /// What no movement touches: the book, its annotations, what is recorded,
    /// how it looks, and whether the reader is to be left.
    pub open spec fn keeps(self, t: AppView) -> bool {
        &&& t.book == self.book
        &&& t.annotations == self.annotations
        &&& t.id == self.id
        &&& t.host == self.host
        &&& t.last_written == self.last_written
        &&& t.theme == self.theme
        &&& t.options == self.options
        &&& t.view_height == self.view_height
        &&& t.should_quit == self.should_quit
        &&& t.should_quit_program == self.should_quit_program
    }
}

proof fn lemma_travelling(s: AppView, index: int, forward: bool)
    ensures
        s.keeps(s.gone_to(index)),
        s.keeps(s.match_shown()),
        s.keeps(s.matched(forward)),
        s.keeps(s.looked_on(forward)),
        s.keeps(s.chapter_stepped(forward)),
        s.keeps(s.jumped_back()),
        s.keeps(s.dismissed()),
{
    reveal(AppView::gone_to);
    reveal(AppView::matched);
    reveal(AppView::looked_on);
    reveal(AppView::chapter_stepped);
    reveal(AppView::jumped_back);
}

proof fn lemma_following(s: AppView)
    ensures
        s.keeps(s.link_followed()),
{
    reveal(AppView::link_followed);
    reveal(AppView::gone_to);
}

proof fn lemma_moving(s: AppView, yes: bool, steps: nat)
    ensures
        s.keeps(s.cursor_mode()),
        s.keeps(s.cursor_left()),
        s.keeps(s.selecting(yes)),
        s.keeps(s.selection_left()),
        s.keeps(s.moved_sideways(yes)),
        s.keeps(s.moved_lines(yes, steps)),
        s.keeps(s.moved_to_edge(yes)),
        s.keeps(s.moved_word(yes)),
{
    reveal(AppView::cursor_mode);
    reveal(AppView::selecting);
    reveal(AppView::moved_sideways);
    reveal(AppView::moved_lines);
    reveal(AppView::moved_word);
}

proof fn lemma_marking(s: AppView, color: Color, then_comment: bool, now: int)
    ensures
        s.keeps(s.annotated(color, then_comment, now)),
        s.keeps(s.deleting()),
        s.keeps(s.deleting_here()),
        s.keeps(s.clearing_note()),
        s.keeps(s.recoloring_here(color)),
        s.keeps(s.recoloring_selected(color)),
        s.keeps(s.editing_here()),
        s.keeps(s.listing()),
        s.keeps(s.passage_shown()),
{
    reveal(AppView::annotated);
    reveal(AppView::deleting);
    reveal(AppView::clearing_note);
    reveal(AppView::listing);
    reveal(AppView::passage_shown);
    reveal(AppView::gone_to);
}

proof fn lemma_searching(s: AppView, key: Key)
    ensures
        s.keeps(s.search_key(key)),
{
    reveal(AppView::search_key);
    reveal(AppView::searched);
    reveal(AppView::matched);
    reveal(AppView::looked_on);
}

proof fn lemma_sequence(s: AppView, first: char, key: Key, now: int)
    ensures
        s.sequenced(first, key, now) matches Some(t) ==> s.keeps(t),
{
    reveal(AppView::sequenced);
    lemma_marking(s, Color::Yellow, false, now);
    lemma_marking(s, Color::Green, false, now);
    lemma_marking(s, Color::Blue, false, now);
    lemma_marking(s, Color::Red, false, now);
    lemma_marking(s, Color::Purple, false, now);
}

/// All that a key may change of what `keeps` names: `q` leaves the reader, `Q`
/// the program.
pub open spec fn leaves_alone(s: AppView, t: AppView, key: Key) -> bool {
    &&& key != Key::Char('q') && key != Key::Char('Q') ==> s.keeps(t)
    &&& key == Key::Char('q') || key == Key::Char('Q') ==> s.keeps(
        (AppView {
            should_quit: s.should_quit,
            should_quit_program: s.should_quit_program,
            ..t
        }),
    )
    &&& t.should_quit_program != s.should_quit_program ==> key == Key::Char('Q')
}

proof fn lemma_reading(s: AppView, press: KeyPress)
    ensures
        leaves_alone(s, s.read_key(press), press.key),
{
    reveal(AppView::read_key);
    lemma_travelling(s, 0, true);
    lemma_travelling(s, 0, false);
    lemma_moving(s, true, 1);
    lemma_moving(s.cursor_mode(), true, 1);
    lemma_moving(s.cursor_mode(), false, 1);
    lemma_marking(s, Color::Yellow, false, 0);
}

proof fn lemma_in_the_text(s: AppView, press: KeyPress, now: int)
    ensures
        leaves_alone(s, s.cursor_key(press, now), press.key),
{
    reveal(AppView::cursor_key);
    lemma_travelling(s, 0, true);
    lemma_travelling(s, 0, false);
    lemma_following(s);
    lemma_moving(s, true, 1);
    lemma_moving(s, false, 1);
    lemma_moving(s, true, s.half() as nat);
    lemma_moving(s, false, s.half() as nat);
    lemma_marking(s, Color::Yellow, false, now);
    lemma_marking(s, Color::Yellow, true, now);
}

proof fn lemma_in_the_lists(s: AppView, key: Key)
    ensures
        leaves_alone(s, s.contents_key(key), key),
        leaves_alone(s, s.annotations_key(key), key),
{
    reveal(AppView::contents_key);
    reveal(AppView::annotations_key);
    lemma_travelling(s, s.contents_cursor, true);
    lemma_marking(s, Color::Yellow, false, 0);
}

proof fn lemma_any_key(s: AppView, press: KeyPress, now: int)
    ensures
        leaves_alone(s, s.pressed(press, now), press.key),
{
    let t = AppView { pending: None, request: None, ..s };
    if let Some(first) = s.pending {
        lemma_sequence(t, first, press.key, now);
    }
    lemma_reading(t, press);
    lemma_in_the_text(t, press, now);
    lemma_in_the_lists(t, press.key);
    lemma_searching(t, press.key);
    assert(leaves_alone(t, t.single_key(press, now), press.key));
}

/// Only `q` and `Q` leave the reader, and only `Q` the program. `Esc` never
/// does.
pub proof fn only_q_quits(s: AppView, press: KeyPress, now: int)
    requires
        !s.should_quit,
        !s.should_quit_program,
    ensures
        s.pressed(press, now).should_quit ==> press.key == Key::Char('q') || press.key
            == Key::Char('Q'),
        s.pressed(press, now).should_quit_program ==> press.key == Key::Char('Q'),
        press.key == Key::Esc ==> !s.pressed(press, now).should_quit,
{
    lemma_any_key(s, press, now);
}

/// No key changes an annotation, or what counts as written: a key only asks.
/// The change is made once it is in the journal.
pub proof fn a_key_only_asks(s: AppView, press: KeyPress, now: int)
    ensures
        s.pressed(press, now).annotations == s.annotations,
        s.pressed(press, now).last_written == s.last_written,
        s.pressed(press, now).book == s.book,
{
    lemma_any_key(s, press, now);
}

/// What could not be written is not made: only the message says that it was
/// tried.
pub proof fn a_refused_write_changes_nothing(s: AppView, reason: Seq<char>)
    ensures
        s.settled(Some(reason)) == (AppView {
            request: None,
            status: match s.request {
                Some(RequestView::Write(change)) => Some(failure_text(change) + reason),
                Some(RequestView::Save { aloud, .. }) => if aloud {
                    Some("cannot save position: "@ + reason)
                } else {
                    s.status
                },
                None => s.status,
            },
            ..s
        }),
{
}

/// Following a link and coming back shows the page as it was, with the cursor
/// on the link, and leaves the other jumps as they were.
pub proof fn coming_back_undoes_a_jump(s: AppView)
    requires
        chapter_for(s.book.spine, s.chapter.href) == Some(s.chapter_index),
        s.link_followed().jumps.len() > s.jumps.len(),
    ensures
        ({
            let back = s.link_followed().jumped_back();
            &&& back.jumps == s.jumps
            &&& back.chapter_index == s.chapter_index
            &&& back.pending_cursor == s.cursor_text()
            &&& back.pending_restore == Some(
                match s.position() {
                    Some(p) => p,
                    None => LocatorView { href: s.chapter.href, block: 0, offset: 0 },
                },
            )
        }),
{
    reveal(AppView::link_followed);
    reveal(AppView::gone_to);
    reveal(AppView::jumped_back);
    let t = s.link_followed();
    assert(t.jumps.drop_last() =~= s.jumps);
}

/// The cursor is on screen after the view followed it, as long as it is on one
/// of the lines.
pub proof fn the_view_keeps_up_with_the_cursor(s: AppView)
    requires
        s.view_height >= 1,
        s.scroll >= 0,
        s.cursor matches Some(c) && 0 <= c.0 < s.lines.len(),
    ensures
        s.followed().cursor == s.cursor,
        s.followed().cursor_visible(),
{
}

/// Lines that hold no place in the text.
pub open spec fn passed_over(kind: LineKind) -> bool {
    kind is Note || kind is Blank
}

/// `line_for` names the last line, comments and blank lines aside, that starts at
/// or before a position, where the lines run in the order of the text.
pub proof fn a_position_is_shown_on_top(lines: Seq<LineView>, at: LocatorView, k: int)
    requires
        0 <= k < lines.len(),
        !passed_over(lines[k].kind),
        forall|i: int|
            0 <= i <= k && !passed_over((#[trigger] lines[i]).kind) ==> lines[i].block < at.block || (
            lines[i].block == at.block && lines[i].offset <= at.offset),
    ensures
        line_for(lines, at, 0, 0) >= k,
        ({
            let r = lines[line_for(lines, at, 0, 0)];
            r.block < at.block || (r.block == at.block && r.offset <= at.offset)
        }),
{
    lemma_line_for(lines, at, 0, 0, k);
}

proof fn lemma_line_for(lines: Seq<LineView>, at: LocatorView, i: int, best: int, k: int)
    requires
        0 <= i <= lines.len(),
        0 <= k < lines.len(),
        !passed_over(lines[k].kind),
        forall|i: int|
            0 <= i <= k && !passed_over((#[trigger] lines[i]).kind) ==> lines[i].block < at.block || (
            lines[i].block == at.block && lines[i].offset <= at.offset),
        i > k ==> k <= best < lines.len() && (lines[best].block < at.block || (lines[best].block
            == at.block && lines[best].offset <= at.offset)),
    ensures
        (forall|j: int|
            k < j < lines.len() && !passed_over((#[trigger] lines[j]).kind) ==> !(lines[j].block
                < at.block || (lines[j].block == at.block && lines[j].offset <= at.offset))) && (i
            > k ==> best == k) ==> line_for(lines, at, i, best) == k,
        k <= line_for(lines, at, i, best) < lines.len(),
        ({
            let r = lines[line_for(lines, at, i, best)];
            r.block < at.block || (r.block == at.block && r.offset <= at.offset)
        }),
    decreases lines.len() - i,
{
    if i < lines.len() {
        if passed_over(lines[i].kind) {
            lemma_line_for(lines, at, i + 1, best, k);
        } else if lines[i].block < at.block || (lines[i].block == at.block && lines[i].offset
            <= at.offset) {
            lemma_line_for(lines, at, i + 1, i, k);
        }
    }
}

/// A reading position survives a new layout, whatever the width and the comments:
/// it is shown on the line that holds it.
pub proof fn a_reading_position_survives_a_layout(
    blocks: Seq<BlockView>,
    available: u16,
    options: LayoutOptions,
    notes: Seq<NoteView>,
    images: Seq<ImagePlacement>,
    at: LocatorView,
    k: int,
)
    requires
        ({
            let lines = laid_out(blocks, available, options, notes, images);
            &&& 0 <= k < lines.len()
            &&& !holds_no_text(lines[k].kind)
            &&& lines[k].block == at.block
            &&& lines[k].offset <= at.offset
            &&& forall|j: int|
                k < j < lines.len() && !holds_no_text((#[trigger] lines[j]).kind) && lines[j].block
                    == at.block ==> at.offset < lines[j].offset
        }),
    ensures
        line_for(laid_out(blocks, available, options, notes, images), at, 0, 0) == k,
{
    let lines = laid_out(blocks, available, options, notes, images);
    layout_keeps_the_text_positions(blocks, available, options, notes, images);
    comments_stand_below_their_block(blocks, available, options, notes, images);
    lines_agree_with_their_blocks(blocks, available, options, notes, images);
    assert forall|i: int| 0 <= i <= k && !passed_over((#[trigger] lines[i]).kind) implies lines[i].block
        < at.block || (lines[i].block == at.block && lines[i].offset <= at.offset) by {
        if i < k {
            assert(lines[i].block <= lines[k].block);
        }
    }
    assert forall|j: int| k < j < lines.len() && !passed_over((#[trigger] lines[j]).kind) implies !(
    lines[j].block < at.block || (lines[j].block == at.block && lines[j].offset <= at.offset)) by {
        assert(lines[k].block <= lines[j].block);
    }
    lemma_line_for(lines, at, 0, 0, k);
}

// ----- in step with the journal -----
/// Some annotation of `list` has this id.
pub open spec fn has_id(list: Seq<AnnotationView>, id: Seq<char>) -> bool {
    exists|i: int| 0 <= i < list.len() && (#[trigger] list[i]).id == id
}

/// `list` holds each of the annotations once.
pub open spec fn in_step(list: Seq<AnnotationView>, marks: Map<Seq<char>, AnnotationView>) -> bool {
    &&& forall|i: int|
        0 <= i < list.len() ==> marks.contains_key((#[trigger] list[i]).id) && marks[list[i].id]
            == list[i]
    &&& forall|id: Seq<char>| #[trigger] marks.contains_key(id) ==> has_id(list, id)
    &&& forall|i: int, j: int|
        0 <= i < j < list.len() ==> (#[trigger] list[i]).id != (#[trigger] list[j]).id
}

proof fn lemma_first_with_id(list: Seq<AnnotationView>, id: Seq<char>, from: int)
    requires
        0 <= from <= list.len(),
    ensures
        match first_with_id(list, id, from) {
            Some(i) => from <= i < list.len() && list[i].id == id,
            None => forall|i: int| from <= i < list.len() ==> (#[trigger] list[i]).id != id,
        },
    decreases list.len() - from,
{
    if from < list.len() && list[from].id != id {
        lemma_first_with_id(list, id, from + 1);
    }
}

proof fn lemma_amended(
    list: Seq<AnnotationView>,
    marks: Map<Seq<char>, AnnotationView>,
    id: Seq<char>,
    a: AnnotationView,
)
    requires
        in_step(list, marks),
        a.id == id,
    ensures
        match first_with_id(list, id, 0) {
            Some(i) => marks.contains_key(id) && marks[id] == list[i] && in_step(
                list.update(i, a),
                marks.insert(id, a),
            ),
            None => !marks.contains_key(id),
        },
{
    lemma_first_with_id(list, id, 0);
    if let Some(i) = first_with_id(list, id, 0) {
        let new = list.update(i, a);
        assert forall|x: Seq<char>| #[trigger] marks.insert(id, a).contains_key(x) implies has_id(
            new,
            x,
        ) by {
            if x == id {
                assert(new[i].id == x);
            } else {
                assert(marks.contains_key(x));
                let j = choose|j: int| 0 <= j < list.len() && (#[trigger] list[j]).id == x;
                assert(new[j].id == x);
            }
        }
    }
}

proof fn lemma_without(list: Seq<AnnotationView>, id: Seq<char>)
    ensures
        forall|i: int|
            0 <= i < without_id(list, id).len() ==> (#[trigger] without_id(list, id)[i]).id != id
                && list.contains(without_id(list, id)[i]),
        forall|j: int|
            0 <= j < list.len() && (#[trigger] list[j]).id != id ==> has_id(
                without_id(list, id),
                list[j].id,
            ),
        (forall|i: int, j: int|
            0 <= i < j < list.len() ==> (#[trigger] list[i]).id != (#[trigger] list[j]).id) ==> (
        forall|i: int, j: int|
            0 <= i < j < without_id(list, id).len() ==> (#[trigger] without_id(list, id)[i]).id != (
            #[trigger] without_id(list, id)[j]).id),
    decreases list.len(),
{
    if list.len() > 0 {
        let d = list.drop_last();
        let front = without_id(d, id);
        let new = without_id(list, id);
        lemma_without(d, id);
        assert forall|i: int| 0 <= i < new.len() implies (#[trigger] new[i]).id != id
            && list.contains(new[i]) by {
            if i < front.len() {
                assert(new[i] == front[i]);
                let j = choose|j: int| 0 <= j < d.len() && d[j] == front[i];
                assert(list[j] == new[i]);
            } else {
                assert(list[list.len() - 1] == new[i]);
            }
        }
        assert forall|j: int| 0 <= j < list.len() && (#[trigger] list[j]).id != id implies has_id(
            new,
            list[j].id,
        ) by {
            if j < d.len() {
                assert(d[j] == list[j]);
                let i = choose|i: int| 0 <= i < front.len() && (#[trigger] front[i]).id == d[j].id;
                assert(new[i] == front[i]);
            } else {
                assert(new[front.len() as int] == list[j]);
            }
        }
        if forall|i: int, j: int|
            0 <= i < j < list.len() ==> (#[trigger] list[i]).id != (#[trigger] list[j]).id {
            assert forall|i: int, j: int| 0 <= i < j < d.len() implies (#[trigger] d[i]).id != (
            #[trigger] d[j]).id by {
                assert(d[i] == list[i] && d[j] == list[j]);
            }
            assert forall|i: int, j: int| 0 <= i < j < new.len() implies (#[trigger] new[i]).id != (
            #[trigger] new[j]).id by {
                if j < front.len() {
                    assert(new[i] == front[i] && new[j] == front[j]);
                } else {
                    assert(new[i] == front[i]);
                    assert(d.contains(front[i]));
                    let m = choose|m: int| 0 <= m < d.len() && d[m] == front[i];
                    assert(list[m] == new[i]);
                    assert(list[list.len() - 1] == new[j]);
                }
            }
        }
    }
}

proof fn lemma_resorted(list: Seq<AnnotationView>, marks: Map<Seq<char>, AnnotationView>)
    requires
        in_step(list, marks),
    ensures
        in_step(marks_sorted(list), marks),
{
    let less = |a: AnnotationView, b: AnnotationView| mark_before(a, b);
    let new = marks_sorted(list);
    crate::sort::lemma_sorting_permutes(list, less);
    let f = choose|f: Seq<int>| crate::sort::rearranges(f, list, new);
    assert forall|i: int| 0 <= i < new.len() implies marks.contains_key((#[trigger] new[i]).id)
        && marks[new[i].id] == new[i] by {
        assert(new[i] == list[f[i]]);
    }
    assert forall|id: Seq<char>| #[trigger] marks.contains_key(id) implies has_id(new, id) by {
        let j = choose|j: int| 0 <= j < list.len() && (#[trigger] list[j]).id == id;
        assert(crate::sort::names(f, j));
        let i = choose|i: int| 0 <= i < f.len() && #[trigger] f[i] == j;
        assert(new[i] == list[f[i]]);
    }
    assert forall|i: int, j: int| 0 <= i < j < new.len() implies (#[trigger] new[i]).id != (
    #[trigger] new[j]).id by {
        assert(new[i] == list[f[i]] && new[j] == list[f[j]]);
        assert(f[i] != f[j]);
        if f[i] < f[j] {
        } else {
            assert(list[f[j]].id != list[f[i]].id);
        }
    }
}

/// What the reader holds after a change is what replaying the journal with that
/// change would give. A new annotation has an id of its own, and a comment comes
/// without white space around it.
pub proof fn the_reader_stays_in_step_with_the_journal(
    s: AppView,
    change: ChangeView,
    state: StateView,
    event: EventView,
)
    requires
        in_step(s.annotations, state.marks_of(event.book)),
        event.payload == payload_of(RequestView::Write(change)),
        change matches ChangeView::Highlight { annotation, .. } ==> annotation.note is None
            && !state.marks_of(event.book).contains_key(annotation.id),
        change matches ChangeView::Note { text, .. } ==> text == trim(text),
    ensures
        in_step(s.changed(change).annotations, applied(state, event).marks_of(event.book)),
{
    reveal(AppView::highlighted);
    reveal(AppView::removed);
    let list = s.annotations;
    let marks = state.marks_of(event.book);
    let after = applied(state, event).marks_of(event.book);
    match change {
        ChangeView::Highlight { annotation, .. } => {
            assert(after == marks.insert(annotation.id, annotation));
            let new = list.push(annotation);
            assert forall|id: Seq<char>| #[trigger] after.contains_key(id) implies has_id(
                new,
                id,
            ) by {
                if id == annotation.id {
                    assert(new[list.len() as int].id == id);
                } else {
                    assert(marks.contains_key(id));
                    let j = choose|j: int| 0 <= j < list.len() && (#[trigger] list[j]).id == id;
                    assert(new[j].id == id);
                }
            }
            assert(in_step(new, after));
            lemma_resorted(new, after);
        },
        ChangeView::Note { id, text } => {
            lemma_first_with_id(list, id, 0);
            let note = if text.len() == 0 {
                None
            } else {
                Some(text)
            };
            assert(noted(text) == note) by {
                lemma_trim_empty(text);
            }
            if marks.contains_key(id) {
                lemma_amended(list, marks, id, AnnotationView { note, ..marks[id] });
            } else {
                lemma_amended(list, marks, id, AnnotationView { id, ..arbitrary() });
            }
        },
        ChangeView::ClearNote { id } => {
            assert(noted(Seq::<char>::empty()) is None);
            if marks.contains_key(id) {
                lemma_first_with_id(list, id, 0);
                lemma_amended(list, marks, id, AnnotationView { note: None, ..marks[id] });
            } else {
                lemma_amended(list, marks, id, AnnotationView { id, ..arbitrary() });
            }
        },
        ChangeView::Recolor { id, color } => {
            if marks.contains_key(id) {
                lemma_amended(list, marks, id, AnnotationView { color, ..marks[id] });
            } else {
                lemma_amended(list, marks, id, AnnotationView { id, ..arbitrary() });
            }
        },
        ChangeView::Remove { id } => {
            lemma_without(list, id);
            let new = without_id(list, id);
            assert forall|i: int| 0 <= i < new.len() implies after.contains_key(
                (#[trigger] new[i]).id,
            ) && after[new[i].id] == new[i] by {
                let j = choose|j: int| 0 <= j < list.len() && list[j] == new[i];
                assert(marks.contains_key(list[j].id));
            }
            assert forall|x: Seq<char>| #[trigger] after.contains_key(x) implies has_id(new, x) by {
                assert(marks.contains_key(x) && x != id) by {
                    if marks.contains_key(id) {
                        assert(after == marks.remove(id));
                    }
                }
                let j = choose|j: int| 0 <= j < list.len() && (#[trigger] list[j]).id == x;
                assert(list[j].id != id);
            }
        },
    }
}

/// An id that was made before one on this machine, at this instant and with this
/// running number: at an earlier instant or with a lower number here, or on
/// another machine.
pub open spec fn made_before(id: Seq<char>, host: Seq<char>, now: int, counter: nat) -> bool {
    exists|h: Seq<char>, n: int, c: nat| #[trigger]
        id_text(h, n, c) == id && if h == host {
            n < now || c < counter
        } else {
            0 <= n && 0 <= now
        }
}

/// All the annotations of a book were made before.
pub open spec fn all_made_before(
    marks: Map<Seq<char>, AnnotationView>,
    host: Seq<char>,
    now: int,
    counter: nat,
) -> bool {
    forall|id: Seq<char>| #[trigger]
        marks.contains_key(id) ==> made_before(id, host, now, counter)
}

/// An annotation that is asked for has an id of its own, so the reader stays in
/// step with the journal when it is written. The next one asked for has an id of
/// its own again.
pub proof fn a_new_annotation_keeps_in_step(
    s: AppView,
    color: Color,
    then_comment: bool,
    now: int,
    state: StateView,
    event: EventView,
    later: int,
)
    requires
        s.id_counter >= 0,
        s.selection_slices() is Some,
        in_step(s.annotations, state.marks_of(event.book)),
        all_made_before(
            state.marks_of(event.book),
            s.host,
            now,
            (s.id_counter + 1) as nat,
        ),
        s.annotated(color, then_comment, now).request matches Some(request) && event.payload
            == payload_of(request),
        now <= later,
    ensures
        ({
            let t = s.annotated(color, then_comment, now);
            let after = applied(state, event).marks_of(event.book);
            &&& t.request matches Some(RequestView::Write(change)) && change matches
                ChangeView::Highlight { annotation, .. } && !state.marks_of(
                event.book,
            ).contains_key(annotation.id) && in_step(t.changed(change).annotations, after)
            &&& all_made_before(after, t.host, later, (t.id_counter + 1) as nat)
        }),
{
    reveal(AppView::annotated);
    let t = s.annotated(color, then_comment, now);
    let counter = (s.id_counter + 1) as nat;
    let change = t.request->0->Write_0;
    let annotation = change->Highlight_annotation;
    let marks = state.marks_of(event.book);
    let after = applied(state, event).marks_of(event.book);
    let id = id_text(s.host, now, counter);
    if marks.contains_key(id) {
        let (h, n, c) = choose|h: Seq<char>, n: int, c: nat| #[trigger]
            id_text(h, n, c) == id && if h == s.host {
                n < now || c < counter
            } else {
                0 <= n && 0 <= now
            };
        ids_are_fresh(h, n, c, s.host, now, counter);
    }
    the_reader_stays_in_step_with_the_journal(t, change, state, event);
    assert(after == marks.insert(id, annotation));
    assert forall|x: Seq<char>| #[trigger] after.contains_key(x) implies made_before(
        x,
        t.host,
        later,
        (t.id_counter + 1) as nat,
    ) by {
        if x == id {
            assert(id_text(s.host, now, counter) == x);
        } else {
            assert(marks.contains_key(x));
            let (h, n, c) = choose|h: Seq<char>, n: int, c: nat| #[trigger]
                id_text(h, n, c) == x && if h == s.host {
                    n < now || c < counter
                } else {
                    0 <= n && 0 <= now
                };
            assert(id_text(h, n, c) == x);
        }
    }
}

/// The list stays in the order of the text when an annotation is added.
pub proof fn annotations_are_listed_in_order(annotations: Seq<AnnotationView>)
    ensures
        in_order(
            marks_sorted(annotations),
            |a: AnnotationView, b: AnnotationView| mark_before(a, b),
        ),
{
    let less = |a: AnnotationView, b: AnnotationView| mark_before(a, b);
    assert forall|a: AnnotationView| !(#[trigger] less(a, a)) by {
        lemma_text_order(a.href, a.href, a.href);
    }
    assert forall|a: AnnotationView, b: AnnotationView| #[trigger] less(a, b) implies !less(b, a) by {
        lemma_text_order(a.href, b.href, a.href);
    }
    assert forall|a: AnnotationView, b: AnnotationView, c: AnnotationView|
        !(#[trigger] less(a, b)) && !(#[trigger] less(b, c)) implies !less(a, c) by {
        lemma_text_order(a.href, b.href, c.href);
        lemma_text_order(c.href, b.href, a.href);
        lemma_text_order(b.href, a.href, c.href);
        lemma_text_order(a.href, c.href, b.href);
        lemma_text_order(c.href, a.href, b.href);
        lemma_text_order(b.href, c.href, a.href);
    }
    crate::sort::sorting_puts_in_order(annotations, less);
}

} // verus!
