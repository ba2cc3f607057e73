//! Annotations, and what has to be written for them.

use vstd::prelude::*;
use crate::annotation::{mark_before, marks_sorted, Annotation, AnnotationView, Color};
use crate::app::{App, AppView, Change, ChangeView, EditRequest, Mode, Request, mark_list};
use crate::app::reader::joined_text;
use crate::app::show::{first_with_id, with_color, with_note, without_id};
use crate::app::target::{find_exact, index_opt};
use crate::doc::Locator;
use crate::journal::{comes_first, listed_before};
use crate::sort::{lemma_sort_of_images, stable_sort};
use crate::text::{chars_of, copy_text, same, text_of, text_opt, trim, trimmed};

verus! {

pub(crate) proof fn lemma_mark_pick(list: Seq<Annotation>, i: int)
    requires
        0 <= i < list.len(),
    ensures
        mark_list(list)[i] == list[i]@,
        mark_list(list).len() == list.len(),
{
}

/// The place of the first annotation with an id.
fn find_mark(annotations: &Vec<Annotation>, id: &str) -> (r: Option<usize>)
    ensures
        index_opt(r) == first_with_id(mark_list(annotations@), id@, 0),
        r matches Some(i) ==> i < annotations@.len(),
{
    let ghost all = mark_list(annotations@);
    let mut i: usize = 0;
    while i < annotations.len()
        invariant
            i <= annotations@.len(),
            all == mark_list(annotations@),
            all.len() == annotations@.len(),
            first_with_id(all, id@, 0) == first_with_id(all, id@, i as int),
        decreases annotations@.len() - i,
    {
        assert(all[i as int] == annotations@[i as int]@);
        if same(&annotations[i].id, id) {
            return Some(i);
        }
        i += 1;
    }
    None
}

fn set_note(annotations: &mut Vec<Annotation>, id: &str, note: Option<String>)
    ensures
        mark_list(final(annotations)@) == with_note(mark_list(old(annotations)@), id@, text_opt(note)),
{
    let ghost before = annotations@;
    if let Some(i) = find_mark(annotations, id) {
        annotations[i].note = note;
        proof {
            lemma_mark_pick(before, i as int);
            assert(mark_list(annotations@) =~= with_note(mark_list(before), id@, text_opt(note)));
        }
    }
}

fn set_color(annotations: &mut Vec<Annotation>, id: &str, color: Color)
    ensures
        mark_list(final(annotations)@) == with_color(mark_list(old(annotations)@), id@, color),
{
    let ghost before = annotations@;
    if let Some(i) = find_mark(annotations, id) {
        annotations[i].color = color;
        proof {
            lemma_mark_pick(before, i as int);
            assert(mark_list(annotations@) =~= with_color(mark_list(before), id@, color));
        }
    }
}

fn drop_mark(annotations: Vec<Annotation>, id: &str) -> (r: Vec<Annotation>)
    ensures
        mark_list(r@) == without_id(mark_list(annotations@), id@),
        r@.len() == mark_list(r@).len(),
{
    let ghost all = annotations@;
    let mut out: Vec<Annotation> = Vec::new();
    assert(mark_list(all.take(0)) =~= Seq::<AnnotationView>::empty());
    assert(mark_list(out@) =~= Seq::<AnnotationView>::empty());
    for a in it: annotations
        invariant
            it.seq() == all,
            mark_list(out@) == without_id(mark_list(all.take(it.index() as int)), id@),
    {
        let ghost k = it.index() as int;
        let ghost seen = mark_list(all.take(k + 1));
        proof {
            assert(seen.drop_last() =~= mark_list(all.take(k)));
            assert(seen.last() == a@);
        }
        if !same(&a.id, id) {
            let ghost before = out@;
            out.push(a);
            assert(mark_list(out@) =~= mark_list(before).push(a@));
        }
    }
    assert(all.take(all.len() as int) =~= all);
    out
}

fn sort_marks(annotations: Vec<Annotation>) -> (r: Vec<Annotation>)
    ensures
        mark_list(r@) == marks_sorted(mark_list(annotations@)),
{
    let ghost all = annotations@;
    let ghost less = |a: Annotation, b: Annotation| listed_before(a, b);
    let r = stable_sort(annotations, comes_first, Ghost(less));
    proof {
        let f = |a: Annotation| a@;
        let image_less = |a: AnnotationView, b: AnnotationView| mark_before(a, b);
        assert forall|a: Annotation, b: Annotation| #[trigger] less(a, b) == image_less(f(a), f(b)) by {}
        lemma_sort_of_images(all, f, less, image_less);
        assert(mark_list(r@) =~= r@.map_values(f));
        assert(mark_list(all) =~= all.map_values(f));
    }
    r
}

impl App {
    pub(crate) fn say(&mut self, status: &str)
        requires
            old(self).wf(),
        ensures
            final(self).wf(),
            final(self)@ == old(self)@.says(status@),
    {
        self.status = Some(copy_text(status));
    }

    pub(crate) fn ask(&mut self, change: Change)
        requires
            old(self).wf(),
        ensures
            final(self).wf(),
            final(self)@ == old(self)@.asking(change@),
    {
        self.request = Some(Request::Write(change));
    }

    pub(crate) fn id_of(&self, index: usize) -> (r: String)
        requires
            index < self.annotations@.len(),
        ensures
            r@ == self@.annotations[index as int].id,
    {
        proof {
            lemma_mark_pick(self.annotations@, index as int);
        }
        self.annotations[index].id.clone()
    }

    pub(crate) fn annotate(&mut self, color: Color, then_comment: bool, now: i64)
        requires
            old(self).wf(),
            old(self).journal.id_counter < u64::MAX,
        ensures
            final(self).wf(),
            final(self)@ == old(self)@.annotated(color, then_comment, now as int),
    {
        proof {
            reveal(AppView::annotated);
        }
        let slices = match self.selection_slices() {
            Some(s) => s,
            None => {
                self.say("nothing selected");
                return;
            },
        };
        let quote = self.quote_of(&slices);
        let id = self.journal.next_id(now);
        let annotation = Annotation {
            id,
            href: self.chapter.href.clone(),
            slices,
            color,
            quote,
            note: None,
        };
        self.ask(Change::Highlight { annotation, then_comment });
    }

    pub(crate) fn request_edit(&mut self, index: usize)
        requires
            old(self).wf(),
            index < old(self).annotations@.len(),
        ensures
            final(self).wf(),
            final(self)@ == old(self)@.editing(index as int),
    {
        proof {
            lemma_mark_pick(self.annotations@, index as int);
        }
        let a = &self.annotations[index];
        let initial_text = match &a.note {
            Some(n) => n.clone(),
            None => {
                let t = String::new();
                assert(t@ =~= Seq::<char>::empty());
                t
            },
        };
        let edit = EditRequest {
            annotation_id: a.id.clone(),
            initial_text,
            quote: a.quote.clone(),
        };
        self.pending_edit = Some(edit);
    }

    /// Deletes at the cursor, without guessing what was meant.
    pub(crate) fn begin_deletion(&mut self)
        requires
            old(self).wf(),
        ensures
            final(self).wf(),
            final(self)@ == old(self)@.deleting(),
    {
        proof {
            reveal(AppView::deleting);
        }
        match self.mark_here() {
            None => self.say("no annotation here"),
            Some(i) => {
                proof {
                    lemma_mark_pick(self.annotations@, i as int);
                }
                if self.annotations[i].has_note() {
                    self.pending = Some('d');
                    self.say("dh deletes it all, da only the comment");
                } else {
                    let id = self.id_of(i);
                    self.ask(Change::Remove { id });
                }
            },
        }
    }

    pub(crate) fn delete_annotation_here(&mut self)
        requires
            old(self).wf(),
        ensures
            final(self).wf(),
            final(self)@ == old(self)@.deleting_here(),
    {
        match self.mark_here() {
            None => self.say("no annotation here"),
            Some(i) => {
                let id = self.id_of(i);
                self.ask(Change::Remove { id });
            },
        }
    }

    /// Removes the comment but keeps the highlight it hangs off.
    pub(crate) fn clear_note_here(&mut self)
        requires
            old(self).wf(),
        ensures
            final(self).wf(),
            final(self)@ == old(self)@.clearing_note(),
    {
        proof {
            reveal(AppView::clearing_note);
        }
        match self.mark_here() {
            None => self.say("no annotation here"),
            Some(i) => {
                proof {
                    lemma_mark_pick(self.annotations@, i as int);
                }
                if self.annotations[i].has_note() {
                    let id = self.id_of(i);
                    self.ask(Change::ClearNote { id });
                } else {
                    self.say("no comment here");
                }
            },
        }
    }

    pub(crate) fn recolor_here(&mut self, color: Color)
        requires
            old(self).wf(),
        ensures
            final(self).wf(),
            final(self)@ == old(self)@.recoloring_here(color),
    {
        match self.mark_here() {
            None => self.say("no annotation here"),
            Some(i) => {
                let id = self.id_of(i);
                self.ask(Change::Recolor { id, color });
            },
        }
    }

    pub(crate) fn recolor_selected(&mut self, color: Color)
        requires
            old(self).wf(),
        ensures
            final(self).wf(),
            final(self)@ == old(self)@.recoloring_selected(color),
    {
        if self.annotations_cursor < self.annotations.len() {
            let id = self.id_of(self.annotations_cursor);
            self.ask(Change::Recolor { id, color });
        }
    }

    /// Edits the comment of the annotation under the cursor, no list needed.
    pub(crate) fn edit_here(&mut self)
        requires
            old(self).wf(),
        ensures
            final(self).wf(),
            final(self)@ == old(self)@.editing_here(),
    {
        match self.mark_here() {
            None => self.say("no annotation here: select with v, then a"),
            Some(i) => self.request_edit(i),
        }
    }

    pub(crate) fn open_annotations(&mut self)
        requires
            old(self).wf(),
        ensures
            final(self).wf(),
            final(self)@ == old(self)@.listing(),
    {
        proof {
            reveal(AppView::listing);
        }
        let total = self.annotations.len();
        assert(self@.annotations.len() == total);
        if total == 0 {
            self.say("no annotations yet");
            return;
        }
        if self.annotations_cursor >= total {
            self.annotations_cursor = total - 1;
        }
        self.mode = Mode::Annotations;
    }

    pub(crate) fn show_passage(&mut self)
        requires
            old(self).wf(),
        ensures
            final(self).wf(),
            final(self)@ == old(self)@.passage_shown(),
    {
        proof {
            reveal(AppView::passage_shown);
        }
        let i = self.annotations_cursor;
        if i >= self.annotations.len() {
            return;
        }
        proof {
            lemma_mark_pick(self.annotations@, i as int);
        }
        let href = self.annotations[i].href.clone();
        let (block, offset) = self.annotations[i].start();
        if let Some(index) = find_exact(&self.book, &href) {
            if index != self.chapter_index {
                self.go_to_chapter(index);
            }
        }
        self.pending_restore = Some(Locator { href, block, offset });
        self.mode = Mode::Reading;
        self.unlay();
    }

    /// Marks the layout as stale, so the next draw rebuilds it.
    fn invalidate_layout(&mut self)
        requires
            old(self).wf(),
        ensures
            final(self).wf(),
            final(self)@ == old(self)@.stale(),
    {
        self.laid_out_for = 0;
    }

    fn make_highlight(&mut self, annotation: Annotation, then_comment: bool)
        requires
            old(self).wf(),
        ensures
            final(self).wf(),
            final(self)@ == old(self)@.highlighted(annotation@, then_comment),
    {
        proof {
            reveal(AppView::highlighted);
        }
        let color = annotation.color;
        let id = annotation.id.clone();
        let quote = annotation.quote.clone();
        let ghost list = self.annotations@;
        let mut all: Vec<Annotation> = Vec::new();
        std::mem::swap(&mut all, &mut self.annotations);
        all.push(annotation);
        assert(mark_list(all@) =~= mark_list(list).push(annotation@));
        self.annotations = sort_marks(all);
        self.mode = Mode::Normal;
        self.anchor = None;
        self.linewise = false;
        if then_comment {
            let initial_text = String::new();
            assert(initial_text@ =~= Seq::<char>::empty());
            self.pending_edit = Some(EditRequest { annotation_id: id, initial_text, quote });
        } else {
            self.status = Some(joined_text("highlighted in ", color.label()));
        }
        self.invalidate_layout();
    }

    fn make_removal(&mut self, id: &str)
        requires
            old(self).wf(),
        ensures
            final(self).wf(),
            final(self)@ == old(self)@.removed(id@),
    {
        proof {
            reveal(AppView::removed);
        }
        let mut all: Vec<Annotation> = Vec::new();
        std::mem::swap(&mut all, &mut self.annotations);
        self.annotations = drop_mark(all, id);
        let left = self.annotations.len();
        if left == 0 {
            if self.mode == Mode::Annotations {
                self.mode = Mode::Reading;
            }
        } else if self.annotations_cursor >= left {
            self.annotations_cursor = left - 1;
        }
        self.invalidate_layout();
        self.say("annotation deleted");
    }

    fn make_note(&mut self, id: &str, note: Option<String>)
        requires
            old(self).wf(),
        ensures
            final(self).wf(),
            final(self)@ == (AppView {
                annotations: with_note(old(self)@.annotations, id@, text_opt(note)),
                ..old(self)@
            }).stale(),
    {
        set_note(&mut self.annotations, id, note);
        self.invalidate_layout();
    }

    fn make(&mut self, change: Change)
        requires
            old(self).wf(),
        ensures
            final(self).wf(),
            final(self)@ == old(self)@.changed(change@),
    {
        match change {
            Change::Highlight { annotation, then_comment } => self.make_highlight(
                annotation,
                then_comment,
            ),
            Change::Note { id, text } => {
                let note = if text.as_str().is_empty() {
                    None
                } else {
                    Some(text)
                };
                self.make_note(&id, note);
                self.say("comment saved");
            },
            Change::ClearNote { id } => {
                self.make_note(&id, None);
                self.say("comment removed, annotation kept");
            },
            Change::Remove { id } => self.make_removal(&id),
            Change::Recolor { id, color } => {
                set_color(&mut self.annotations, &id, color);
                self.invalidate_layout();
                self.status = Some(joined_text("recoloured to ", color.label()));
            },
        }
    }

    /// Takes the outcome of the request: nothing when it was written, the reason
    /// when it could not be. A change that could not be written is not made.
    pub fn settle(&mut self, outcome: Option<String>)
        requires
            old(self).wf(),
        ensures
            final(self).wf(),
            final(self)@ == old(self)@.settled(text_opt(outcome)),
    {
        match self.request.take() {
            None => {},
            Some(Request::Save { locator, aloud }) => match outcome {
                None => self.journal.assume_written(Some(locator)),
                Some(e) => if aloud {
                    self.status = Some(joined_text("cannot save position: ", &e));
                },
            },
            Some(Request::Write(change)) => match outcome {
                None => self.make(change),
                Some(e) => {
                    let prefix = match &change {
                        Change::Highlight { .. } => "cannot save annotation: ",
                        Change::Note { .. } => "cannot save comment: ",
                        Change::ClearNote { .. } => "cannot remove comment: ",
                        Change::Remove { .. } => "cannot delete: ",
                        Change::Recolor { .. } => "cannot change colour: ",
                    };
                    self.status = Some(joined_text(prefix, &e));
                },
            },
        }
    }

    /// Asks for the text from the editor to be recorded as the comment of an
    /// annotation. An empty text clears the comment.
    pub fn finish_edit(&mut self, id: &str, text: String)
        requires
            old(self).wf(),
        ensures
            final(self).wf(),
            final(self)@ == old(self)@.asking(ChangeView::Note { id: id@, text: trim(text@) }),
    {
        let s = chars_of(&text);
        let kept = trimmed(&s);
        let text = text_of(&kept);
        self.ask(Change::Note { id: copy_text(id), text });
    }

    /// Puts a message on the status line.
    pub fn report(&mut self, message: String)
        requires
            old(self).wf(),
        ensures
            final(self).wf(),
            final(self)@ == old(self)@.says(message@),
    {
        self.status = Some(message);
    }
}

} // verus!
