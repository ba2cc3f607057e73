//! Reader state and key handling.
//!
//! The reader decides; whoever runs it performs. What has to be written to the
//! journal is left as a request, and the outcome of writing it is handed back.

pub mod cursor;
pub mod keys;
pub mod laws;
pub mod marks;
pub mod motions;
pub mod places;
pub mod reader;
pub mod report;
pub mod response;
pub mod show;
pub mod target;
pub mod travel;

use vstd::prelude::*;
use crate::annotation::{Annotation, AnnotationView, Color};
use crate::doc::{Chapter, ChapterView, Locator, LocatorView};
use crate::epub::{Book, BookView};
use crate::identity::BookId;
use crate::journal::{Journal, Payload, PayloadView, locator_opt};
use crate::layout::{LayoutOptions, Line, LineView, line_views};
use crate::search::{Search, SearchView};
use crate::text::text_opt;
use crate::theme::{Theme, ThemeView};

verus! {

#[derive(Debug, Clone, Copy, PartialEq, Eq, Structural)]
pub enum Mode {
    /// Scrolling and reading. `j` and `k` move the page.
    Reading,
    /// A cursor sits in the text. `j` and `k` move the cursor.
    Normal,
    /// A selection grows from an anchor to the cursor.
    Visual,
    Contents,
    /// The list of annotations in this book.
    Annotations,
    /// The key bindings.
    Help,
    /// Typing a search term.
    Search,
}

/// A place to come back to.
///
/// Both parts matter: the view has to look as it did, and the cursor has to sit
/// on the link that was followed, not merely somewhere on its line.
#[derive(Debug)]
pub struct Jump {
    /// Topmost visible line, so the page looks the same.
    pub view: Locator,
    /// Where the cursor stood, in text coordinates.
    pub cursor: Option<(usize, usize)>,
}

#[verifier::ext_equal]
pub struct JumpView {
    pub view: LocatorView,
    pub cursor: Option<(usize, usize)>,
}

impl Jump {
    pub open spec fn view(&self) -> JumpView {
        JumpView { view: self.view@, cursor: self.cursor }
    }
}

/// A comment the user is about to write in `$EDITOR`. The event loop performs
/// the edit, because only it may leave and re-enter the terminal.
#[derive(Debug)]
pub struct EditRequest {
    pub annotation_id: String,
    pub initial_text: String,
    pub quote: String,
}

#[verifier::ext_equal]
pub struct EditView {
    pub annotation_id: Seq<char>,
    pub initial_text: Seq<char>,
    pub quote: Seq<char>,
}

impl View for EditRequest {
    type V = EditView;

    open spec fn view(&self) -> EditView {
        EditView {
            annotation_id: self.annotation_id@,
            initial_text: self.initial_text@,
            quote: self.quote@,
        }
    }
}

/// One picture of the chapter: where it sits, where its bytes are, and how much
/// room it takes. Known before anything is decoded.
#[derive(Debug)]
pub struct ImageSlot {
    pub block: usize,
    pub src: String,
    pub rows: u16,
}

#[verifier::ext_equal]
pub struct SlotView {
    pub block: usize,
    pub src: Seq<char>,
    pub rows: u16,
}

impl View for ImageSlot {
    type V = SlotView;

    open spec fn view(&self) -> SlotView {
        SlotView { block: self.block, src: self.src@, rows: self.rows }
    }
}

pub open spec fn slot_views(s: Seq<ImageSlot>) -> Seq<SlotView> {
    s.map_values(|i: ImageSlot| i@)
}

/// A change to an annotation that takes effect once it is in the journal.
#[derive(Debug)]
pub enum Change {
    Highlight { annotation: Annotation, then_comment: bool },
    /// A comment was written in the editor.
    Note { id: String, text: String },
    ClearNote { id: String },
    Remove { id: String },
    Recolor { id: String, color: Color },
}

#[verifier::ext_equal]
pub enum ChangeView {
    Highlight { annotation: AnnotationView, then_comment: bool },
    Note { id: Seq<char>, text: Seq<char> },
    ClearNote { id: Seq<char> },
    Remove { id: Seq<char> },
    Recolor { id: Seq<char>, color: Color },
}

impl View for Change {
    type V = ChangeView;

    open spec fn view(&self) -> ChangeView {
        match *self {
            Change::Highlight { annotation, then_comment } => ChangeView::Highlight {
                annotation: annotation@,
                then_comment,
            },
            Change::Note { id, text } => ChangeView::Note { id: id@, text: text@ },
            Change::ClearNote { id } => ChangeView::ClearNote { id: id@ },
            Change::Remove { id } => ChangeView::Remove { id: id@ },
            Change::Recolor { id, color } => ChangeView::Recolor { id: id@, color },
        }
    }
}

/// What the reader asks to have written.
#[derive(Debug)]
pub enum Request {
    /// The reading position. `aloud` is whether a failure is worth a message.
    Save { locator: Locator, aloud: bool },
    Write(Change),
}

#[verifier::ext_equal]
pub enum RequestView {
    Save { locator: LocatorView, aloud: bool },
    Write(ChangeView),
}

impl View for Request {
    type V = RequestView;

    open spec fn view(&self) -> RequestView {
        match *self {
            Request::Save { locator, aloud } => RequestView::Save { locator: locator@, aloud },
            Request::Write(change) => RequestView::Write(change@),
        }
    }
}

/// What goes into the journal for a request.
pub open spec fn payload_of(request: RequestView) -> PayloadView {
    match request {
        RequestView::Save { locator, .. } => PayloadView::PositionSet(locator),
        RequestView::Write(change) => match change {
            ChangeView::Highlight { annotation, .. } => PayloadView::HighlightAdded {
                id: annotation.id,
                href: annotation.href,
                slices: annotation.slices,
                color: annotation.color,
                quote: annotation.quote,
            },
            ChangeView::Note { id, text } => PayloadView::NoteSet { id, text },
            ChangeView::ClearNote { id } => PayloadView::NoteSet { id, text: Seq::empty() },
            ChangeView::Remove { id } => PayloadView::AnnotationRemoved { id },
            ChangeView::Recolor { id, color } => PayloadView::ColorSet { id, color },
        },
    }
}

impl Request {
    /// What goes into the journal.
    pub fn payload(&self) -> (r: Payload)
        ensures
            r@ == payload_of(self@),
    {
        match self {
            Request::Save { locator, .. } => Payload::PositionSet {
                href: locator.href.clone(),
                block: locator.block,
                offset: locator.offset,
            },
            Request::Write(change) => match change {
                Change::Highlight { annotation, .. } => {
                    let a = annotation.clone();
                    Payload::HighlightAdded {
                        id: a.id,
                        href: a.href,
                        slices: a.slices,
                        color: a.color,
                        quote: a.quote,
                    }
                },
                Change::Note { id, text } => Payload::NoteSet { id: id.clone(), text: text.clone() },
                Change::ClearNote { id } => {
                    let p = Payload::NoteSet { id: id.clone(), text: String::new() };
                    assert(p@ =~= (PayloadView::NoteSet { id: id@, text: Seq::empty() }));
                    p
                },
                Change::Remove { id } => Payload::AnnotationRemoved { id: id.clone() },
                Change::Recolor { id, color } => Payload::ColorSet { id: id.clone(), color: *color },
            },
        }
    }
}

#[derive(Debug)]
pub struct App {
    pub book: Book,
    pub chapter_index: usize,
    pub chapter: Chapter,
    pub lines: Vec<Line>,
    /// Index of the topmost visible line.
    pub scroll: usize,
    /// Width the current layout was built for.
    pub laid_out_for: u16,
    pub view_height: u16,
    pub mode: Mode,
    pub contents_cursor: usize,
    pub annotations_cursor: usize,
    /// Line and column of the cursor.
    pub cursor: Option<(usize, usize)>,
    /// Where the selection started, in text coordinates so a resize cannot
    /// invalidate it.
    pub anchor: Option<(usize, usize)>,
    /// True while `V` is in force: the selection covers whole lines.
    pub linewise: bool,
    pub pending: Option<char>,
    pub status: Option<String>,
    pub should_quit: bool,
    /// True when the reader was left for good rather than to pick another book.
    pub should_quit_program: bool,
    pub options: LayoutOptions,
    pub id: BookId,
    pub journal: Journal,
    pub pending_restore: Option<Locator>,
    /// All annotations of this book, replayed at startup and kept in step.
    pub annotations: Vec<Annotation>,
    /// Every picture of the chapter with the size it will take. The layout needs
    /// all of them; decoding does not.
    pub image_slots: Vec<ImageSlot>,
    /// Width and maximum height the slots were measured for. Rendering reuses
    /// it, so a picture comes out exactly as tall as the layout reserved.
    pub image_box: (u16, u16),
    /// Colours from the active Omarchy theme.
    pub theme: Theme,
    pub search: Search,
    /// Where the reader was before following links, most recent last. `Ctrl-o`
    /// walks back out, as Vim's jump list does.
    pub jumps: Vec<Jump>,
    /// Cursor position to restore once the layout exists. A cursor lives on a
    /// line, which only exists after wrapping.
    pub pending_cursor: Option<(usize, usize)>,
    /// What has been typed into the search prompt so far.
    pub search_input: String,
    pub pending_edit: Option<EditRequest>,
    /// What is to be written to the journal.
    pub request: Option<Request>,
}

/// The reader as a mathematical value.
#[verifier::ext_equal]
pub struct AppView {
    pub book: BookView,
    pub chapter_index: int,
    pub chapter: ChapterView,
    pub lines: Seq<LineView>,
    pub scroll: int,
    pub laid_out_for: u16,
    pub view_height: u16,
    pub mode: Mode,
    pub contents_cursor: int,
    pub annotations_cursor: int,
    pub cursor: Option<(int, int)>,
    pub anchor: Option<(usize, usize)>,
    pub linewise: bool,
    pub pending: Option<char>,
    pub status: Option<Seq<char>>,
    pub should_quit: bool,
    pub should_quit_program: bool,
    pub options: LayoutOptions,
    pub id: Seq<char>,
    pub host: Seq<char>,
    pub last_written: Option<LocatorView>,
    pub id_counter: int,
    pub pending_restore: Option<LocatorView>,
    pub annotations: Seq<AnnotationView>,
    pub image_slots: Seq<SlotView>,
    pub image_box: (u16, u16),
    pub theme: ThemeView,
    pub search: SearchView,
    pub jumps: Seq<JumpView>,
    pub pending_cursor: Option<(usize, usize)>,
    pub search_input: Seq<char>,
    pub pending_edit: Option<EditView>,
    pub request: Option<RequestView>,
}

pub open spec fn mark_list(s: Seq<Annotation>) -> Seq<AnnotationView> {
    s.map_values(|a: Annotation| a@)
}

pub open spec fn jump_views(s: Seq<Jump>) -> Seq<JumpView> {
    s.map_values(|j: Jump| j.view())
}

pub open spec fn edit_opt(o: Option<EditRequest>) -> Option<EditView> {
    match o {
        Some(e) => Some(e@),
        None => None,
    }
}

pub open spec fn request_opt(o: Option<Request>) -> Option<RequestView> {
    match o {
        Some(r) => Some(r@),
        None => None,
    }
}

pub open spec fn place_opt(o: Option<(usize, usize)>) -> Option<(int, int)> {
    match o {
        Some(p) => Some((p.0 as int, p.1 as int)),
        None => None,
    }
}

impl View for App {
    type V = AppView;

    open spec fn view(&self) -> AppView {
        AppView {
            book: self.book@,
            chapter_index: self.chapter_index as int,
            chapter: self.chapter@,
            lines: line_views(self.lines@),
            scroll: self.scroll as int,
            laid_out_for: self.laid_out_for,
            view_height: self.view_height,
            mode: self.mode,
            contents_cursor: self.contents_cursor as int,
            annotations_cursor: self.annotations_cursor as int,
            cursor: place_opt(self.cursor),
            anchor: self.anchor,
            linewise: self.linewise,
            pending: self.pending,
            status: text_opt(self.status),
            should_quit: self.should_quit,
            should_quit_program: self.should_quit_program,
            options: self.options,
            id: self.id@,
            host: self.journal.host@,
            last_written: locator_opt(self.journal.last_written),
            id_counter: self.journal.id_counter as int,
            pending_restore: locator_opt(self.pending_restore),
            annotations: mark_list(self.annotations@),
            image_slots: slot_views(self.image_slots@),
            image_box: self.image_box,
            theme: self.theme@,
            search: self.search@,
            jumps: jump_views(self.jumps@),
            pending_cursor: self.pending_cursor,
            search_input: self.search_input@,
            pending_edit: edit_opt(self.pending_edit),
            request: request_opt(self.request),
        }
    }
}

} // verus!
