//! Writing books and annotations out as Markdown.
//!
//! The point is not to convert books for their own sake, but to feed a search
//! engine. qmd indexes Markdown collections with BM25 and embeddings; giving it
//! one file per chapter saves building an index here, and it makes the whole
//! library searchable by meaning rather than only by substring.
//!
//! Every file carries front matter naming the book and the chapter it came from,
//! so a hit can be turned back into a place in the reader. Without that the
//! search would be a dead end: it would tell you that something exists, but not
//! where to read it.

pub mod laws;
pub mod markdown;
pub mod origin;

use vstd::prelude::*;
use crate::annotation::{Annotation, AnnotationView};
use crate::doc::clipped;
use crate::epub::{book_opened, chapter_at, entry_title, Book, BookView};
use crate::export::markdown::{
    annotations_markdown, chapter_markdown_titled, field_views, front, front_matter, markdown,
    notes_markdown,
};
use crate::export::origin::{
    are_keys, book_slug, field_value, front_matter_is_read_back, origin, plain, slug, slug_of,
    slugify, OriginView,
};
use crate::failure::{joined, Failure};
use crate::journal::{precedes, BookRecord, Moment, RecordView, State, StateView};
use crate::paths::{data_dir, extension, extension_of, join_path, own_dir, path_joined};
use crate::sort::{in_order, ranks, sorting_puts_in_order, stable_sort};
use crate::table::lemma_entry;
use crate::text::{
    blank, chars_of, copy_text, decimal, decimal_of, is_blank_text, lemma_text_order, lower_text,
    push_chars, push_text, same, sorts_before, text_less, text_lowercase, text_of,
};
use crate::xml::slice_opt;

verus! {

// ----- what there is to write -----
/// A book to export.
#[derive(Debug)]
pub struct Job {
    pub id: String,
    pub title: String,
    pub authors: String,
    pub path: String,
    /// Name of its directory.
    pub slug: String,
    /// What it is ordered by.
    pub key: String,
}

#[verifier::ext_equal]
pub struct JobView {
    pub id: Seq<char>,
    pub title: Seq<char>,
    pub authors: Seq<char>,
    pub path: Seq<char>,
    pub slug: Seq<char>,
    pub key: Seq<char>,
}

impl View for Job {
    type V = JobView;

    open spec fn view(&self) -> JobView {
        JobView {
            id: self.id@,
            title: self.title@,
            authors: self.authors@,
            path: self.path@,
            slug: self.slug@,
            key: self.key@,
        }
    }
}

/// The job of a book that has a file.
pub open spec fn job_of(id: Seq<char>, record: RecordView) -> JobView {
    JobView {
        id,
        title: record.shown_title(),
        authors: record.shown_authors(),
        path: record.paths[0],
        slug: book_slug(record.shown_title(), id),
        key: text_lowercase(record.shown_title()),
    }
}

/// `jobs` lists every book that has a file once, by title.
pub open spec fn lists_books(jobs: Seq<Job>, state: StateView) -> bool {
    &&& forall|i: int|
        0 <= i < jobs.len() ==> state.books.contains_key((#[trigger] jobs[i])@.id)
            && state.books[jobs[i]@.id].paths.len() > 0 && jobs[i]@ == job_of(
            jobs[i]@.id,
            state.books[jobs[i]@.id],
        )
    &&& forall|i: int, j: int|
        0 <= i < j < jobs.len() ==> (#[trigger] jobs[i])@.id != (#[trigger] jobs[j])@.id
    &&& forall|id: Seq<char>| #[trigger]
        state.books.contains_key(id) && state.books[id].paths.len() > 0 ==> has_job(jobs, id)
}

pub open spec fn has_job(jobs: Seq<Job>, id: Seq<char>) -> bool {
    exists|i: int| 0 <= i < jobs.len() && (#[trigger] jobs[i])@.id == id
}

pub open spec fn sooner(a: Job, b: Job) -> bool {
    text_less(a@.key, b@.key)
}

fn comes_sooner(a: &Job, b: &Job) -> (r: bool)
    ensures
        r == sooner(*a, *b),
{
    sorts_before(&a.key, &b.key)
}

proof fn lemma_sooner_ranks()
    ensures
        ranks(|a: Job, b: Job| sooner(a, b)),
{
    let less = |a: Job, b: Job| sooner(a, b);
    assert forall|a: Job| !(#[trigger] less(a, a)) by {
        lemma_text_order(a@.key, a@.key, a@.key);
    }
    assert forall|a: Job, b: Job| #[trigger] less(a, b) implies !less(b, a) by {
        lemma_text_order(a@.key, b@.key, a@.key);
    }
    assert forall|a: Job, b: Job, c: Job|
        !(#[trigger] less(a, b)) && !(#[trigger] less(b, c)) implies !less(a, c) by {
        lemma_text_order(a@.key, b@.key, c@.key);
        lemma_text_order(c@.key, b@.key, a@.key);
        lemma_text_order(b@.key, a@.key, c@.key);
        lemma_text_order(a@.key, c@.key, b@.key);
        lemma_text_order(c@.key, a@.key, b@.key);
        lemma_text_order(b@.key, c@.key, a@.key);
    }
}

fn make_job(id: &String, record: &BookRecord, path: &String) -> (r: Job)
    requires
        record@.paths.len() > 0,
        path@ == record@.paths[0],
    ensures
        r@ == job_of(id@, record@),
{
    let title = record.display_title();
    let slug = slug_of(&title, id);
    let key = lower_text(&title);
    Job {
        id: id.clone(),
        authors: record.display_authors(),
        path: path.clone(),
        title,
        slug,
        key,
    }
}

/// The books to export, in the order of their titles. A stable order keeps the
/// output diffable. A book without a file has nothing to export.
pub fn jobs(state: &State) -> (r: Vec<Job>)
    requires
        state.wf(),
    ensures
        lists_books(r@, state@),
        in_order(r@, |a: Job, b: Job| sooner(a, b)),
{
    let books = &state.books.entries;
    let ghost e = books@;
    let mut out: Vec<Job> = Vec::new();
    let mut i: usize = 0;
    let ghost mut from: Seq<int> = Seq::empty();
    while i < books.len()
        invariant
            i <= books@.len(),
            e == books@,
            state.wf(),
            books@ == state.books.entries@,
            from.len() == out@.len(),
            forall|k: int|
                0 <= k < out@.len() ==> 0 <= #[trigger] from[k] < i && e[from[k]].1@.paths.len() > 0
                    && out@[k]@ == job_of(e[from[k]].0@, e[from[k]].1@),
            forall|a: int, b: int| 0 <= a < b < from.len() ==> from[a] < from[b],
            forall|j: int| #![trigger e[j]]
                0 <= j < i && e[j].1@.paths.len() > 0 ==> has_job(out@, e[j].0@),
        decreases books@.len() - i,
    {
        let ghost before = out@;
        if let Some(path) = books[i].1.path() {
            let job = make_job(&books[i].0, &books[i].1, path);
            out.push(job);
            proof {
                from = from.push(i as int);
                assert(out@[out@.len() - 1] == job);
                assert forall|j: int| #![trigger e[j]]
                    0 <= j < i + 1 && e[j].1@.paths.len() > 0 implies has_job(out@, e[j].0@) by {
                    if j < i {
                        assert(has_job(before, e[j].0@));
                        let k = choose|k: int|
                            0 <= k < before.len() && (#[trigger] before[k])@.id == e[j].0@;
                        assert(out@[k] == before[k]);
                    } else {
                        assert(out@[out@.len() - 1]@.id == e[j].0@);
                    }
                }
            }
        }
        i += 1;
    }
    let ghost unsorted = out@;
    let ghost less = |a: Job, b: Job| sooner(a, b);
    let sorted = stable_sort(out, comes_sooner, Ghost(less));
    proof {
        lemma_sooner_ranks();
        sorting_puts_in_order(unsorted, less);
        crate::sort::lemma_sorting_permutes(unsorted, less);
        let f = choose|f: Seq<int>| crate::sort::rearranges(f, unsorted, sorted@);
        assert forall|k: int| 0 <= k < sorted@.len() implies state@.books.contains_key(
            (#[trigger] sorted@[k])@.id,
        ) && state@.books[sorted@[k]@.id].paths.len() > 0 && sorted@[k]@ == job_of(
            sorted@[k]@.id,
            state@.books[sorted@[k]@.id],
        ) by {
            assert(sorted@[k] == unsorted[f[k]]);
            lemma_entry(e, from[f[k]]);
        }
        assert forall|a: int, b: int| 0 <= a < b < sorted@.len() implies (#[trigger] sorted@[a])@.id
            != (#[trigger] sorted@[b])@.id by {
            assert(sorted@[a] == unsorted[f[a]] && sorted@[b] == unsorted[f[b]]);
            assert(f[a] != f[b]);
            let x = from[f[a]];
            let y = from[f[b]];
            assert(x != y) by {
                if f[a] < f[b] {
                    assert(from[f[a]] < from[f[b]]);
                } else {
                    assert(from[f[b]] < from[f[a]]);
                }
            }
            if x < y {
                assert(e[x].0@ != e[y].0@);
            } else {
                assert(e[y].0@ != e[x].0@);
            }
        }
        assert forall|id: Seq<char>| #[trigger]
            state@.books.contains_key(id) && state@.books[id].paths.len() > 0 implies has_job(
            sorted@,
            id,
        ) by {
            let j = choose|j: int| 0 <= j < e.len() && (#[trigger] e[j]).0@ == id;
            lemma_entry(e, j);
            assert(has_job(unsorted, e[j].0@));
            let k = choose|k: int| 0 <= k < unsorted.len() && (#[trigger] unsorted[k])@.id == id;
            assert(crate::sort::names(f, k));
            let m = choose|m: int| 0 <= m < f.len() && #[trigger] f[m] == k;
            assert(sorted@[m] == unsorted[f[m]]);
        }
    }
    sorted
}

// ----- what is out of date -----
/// How much of a book has to be written.
#[derive(Debug, Clone, Copy, PartialEq, Eq, Structural)]
pub enum Step {
    /// Nothing changed since the last export.
    Unchanged,
    /// Only the annotations changed: rewriting 300 chapters for one note would
    /// make the incremental export pointless.
    Notes,
    Whole,
}

/// What the disk says about a book and its export. A time that cannot be read is
/// missing.
#[derive(Debug)]
pub struct Facts {
    /// When the book file changed.
    pub source: Option<Moment>,
    /// When the files in the book's directory changed, the annotations aside.
    pub chapters: Vec<Moment>,
    /// When the annotations file changed.
    pub notes: Option<Moment>,
    pub notes_exist: bool,
}

/// The latest of some moments.
pub open spec fn latest(times: Seq<Moment>) -> Option<Moment>
    decreases times.len(),
{
    if times.len() == 0 {
        None
    } else {
        match latest(times.drop_last()) {
            Some(t) => if precedes(times.last(), t) {
                Some(t)
            } else {
                Some(times.last())
            },
            None => Some(times.last()),
        }
    }
}

/// The latest of some moments.
pub fn newest(times: &Vec<Moment>) -> (r: Option<Moment>)
    ensures
        r == latest(times@),
{
    let mut best: Option<Moment> = None;
    let mut i: usize = 0;
    assert(times@.take(0) =~= Seq::<Moment>::empty());
    while i < times.len()
        invariant
            i <= times@.len(),
            best == latest(times@.take(i as int)),
        decreases times@.len() - i,
    {
        assert(times@.take(i + 1).drop_last() =~= times@.take(i as int));
        best = match best {
            Some(t) => if times[i].is_before(t) {
                Some(t)
            } else {
                Some(times[i])
            },
            None => Some(times[i]),
        };
        i += 1;
    }
    assert(times@.take(times@.len() as int) =~= times@);
    best
}

/// No moment comes after the latest one, which is one of them.
pub proof fn nothing_is_later_than_the_latest(times: Seq<Moment>, i: int)
    requires
        0 <= i < times.len(),
    ensures
        latest(times) is Some,
        times.contains(latest(times)->0),
        !precedes(latest(times)->0, times[i]),
    decreases times.len(),
{
    let d = times.drop_last();
    if d.len() == 0 {
        assert(times[0] == times.last());
    } else {
        let k = if i < d.len() {
            i
        } else {
            0
        };
        nothing_is_later_than_the_latest(d, k);
        assert(d[k] == times[k]);
        let t = latest(d)->0;
        let j = choose|j: int| 0 <= j < d.len() && d[j] == t;
        assert(times[j] == t);
        assert(times[times.len() - 1] == times.last());
    }
}

/// One moment is at or after another, and both are known.
pub open spec fn not_older(written: Option<Moment>, source: Option<Moment>) -> bool {
    written is Some && source is Some && !precedes(written->0, source->0)
}

fn is_current(written: Option<Moment>, source: Option<Moment>) -> (r: bool)
    ensures
        r == not_older(written, source),
{
    match (written, source) {
        (Some(w), Some(s)) => !w.is_before(s),
        _ => false,
    }
}

/// How much has to be written. Annotations follow the journal, not the book
/// file, so they have their own yardstick for what counts as current.
pub open spec fn step_of(
    force: bool,
    annotated: bool,
    source: Option<Moment>,
    chapters: Seq<Moment>,
    notes: Option<Moment>,
    notes_exist: bool,
    journal: Option<Moment>,
) -> Step {
    let chapters_current = !force && not_older(latest(chapters), source);
    let notes_current = !force && ((!annotated && !notes_exist) || not_older(notes, journal));
    if !chapters_current {
        Step::Whole
    } else if !notes_current {
        Step::Notes
    } else {
        Step::Unchanged
    }
}

/// How much of a book has to be written. `force` writes even where the export is
/// newer than the book, which is otherwise skipped: exporting a whole library
/// anew on every run would make the command useless in a loop.
pub fn step_for(force: bool, annotated: bool, facts: &Facts, journal: Option<Moment>) -> (r: Step)
    ensures
        r == step_of(
            force,
            annotated,
            facts.source,
            facts.chapters@,
            facts.notes,
            facts.notes_exist,
            journal,
        ),
{
    if force {
        return Step::Whole;
    }
    if !is_current(newest(&facts.chapters), facts.source) {
        return Step::Whole;
    }
    if (!annotated && !facts.notes_exist) || is_current(facts.notes, journal) {
        Step::Unchanged
    } else {
        Step::Notes
    }
}

// ----- what to write -----
/// A file of the export.
#[derive(Debug)]
pub struct OutFile {
    pub name: String,
    pub text: String,
}

#[verifier::ext_equal]
pub struct OutView {
    pub name: Seq<char>,
    pub text: Seq<char>,
}

impl View for OutFile {
    type V = OutView;

    open spec fn view(&self) -> OutView {
        OutView { name: self.name@, text: self.text@ }
    }
}

pub open spec fn out_views(s: Seq<OutFile>) -> Seq<OutView> {
    s.map_values(|f: OutFile| f@)
}

/// What to do in a book's directory.
#[derive(Debug)]
pub struct Work {
    /// A stale export must not linger: chapters can vanish when a book is
    /// replaced by another edition.
    pub clear: bool,
    pub files: Vec<OutFile>,
    pub remove_notes: bool,
    pub chapters: usize,
    pub annotations: usize,
}

#[verifier::ext_equal]
pub struct WorkView {
    pub clear: bool,
    pub files: Seq<OutView>,
    pub remove_notes: bool,
    pub chapters: int,
    pub annotations: int,
}

impl View for Work {
    type V = WorkView;

    open spec fn view(&self) -> WorkView {
        WorkView {
            clear: self.clear,
            files: out_views(self.files@),
            remove_notes: self.remove_notes,
            chapters: self.chapters as int,
            annotations: self.annotations as int,
        }
    }
}

/// The file that holds a book's annotations.
pub fn notes_file() -> (r: String)
    ensures
        r@ == "000-annotations.md"@,
{
    copy_text("000-annotations.md")
}

/// Whether a file of the export is a chapter. The annotations file is not: it is
/// written on its own, so it stays.
pub fn is_chapter_file(name: &str) -> (r: bool)
    ensures
        r == (name@ != "000-annotations.md"@ && extension_of(name@) == Some("md"@)),
{
    if same(name, "000-annotations.md") {
        return false;
    }
    match extension(name) {
        Some(e) => same(&e, "md"),
        None => false,
    }
}

/// A number with zeros in front, at least three digits wide.
pub open spec fn three_digits(n: nat) -> Seq<char> {
    if n < 10 {
        "00"@ + decimal(n)
    } else if n < 100 {
        "0"@ + decimal(n)
    } else {
        decimal(n)
    }
}

pub open spec fn chapter_name(index: int, title: Seq<char>) -> Seq<char> {
    three_digits((index + 1) as nat) + "-"@ + slug(title) + ".md"@
}

fn name_chapter(index: usize, title: &str) -> (r: String)
    requires
        index < usize::MAX,
    ensures
        r@ == chapter_name(index as int, title@),
{
    let number = index + 1;
    let mut out: Vec<char> = Vec::new();
    if number < 10 {
        push_text(&mut out, "00");
    } else if number < 100 {
        push_text(&mut out, "0");
    }
    let digits = decimal_of(number as u64);
    push_chars(&mut out, &digits);
    assert(out@ =~= three_digits(number as nat));
    push_text(&mut out, "-");
    let name = slugify(title);
    push_text(&mut out, &name);
    push_text(&mut out, ".md");
    text_of(&out)
}

/// The front matter of a chapter.
pub open spec fn chapter_fields(job: JobView, href: Seq<char>, title: Seq<char>, index: int) -> Seq<
    (Seq<char>, Seq<char>),
> {
    seq![
        ("book"@, job.id),
        ("title"@, job.title),
        ("author"@, job.authors),
        ("chapter"@, href),
        ("chapter_title"@, title),
        ("chapter_number"@, decimal((index + 1) as nat)),
    ]
}

/// A chapter as it is exported.
pub open spec fn chapter_document(
    job: JobView,
    href: Seq<char>,
    title: Seq<char>,
    index: int,
    body: Seq<char>,
) -> Seq<char> {
    front(chapter_fields(job, href, title, index)) + "\n"@ + body
}

/// The file of one chapter. A chapter that cannot be read, or says nothing, has
/// none.
pub open spec fn chapter_file(job: JobView, book: BookView, index: int) -> Option<OutView> {
    let title = entry_title(book.spine[index], index);
    match chapter_at(book, index) {
        Ok(chapter) => {
            let body = markdown(chapter, Some(job.title), Some(title));
            if blank(body) {
                None
            } else {
                Some(
                    OutView {
                        name: chapter_name(index, title),
                        text: chapter_document(job, chapter.href, title, index, body),
                    },
                )
            }
        },
        Err(_) => None,
    }
}

/// The files of the first `n` chapters.
pub open spec fn chapter_files(job: JobView, book: BookView, n: nat) -> Seq<OutView>
    decreases n,
{
    if n == 0 {
        Seq::empty()
    } else {
        let front = chapter_files(job, book, (n - 1) as nat);
        match chapter_file(job, book, n - 1) {
            Some(f) => front.push(f),
            None => front,
        }
    }
}

pub open spec fn notes_out(job: JobView, annotations: Seq<AnnotationView>) -> OutView {
    OutView {
        name: "000-annotations.md"@,
        text: notes_markdown(job.id, job.title, job.authors, annotations),
    }
}

/// What to do for a book, or why it cannot be exported.
pub open spec fn exported(
    job: JobView,
    annotations: Seq<AnnotationView>,
    step: Step,
    archive: Seq<u8>,
) -> Result<WorkView, Seq<Seq<char>>> {
    let notes = if annotations.len() == 0 {
        Seq::empty()
    } else {
        seq![notes_out(job, annotations)]
    };
    match step {
        Step::Unchanged => Ok(
            WorkView {
                clear: false,
                files: Seq::empty(),
                remove_notes: false,
                chapters: 0,
                annotations: 0,
            },
        ),
        Step::Notes => Ok(
            WorkView {
                clear: false,
                files: notes,
                remove_notes: annotations.len() == 0,
                chapters: 0,
                annotations: annotations.len() as int,
            },
        ),
        Step::Whole => match book_opened(archive, job.path) {
            Ok(book) => {
                let chapters = chapter_files(job, book, book.spine.len());
                Ok(
                    WorkView {
                        clear: true,
                        files: chapters + notes,
                        remove_notes: false,
                        chapters: chapters.len() as int,
                        annotations: annotations.len() as int,
                    },
                )
            },
            Err(report) => Err(report),
        },
    }
}

fn write_chapter(job: &Job, book: &Book, index: usize) -> (r: Option<OutFile>)
    requires
        index < book@.spine.len(),
        book@.spine.len() == book.spine@.len(),
    ensures
        match chapter_file(job@, book@, index as int) {
            Some(f) => r is Some && r->0@ == f,
            None => r is None,
        },
{
    let n = book.spine.len();
    assert(book@.spine[index as int] == book.spine@[index as int]@);
    let title = book.spine[index].shown_title(index);
    let chapter = match book.chapter(index) {
        Ok(c) => c,
        Err(_) => {
            return None;
        },
    };
    let body = chapter_markdown_titled(&chapter, Some(job.title.as_str()), Some(title.as_str()));
    if is_blank_text(&body) {
        return None;
    }
    let digits = decimal_of((index + 1) as u64);
    let number = text_of(&digits);
    let fields: Vec<(&str, &str)> = vec![
        ("book", job.id.as_str()),
        ("title", job.title.as_str()),
        ("author", job.authors.as_str()),
        ("chapter", chapter.href.as_str()),
        ("chapter_title", title.as_str()),
        ("chapter_number", number.as_str()),
    ];
    proof {
        assert(field_views(fields@) =~= chapter_fields(
            job@,
            chapter@.href,
            title@,
            index as int,
        ));
    }
    let head = front_matter(&fields);
    let mut out = chars_of(&head);
    push_text(&mut out, "\n");
    push_text(&mut out, &body);
    Some(OutFile { name: name_chapter(index, &title), text: text_of(&out) })
}

fn write_chapters(job: &Job, book: &Book) -> (r: Vec<OutFile>)
    ensures
        out_views(r@) == chapter_files(job@, book@, book@.spine.len()),
        r@.len() == out_views(r@).len(),
{
    let mut files: Vec<OutFile> = Vec::new();
    let n = book.spine.len();
    assert(book@.spine.len() == n);
    let mut i: usize = 0;
    assert(out_views(files@) =~= Seq::<OutView>::empty());
    while i < n
        invariant
            i <= n,
            n == book@.spine.len(),
            n == book.spine@.len(),
            out_views(files@) == chapter_files(job@, book@, i as nat),
        decreases n - i,
    {
        let ghost before = files@;
        assert(chapter_files(job@, book@, (i + 1) as nat) == (match chapter_file(
            job@,
            book@,
            i as int,
        ) {
            Some(f) => chapter_files(job@, book@, i as nat).push(f),
            None => chapter_files(job@, book@, i as nat),
        }));
        if let Some(file) = write_chapter(job, book, i) {
            files.push(file);
            assert(out_views(files@) =~= out_views(before).push(file@));
        }
        i += 1;
    }
    files
}

/// What to do in a book's directory for a step. `archive` holds the bytes of the
/// book file; only a whole export reads them.
pub fn export(job: &Job, annotations: &Vec<Annotation>, step: Step, archive: Vec<u8>) -> (r: Result<
    Work,
    Failure,
>)
    ensures
        match exported(job@, annotations@.map_values(|a: Annotation| a@), step, archive@) {
            Ok(w) => r matches Ok(work) && work@ == w,
            Err(report) => r matches Err(e) && e@ == report,
        },
{
    let ghost marks = annotations@.map_values(|a: Annotation| a@);
    let count = annotations.len();
    let mut files: Vec<OutFile> = Vec::new();
    let mut chapters: usize = 0;
    if let Step::Unchanged = step {
        let work = Work { clear: false, files, remove_notes: false, chapters: 0, annotations: 0 };
        assert(work@.files =~= Seq::<OutView>::empty());
        return Ok(work);
    }
    let whole = match step {
        Step::Whole => true,
        _ => false,
    };
    assert(out_views(files@) =~= Seq::<OutView>::empty());
    let ghost mut written: Seq<OutView> = Seq::empty();
    if whole {
        let book = match Book::open(archive, &job.path) {
            Ok(b) => b,
            Err(e) => {
                return Err(e);
            },
        };
        files = write_chapters(job, &book);
        chapters = files.len();
        proof {
            written = chapter_files(job@, book@, book@.spine.len());
        }
    }
    let ghost before = files@;
    if count > 0 {
        let text = annotations_markdown(&job.id, &job.title, &job.authors, annotations);
        let file = OutFile { name: notes_file(), text };
        files.push(file);
        assert(out_views(files@) =~= written + seq![notes_out(job@, marks)]);
    } else {
        assert(out_views(files@) =~= written + Seq::<OutView>::empty());
    }
    proof {
        if !whole {
            assert(written + seq![notes_out(job@, marks)] =~= seq![notes_out(job@, marks)]);
            assert(written + Seq::<OutView>::empty() =~= Seq::<OutView>::empty());
        }
    }
    Ok(
        Work {
            clear: whole,
            files,
            remove_notes: !whole && count == 0,
            chapters,
            annotations: count,
        },
    )
}

// ----- what was written -----
#[derive(Debug)]
pub struct Report {
    pub books: usize,
    pub chapters: usize,
    pub annotations: usize,
    pub skipped: Vec<(String, String)>,
    /// Books left alone because nothing changed since the last export.
    pub unchanged: usize,
}

#[verifier::ext_equal]
pub struct ReportView {
    pub books: int,
    pub chapters: int,
    pub annotations: int,
    pub skipped: Seq<(Seq<char>, Seq<char>)>,
    pub unchanged: int,
}

impl View for Report {
    type V = ReportView;

    open spec fn view(&self) -> ReportView {
        ReportView {
            books: self.books as int,
            chapters: self.chapters as int,
            annotations: self.annotations as int,
            skipped: self.skipped@.map_values(|p: (String, String)| (p.0@, p.1@)),
            unchanged: self.unchanged as int,
        }
    }
}

impl Default for Report {
    fn default() -> (r: Self)
        ensures
            r@ == (ReportView {
                books: 0,
                chapters: 0,
                annotations: 0,
                skipped: Seq::empty(),
                unchanged: 0,
            }),
    {
        let r = Report { books: 0, chapters: 0, annotations: 0, skipped: Vec::new(), unchanged: 0 };
        assert(r@.skipped =~= Seq::<(Seq<char>, Seq<char>)>::empty());
        r
    }
}

fn more(a: usize, b: usize) -> (r: usize)
    ensures
        r == clipped(a + b),
{
    match a.checked_add(b) {
        Some(n) => n,
        None => usize::MAX,
    }
}

impl ReportView {
    /// The report with one more book in it.
    pub open spec fn with(
        self,
        job: JobView,
        step: Step,
        result: Result<WorkView, Seq<Seq<char>>>,
    ) -> ReportView {
        match result {
            Err(report) => ReportView {
                skipped: self.skipped.push((job.slug, joined(report, ": "@))),
                ..self
            },
            Ok(work) => if step == Step::Unchanged {
                ReportView { unchanged: clipped(self.unchanged + 1), ..self }
            } else {
                ReportView {
                    books: clipped(self.books + 1),
                    chapters: clipped(self.chapters + work.chapters),
                    annotations: clipped(self.annotations + work.annotations),
                    ..self
                }
            },
        }
    }
}

pub open spec fn outcome_view(result: Result<Work, Failure>) -> Result<WorkView, Seq<Seq<char>>> {
    match result {
        Ok(w) => Ok(w@),
        Err(e) => Err(e@),
    }
}

impl Report {
    /// Counts what became of a book.
    pub fn count(&mut self, job: &Job, step: Step, result: &Result<Work, Failure>)
        ensures
            final(self)@ == old(self)@.with(job@, step, outcome_view(*result)),
    {
        match result {
            Err(e) => {
                let ghost before = self.skipped@;
                let reason = e.full();
                let slug = job.slug.clone();
                self.skipped.push((slug, reason));
                assert(self@.skipped =~= old(self)@.skipped.push((job@.slug, reason@)));
            },
            Ok(work) => {
                if let Step::Unchanged = step {
                    self.unchanged = more(self.unchanged, 1);
                } else {
                    self.books = more(self.books, 1);
                    self.chapters = more(self.chapters, work.chapters);
                    self.annotations = more(self.annotations, work.annotations);
                }
            },
        }
    }
}

/// Default place for the export, beside the read model. `base` is the user's data
/// directory.
pub fn default_dir(base: Option<&str>) -> (r: Result<String, Failure>)
    ensures
        match own_dir(slice_opt(base)) {
            Some(d) => r matches Ok(s) && s@ == path_joined(d, "export"@),
            None => r matches Err(e) && e@ == seq!["cannot determine the data directory"@],
        },
{
    match data_dir(base) {
        Ok(d) => Ok(join_path(&d, "export")),
        Err(e) => Err(e),
    }
}

// ----- laws -----
/// An exported chapter says which book and which chapter it is, so that a hit in
/// it leads back there.
pub proof fn a_chapter_file_leads_back(
    job: JobView,
    href: Seq<char>,
    title: Seq<char>,
    index: int,
    body: Seq<char>,
)
    requires
        plain(job.id),
        plain(href),
    ensures
        origin(chapter_document(job, href, title, index, body)) == Some(
            OriginView { book: job.id, chapter: Some(href) },
        ),
{
    let fields = chapter_fields(job, href, title, index);
    reveal_strlit("book");
    reveal_strlit("title");
    reveal_strlit("author");
    reveal_strlit("chapter");
    reveal_strlit("chapter_title");
    reveal_strlit("chapter_number");
    assert(are_keys(fields));
    assert("author"@[0] != "chapter"@[0]);
    assert("book"@.len() != "chapter"@.len());
    assert("book"@.len() != "title"@.len() && "book"@.len() != "author"@.len());
    assert("chapter"@.len() != "chapter_title"@.len());
    assert("chapter"@.len() != "chapter_number"@.len());
    assert("book"@.len() != "chapter_title"@.len());
    assert("book"@.len() != "chapter_number"@.len());
    front_matter_is_read_back(fields, "\n"@ + body);
    assert(front(fields) + ("\n"@ + body) =~= chapter_document(job, href, title, index, body));
    reveal_with_fuel(field_value, 7);
    let f5 = fields.drop_last();
    let f4 = f5.drop_last();
    let f3 = f4.drop_last();
    let f2 = f3.drop_last();
    let f1 = f2.drop_last();
    assert(f1.last() == ("book"@, job.id));
    assert(f2.last() == ("title"@, job.title));
    assert(f3.last() == ("author"@, job.authors));
    assert(f4.last() == ("chapter"@, href));
    assert(f5.last() == ("chapter_title"@, title));
}

/// The exported annotations say which book they belong to.
pub proof fn a_notes_file_leads_back(job: JobView, annotations: Seq<AnnotationView>)
    requires
        plain(job.id),
    ensures
        origin(notes_out(job, annotations).text) == Some(
            OriginView { book: job.id, chapter: None },
        ),
{
    let fields = seq![
        ("book"@, job.id),
        ("title"@, job.title),
        ("author"@, job.authors),
        ("kind"@, "annotations"@),
    ];
    reveal_strlit("book");
    reveal_strlit("title");
    reveal_strlit("author");
    reveal_strlit("chapter");
    reveal_strlit("kind");
    assert(are_keys(fields));
    assert("book"@[0] != "kind"@[0]);
    assert("book"@.len() != "title"@.len() && "book"@.len() != "author"@.len());
    assert("chapter"@.len() != "title"@.len() && "chapter"@.len() != "author"@.len());
    assert("chapter"@.len() != "book"@.len() && "chapter"@.len() != "kind"@.len());
    let rest = "\n# Notes on "@ + job.title + "\n\n"@ + crate::export::markdown::marks_markdown(
        annotations,
    );
    front_matter_is_read_back(fields, rest);
    assert(front(fields) + rest =~= notes_out(job, annotations).text);
    reveal_with_fuel(field_value, 5);
    let f3 = fields.drop_last();
    let f2 = f3.drop_last();
    let f1 = f2.drop_last();
    assert(f1.last() == ("book"@, job.id));
    assert(f2.last() == ("title"@, job.title));
    assert(f3.last() == ("author"@, job.authors));
    assert(f1.drop_last() =~= Seq::<(Seq<char>, Seq<char>)>::empty());
}

/// An export that was just written is left alone: neither the book nor the
/// journal has changed since.
pub proof fn a_second_export_writes_nothing(
    annotated: bool,
    source: Moment,
    chapters: Seq<Moment>,
    notes: Option<Moment>,
    journal: Moment,
)
    requires
        chapters.len() > 0,
        forall|i: int| 0 <= i < chapters.len() ==> !precedes(#[trigger] chapters[i], source),
        annotated ==> notes is Some,
        notes matches Some(t) ==> !precedes(t, journal),
    ensures
        step_of(false, annotated, Some(source), chapters, notes, notes is Some, Some(journal))
            == Step::Unchanged,
{
    nothing_is_later_than_the_latest(chapters, 0);
    let j = choose|j: int| 0 <= j < chapters.len() && chapters[j] == latest(chapters)->0;
    assert(!precedes(chapters[j], source));
}

} // verus!
