//! The tools that read a book.

use vstd::prelude::*;
use crate::app::target::{find_exact, index_opt, spine_exact};
use crate::doc::{Chapter, ChapterView};
use crate::epub::{chapter_at, entry_title, Book, BookView, SpineView};
use crate::export::markdown::{chapter_markdown_titled, markdown, on_one_line};
use crate::failure::{join, joined, Failure};
use crate::journal::{BookRecord, RecordView, State};
use crate::mcp::json::{Json, JsonView};
use crate::mcp::tools::{
    book_from, fail, file_view, limit_of, open_book, push_number, read_limit, resolve_book,
    resolved,
};
use crate::paths::{file_name, file_name_of};
use crate::search::{all_hits, find_all, Hit};
use crate::text::{
    blank, chars_of, copy_text, decimal, decimal_of, is_blank_text, number_value, push_chars,
    push_text, quote_text, quoted_text, read_number, same, sub_chars, text_of, text_opt, texts,
    trim, trimmed,
};

verus! {

// ----- get_book -----
/// A number, right-aligned in three columns.
pub open spec fn in_three_columns(n: nat) -> Seq<char> {
    if n < 10 {
        "  "@ + decimal(n)
    } else if n < 100 {
        " "@ + decimal(n)
    } else {
        decimal(n)
    }
}

fn push_in_three_columns(out: &mut Vec<char>, n: usize)
    ensures
        final(out)@ == old(out)@ + in_three_columns(n as nat),
{
    let ghost before = out@;
    if n < 10 {
        push_text(out, "  ");
    } else if n < 100 {
        push_text(out, " ");
    }
    push_number(out, n);
    assert(out@ =~= before + in_three_columns(n as nat));
}

/// The lines of the files of a book.
pub open spec fn file_lines(paths: Seq<Seq<char>>) -> Seq<char>
    decreases paths.len(),
{
    if paths.len() == 0 {
        Seq::empty()
    } else {
        file_lines(paths.drop_last()) + "- file: "@ + paths.last() + "\n"@
    }
}

/// The lines of the first `n` chapters.
pub open spec fn chapter_lines(spine: Seq<SpineView>, n: nat) -> Seq<char>
    decreases n,
{
    if n == 0 {
        Seq::empty()
    } else {
        chapter_lines(spine, (n - 1) as nat) + in_three_columns(n) + ". "@ + entry_title(
            spine[n - 1],
            n - 1,
        ) + "  ("@ + spine[n - 1].href + ")\n"@
    }
}

/// A line with a label in front, or nothing.
pub open spec fn labelled(label: Seq<char>, value: Option<Seq<char>>) -> Seq<char> {
    match value {
        Some(v) => label + v + "\n"@,
        None => Seq::empty(),
    }
}

/// Title, id and authors of a book.
pub open spec fn record_head(id: Seq<char>, record: RecordView) -> Seq<char> {
    "# "@ + record.shown_title() + "\n\n"@ + "- id: "@ + id + "\n"@ + "- author: "@
        + record.shown_authors() + "\n"@
}

/// The tags of a book, if it has any.
pub open spec fn tag_list(record: RecordView) -> Option<Seq<char>> {
    if record.tags.len() > 0 {
        Some(joined(record.tags, ", "@))
    } else {
        None
    }
}

/// What the record says of a book.
pub open spec fn record_text(id: Seq<char>, record: RecordView) -> Seq<char> {
    record_head(id, record) + labelled("- series: "@, record.series) + labelled(
        "- tags: "@,
        tag_list(record),
    ) + labelled("- language: "@, record.language) + file_lines(record.paths)
}

/// What was recorded while reading a book.
pub open spec fn progress_text(state: State, id: Seq<char>) -> Seq<char> {
    let position = if state@.positions.contains_key(id) {
        let at = state@.positions[id].locator;
        "- reading position: "@ + at.href + " block "@ + decimal(at.block as nat) + "\n"@
    } else {
        Seq::empty()
    };
    position + "- annotations: "@ + decimal(state.marks_listed(id).len()) + "\n"@
}

/// Metadata, chapter list and reading position of one book.
pub open spec fn book_text(
    state: State,
    args: JsonView,
    file: Result<Seq<u8>, Seq<Seq<char>>>,
) -> Result<Seq<char>, Seq<Seq<char>>> {
    match resolved(state, args) {
        Err(report) => Err(report),
        Ok((id, record)) => match book_from(record, file) {
            Err(report) => Err(report),
            Ok(book) => Ok(
                record_text(id, record) + progress_text(state, id) + "\n## Chapters\n\n"@
                    + chapter_lines(book.spine, book.spine.len()),
            ),
        },
    }
}

fn push_files(out: &mut Vec<char>, paths: &Vec<String>)
    ensures
        final(out)@ == old(out)@ + file_lines(texts(paths@)),
{
    let ghost before = out@;
    let ghost all = texts(paths@);
    let mut i: usize = 0;
    assert(all.take(0) =~= Seq::<Seq<char>>::empty());
    assert(out@ =~= before + file_lines(all.take(0)));
    while i < paths.len()
        invariant
            i <= paths@.len(),
            all == texts(paths@),
            out@ == before + file_lines(all.take(i as int)),
        decreases paths@.len() - i,
    {
        push_text(out, "- file: ");
        push_text(out, &paths[i]);
        push_text(out, "\n");
        assert(all.take(i + 1).drop_last() =~= all.take(i as int));
        assert(all.take(i + 1).last() == paths@[i as int]@);
        i += 1;
        assert(out@ =~= before + file_lines(all.take(i as int)));
    }
    assert(all.take(all.len() as int) =~= all);
}

fn push_labelled(out: &mut Vec<char>, label: &str, value: &Option<String>)
    ensures
        final(out)@ == old(out)@ + labelled(label@, text_opt(*value)),
{
    let ghost before = out@;
    if let Some(v) = value {
        push_text(out, label);
        push_text(out, v);
        push_text(out, "\n");
    }
    assert(out@ =~= before + labelled(label@, text_opt(*value)));
}

fn push_record_head(out: &mut Vec<char>, id: &str, record: &BookRecord)
    ensures
        final(out)@ == old(out)@ + record_head(id@, record@),
{
    let ghost before = out@;
    push_text(out, "# ");
    let title = record.display_title();
    push_text(out, &title);
    push_text(out, "\n\n");
    push_text(out, "- id: ");
    push_text(out, id);
    push_text(out, "\n");
    push_text(out, "- author: ");
    let authors = record.display_authors();
    push_text(out, &authors);
    push_text(out, "\n");
    assert(out@ =~= before + record_head(id@, record@));
}

fn push_record(out: &mut Vec<char>, id: &str, record: &BookRecord)
    ensures
        final(out)@ == old(out)@ + record_text(id@, record@),
{
    let ghost before = out@;
    push_record_head(out, id, record);
    push_labelled(out, "- series: ", &record.series);
    let tags = if record.tags.len() > 0 {
        Some(join(&record.tags, ", "))
    } else {
        None
    };
    assert(text_opt(tags) == tag_list(record@));
    push_labelled(out, "- tags: ", &tags);
    push_labelled(out, "- language: ", &record.language);
    push_files(out, &record.paths);
    assert(out@ =~= before + record_text(id@, record@));
}

fn push_chapters(out: &mut Vec<char>, book: &Book)
    ensures
        final(out)@ == old(out)@ + chapter_lines(book@.spine, book@.spine.len()),
{
    let ghost before = out@;
    let ghost spine = book@.spine;
    let n = book.spine.len();
    assert(spine.len() == n);
    let mut i: usize = 0;
    assert(out@ =~= before + chapter_lines(spine, 0));
    while i < n
        invariant
            i <= n,
            n == book.spine@.len(),
            spine == book@.spine,
            out@ == before + chapter_lines(spine, i as nat),
        decreases n - i,
    {
        assert(spine[i as int] == book.spine@[i as int]@);
        let title = book.spine[i].shown_title(i);
        push_in_three_columns(out, i + 1);
        push_text(out, ". ");
        push_text(out, &title);
        push_text(out, "  (");
        push_text(out, &book.spine[i].href);
        push_text(out, ")\n");
        i += 1;
        assert(out@ =~= before + chapter_lines(spine, i as nat));
    }
}

/// Metadata, chapter list and reading position of one book.
pub fn get_book(state: &State, args: &Json, file: Result<Vec<u8>, Failure>) -> (r: Result<
    String,
    Failure,
>)
    requires
        state.wf(),
    ensures
        match book_text(*state, args.view(), file_view(file)) {
            Ok(t) => r matches Ok(s) && s@ == t,
            Err(report) => r matches Err(e) && e@ == report,
        },
{
    let found = match resolve_book(state, args) {
        Ok(f) => f,
        Err(e) => {
            return Err(e);
        },
    };
    let book = match open_book(&found.record, file) {
        Ok(b) => b,
        Err(e) => {
            return Err(e);
        },
    };
    let ghost id = found.id@;
    let mut out: Vec<char> = Vec::new();
    push_record(&mut out, found.id.as_str(), &found.record);
    let ghost head = record_text(id, found.record@);
    assert(out@ =~= head);
    if let Some(at) = state.position(&found.id) {
        push_text(&mut out, "- reading position: ");
        push_text(&mut out, &at.href);
        push_text(&mut out, " block ");
        push_number(&mut out, at.block);
        push_text(&mut out, "\n");
    }
    let marks = state.annotations(&found.id);
    push_text(&mut out, "- annotations: ");
    push_number(&mut out, marks.len());
    push_text(&mut out, "\n");
    assert(marks@.len() == state.marks_listed(id).len());
    assert(out@ =~= head + progress_text(*state, id));
    push_text(&mut out, "\n## Chapters\n\n");
    push_chapters(&mut out, &book);
    Ok(text_of(&out))
}

// ----- read_chapter -----
/// The first chapter, from `i` on, whose file has the name of another.
pub open spec fn spine_by_name(spine: Seq<SpineView>, name: Option<Seq<char>>, i: int) -> Option<int>
    decreases spine.len() - i,
{
    if i < 0 || i >= spine.len() {
        None
    } else if file_name_of(spine[i].href) == name {
        Some(i)
    } else {
        spine_by_name(spine, name, i + 1)
    }
}

/// The chapter that is asked for, by number or by href. Links inside books are
/// not always written the way the container spells them, so the file name will
/// do.
pub open spec fn chapter_asked(spine: Seq<SpineView>, wanted: Seq<char>) -> Result<
    int,
    Seq<Seq<char>>,
> {
    match number_value(trim(wanted)) {
        Some(n) => if n <= usize::MAX {
            let index = if n < 1 {
                0
            } else {
                n - 1
            };
            if index < spine.len() {
                Ok(index)
            } else {
                Err(
                    seq![
                        "chapter "@ + decimal(n as nat) + " is past the end; the book has "@
                            + decimal(spine.len()),
                    ],
                )
            }
        } else {
            chapter_named(spine, wanted)
        },
        None => chapter_named(spine, wanted),
    }
}

pub open spec fn chapter_named(spine: Seq<SpineView>, wanted: Seq<char>) -> Result<
    int,
    Seq<Seq<char>>,
> {
    match spine_exact(spine, wanted, 0) {
        Some(i) => Ok(i),
        None => match spine_by_name(spine, file_name_of(wanted), 0) {
            Some(i) => Ok(i),
            None => Err(seq!["no chapter "@ + quoted_text(wanted) + " in this book"@]),
        },
    }
}

fn same_name(a: &Option<String>, b: &Option<String>) -> (r: bool)
    ensures
        r == (text_opt(*a) == text_opt(*b)),
{
    match (a, b) {
        (Some(x), Some(y)) => same(x, y),
        (None, None) => true,
        _ => false,
    }
}

fn find_named(book: &Book, wanted: &str) -> (r: Option<usize>)
    ensures
        index_opt(r) == spine_by_name(book@.spine, file_name_of(wanted@), 0),
        r matches Some(i) ==> i < book@.spine.len(),
{
    let name = file_name(wanted);
    let n = book.spine.len();
    let ghost spine = book@.spine;
    assert(spine.len() == n);
    let mut i: usize = 0;
    while i < n
        invariant
            i <= n,
            n == book.spine@.len(),
            n == spine.len(),
            spine == book@.spine,
            text_opt(name) == file_name_of(wanted@),
            spine_by_name(spine, file_name_of(wanted@), 0) == spine_by_name(
                spine,
                file_name_of(wanted@),
                i as int,
            ),
        decreases n - i,
    {
        assert(spine[i as int] == book.spine@[i as int]@);
        let own = file_name(&book.spine[i].href);
        if same_name(&own, &name) {
            return Some(i);
        }
        i += 1;
    }
    None
}

/// Accepts a chapter number or an href.
pub fn resolve_chapter(book: &Book, wanted: &str) -> (r: Result<usize, Failure>)
    ensures
        match chapter_asked(book@.spine, wanted@) {
            Ok(i) => r matches Ok(n) && n == i && n < book@.spine.len(),
            Err(report) => r matches Err(e) && e@ == report,
        },
{
    let total = book.spine.len();
    assert(book@.spine.len() == total);
    let whole = chars_of(wanted);
    let number = trimmed(&whole);
    if let Some(n) = read_number(&number, usize::MAX as u64) {
        let index = if n < 1 {
            0
        } else {
            (n - 1) as usize
        };
        if index < total {
            return Ok(index);
        }
        let mut text = chars_of("chapter ");
        let digits = decimal_of(n);
        push_chars(&mut text, &digits);
        push_text(&mut text, " is past the end; the book has ");
        push_number(&mut text, total);
        return Err(fail(text_of(&text)));
    }
    if let Some(index) = find_exact(book, wanted) {
        return Ok(index);
    }
    match find_named(book, wanted) {
        Some(index) => Ok(index),
        None => {
            let quoted = quote_text(wanted);
            let mut text = chars_of("no chapter ");
            push_text(&mut text, &quoted);
            push_text(&mut text, " in this book");
            Err(fail(text_of(&text)))
        },
    }
}

/// Chapter text is capped, because a model's context is finite and a chapter of a
/// technical book can run long. The cap is generous enough for a whole chapter in
/// almost every book.
pub const MAX_CHAPTER_CHARS: usize = 60_000;

pub open spec fn capped(body: Seq<char>) -> Seq<char> {
    if body.len() > MAX_CHAPTER_CHARS {
        body.take(MAX_CHAPTER_CHARS as int) + "\n\n[truncated]\n"@
    } else {
        body
    }
}

/// The text of one chapter as Markdown.
pub open spec fn chapter_text(
    state: State,
    args: JsonView,
    file: Result<Seq<u8>, Seq<Seq<char>>>,
) -> Result<Seq<char>, Seq<Seq<char>>> {
    match resolved(state, args) {
        Err(report) => Err(report),
        Ok((_, record)) => match book_from(record, file) {
            Err(report) => Err(report),
            Ok(book) => match args.text_in("chapter"@) {
                None => Err(seq!["no chapter given"@]),
                Some(wanted) => match chapter_asked(book.spine, wanted) {
                    Err(report) => Err(report),
                    Ok(index) => match chapter_at(book, index) {
                        Err(report) => Err(report),
                        Ok(chapter) => {
                            let title = entry_title(book.spine[index], index);
                            Ok(
                                "chapter "@ + decimal((index + 1) as nat) + " of "@ + decimal(
                                    book.spine.len(),
                                ) + " · "@ + title + " · "@ + chapter.href + "\n\n"@ + capped(
                                    markdown(chapter, Some(record.shown_title()), Some(title)),
                                ),
                            )
                        },
                    },
                },
            },
        },
    }
}

/// The text of one chapter as Markdown.
pub fn read_chapter(state: &State, args: &Json, file: Result<Vec<u8>, Failure>) -> (r: Result<
    String,
    Failure,
>)
    requires
        state.wf(),
    ensures
        match chapter_text(*state, args.view(), file_view(file)) {
            Ok(t) => r matches Ok(s) && s@ == t,
            Err(report) => r matches Err(e) && e@ == report,
        },
{
    let found = match resolve_book(state, args) {
        Ok(f) => f,
        Err(e) => {
            return Err(e);
        },
    };
    let book = match open_book(&found.record, file) {
        Ok(b) => b,
        Err(e) => {
            return Err(e);
        },
    };
    let wanted = match args.text_in("chapter") {
        Some(w) => w,
        None => {
            return Err(fail(copy_text("no chapter given")));
        },
    };
    let index = match resolve_chapter(&book, wanted) {
        Ok(i) => i,
        Err(e) => {
            return Err(e);
        },
    };
    let chapter = match book.chapter(index) {
        Ok(c) => c,
        Err(e) => {
            return Err(e);
        },
    };
    let total = book.spine.len();
    assert(book@.spine.len() == total);
    assert(book@.spine[index as int] == book.spine@[index as int]@);
    let title = book.spine[index].shown_title(index);
    let book_title = found.record.display_title();
    let body = chapter_markdown_titled(&chapter, Some(book_title.as_str()), Some(title.as_str()));
    let mut out = chars_of("chapter ");
    push_number(&mut out, index + 1);
    push_text(&mut out, " of ");
    push_number(&mut out, total);
    push_text(&mut out, " · ");
    push_text(&mut out, &title);
    push_text(&mut out, " · ");
    push_text(&mut out, &chapter.href);
    push_text(&mut out, "\n\n");
    let ghost head = out@;
    let body = chars_of(&body);
    if body.len() > MAX_CHAPTER_CHARS {
        let cut = sub_chars(&body, 0, MAX_CHAPTER_CHARS);
        assert(cut@ =~= body@.take(MAX_CHAPTER_CHARS as int));
        push_chars(&mut out, &cut);
        push_text(&mut out, "\n\n[truncated]\n");
    } else {
        push_chars(&mut out, &body);
    }
    assert(out@ =~= head + capped(body@));
    Ok(text_of(&out))
}

// ----- search_book -----
/// How much text is shown before and after a match.
pub const BEFORE: usize = 60;

pub const AFTER: usize = 120;

/// The text around a match, with an ellipsis wherever it was cut.
pub open spec fn context(text: Seq<char>, offset: int, length: int) -> Seq<char> {
    let start = if offset - BEFORE < 0 {
        0
    } else if offset - BEFORE > text.len() {
        text.len() as int
    } else {
        offset - BEFORE
    };
    let end = if offset + length + AFTER < text.len() {
        offset + length + AFTER
    } else {
        text.len() as int
    };
    let left = if start > 0 {
        seq!['…']
    } else {
        Seq::empty()
    };
    let right = if end < text.len() {
        seq!['…']
    } else {
        Seq::empty()
    };
    on_one_line(left + text.subrange(start, end) + right)
}

/// A window of text around a match, for a hit list.
pub fn context_around(text: &str, offset: usize, length: usize) -> (r: String)
    ensures
        r@ == context(text@, offset as int, length as int),
{
    let v = chars_of(text);
    let total = v.len();
    let start = if offset < BEFORE {
        0
    } else if offset - BEFORE > total {
        total
    } else {
        offset - BEFORE
    };
    let end = match offset.checked_add(length) {
        Some(n) => match n.checked_add(AFTER) {
            Some(m) => if m < total {
                m
            } else {
                total
            },
            None => total,
        },
        None => total,
    };
    let mut out: Vec<char> = Vec::new();
    if start > 0 {
        out.push('…');
    }
    let ghost left = if start > 0 {
        seq!['…']
    } else {
        Seq::<char>::empty()
    };
    assert(out@ =~= on_one_line(left));
    let ghost before = out@;
    let mut i: usize = start;
    assert(out@ =~= before + on_one_line(v@.subrange(start as int, start as int)));
    while i < end
        invariant
            start <= i <= end <= v@.len(),
            out@ == before + on_one_line(v@.subrange(start as int, i as int)),
        decreases end - i,
    {
        out.push(
            if v[i] == '\n' {
                ' '
            } else {
                v[i]
            },
        );
        i += 1;
        assert(out@ =~= before + on_one_line(v@.subrange(start as int, i as int)));
    }
    if end < total {
        out.push('…');
    }
    proof {
        let right = if end < total {
            seq!['…']
        } else {
            Seq::<char>::empty()
        };
        assert(out@ =~= on_one_line(left + v@.subrange(start as int, end as int) + right));
    }
    text_of(&out)
}

/// One hit in the list.
pub open spec fn hit_text(
    chapter: ChapterView,
    title: Seq<char>,
    index: int,
    hit: Hit,
    length: int,
) -> Seq<char> {
    let block = hit.0 as int;
    let text = if block < chapter.blocks.len() {
        chapter.blocks[block].plain()
    } else {
        Seq::empty()
    };
    "- chapter "@ + decimal((index + 1) as nat) + " ("@ + title + ") · "@ + chapter.href + "\n  "@
        + context(text, hit.1 as int, length) + "\n"@
}

/// The first `n` of some hits.
pub open spec fn hits_text(
    chapter: ChapterView,
    title: Seq<char>,
    index: int,
    hits: Seq<Hit>,
    length: int,
    n: nat,
) -> Seq<char>
    decreases n,
{
    if n == 0 {
        Seq::empty()
    } else {
        hits_text(chapter, title, index, hits, length, (n - 1) as nat) + hit_text(
            chapter,
            title,
            index,
            hits[n - 1],
            length,
        )
    }
}

/// What the first `n` chapters hold, and how many hits that is. Chapters are read
/// until there are enough.
pub open spec fn hits_in_book(book: BookView, query: Seq<char>, limit: int, n: nat) -> (
    Seq<char>,
    int,
)
    decreases n,
{
    if n == 0 {
        (Seq::empty(), 0)
    } else {
        let (text, found) = hits_in_book(book, query, limit, (n - 1) as nat);
        let index = n - 1;
        match chapter_at(book, index) {
            Err(_) => (text, found),
            Ok(chapter) => {
                let hits = all_hits(chapter.blocks, query);
                let count = if hits.len() < limit - found {
                    hits.len() as int
                } else {
                    limit - found
                };
                (
                    text + hits_text(
                        chapter,
                        entry_title(book.spine[index], index),
                        index,
                        hits,
                        query.len() as int,
                        count as nat,
                    ),
                    found + count,
                )
            },
        }
    }
}

/// The query that is asked for.
pub open spec fn query_of(args: JsonView) -> Option<Seq<char>> {
    match args.text_in("query"@) {
        Some(q) => if blank(q) {
            None
        } else {
            Some(q)
        },
        None => None,
    }
}

/// Where a phrase stands in one book.
pub open spec fn search_text(
    state: State,
    args: JsonView,
    file: Result<Seq<u8>, Seq<Seq<char>>>,
) -> Result<Seq<char>, Seq<Seq<char>>> {
    match resolved(state, args) {
        Err(report) => Err(report),
        Ok((_, record)) => match query_of(args) {
            None => Err(seq!["no query given"@]),
            Some(query) => match book_from(record, file) {
                Err(report) => Err(report),
                Ok(book) => {
                    let (text, found) = hits_in_book(
                        book,
                        query,
                        limit_of(args, 20, 200),
                        book.spine.len(),
                    );
                    if found == 0 {
                        Ok(
                            "no match for "@ + quoted_text(query) + " in "@ + record.shown_title(),
                        )
                    } else {
                        Ok(
                            decimal(found as nat) + " matches for "@ + quoted_text(query) + " in "@
                                + record.shown_title() + "\n\n"@ + text,
                        )
                    }
                },
            },
        },
    }
}

fn push_hit(
    out: &mut Vec<char>,
    chapter: &Chapter,
    title: &str,
    index: usize,
    hit: Hit,
    length: usize,
)
    requires
        index < usize::MAX,
    ensures
        final(out)@ == old(out)@ + hit_text(chapter@, title@, index as int, hit, length as int),
{
    let ghost before = out@;
    let block = hit.0;
    assert(chapter@.blocks.len() == chapter.blocks@.len());
    let text = if block < chapter.blocks.len() {
        assert(chapter@.blocks[block as int] == chapter.blocks@[block as int]@);
        chapter.blocks[block].plain_text()
    } else {
        let t = String::new();
        assert(t@ =~= Seq::<char>::empty());
        t
    };
    push_text(out, "- chapter ");
    push_number(out, index + 1);
    push_text(out, " (");
    push_text(out, title);
    push_text(out, ") · ");
    push_text(out, &chapter.href);
    push_text(out, "\n  ");
    let around = context_around(&text, hit.1, length);
    push_text(out, &around);
    push_text(out, "\n");
    assert(out@ =~= before + hit_text(chapter@, title@, index as int, hit, length as int));
}

/// Adds the hits of a chapter, up to `room` of them.
fn push_hits(
    out: &mut Vec<char>,
    book: &Book,
    index: usize,
    query: &str,
    room: usize,
) -> (r: usize)
    requires
        index < book.spine@.len(),
    ensures
        match chapter_at(book@, index as int) {
            Err(_) => r == 0 && final(out)@ == old(out)@,
            Ok(chapter) => {
                let hits = all_hits(chapter.blocks, query@);
                &&& r == if hits.len() < room {
                    hits.len() as int
                } else {
                    room as int
                }
                &&& final(out)@ == old(out)@ + hits_text(
                    chapter,
                    entry_title(book@.spine[index as int], index as int),
                    index as int,
                    hits,
                    query@.len() as int,
                    r as nat,
                )
            },
        },
{
    let n = book.spine.len();
    let ghost before = out@;
    let chapter = match book.chapter(index) {
        Ok(c) => c,
        Err(_) => {
            return 0;
        },
    };
    let hits = find_all(&chapter, query);
    assert(book@.spine[index as int] == book.spine@[index as int]@);
    let title = book.spine[index].shown_title(index);
    let wanted = chars_of(query);
    let length = wanted.len();
    let count = if hits.len() < room {
        hits.len()
    } else {
        room
    };
    let mut k: usize = 0;
    assert(out@ =~= before + hits_text(
        chapter@,
        title@,
        index as int,
        hits@,
        length as int,
        0,
    ));
    while k < count
        invariant
            k <= count <= hits@.len(),
            index < usize::MAX,
            out@ == before + hits_text(
                chapter@,
                title@,
                index as int,
                hits@,
                length as int,
                k as nat,
            ),
        decreases count - k,
    {
        push_hit(out, &chapter, &title, index, hits[k], length);
        k += 1;
        assert(out@ =~= before + hits_text(
            chapter@,
            title@,
            index as int,
            hits@,
            length as int,
            k as nat,
        ));
    }
    count
}

fn search_all(book: &Book, query: &str, limit: usize) -> (r: (Vec<char>, usize))
    ensures
        (r.0@, r.1 as int) == hits_in_book(book@, query@, limit as int, book@.spine.len()),
{
    let n = book.spine.len();
    assert(book@.spine.len() == n);
    let mut out: Vec<char> = Vec::new();
    let mut found: usize = 0;
    let mut index: usize = 0;
    assert(out@ =~= Seq::<char>::empty());
    while index < n
        invariant
            index <= n,
            n == book.spine@.len(),
            found <= limit,
            (out@, found as int) == hits_in_book(book@, query@, limit as int, index as nat),
        decreases n - index,
    {
        let ghost before = out@;
        let added = push_hits(&mut out, book, index, query, limit - found);
        proof {
            let step = hits_in_book(book@, query@, limit as int, (index + 1) as nat);
            assert(step == (match chapter_at(book@, index as int) {
                Err(_) => (before, found as int),
                Ok(chapter) => {
                    let hits = all_hits(chapter.blocks, query@);
                    let count = if hits.len() < limit - found {
                        hits.len() as int
                    } else {
                        limit - found
                    };
                    (
                        before + hits_text(
                            chapter,
                            entry_title(book@.spine[index as int], index as int),
                            index as int,
                            hits,
                            query@.len() as int,
                            count as nat,
                        ),
                        found + count,
                    )
                },
            }));
        }
        found = found + added;
        index += 1;
    }
    (out, found)
}

/// Finds a phrase in one book.
pub fn search_book(state: &State, args: &Json, file: Result<Vec<u8>, Failure>) -> (r: Result<
    String,
    Failure,
>)
    requires
        state.wf(),
    ensures
        match search_text(*state, args.view(), file_view(file)) {
            Ok(t) => r matches Ok(s) && s@ == t,
            Err(report) => r matches Err(e) && e@ == report,
        },
{
    let found = match resolve_book(state, args) {
        Ok(f) => f,
        Err(e) => {
            return Err(e);
        },
    };
    let query = match args.text_in("query") {
        Some(q) => q,
        None => {
            return Err(fail(copy_text("no query given")));
        },
    };
    if is_blank_text(query) {
        return Err(fail(copy_text("no query given")));
    }
    let limit = read_limit(args, 20, 200);
    let book = match open_book(&found.record, file) {
        Ok(b) => b,
        Err(e) => {
            return Err(e);
        },
    };
    let (text, count) = search_all(&book, query, limit);
    let title = found.record.display_title();
    let quoted = quote_text(query);
    if count == 0 {
        let mut out = chars_of("no match for ");
        push_text(&mut out, &quoted);
        push_text(&mut out, " in ");
        push_text(&mut out, &title);
        return Ok(text_of(&out));
    }
    let mut out: Vec<char> = decimal_of(count as u64);
    push_text(&mut out, " matches for ");
    push_text(&mut out, &quoted);
    push_text(&mut out, " in ");
    push_text(&mut out, &title);
    push_text(&mut out, "\n\n");
    push_chars(&mut out, &text);
    Ok(text_of(&out))
}

// ----- laws -----
/// A search in a book reports no more matches than were asked for, and every match
/// it has room for.
pub proof fn a_book_search_stays_within_its_limit(
    book: BookView,
    query: Seq<char>,
    limit: int,
    n: nat,
)
    requires
        limit >= 0,
    ensures
        0 <= hits_in_book(book, query, limit, n).1 <= limit,
        n > 0 && hits_in_book(book, query, limit, n).1 < limit && chapter_at(
            book,
            n - 1,
        ) is Ok ==> hits_in_book(book, query, limit, n).1 == hits_in_book(
            book,
            query,
            limit,
            (n - 1) as nat,
        ).1 + all_hits(chapter_at(book, n - 1)->Ok_0.blocks, query).len(),
    decreases n,
{
    if n > 0 {
        a_book_search_stays_within_its_limit(book, query, limit, (n - 1) as nat);
    }
}

} // verus!
