//! What the commands print.

use vstd::prelude::*;
use crate::doc::{
    clipped, Block, BlockKind, BlockView, Chapter, ChapterView, KindView, Link, LinkView,
};
use crate::epub::{chapter_at, Book, BookView};
use crate::failure::{join, joined};
use crate::journal::{Moment, State};
use crate::library::{
    entries, entry_views, lemma_rows_sorted, rows, rows_sorted, sort, Entry, EntryView, Order,
};
use crate::mcp::json::{entry as field, json_views, Json, JsonView};
use crate::mcp::tools::{keep_read, push_number, rows_read};
use crate::text::{
    blank, chars_of, copy_text, decimal, decimal_of, is_blank_text, push_chars, push_text, text_of,
    text_opt, texts,
};
use crate::ui::panel::{pad, padded};
use crate::ui::{make_spaces, spaces};

verus! {

// ----- columns -----
/// A text moved to the right edge of a column.
pub open spec fn right_aligned(s: Seq<char>, width: int) -> Seq<char> {
    if s.len() < width {
        spaces((width - s.len()) as nat) + s
    } else {
        s
    }
}

/// A text filled up to the width of a column.
pub open spec fn left_aligned(s: Seq<char>, width: int) -> Seq<char> {
    if s.len() < width {
        s + spaces((width - s.len()) as nat)
    } else {
        s
    }
}

fn push_right(out: &mut Vec<char>, n: usize, width: usize)
    ensures
        final(out)@ == old(out)@ + right_aligned(decimal(n as nat), width as int),
{
    let ghost before = out@;
    let digits = decimal_of(n as u64);
    if digits.len() < width {
        let room = make_spaces(width - digits.len());
        push_text(out, &room);
    }
    push_chars(out, &digits);
    assert(out@ =~= before + right_aligned(decimal(n as nat), width as int));
}

fn push_left(out: &mut Vec<char>, s: &str, width: usize)
    ensures
        final(out)@ == old(out)@ + left_aligned(s@, width as int),
{
    let ghost before = out@;
    let v = chars_of(s);
    push_chars(out, &v);
    if v.len() < width {
        let room = make_spaces(width - v.len());
        push_text(out, &room);
    }
    assert(out@ =~= before + left_aligned(s@, width as int));
}

/// A text cut to a width.
pub open spec fn truncated(s: Seq<char>, width: int) -> Seq<char> {
    if s.len() <= width {
        s
    } else if width < 1 {
        seq!['…']
    } else {
        s.take(width - 1).push('…')
    }
}

pub fn truncate(text: &str, width: usize) -> (r: String)
    ensures
        r@ == truncated(text@, width as int),
{
    let v = chars_of(text);
    if v.len() <= width {
        return copy_text(text);
    }
    let keep = if width < 1 {
        0
    } else {
        width - 1
    };
    let mut out = crate::text::sub_chars(&v, 0, keep);
    assert(out@ =~= v@.take(keep as int));
    out.push('…');
    assert(width < 1 ==> out@ =~= seq!['…']);
    text_of(&out)
}

// ----- the library -----
/// One line of the library.
pub open spec fn library_row(e: EntryView) -> Seq<char> {
    let series = match e.record.series {
        Some(name) => match e.record.series_index {
            Some(at) => "  ["@ + name + " "@ + at.label + "]"@,
            None => "  ["@ + name + "]"@,
        },
        None => Seq::empty(),
    };
    "  "@ + padded(e.record.shown_title(), 34) + " "@ + padded(e.record.shown_authors(), 26) + series
        + (if e.record.missing {
        " (missing)\n"@
    } else {
        "\n"@
    })
}

pub open spec fn library_rows(rows: Seq<EntryView>) -> Seq<char>
    decreases rows.len(),
{
    if rows.len() == 0 {
        Seq::empty()
    } else {
        library_rows(rows.drop_last()) + library_row(rows.last())
    }
}

/// The library as a table, for a person.
pub open spec fn library_table(rows: Seq<EntryView>, needle: Seq<char>) -> Seq<char> {
    if rows.len() == 0 {
        if blank(needle) {
            "The library is empty. Read one in with:\n  omalibre --scan ~/path/to/books\n"@
        } else {
            "No book matches "@ + needle + ".\n"@
        }
    } else if blank(needle) {
        decimal(rows.len()) + " books\n\n"@ + library_rows(rows)
    } else {
        decimal(rows.len()) + " books matching "@ + needle + "\n\n"@ + library_rows(rows)
    }
}

fn push_library_row(out: &mut Vec<char>, e: &Entry)
    ensures
        final(out)@ == old(out)@ + library_row(e@),
{
    let ghost before = out@;
    push_text(out, "  ");
    let title = e.record.display_title();
    let title = pad(&title, 34);
    push_text(out, &title);
    push_text(out, " ");
    let authors = e.record.display_authors();
    let authors = pad(&authors, 26);
    push_text(out, &authors);
    if let Some(name) = &e.record.series {
        push_text(out, "  [");
        push_text(out, name);
        if let Some(at) = &e.record.series_index {
            push_text(out, " ");
            push_text(out, &at.label);
        }
        push_text(out, "]");
    }
    if e.record.missing {
        push_text(out, " (missing)\n");
    } else {
        push_text(out, "\n");
    }
    assert(out@ =~= before + library_row(e@));
}

/// The library as a table, for a person. `needle` is what it was filtered by.
pub fn library_text(entries: &Vec<Entry>, needle: &str) -> (r: String)
    ensures
        r@ == library_table(entry_views(entries@), needle@),
{
    let ghost rows = entry_views(entries@);
    let total = entries.len();
    assert(rows.len() == total);
    let everything = is_blank_text(needle);
    if total == 0 {
        if everything {
            return copy_text(
                "The library is empty. Read one in with:\n  omalibre --scan ~/path/to/books\n",
            );
        }
        let mut out = chars_of("No book matches ");
        push_text(&mut out, needle);
        push_text(&mut out, ".\n");
        return text_of(&out);
    }
    let mut out: Vec<char> = decimal_of(total as u64);
    if everything {
        push_text(&mut out, " books\n\n");
    } else {
        push_text(&mut out, " books matching ");
        push_text(&mut out, needle);
        push_text(&mut out, "\n\n");
    }
    let ghost head = out@;
    let mut i: usize = 0;
    assert(rows.take(0) =~= Seq::<EntryView>::empty());
    assert(out@ =~= head + library_rows(rows.take(0)));
    while i < total
        invariant
            i <= total,
            total == entries@.len(),
            rows == entry_views(entries@),
            out@ == head + library_rows(rows.take(i as int)),
        decreases total - i,
    {
        push_library_row(&mut out, &entries[i]);
        assert(rows.take(i + 1).drop_last() =~= rows.take(i as int));
        assert(rows.take(i + 1).last() == entries@[i as int]@);
        i += 1;
        assert(out@ =~= head + library_rows(rows.take(i as int)));
    }
    assert(rows.take(rows.len() as int) =~= rows);
    text_of(&out)
}

// ----- recent books -----
/// The books read most recently. A book that was never opened is left out,
/// because recent means read, not owned.
pub open spec fn recent_rows(state: State, count: int) -> Seq<EntryView> {
    let all = rows_sorted(rows_read(rows(state)), Order::Recent);
    if count < all.len() {
        all.take(count)
    } else {
        all
    }
}

/// The books read most recently, the latest first.
pub fn list_recent(state: &State, count: usize) -> (r: Vec<Entry>)
    requires
        state.wf(),
    ensures
        entry_views(r@) == recent_rows(*state, count as int),
{
    let all = entries(state);
    let mut read = keep_read(all);
    let ghost unsorted = read@;
    sort(&mut read, Order::Recent);
    proof {
        lemma_rows_sorted(unsorted, Order::Recent);
    }
    let ghost sorted = read@;
    assert(entry_views(sorted).len() == sorted.len());
    if count < read.len() {
        read.truncate(count);
        assert(entry_views(read@) =~= entry_views(sorted).take(count as int));
    }
    read
}

/// A moment as RFC 3339 has it, in UTC and to the second. Moments outside the
/// range of the calendar have no text.
pub uninterp spec fn rfc3339_text(seconds: i64, nanos: u32) -> Option<Seq<char>>;

/// `chrono::DateTime::<Utc>::from_timestamp` and `to_rfc3339_opts`. Claims that
/// the text, or its absence, depends on the moment alone.
#[verifier::external_body]
fn format_rfc3339(at: Moment) -> (r: Option<String>)
    ensures
        text_opt(r) == rfc3339_text(at.seconds, at.nanos),
{
    chrono::DateTime::from_timestamp(at.seconds, at.nanos).map(
        |t| t.to_rfc3339_opts(chrono::SecondsFormat::Secs, true),
    )
}

/// When a book was last read, for a program. Seconds, not nanoseconds: whoever
/// reads this may know at most milliseconds.
pub open spec fn last_read_value(at: Option<Moment>) -> JsonView {
    match at {
        Some(at) => match rfc3339_text(at.seconds, at.nanos) {
            Some(t) => JsonView::Text(t),
            None => JsonView::Null,
        },
        None => JsonView::Null,
    }
}

/// A book for a program to read.
pub open spec fn book_value(e: EntryView) -> JsonView {
    JsonView::Object(
        seq![
            ("id"@, JsonView::Text(e.id)),
            ("title"@, JsonView::Text(e.record.shown_title())),
            (
                "authors"@,
                JsonView::List(e.record.authors.map_values(|a: Seq<char>| JsonView::Text(a))),
            ),
            ("lastRead"@, last_read_value(e.last_read)),
            ("missing"@, JsonView::Bool(e.record.missing)),
        ],
    )
}

fn list_texts(items: &Vec<String>) -> (r: Json)
    ensures
        r.view() == JsonView::List(texts(items@).map_values(|a: Seq<char>| JsonView::Text(a))),
{
    let mut out: Vec<Json> = Vec::new();
    let mut i: usize = 0;
    while i < items.len()
        invariant
            i <= items@.len(),
            out@.len() == i,
            forall|k: int| 0 <= k < i ==> (#[trigger] out@[k]).view() == JsonView::Text(items@[k]@),
        decreases items@.len() - i,
    {
        out.push(Json::text(&items[i]));
        i += 1;
    }
    assert(json_views(out@) =~= texts(items@).map_values(|a: Seq<char>| JsonView::Text(a)));
    Json::list(out)
}

fn make_book(e: &Entry) -> (r: Json)
    ensures
        r.view() == book_value(e@),
{
    let title = e.record.display_title();
    let read = match e.last_read {
        Some(at) => match format_rfc3339(at) {
            Some(t) => Json::Text(t),
            None => Json::Null,
        },
        None => Json::Null,
    };
    let fields: Vec<(String, Json)> = vec![
        field("id", Json::text(e.id.as_str())),
        field("title", Json::text(&title)),
        field("authors", list_texts(&e.record.authors)),
        field("lastRead", read),
        field("missing", Json::Bool(e.record.missing)),
    ];
    assert(crate::mcp::json::entry_views(fields@) =~= book_value(e@)->Object_0);
    Json::object(fields)
}

/// Books as JSON, one object each, for a program to read.
pub fn print_books(entries: &Vec<Entry>) -> (r: Json)
    ensures
        r.view() == JsonView::List(entry_views(entries@).map_values(|e: EntryView| book_value(e))),
{
    let mut out: Vec<Json> = Vec::new();
    let mut i: usize = 0;
    while i < entries.len()
        invariant
            i <= entries@.len(),
            out@.len() == i,
            forall|k: int| 0 <= k < i ==> (#[trigger] out@[k]).view() == book_value(entries@[k]@),
        decreases entries@.len() - i,
    {
        out.push(make_book(&entries[i]));
        i += 1;
    }
    assert(json_views(out@) =~= entry_views(entries@).map_values(|e: EntryView| book_value(e)));
    Json::list(out)
}

// ----- one chapter -----
pub open spec fn kind_text(kind: KindView) -> Seq<char> {
    match kind {
        KindView::Heading(level) => "h"@ + decimal(level as nat),
        KindView::Paragraph => "p"@,
        KindView::Quote => "quote"@,
        KindView::Code => "code"@,
        KindView::ListItem { depth, ordinal } => "li d"@ + decimal(depth as nat) + (match ordinal {
            Some(n) => " Some("@ + decimal(n as nat) + ")"@,
            None => " None"@,
        }),
        KindView::Rule => "rule"@,
        KindView::Image { src } => "img "@ + (match src {
            Some(s) => s,
            None => "-"@,
        }),
    }
}

fn say_kind(kind: &BlockKind) -> (r: String)
    ensures
        r@ == kind_text(kind@),
{
    let mut out: Vec<char> = Vec::new();
    match kind {
        BlockKind::Heading(level) => {
            push_text(&mut out, "h");
            push_number(&mut out, *level as usize);
        },
        BlockKind::Paragraph => push_text(&mut out, "p"),
        BlockKind::Quote => push_text(&mut out, "quote"),
        BlockKind::Code => push_text(&mut out, "code"),
        BlockKind::ListItem { depth, ordinal } => {
            push_text(&mut out, "li d");
            push_number(&mut out, *depth as usize);
            match ordinal {
                Some(n) => {
                    push_text(&mut out, " Some(");
                    push_number(&mut out, *n);
                    push_text(&mut out, ")");
                },
                None => push_text(&mut out, " None"),
            }
        },
        BlockKind::Rule => push_text(&mut out, "rule"),
        BlockKind::Image { src } => {
            push_text(&mut out, "img ");
            match src {
                Some(s) => push_text(&mut out, s),
                None => push_text(&mut out, "-"),
            }
        },
    }
    assert(out@ =~= kind_text(kind@));
    text_of(&out)
}

pub open spec fn link_line(link: LinkView) -> Seq<char> {
    "  link  block "@ + right_aligned(decimal(link.block as nat), 4) + " chars "@ + decimal(
        link.start as nat,
    ) + ".."@ + decimal(link.end as nat) + "  -> "@ + link.target + "\n"@
}

pub open spec fn link_lines(links: Seq<LinkView>) -> Seq<char>
    decreases links.len(),
{
    if links.len() == 0 {
        Seq::empty()
    } else {
        link_lines(links.drop_last()) + link_line(links.last())
    }
}

pub open spec fn block_line(n: int, block: BlockView) -> Seq<char> {
    right_aligned(decimal(n as nat), 4) + " "@ + left_aligned(kind_text(block.kind), 12) + " "@
        + right_aligned(decimal(clipped(block.plain().len() as int) as nat), 4) + "ch  "@
        + truncated(block.plain(), 90) + "\n"@
}

pub open spec fn block_lines(blocks: Seq<BlockView>) -> Seq<char>
    decreases blocks.len(),
{
    if blocks.len() == 0 {
        Seq::empty()
    } else {
        block_lines(blocks.drop_last()) + block_line(blocks.len() - 1, blocks.last())
    }
}

/// A chapter's blocks with their kind, to see how markup came through.
pub open spec fn chapter_dump(chapter: ChapterView, anchors: nat) -> Seq<char> {
    chapter.href + " - "@ + decimal(chapter.blocks.len()) + " blocks, "@ + decimal(
        chapter.links.len(),
    ) + " links, "@ + decimal(anchors) + " anchors\n\n"@ + link_lines(chapter.links) + (
    if chapter.links.len() > 0 {
        "\n"@
    } else {
        Seq::empty()
    }) + block_lines(chapter.blocks)
}

fn push_link(out: &mut Vec<char>, link: &Link)
    ensures
        final(out)@ == old(out)@ + link_line(link@),
{
    let ghost before = out@;
    push_text(out, "  link  block ");
    push_right(out, link.block, 4);
    push_text(out, " chars ");
    push_number(out, link.start);
    push_text(out, "..");
    push_number(out, link.end);
    push_text(out, "  -> ");
    push_text(out, &link.target);
    push_text(out, "\n");
    assert(out@ =~= before + link_line(link@));
}

fn push_block(out: &mut Vec<char>, n: usize, block: &Block)
    ensures
        final(out)@ == old(out)@ + block_line(n as int, block@),
{
    let ghost before = out@;
    push_right(out, n, 4);
    push_text(out, " ");
    let kind = say_kind(&block.kind);
    push_left(out, &kind, 12);
    push_text(out, " ");
    let text = block.plain_text();
    let v = chars_of(&text);
    push_right(out, v.len(), 4);
    push_text(out, "ch  ");
    let shown = truncate(&text, 90);
    push_text(out, &shown);
    push_text(out, "\n");
    assert(out@ =~= before + block_line(n as int, block@));
}

/// A chapter's blocks with their kind, to see how markup came through.
pub fn dump_chapter(chapter: &Chapter) -> (r: String)
    ensures
        r@ == chapter_dump(chapter@, chapter.anchors.entries@.len()),
{
    let ghost links = chapter@.links;
    let ghost blocks = chapter@.blocks;
    assert(links.len() == chapter.links@.len());
    assert(blocks.len() == chapter.blocks@.len());
    let mut out = chars_of(&chapter.href);
    push_text(&mut out, " - ");
    push_number(&mut out, chapter.blocks.len());
    push_text(&mut out, " blocks, ");
    push_number(&mut out, chapter.links.len());
    push_text(&mut out, " links, ");
    push_number(&mut out, chapter.anchors.entries.len());
    push_text(&mut out, " anchors\n\n");
    let ghost head = out@;
    let mut i: usize = 0;
    assert(links.take(0) =~= Seq::<LinkView>::empty());
    assert(out@ =~= head + link_lines(links.take(0)));
    while i < chapter.links.len()
        invariant
            i <= chapter.links@.len(),
            links == chapter@.links,
            links.len() == chapter.links@.len(),
            out@ == head + link_lines(links.take(i as int)),
        decreases chapter.links@.len() - i,
    {
        assert(links[i as int] == chapter.links@[i as int]@);
        push_link(&mut out, &chapter.links[i]);
        assert(links.take(i + 1).drop_last() =~= links.take(i as int));
        i += 1;
        assert(out@ =~= head + link_lines(links.take(i as int)));
    }
    assert(links.take(links.len() as int) =~= links);
    let ghost listed = out@;
    if chapter.links.len() > 0 {
        push_text(&mut out, "\n");
    }
    let ghost gap = if links.len() > 0 {
        "\n"@
    } else {
        Seq::<char>::empty()
    };
    assert(out@ =~= listed + gap);
    let ghost middle = out@;
    let mut i: usize = 0;
    assert(blocks.take(0) =~= Seq::<BlockView>::empty());
    assert(out@ =~= middle + block_lines(blocks.take(0)));
    while i < chapter.blocks.len()
        invariant
            i <= chapter.blocks@.len(),
            blocks == chapter@.blocks,
            blocks.len() == chapter.blocks@.len(),
            out@ == middle + block_lines(blocks.take(i as int)),
        decreases chapter.blocks@.len() - i,
    {
        assert(blocks[i as int] == chapter.blocks@[i as int]@);
        push_block(&mut out, i, &chapter.blocks[i]);
        assert(blocks.take(i + 1).drop_last() =~= blocks.take(i as int));
        i += 1;
        assert(out@ =~= middle + block_lines(blocks.take(i as int)));
    }
    assert(blocks.take(blocks.len() as int) =~= blocks);
    text_of(&out)
}

// ----- one book -----
pub open spec fn or_dash(value: Option<Seq<char>>) -> Seq<char> {
    match value {
        Some(v) => v,
        None => "-"@,
    }
}

/// The line of one chapter.
pub open spec fn chapter_line(book: BookView, index: int) -> Seq<char> {
    let item = book.spine[index];
    let number = "  "@ + right_aligned(decimal((index + 1) as nat), 3);
    match chapter_at(book, index) {
        Ok(chapter) => number + ". "@ + padded(
            match item.title {
                Some(t) => t,
                None => item.href,
            },
            48,
        ) + " "@ + right_aligned(decimal(chapter.blocks.len()), 4) + " blocks  "@ + item.href
            + "\n"@,
        Err(report) => number + ". FAILED "@ + item.href + ": "@ + joined(report, ": "@) + "\n"@,
    }
}

pub open spec fn chapter_rows(book: BookView, n: nat) -> Seq<char>
    decreases n,
{
    if n == 0 {
        Seq::empty()
    } else {
        chapter_rows(book, (n - 1) as nat) + chapter_line(book, n - 1)
    }
}

/// How many blocks the first `n` chapters hold, and how many of them failed.
pub open spec fn chapter_totals(book: BookView, n: nat) -> (int, int)
    decreases n,
{
    if n == 0 {
        (0, 0)
    } else {
        let (blocks, failures) = chapter_totals(book, (n - 1) as nat);
        match chapter_at(book, n - 1) {
            Ok(chapter) => (clipped(blocks + chapter.blocks.len()), failures),
            Err(_) => (blocks, failures + 1),
        }
    }
}

/// Metadata and the reading order of a book.
pub open spec fn inspection(book: BookView) -> Seq<char> {
    let count = book.spine.len();
    let (blocks, failures) = chapter_totals(book, count);
    "title:      "@ + (match book.metadata.title {
        Some(t) => t,
        None => "Untitled"@,
    }) + "\nauthors:    "@ + joined(book.metadata.authors, ", "@) + "\nlanguage:   "@ + or_dash(
        book.metadata.language,
    ) + "\nidentifier: "@ + or_dash(book.metadata.identifier) + "\nspine:      "@ + decimal(count)
        + " items\n\n"@ + chapter_rows(book, count) + "\n"@ + decimal(blocks as nat)
        + " blocks total, "@ + decimal(failures as nat) + " chapters failed\n"@
}

fn push_or_dash(out: &mut Vec<char>, value: &Option<String>)
    ensures
        final(out)@ == old(out)@ + or_dash(text_opt(*value)),
{
    match value {
        Some(v) => push_text(out, v),
        None => push_text(out, "-"),
    }
}

/// Adds the line of a chapter. The result says how many blocks it has, or nothing
/// when it failed.
fn push_chapter(out: &mut Vec<char>, book: &Book, index: usize) -> (r: Option<usize>)
    requires
        index < book.spine@.len(),
    ensures
        final(out)@ == old(out)@ + chapter_line(book@, index as int),
        match chapter_at(book@, index as int) {
            Ok(chapter) => r is Some && r->0 == chapter.blocks.len(),
            Err(_) => r is None,
        },
{
    let n = book.spine.len();
    let ghost before = out@;
    assert(book@.spine[index as int] == book.spine@[index as int]@);
    let item = &book.spine[index];
    push_text(out, "  ");
    push_right(out, index + 1, 3);
    match book.chapter(index) {
        Ok(chapter) => {
            push_text(out, ". ");
            let title = match &item.title {
                Some(t) => pad(t, 48),
                None => pad(&item.href, 48),
            };
            push_text(out, &title);
            push_text(out, " ");
            let count = chapter.blocks.len();
            assert(chapter@.blocks.len() == count);
            push_right(out, count, 4);
            push_text(out, " blocks  ");
            push_text(out, &item.href);
            push_text(out, "\n");
            assert(out@ =~= before + chapter_line(book@, index as int));
            Some(count)
        },
        Err(e) => {
            push_text(out, ". FAILED ");
            push_text(out, &item.href);
            push_text(out, ": ");
            let reason = e.full();
            push_text(out, &reason);
            push_text(out, "\n");
            assert(out@ =~= before + chapter_line(book@, index as int));
            None
        },
    }
}

fn push_inspection_head(out: &mut Vec<char>, book: &Book)
    ensures
        final(out)@ == old(out)@ + ("title:      "@ + (match book@.metadata.title {
            Some(t) => t,
            None => "Untitled"@,
        }) + "\nauthors:    "@ + joined(book@.metadata.authors, ", "@) + "\nlanguage:   "@ + or_dash(
            book@.metadata.language,
        ) + "\nidentifier: "@ + or_dash(book@.metadata.identifier) + "\nspine:      "@ + decimal(
            book@.spine.len(),
        ) + " items\n\n"@),
{
    let ghost before = out@;
    push_text(out, "title:      ");
    push_text(out, book.title());
    push_text(out, "\nauthors:    ");
    let authors = join(&book.metadata.authors, ", ");
    push_text(out, &authors);
    push_text(out, "\nlanguage:   ");
    push_or_dash(out, &book.metadata.language);
    push_text(out, "\nidentifier: ");
    push_or_dash(out, &book.metadata.identifier);
    push_text(out, "\nspine:      ");
    assert(book@.spine.len() == book.spine@.len());
    push_number(out, book.spine.len());
    push_text(out, " items\n\n");
    assert(out@ =~= before + ("title:      "@ + (match book@.metadata.title {
        Some(t) => t,
        None => "Untitled"@,
    }) + "\nauthors:    "@ + joined(book@.metadata.authors, ", "@) + "\nlanguage:   "@ + or_dash(
        book@.metadata.language,
    ) + "\nidentifier: "@ + or_dash(book@.metadata.identifier) + "\nspine:      "@ + decimal(
        book@.spine.len(),
    ) + " items\n\n"@));
}

/// Metadata and the reading order. Useful to check a book without the full
/// interface.
pub fn inspect(book: &Book) -> (r: String)
    ensures
        r@ == inspection(book@),
{
    let mut out: Vec<char> = Vec::new();
    push_inspection_head(&mut out, book);
    let ghost head = out@;
    let n = book.spine.len();
    assert(book@.spine.len() == n);
    let mut blocks: usize = 0;
    let mut failures: usize = 0;
    let mut i: usize = 0;
    assert(out@ =~= head + chapter_rows(book@, 0));
    while i < n
        invariant
            i <= n,
            n == book.spine@.len(),
            failures <= i,
            (blocks as int, failures as int) == chapter_totals(book@, i as nat),
            out@ == head + chapter_rows(book@, i as nat),
        decreases n - i,
    {
        let ghost totals = chapter_totals(book@, (i + 1) as nat);
        assert(totals == (match chapter_at(book@, i as int) {
            Ok(chapter) => (clipped(blocks + chapter.blocks.len()), failures as int),
            Err(_) => (blocks as int, failures + 1),
        }));
        match push_chapter(&mut out, book, i) {
            Some(count) => {
                blocks = match blocks.checked_add(count) {
                    Some(total) => total,
                    None => usize::MAX,
                };
            },
            None => {
                failures += 1;
            },
        }
        i += 1;
        assert(out@ =~= head + chapter_rows(book@, i as nat));
    }
    push_text(&mut out, "\n");
    push_number(&mut out, blocks);
    push_text(&mut out, " blocks total, ");
    push_number(&mut out, failures);
    push_text(&mut out, " chapters failed\n");
    assert(out@ =~= inspection(book@));
    text_of(&out)
}

// ----- pictures -----
/// What became of a picture.
#[derive(Debug)]
pub enum Picture {
    /// The book names no file for it.
    Unnamed,
    Missing { src: String, reason: String },
    Undecodable { src: String, reason: String },
    Empty { src: String },
    Shown { src: String, bytes: usize, columns: usize, rows: usize, payload: usize },
}

/// The line of one picture.
pub open spec fn picture_text(index: usize, block: usize, picture: Picture) -> Seq<char> {
    let head = "  ch"@ + right_aligned(decimal(index as nat), 3) + " block"@ + right_aligned(
        decimal(block as nat),
        4,
    );
    match picture {
        Picture::Unnamed => head + "  NO SRC\n"@,
        Picture::Missing { src, reason } => head + "  MISSING      "@ + src@ + ": "@ + reason@
            + "\n"@,
        Picture::Undecodable { src, reason } => head + "  UNDECODABLE  "@ + src@ + ": "@ + reason@
            + "\n"@,
        Picture::Empty { src } => head + "  EMPTY        "@ + src@ + "\n"@,
        Picture::Shown { src, bytes, columns, rows, payload } => head + "  "@ + right_aligned(
            decimal(bytes as nat),
            8,
        ) + " B  "@ + right_aligned(decimal(columns as nat), 3) + "x"@ + left_aligned(
            decimal(rows as nat),
            3,
        ) + " cells  "@ + right_aligned(decimal(payload as nat), 9) + " B out  "@ + src@ + "\n"@,
    }
}

fn push_shown(out: &mut Vec<char>, src: &str, bytes: usize, columns: usize, rows: usize, payload: usize)
    ensures
        final(out)@ == old(out)@ + ("  "@ + right_aligned(decimal(bytes as nat), 8) + " B  "@
            + right_aligned(decimal(columns as nat), 3) + "x"@ + left_aligned(
            decimal(rows as nat),
            3,
        ) + " cells  "@ + right_aligned(decimal(payload as nat), 9) + " B out  "@ + src@ + "\n"@),
{
    let ghost before = out@;
    push_text(out, "  ");
    push_right(out, bytes, 8);
    push_text(out, " B  ");
    push_right(out, columns, 3);
    push_text(out, "x");
    let digits = decimal_of(rows as u64);
    let digits = text_of(&digits);
    push_left(out, &digits, 3);
    push_text(out, " cells  ");
    push_right(out, payload, 9);
    push_text(out, " B out  ");
    push_text(out, src);
    push_text(out, "\n");
    assert(out@ =~= before + ("  "@ + right_aligned(decimal(bytes as nat), 8) + " B  "@
        + right_aligned(decimal(columns as nat), 3) + "x"@ + left_aligned(decimal(rows as nat), 3)
        + " cells  "@ + right_aligned(decimal(payload as nat), 9) + " B out  "@ + src@ + "\n"@));
}

/// The line of one picture.
pub fn picture_line(index: usize, block: usize, picture: &Picture) -> (r: String)
    ensures
        r@ == picture_text(index, block, *picture),
{
    let mut out = chars_of("  ch");
    push_right(&mut out, index, 3);
    push_text(&mut out, " block");
    push_right(&mut out, block, 4);
    let ghost head = out@;
    match picture {
        Picture::Unnamed => push_text(&mut out, "  NO SRC\n"),
        Picture::Missing { src, reason } => {
            push_text(&mut out, "  MISSING      ");
            push_text(&mut out, src);
            push_text(&mut out, ": ");
            push_text(&mut out, reason);
            push_text(&mut out, "\n");
        },
        Picture::Undecodable { src, reason } => {
            push_text(&mut out, "  UNDECODABLE  ");
            push_text(&mut out, src);
            push_text(&mut out, ": ");
            push_text(&mut out, reason);
            push_text(&mut out, "\n");
        },
        Picture::Empty { src } => {
            push_text(&mut out, "  EMPTY        ");
            push_text(&mut out, src);
            push_text(&mut out, "\n");
        },
        Picture::Shown { src, bytes, columns, rows, payload } => {
            push_shown(&mut out, src, *bytes, *columns, *rows, *payload);
        },
    }
    assert(out@ =~= picture_text(index, block, *picture));
    text_of(&out)
}

/// How many pictures there are, and what became of them.
#[derive(Debug, Clone, Copy, PartialEq, Eq, Structural)]
pub struct Tally {
    pub total: usize,
    pub readable: usize,
    pub rendered: usize,
    pub bytes_out: usize,
}

/// The tally after one more picture.
pub open spec fn tallied(t: Tally, picture: Picture) -> Tally {
    let read = picture is Undecodable || picture is Empty || picture is Shown;
    Tally {
        total: clipped(t.total + 1) as usize,
        readable: if read {
            clipped(t.readable + 1) as usize
        } else {
            t.readable
        },
        rendered: if picture is Shown {
            clipped(t.rendered + 1) as usize
        } else {
            t.rendered
        },
        bytes_out: match picture {
            Picture::Shown { payload, .. } => clipped(t.bytes_out + payload) as usize,
            _ => t.bytes_out,
        },
    }
}

fn more(a: usize, b: usize) -> (r: usize)
    ensures
        r == clipped(a + b),
{
    match a.checked_add(b) {
        Some(n) => n,
        None => usize::MAX,
    }
}

impl Tally {
    pub fn new() -> (r: Self)
        ensures
            r == (Tally { total: 0, readable: 0, rendered: 0, bytes_out: 0 }),
    {
        Tally { total: 0, readable: 0, rendered: 0, bytes_out: 0 }
    }

    /// Counts one more picture.
    pub fn count(&mut self, picture: &Picture)
        ensures
            *final(self) == tallied(*old(self), *picture),
    {
        self.total = more(self.total, 1);
        match picture {
            Picture::Undecodable { .. } | Picture::Empty { .. } => {
                self.readable = more(self.readable, 1);
            },
            Picture::Shown { payload, .. } => {
                self.readable = more(self.readable, 1);
                self.rendered = more(self.rendered, 1);
                self.bytes_out = more(self.bytes_out, *payload);
            },
            _ => {},
        }
    }

    pub fn summary(&self) -> (r: String)
        ensures
            r@ == "\n"@ + decimal(self.total as nat) + " images, "@ + decimal(self.readable as nat)
                + " readable, "@ + decimal(self.rendered as nat) + " rendered, "@ + decimal(
                self.bytes_out as nat,
            ) + " B of escapes\n"@,
    {
        let mut out = chars_of("\n");
        push_number(&mut out, self.total);
        push_text(&mut out, " images, ");
        push_number(&mut out, self.readable);
        push_text(&mut out, " readable, ");
        push_number(&mut out, self.rendered);
        push_text(&mut out, " rendered, ");
        push_number(&mut out, self.bytes_out);
        push_text(&mut out, " B of escapes\n");
        text_of(&out)
    }
}

/// The pictures among the first `n` blocks, with where their bytes are.
pub open spec fn pictures_in(blocks: Seq<BlockView>, n: nat) -> Seq<(int, Option<Seq<char>>)>
    decreases n,
{
    if n == 0 {
        Seq::empty()
    } else {
        let front = pictures_in(blocks, (n - 1) as nat);
        match blocks[n - 1].kind {
            KindView::Image { src } => front.push((n - 1, src)),
            _ => front,
        }
    }
}

pub open spec fn source_views(s: Seq<(usize, Option<String>)>) -> Seq<(int, Option<Seq<char>>)> {
    s.map_values(|p: (usize, Option<String>)| (p.0 as int, text_opt(p.1)))
}

/// The pictures of a chapter: which block, and where the bytes are.
pub fn picture_sources(chapter: &Chapter) -> (r: Vec<(usize, Option<String>)>)
    ensures
        source_views(r@) == pictures_in(chapter@.blocks, chapter@.blocks.len()),
{
    let ghost blocks = chapter@.blocks;
    let n = chapter.blocks.len();
    assert(blocks.len() == n);
    let mut out: Vec<(usize, Option<String>)> = Vec::new();
    let mut i: usize = 0;
    assert(source_views(out@) =~= Seq::<(int, Option<Seq<char>>)>::empty());
    while i < n
        invariant
            i <= n,
            n == chapter.blocks@.len(),
            blocks == chapter@.blocks,
            source_views(out@) == pictures_in(blocks, i as nat),
        decreases n - i,
    {
        assert(blocks[i as int] == chapter.blocks@[i as int]@);
        assert(pictures_in(blocks, (i + 1) as nat) == (match blocks[i as int].kind {
            KindView::Image { src } => pictures_in(blocks, i as nat).push((i as int, src)),
            _ => pictures_in(blocks, i as nat),
        }));
        if let BlockKind::Image { src } = &chapter.blocks[i].kind {
            let ghost before = out@;
            let item = (i, src.clone());
            out.push(item);
            assert(source_views(out@) =~= source_views(before).push((i as int, text_opt(*src))));
        }
        i += 1;
    }
    out
}

// ----- reports -----
/// The first `n` of some files that could not be read, and why.
pub open spec fn failed_lines(failed: Seq<(Seq<char>, Seq<char>)>, n: nat) -> Seq<char>
    decreases n,
{
    if n == 0 {
        Seq::empty()
    } else {
        failed_lines(failed, (n - 1) as nat) + "  "@ + failed[n - 1].0 + ": "@ + failed[n - 1].1
            + "\n"@
    }
}

pub open spec fn failed_text(failed: Seq<(Seq<char>, Seq<char>)>, n: nat) -> Seq<char> {
    if failed.len() == 0 {
        Seq::empty()
    } else {
        "\n"@ + decimal(failed.len()) + " could not be read:\n"@ + failed_lines(failed, n)
    }
}

fn push_failed(out: &mut Vec<char>, failed: &Vec<(String, String)>, n: usize)
    requires
        n <= failed@.len(),
    ensures
        final(out)@ == old(out)@ + failed_text(
            failed@.map_values(|p: (String, String)| (p.0@, p.1@)),
            n as nat,
        ),
{
    let ghost before = out@;
    let ghost all = failed@.map_values(|p: (String, String)| (p.0@, p.1@));
    if failed.len() == 0 {
        assert(out@ =~= before + failed_text(all, n as nat));
        return;
    }
    push_text(out, "\n");
    push_number(out, failed.len());
    push_text(out, " could not be read:\n");
    let ghost head = out@;
    let mut i: usize = 0;
    assert(out@ =~= head + failed_lines(all, 0));
    while i < n
        invariant
            i <= n <= failed@.len(),
            all == failed@.map_values(|p: (String, String)| (p.0@, p.1@)),
            out@ == head + failed_lines(all, i as nat),
        decreases n - i,
    {
        assert(all[i as int] == (failed@[i as int].0@, failed@[i as int].1@));
        push_text(out, "  ");
        push_text(out, &failed[i].0);
        push_text(out, ": ");
        push_text(out, &failed[i].1);
        push_text(out, "\n");
        i += 1;
        assert(out@ =~= head + failed_lines(all, i as nat));
    }
    assert(out@ =~= before + failed_text(all, n as nat));
}

/// What a scan found.
pub fn scan_summary(report: &crate::library::ScanReport) -> (r: String)
    ensures
        r@ == "\n"@ + decimal(report@.seen as nat) + " files seen, "@ + decimal(
            report@.added as nat,
        ) + " added, "@ + decimal(report@.moved as nat) + " moved\n"@ + failed_text(
            report@.unreadable,
            report@.unreadable.len(),
        ),
{
    let mut out = chars_of("\n");
    push_number(&mut out, report.seen);
    push_text(&mut out, " files seen, ");
    push_number(&mut out, report.added);
    push_text(&mut out, " added, ");
    push_number(&mut out, report.moved);
    push_text(&mut out, " moved\n");
    push_failed(&mut out, &report.unreadable, report.unreadable.len());
    assert(report@.unreadable.len() == report.unreadable@.len());
    text_of(&out)
}

/// What an export wrote.
pub open spec fn export_text(report: crate::export::ReportView) -> Seq<char> {
    "\n"@ + decimal(report.books as nat) + " books, "@ + decimal(report.chapters as nat)
        + " chapters, "@ + decimal(report.annotations as nat) + " annotations written; "@ + decimal(
        report.unchanged as nat,
    ) + " unchanged\n"@ + failed_text(
        report.skipped,
        if report.skipped.len() < 10 {
            report.skipped.len()
        } else {
            10
        },
    )
}

pub fn export_summary(report: &crate::export::Report) -> (r: String)
    ensures
        r@ == export_text(report@),
{
    let mut out = chars_of("\n");
    push_number(&mut out, report.books);
    push_text(&mut out, " books, ");
    push_number(&mut out, report.chapters);
    push_text(&mut out, " chapters, ");
    push_number(&mut out, report.annotations);
    push_text(&mut out, " annotations written; ");
    push_number(&mut out, report.unchanged);
    push_text(&mut out, " unchanged\n");
    let total = report.skipped.len();
    assert(report@.skipped.len() == total);
    let shown = if total < 10 {
        total
    } else {
        10
    };
    push_failed(&mut out, &report.skipped, shown);
    text_of(&out)
}

} // verus!
