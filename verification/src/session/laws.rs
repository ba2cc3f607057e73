//! What holds of every table and report, and of what is given on the command line.

use vstd::prelude::*;
use crate::doc::{BlockView, KindView};
use crate::epub::{chapter_at, BookView};
use crate::failure::joined;
use crate::find::last_place;
use crate::gather::{
    gathers, lemma_gather, lemma_listed, lemma_listed_within, lemma_says, lemma_says_add, listed,
    says,
};
use crate::library::EntryView;
use crate::mcp::json::{field_from, JsonView};
use crate::session::listing::{
    block_line, block_lines, book_value, chapter_line, chapter_rows, failed_lines, failed_text,
    left_aligned, library_row, library_rows, library_table, pictures_in, right_aligned,
    truncated,
};
use crate::session::suffix_parts;
use crate::text::{blank, decimal, number_value};
use crate::ui::panel::padded;
use crate::ui::spaces;

verus! {

// ---------------------------------------------------------------------------
// Columns
// ---------------------------------------------------------------------------
proof fn lemma_spaces(n: nat)
    ensures
        spaces(n).len() == n,
    decreases n,
{
    reveal_strlit(" ");
    if n > 0 {
        lemma_spaces((n - 1) as nat);
    }
}

/// A column keeps what fits it, and shows of what does not all but its end.
pub proof fn columns_keep_what_fits(s: Seq<char>, width: int)
    requires
        0 < width,
    ensures
        s.len() <= width ==> s.is_prefix_of(padded(s, width)) && padded(s, width).len() == width,
        s.len() > width ==> s.take(width - 1).is_prefix_of(padded(s, width)) && padded(
            s,
            width,
        ).len() == width,
        says(right_aligned(s, width), s),
        says(left_aligned(s, width), s),
        right_aligned(s, width).len() >= width,
        left_aligned(s, width).len() >= width,
        truncated(s, width).len() <= width,
        s.len() <= width ==> truncated(s, width) == s,
        s.len() > width ==> s.take(width - 1).is_prefix_of(truncated(s, width)),
{
    let e = Seq::<char>::empty();
    if s.len() <= width {
        lemma_spaces((width - s.len()) as nat);
        assert(s.is_prefix_of(padded(s, width)));
    } else {
        assert(s.take(width - 1).is_prefix_of(padded(s, width)));
    }
    if s.len() < width {
        let pad = spaces((width - s.len()) as nat);
        assert(right_aligned(s, width) =~= pad + s + e);
        lemma_says(pad, s, e);
        assert(left_aligned(s, width) =~= e + s + pad);
        lemma_says(e, s, pad);
    } else {
        assert(s =~= e + s + e);
        lemma_says(e, s, e);
    }
}

// ---------------------------------------------------------------------------
// Tables
// ---------------------------------------------------------------------------
/// The titles of some books, as far as the column goes.
pub open spec fn titles_of(rows: Seq<EntryView>) -> Seq<Seq<char>> {
    rows.map_values(|e: EntryView| padded(e.record.shown_title(), 34))
}

proof fn lemma_library_row(e: EntryView)
    ensures
        says(library_row(e), padded(e.record.shown_title(), 34)),
        says(library_row(e), padded(e.record.shown_authors(), 26)),
        e.record.series matches Some(s) ==> says(library_row(e), s),
        e.record.missing ==> says(library_row(e), "(missing)"@),
{
    let t = padded(e.record.shown_title(), 34);
    let a = padded(e.record.shown_authors(), 26);
    let end = if e.record.missing {
        " (missing)\n"@
    } else {
        "\n"@
    };
    let series = match e.record.series {
        Some(name) => match e.record.series_index {
            Some(at) => "  ["@ + name + " "@ + at.label + "]"@,
            None => "  ["@ + name + "]"@,
        },
        None => Seq::empty(),
    };
    let row = library_row(e);
    assert(row == "  "@ + t + " "@ + a + series + end);
    assert(row =~= "  "@ + t + (" "@ + a + series + end));
    lemma_says("  "@, t, " "@ + a + series + end);
    assert(row =~= ("  "@ + t + " "@) + a + (series + end));
    lemma_says("  "@ + t + " "@, a, series + end);
    let head = "  "@ + t + " "@ + a;
    if let Some(s) = e.record.series {
        match e.record.series_index {
            Some(at) => {
                let rest = " "@ + at.label + "]"@ + end;
                assert(row =~= (head + "  ["@) + s + rest);
                lemma_says(head + "  ["@, s, rest);
            },
            None => {
                let rest = "]"@ + end;
                assert(row =~= (head + "  ["@) + s + rest);
                lemma_says(head + "  ["@, s, rest);
            },
        }
    }
    if e.record.missing {
        reveal_strlit(" (missing)\n");
        reveal_strlit("(missing)");
        assert(row =~= (head + series + seq![' ']) + "(missing)"@ + seq!['\n']);
        lemma_says(head + series + seq![' '], "(missing)"@, seq!['\n']);
    }
}

proof fn lemma_library_rows(rows: Seq<EntryView>) -> (at: Seq<int>)
    ensures
        listed(at, library_rows(rows), titles_of(rows)),
    decreases rows.len(),
{
    if rows.len() == 0 {
        Seq::empty()
    } else {
        let d = rows.drop_last();
        let e = rows.last();
        let before = lemma_library_rows(d);
        lemma_library_row(e);
        let at = lemma_listed(
            before,
            library_rows(d),
            titles_of(d),
            library_row(e),
            padded(e.record.shown_title(), 34),
        );
        assert(titles_of(d).push(padded(e.record.shown_title(), 34)) =~= titles_of(rows));
        at
    }
}

/// The table of a library names every book, in order.
pub proof fn the_table_names_every_book(rows: Seq<EntryView>, needle: Seq<char>)
    requires
        rows.len() > 0,
    ensures
        exists|at: Seq<int>| #[trigger] listed(at, library_table(rows, needle), titles_of(rows)),
{
    let at = lemma_library_rows(rows);
    let head = if blank(needle) {
        decimal(rows.len()) + " books\n\n"@
    } else {
        decimal(rows.len()) + " books matching "@ + needle + "\n\n"@
    };
    let e = Seq::<char>::empty();
    let r = lemma_listed_within(at, head, library_rows(rows), e, titles_of(rows));
    assert(library_table(rows, needle) =~= head + library_rows(rows) + e);
    assert(listed(r, library_table(rows, needle), titles_of(rows)));
}

/// A row of the table has the authors, the series and whether the book is missing.
pub proof fn a_row_describes_its_book(e: EntryView)
    ensures
        says(library_row(e), padded(e.record.shown_authors(), 26)),
        e.record.series matches Some(s) ==> says(library_row(e), s),
        e.record.missing ==> says(library_row(e), "(missing)"@),
{
    lemma_library_row(e);
}

/// What is handed to other programs of a book: its id, its title, its authors in
/// order, and whether it is missing.
pub proof fn a_book_is_handed_on_in_full(e: EntryView)
    ensures
        book_value(e).text_in("id"@) == Some(e.id),
        book_value(e).text_in("title"@) == Some(e.record.shown_title()),
        book_value(e).bool_in("missing"@) == Some(e.record.missing),
        book_value(e).field("authors"@) matches Some(JsonView::List(list)) && list.len()
            == e.record.authors.len() && forall|i: int|
            0 <= i < list.len() ==> #[trigger] list[i] == JsonView::Text(e.record.authors[i]),
{
    reveal_strlit("id");
    reveal_strlit("title");
    reveal_strlit("authors");
    reveal_strlit("lastRead");
    reveal_strlit("missing");
    assert("id"@.len() == 2 && "title"@.len() == 5 && "authors"@.len() == 7 && "lastRead"@.len()
        == 8 && "missing"@.len() == 7);
    assert("authors"@[0] == 'a' && "missing"@[0] == 'm');
    reveal_with_fuel(field_from, 6);
}

// ---------------------------------------------------------------------------
// Chapters and pictures
// ---------------------------------------------------------------------------
/// The pictures of a chapter, by the block they stand in.
pub open spec fn picture_by(blocks: Seq<BlockView>) -> spec_fn(int) -> Option<
    (int, Option<Seq<char>>),
> {
    |k: int|
        match blocks[k].kind {
            KindView::Image { src } => Some((k, src)),
            _ => None,
        }
}

proof fn lemma_pictures(blocks: Seq<BlockView>, n: nat) -> (at: Seq<int>)
    requires
        n <= blocks.len(),
    ensures
        gathers(at, pictures_in(blocks, n), n as int, picture_by(blocks)),
    decreases n,
{
    if n == 0 {
        Seq::empty()
    } else {
        let m = (n - 1) as nat;
        let before = lemma_pictures(blocks, m);
        lemma_gather(before, pictures_in(blocks, m), m as int, picture_by(blocks))
    }
}

/// Every picture of a chapter is found, with its block and its file.
pub proof fn every_picture_is_found(blocks: Seq<BlockView>)
    ensures
        exists|at: Seq<int>| #[trigger]
            gathers(
                at,
                pictures_in(blocks, blocks.len()),
                blocks.len() as int,
                picture_by(blocks),
            ),
{
    let at = lemma_pictures(blocks, blocks.len());
    assert(gathers(at, pictures_in(blocks, blocks.len()), blocks.len() as int, picture_by(blocks)));
}

/// What the lines of a chapter say of its blocks.
pub open spec fn blocks_told(blocks: Seq<BlockView>) -> Seq<Seq<char>> {
    blocks.map_values(|b: BlockView| truncated(b.plain(), 90))
}

proof fn lemma_block_lines(blocks: Seq<BlockView>) -> (at: Seq<int>)
    ensures
        listed(at, block_lines(blocks), blocks_told(blocks)),
    decreases blocks.len(),
{
    if blocks.len() == 0 {
        Seq::empty()
    } else {
        let d = blocks.drop_last();
        let b = blocks.last();
        let before = lemma_block_lines(d);
        let n = d.len() as int;
        let row = block_line(n, b);
        let head = right_aligned(decimal(n as nat), 4) + " "@ + left_aligned(
            crate::session::listing::kind_text(b.kind),
            12,
        ) + " "@ + right_aligned(
            decimal(crate::doc::clipped(b.plain().len() as int) as nat),
            4,
        ) + "ch  "@;
        assert(row =~= head + truncated(b.plain(), 90) + "\n"@);
        lemma_says(head, truncated(b.plain(), 90), "\n"@);
        let at = lemma_listed(
            before,
            block_lines(d),
            blocks_told(d),
            row,
            truncated(b.plain(), 90),
        );
        assert(blocks_told(d).push(truncated(b.plain(), 90)) =~= blocks_told(blocks));
        assert(block_lines(blocks) =~= block_lines(d) + row);
        at
    }
}

/// Every block of a chapter is listed with its text, in order.
pub proof fn every_block_is_listed(blocks: Seq<BlockView>)
    ensures
        exists|at: Seq<int>| #[trigger] listed(at, block_lines(blocks), blocks_told(blocks)),
{
    let at = lemma_block_lines(blocks);
    assert(listed(at, block_lines(blocks), blocks_told(blocks)));
}

proof fn lemma_chapter_line(book: BookView, index: int)
    ensures
        says(chapter_line(book, index), book.spine[index].href),
        chapter_at(book, index) is Err ==> says(
            chapter_line(book, index),
            joined(chapter_at(book, index)->Err_0, ": "@),
        ),
{
    let item = book.spine[index];
    let number = "  "@ + right_aligned(decimal((index + 1) as nat), 3);
    match chapter_at(book, index) {
        Ok(chapter) => {
            let title = match item.title {
                Some(t) => t,
                None => item.href,
            };
            let head = number + ". "@ + padded(title, 48) + " "@ + right_aligned(
                decimal(chapter.blocks.len()),
                4,
            ) + " blocks  "@;
            assert(chapter_line(book, index) =~= head + item.href + "\n"@);
            lemma_says(head, item.href, "\n"@);
        },
        Err(report) => {
            let why = joined(report, ": "@);
            let row = chapter_line(book, index);
            assert(row =~= (number + ". FAILED "@) + item.href + (": "@ + why + "\n"@));
            lemma_says(number + ". FAILED "@, item.href, ": "@ + why + "\n"@);
            lemma_says(number + ". FAILED "@ + item.href + ": "@, why, "\n"@);
        },
    }
}

/// The files of the first chapters.
pub open spec fn hrefs_of(book: BookView, n: int) -> Seq<Seq<char>> {
    Seq::new(n as nat, |i: int| book.spine[i].href)
}

proof fn lemma_chapter_rows(book: BookView, n: nat) -> (at: Seq<int>)
    requires
        n <= book.spine.len(),
    ensures
        listed(at, chapter_rows(book, n), hrefs_of(book, n as int)),
    decreases n,
{
    if n == 0 {
        Seq::empty()
    } else {
        let m = (n - 1) as nat;
        let before = lemma_chapter_rows(book, m);
        lemma_chapter_line(book, n - 1);
        let at = lemma_listed(
            before,
            chapter_rows(book, m),
            hrefs_of(book, m as int),
            chapter_line(book, n - 1),
            book.spine[n - 1].href,
        );
        assert(hrefs_of(book, m as int).push(book.spine[n - 1].href) =~= hrefs_of(book, n as int));
        at
    }
}

/// An inspection lists every chapter of a book in reading order, and says why one
/// cannot be shown.
pub proof fn every_chapter_is_inspected(book: BookView, k: int)
    requires
        0 <= k < book.spine.len(),
    ensures
        exists|at: Seq<int>| #[trigger]
            listed(
                at,
                chapter_rows(book, book.spine.len()),
                hrefs_of(book, book.spine.len() as int),
            ),
        chapter_at(book, k) is Err ==> says(
            chapter_line(book, k),
            joined(chapter_at(book, k)->Err_0, ": "@),
        ),
{
    let at = lemma_chapter_rows(book, book.spine.len());
    assert(listed(
        at,
        chapter_rows(book, book.spine.len()),
        hrefs_of(book, book.spine.len() as int),
    ));
    lemma_chapter_line(book, k);
}

proof fn lemma_failed(failed: Seq<(Seq<char>, Seq<char>)>, n: nat, k: int)
    requires
        0 <= k < n <= failed.len(),
    ensures
        says(failed_lines(failed, n), failed[k].0),
        says(failed_lines(failed, n), failed[k].1),
    decreases n,
{
    let m = (n - 1) as nat;
    let front = failed_lines(failed, m);
    let (name, why) = failed[n - 1];
    let row = "  "@ + name + ": "@ + why + "\n"@;
    assert(failed_lines(failed, n) =~= front + row);
    if k < m {
        lemma_failed(failed, m, k);
    } else {
        assert(row =~= "  "@ + name + (": "@ + why + "\n"@));
        lemma_says("  "@, name, ": "@ + why + "\n"@);
        lemma_says("  "@ + name + ": "@, why, "\n"@);
    }
    lemma_says_add(front, row, failed[k].0);
    lemma_says_add(front, row, failed[k].1);
}

/// What could not be read is named with the reason, as far as the list goes, and
/// counted in full.
pub proof fn failures_are_reported(failed: Seq<(Seq<char>, Seq<char>)>, n: nat, k: int)
    requires
        0 <= k < n <= failed.len(),
    ensures
        says(failed_text(failed, n), failed[k].0),
        says(failed_text(failed, n), failed[k].1),
        says(failed_text(failed, n), decimal(failed.len())),
{
    let count = decimal(failed.len());
    let head = "\n"@ + count + " could not be read:\n"@;
    let body = failed_lines(failed, n);
    assert(failed_text(failed, n) == head + body);
    lemma_failed(failed, n, k);
    lemma_says("\n"@, count, " could not be read:\n"@);
    lemma_says_add(head, body, failed[k].0);
    lemma_says_add(head, body, failed[k].1);
    lemma_says_add(head, body, count);
}

// ---------------------------------------------------------------------------
// The command line
// ---------------------------------------------------------------------------
proof fn lemma_last_place(s: Seq<char>, c: char, i: int, n: int)
    requires
        0 <= i < n <= s.len(),
        s[i] == c,
        forall|k: int| i < k < n ==> #[trigger] s[k] != c,
    ensures
        last_place(s, c, n) == Some(i),
    decreases n,
{
    if i < n - 1 {
        assert(s[n - 1] != c);
        lemma_last_place(s, c, i, n - 1);
    }
}

proof fn lemma_no_place(s: Seq<char>, c: char, n: int)
    requires
        0 <= n <= s.len(),
        !s.contains(c),
    ensures
        last_place(s, c, n) is None,
    decreases n,
{
    if n > 0 {
        assert(s.contains(s[n - 1]));
        lemma_no_place(s, c, n - 1);
    }
}

/// A path with a colon and a number behind it is that path and that line; a path
/// without one is all path.
pub proof fn a_line_number_is_split_off(path: Seq<char>, digits: Seq<char>, n: int)
    requires
        path.len() > 0,
        !digits.contains(':'),
        number_value(digits) == Some(n),
        n <= usize::MAX,
    ensures
        suffix_parts(path.push(':') + digits) == (path, Some(n)),
        !path.contains(':') ==> suffix_parts(path) == (path, None::<int>),
{
    let s = path.push(':') + digits;
    let i = path.len() as int;
    assert forall|k: int| i < k < s.len() implies #[trigger] s[k] != ':' by {
        assert(s[k] == digits[k - i - 1]);
        assert(digits.contains(digits[k - i - 1]));
    }
    lemma_last_place(s, ':', i, s.len() as int);
    assert(s.subrange(i + 1, s.len() as int) =~= digits);
    assert(s.take(i) =~= path);
    if !path.contains(':') {
        lemma_no_place(path, ':', path.len() as int);
    }
}

} // verus!
