//! What holds of the reports on a book and on an export.

use vstd::prelude::*;
use crate::doc::{ChapterView, LinkView};
use crate::epub::{chapter_at, BookView};
use crate::export::ReportView;
use crate::failure::joined;
use crate::find::{skip_marks, words_from_first};
use crate::find::laws::{leads, led_by};
use crate::gather::{lemma_listed, lemma_listed_within, lemma_says, lemma_says_add, listed, says};
use crate::journal::State;
use crate::library::{rows, rows_sorted, Order};
use crate::mcp::tools::rows_read;
use crate::paths::path_joined;
use crate::session::listing::{
    block_lines, chapter_dump, chapter_rows, chapter_totals, export_text, failed_lines,
    failed_text, inspection, left_aligned, link_line, link_lines, or_dash, picture_text, recent_rows, right_aligned, tallied, Picture, Tally,
};
use crate::session::{expanded, landing_words, Picker};
use crate::text::{decimal, lines_of, occurs_at, trim};

verus! {

/// The books read last are at most as many as were asked for, the first in the order of
/// reading.
pub proof fn recent_books_are_the_first(state: State, count: int)
    requires
        0 <= count,
    ensures
        ({
            let all = rows_sorted(rows_read(rows(state)), Order::Recent);
            let shown = recent_rows(state, count);
            &&& shown.len() <= count
            &&& shown.len() == count || shown.len() == all.len()
            &&& forall|i: int| 0 <= i < shown.len() ==> #[trigger] shown[i] == all[i]
        }),
{
}

/// What each link is said to lead to.
pub open spec fn targets_of(links: Seq<LinkView>) -> Seq<Seq<char>> {
    Seq::new(links.len(), |i: int| links[i].target)
}

proof fn lemma_links(links: Seq<LinkView>) -> (at: Seq<int>)
    ensures
        listed(at, link_lines(links), targets_of(links)),
    decreases links.len(),
{
    if links.len() == 0 {
        Seq::empty()
    } else {
        let front = links.drop_last();
        let before = lemma_links(front);
        let link = links.last();
        let lead = "  link  block "@ + right_aligned(decimal(link.block as nat), 4) + " chars "@
            + decimal(link.start as nat) + ".."@ + decimal(link.end as nat) + "  -> "@;
        lemma_says(lead, link.target, "\n"@);
        assert(link_line(link) == lead + link.target + "\n"@);
        assert(targets_of(links) =~= targets_of(front).push(link.target));
        lemma_listed(before, link_lines(front), targets_of(front), link_line(link), link.target)
    }
}

/// The dump of a chapter names its file and lists every link, in order.
pub proof fn every_link_is_listed(chapter: ChapterView, anchors: nat)
    ensures
        says(chapter_dump(chapter, anchors), chapter.href),
        exists|at: Seq<int>| #[trigger]
            listed(at, chapter_dump(chapter, anchors), targets_of(chapter.links)),
{
    let none = Seq::<Seq<char>>::empty();
    let links = link_lines(chapter.links);
    let gap = if chapter.links.len() > 0 {
        "\n"@
    } else {
        Seq::empty()
    };
    let blocks = block_lines(chapter.blocks);
    let s1 = chapter.href + " - "@ + decimal(chapter.blocks.len()) + " blocks, "@;
    let s2 = s1 + decimal(chapter.links.len()) + " links, "@;
    let s3 = s2 + decimal(anchors) + " anchors\n\n"@;
    lemma_and(Seq::empty(), none, chapter.href);
    assert(Seq::<char>::empty() + chapter.href =~= chapter.href);
    let p = none.push(chapter.href);
    lemma_more(chapter.href, p, " - "@);
    lemma_more(chapter.href + " - "@, p, decimal(chapter.blocks.len()));
    lemma_more(chapter.href + " - "@ + decimal(chapter.blocks.len()), p, " blocks, "@);
    lemma_more(s1, p, decimal(chapter.links.len()));
    lemma_more(s1 + decimal(chapter.links.len()), p, " links, "@);
    lemma_more(s2, p, decimal(anchors));
    lemma_more(s2 + decimal(anchors), p, " anchors\n\n"@);
    lemma_more(s3, p, links);
    lemma_more(s3 + links, p, gap);
    lemma_more(s3 + links + gap, p, blocks);
    assert(p[0] == chapter.href);
    let at = lemma_links(chapter.links);
    let first = lemma_listed_within(at, s3, links, gap, targets_of(chapter.links));
    let r = lemma_listed_within(
        first,
        Seq::empty(),
        s3 + links + gap,
        blocks,
        targets_of(chapter.links),
    );
    assert(Seq::<char>::empty() + (s3 + links + gap) + blocks =~= s3 + links + gap + blocks);
    assert(listed(r, chapter_dump(chapter, anchors), targets_of(chapter.links)));
}

/// Every chapter is counted: its blocks where it can be read, and as a failure where it
/// cannot.
pub proof fn every_chapter_is_counted(book: BookView, n: nat)
    ensures
        chapter_totals(book, 0) == (0int, 0int),
        ({
            let (blocks, failures) = chapter_totals(book, n);
            let (more, failed) = chapter_totals(book, n + 1);
            match chapter_at(book, n as int) {
                Ok(chapter) => failed == failures && (blocks + chapter.blocks.len() <= usize::MAX
                    ==> more == blocks + chapter.blocks.len()),
                Err(_) => failed == failures + 1 && more == blocks,
            }
        }),
        0 <= chapter_totals(book, n).1 <= n,
    decreases n,
{
    if n > 0 {
        every_chapter_is_counted(book, (n - 1) as nat);
    }
}

/// The inspection of a book says its title, its authors, its language and its
/// identifier, how many chapters it has, and how many of them cannot be read.
pub proof fn a_book_is_inspected_in_full(book: BookView)
    ensures
        ({
            let t = inspection(book);
            let (blocks, failures) = chapter_totals(book, book.spine.len());
            &&& book.metadata.title matches Some(title) ==> says(t, "title:      "@ + title)
            &&& says(t, "authors:    "@ + joined(book.metadata.authors, ", "@))
            &&& book.metadata.language matches Some(l) ==> says(t, "language:   "@ + l)
            &&& book.metadata.identifier matches Some(i) ==> says(t, "identifier: "@ + i)
            &&& says(t, decimal(book.spine.len()) + " items"@)
            &&& says(t, chapter_rows(book, book.spine.len()))
            &&& says(t, decimal(blocks as nat) + " blocks total, "@)
            &&& says(t, decimal(failures as nat) + " chapters failed\n"@)
        }),
{
    let count = book.spine.len();
    let (blocks, failures) = chapter_totals(book, count);
    let title = match book.metadata.title {
        Some(x) => x,
        None => "Untitled"@,
    };
    let who = joined(book.metadata.authors, ", "@);
    let language = or_dash(book.metadata.language);
    let identifier = or_dash(book.metadata.identifier);
    let chapters = chapter_rows(book, count);
    reveal_strlit("\nauthors:    ");
    reveal_strlit("authors:    ");
    reveal_strlit("\nlanguage:   ");
    reveal_strlit("language:   ");
    reveal_strlit("\nidentifier: ");
    reveal_strlit("identifier: ");
    reveal_strlit(" items\n\n");
    reveal_strlit(" items");
    reveal_strlit("\n\n");
    reveal_strlit("\n");
    assert("\nauthors:    "@ =~= "\n"@ + "authors:    "@);
    assert("\nlanguage:   "@ =~= "\n"@ + "language:   "@);
    assert("\nidentifier: "@ =~= "\n"@ + "identifier: "@);
    assert(" items\n\n"@ =~= " items"@ + "\n\n"@);
    let none = Seq::<Seq<char>>::empty();
    let s0 = "title:      "@ + title;
    lemma_and(Seq::empty(), none, s0);
    assert(Seq::<char>::empty() + s0 =~= s0);
    let p0 = none.push(s0);
    lemma_labelled(s0, p0, "\n"@, "authors:    "@, who);
    let s1 = s0 + "\nauthors:    "@ + who;
    let p1 = p0.push("authors:    "@ + who);
    lemma_labelled(s1, p1, "\n"@, "language:   "@, language);
    let s2 = s1 + "\nlanguage:   "@ + language;
    let p2 = p1.push("language:   "@ + language);
    lemma_labelled(s2, p2, "\n"@, "identifier: "@, identifier);
    let s3 = s2 + "\nidentifier: "@ + identifier;
    let p3 = p2.push("identifier: "@ + identifier);
    lemma_more(s3, p3, "\nspine:      "@);
    let s4 = s3 + "\nspine:      "@;
    lemma_followed(s4, p3, decimal(count), " items"@, "\n\n"@);
    let s5 = s4 + decimal(count) + " items\n\n"@;
    let p5 = p3.push(decimal(count) + " items"@);
    lemma_and(s5, p5, chapters);
    let p6 = p5.push(chapters);
    lemma_more(s5 + chapters, p6, "\n"@);
    let s6 = s5 + chapters + "\n"@;
    lemma_counted(s6, p6, decimal(blocks as nat), " blocks total, "@);
    let s7 = s6 + decimal(blocks as nat) + " blocks total, "@;
    let p7 = p6.push(decimal(blocks as nat) + " blocks total, "@);
    lemma_counted(s7, p7, decimal(failures as nat), " chapters failed\n"@);
    let p8 = p7.push(decimal(failures as nat) + " chapters failed\n"@);
    assert(all_said(inspection(book), p8));
    assert(p8[0] == s0 && p8[1] == "authors:    "@ + who && p8[2] == "language:   "@ + language);
    assert(p8[3] == "identifier: "@ + identifier && p8[4] == decimal(count) + " items"@);
    assert(p8[5] == chapters && p8[6] == decimal(blocks as nat) + " blocks total, "@);
    assert(p8[7] == decimal(failures as nat) + " chapters failed\n"@);
}

/// Each of some parts is said.
pub open spec fn all_said(t: Seq<char>, parts: Seq<Seq<char>>) -> bool {
    forall|i: int| 0 <= i < parts.len() ==> says(t, #[trigger] parts[i])
}

/// More text says no less.
proof fn lemma_more(t: Seq<char>, parts: Seq<Seq<char>>, more: Seq<char>)
    requires
        all_said(t, parts),
    ensures
        all_said(t + more, parts),
{
    assert forall|i: int| 0 <= i < parts.len() implies says(t + more, #[trigger] parts[i]) by {
        lemma_says_add(t, more, parts[i]);
    }
}

/// What is added is said as well.
proof fn lemma_and(t: Seq<char>, parts: Seq<Seq<char>>, part: Seq<char>)
    requires
        all_said(t, parts),
    ensures
        all_said(t + part, parts.push(part)),
{
    lemma_more(t, parts, part);
    lemma_says(t, part, Seq::empty());
    assert(t + part + Seq::<char>::empty() =~= t + part);
}

/// A value is said with the label in front of it.
proof fn lemma_labelled(
    t: Seq<char>,
    parts: Seq<Seq<char>>,
    before: Seq<char>,
    label: Seq<char>,
    value: Seq<char>,
)
    requires
        all_said(t, parts),
    ensures
        all_said(t + (before + label) + value, parts.push(label + value)),
{
    lemma_more(t, parts, before);
    lemma_and(t + before, parts, label + value);
    assert(t + before + (label + value) =~= t + (before + label) + value);
}

/// A value is said with what follows it.
proof fn lemma_followed(
    t: Seq<char>,
    parts: Seq<Seq<char>>,
    value: Seq<char>,
    unit: Seq<char>,
    after: Seq<char>,
)
    requires
        all_said(t, parts),
    ensures
        all_said(t + value + (unit + after), parts.push(value + unit)),
{
    lemma_and(t, parts, value + unit);
    lemma_more(t + (value + unit), parts.push(value + unit), after);
    assert(t + (value + unit) + after =~= t + value + (unit + after));
}

/// The same with nothing behind.
proof fn lemma_counted(t: Seq<char>, parts: Seq<Seq<char>>, value: Seq<char>, unit: Seq<char>)
    requires
        all_said(t, parts),
    ensures
        all_said(t + value + unit, parts.push(value + unit)),
{
    lemma_and(t, parts, value + unit);
    assert(t + (value + unit) =~= t + value + unit);
}

/// A picture is reported with its file, and with what is wrong with it where something
/// is.
pub proof fn a_picture_is_reported_with_its_file(index: usize, block: usize, picture: Picture)
    ensures
        ({
            let t = picture_text(index, block, picture);
            match picture {
                Picture::Unnamed => says(t, "NO SRC"@),
                Picture::Missing { src, reason } => says(t, src@) && says(t, reason@),
                Picture::Undecodable { src, reason } => says(t, src@) && says(t, reason@),
                Picture::Empty { src } => says(t, src@),
                Picture::Shown { src, .. } => says(t, src@),
            }
        }),
{
    let t = picture_text(index, block, picture);
    let head = "  ch"@ + right_aligned(decimal(index as nat), 3) + " block"@ + right_aligned(
        decimal(block as nat),
        4,
    );
    match picture {
        Picture::Unnamed => {
            reveal_strlit("  NO SRC\n");
            reveal_strlit("  ");
            reveal_strlit("NO SRC");
            reveal_strlit("\n");
            assert("  NO SRC\n"@ =~= "  "@ + "NO SRC"@ + "\n"@);
            lemma_says(head + "  "@, "NO SRC"@, "\n"@);
            assert(t =~= head + "  "@ + "NO SRC"@ + "\n"@);
        },
        Picture::Missing { src, reason } => {
            lemma_file_and_reason(head + "  MISSING      "@, src@, reason@);
        },
        Picture::Undecodable { src, reason } => {
            lemma_file_and_reason(head + "  UNDECODABLE  "@, src@, reason@);
        },
        Picture::Empty { src } => {
            lemma_says(head + "  EMPTY        "@, src@, "\n"@);
        },
        Picture::Shown { src, bytes, columns, rows, payload } => {
            let lead = head + "  "@ + right_aligned(decimal(bytes as nat), 8) + " B  "@
                + right_aligned(decimal(columns as nat), 3) + "x"@ + left_aligned(
                decimal(rows as nat),
                3,
            ) + " cells  "@ + right_aligned(decimal(payload as nat), 9) + " B out  "@;
            lemma_says(lead, src@, "\n"@);
        },
    }
}

proof fn lemma_file_and_reason(lead: Seq<char>, file: Seq<char>, reason: Seq<char>)
    ensures
        says(lead + file + ": "@ + reason + "\n"@, file),
        says(lead + file + ": "@ + reason + "\n"@, reason),
{
    let none = Seq::<Seq<char>>::empty();
    lemma_and(lead, none, file);
    let p = none.push(file);
    lemma_more(lead + file, p, ": "@);
    lemma_and(lead + file + ": "@, p, reason);
    let q = p.push(reason);
    lemma_more(lead + file + ": "@ + reason, q, "\n"@);
    assert(q[0] == file && q[1] == reason);
}

/// Every picture is counted once, as readable where its file was there, as rendered
/// where it could be shown, and with what was written out for it.
pub proof fn every_picture_is_counted(t: Tally, picture: Picture)
    requires
        t.total < usize::MAX,
        t.readable <= t.total,
        t.rendered <= t.readable,
    ensures
        ({
            let r = tallied(t, picture);
            &&& r.total == t.total + 1
            &&& r.readable == t.readable + (if picture is Unnamed || picture is Missing {
                0int
            } else {
                1
            })
            &&& r.rendered == t.rendered + (if picture is Shown {
                1int
            } else {
                0
            })
            &&& picture !is Shown ==> r.bytes_out == t.bytes_out
            &&& picture matches Picture::Shown { payload, .. } ==> (t.bytes_out + payload
                <= usize::MAX ==> r.bytes_out == t.bytes_out + payload)
            &&& r.rendered <= r.readable <= r.total
        }),
{
}

/// An export is reported with its counts, and with what could not be read.
pub proof fn an_export_is_reported(report: ReportView)
    ensures
        ({
            let t = export_text(report);
            &&& says(t, decimal(report.books as nat) + " books, "@)
            &&& says(t, decimal(report.chapters as nat) + " chapters, "@)
            &&& says(t, decimal(report.annotations as nat) + " annotations written; "@)
            &&& says(t, decimal(report.unchanged as nat) + " unchanged\n"@)
            &&& report.skipped.len() > 0 ==> says(
                t,
                decimal(report.skipped.len()) + " could not be read:\n"@,
            )
        }),
{
    let none = Seq::<Seq<char>>::empty();
    let failed = failed_text(
        report.skipped,
        if report.skipped.len() < 10 {
            report.skipped.len()
        } else {
            10
        },
    );
    let s0 = "\n"@;
    let books = decimal(report.books as nat);
    lemma_counted(s0, none, books, " books, "@);
    let s1 = s0 + books + " books, "@;
    let p1 = none.push(books + " books, "@);
    let chapters = decimal(report.chapters as nat);
    lemma_counted(s1, p1, chapters, " chapters, "@);
    let s2 = s1 + chapters + " chapters, "@;
    let p2 = p1.push(chapters + " chapters, "@);
    let marks = decimal(report.annotations as nat);
    lemma_counted(s2, p2, marks, " annotations written; "@);
    let s3 = s2 + marks + " annotations written; "@;
    let p3 = p2.push(marks + " annotations written; "@);
    let same = decimal(report.unchanged as nat);
    lemma_counted(s3, p3, same, " unchanged\n"@);
    let s4 = s3 + same + " unchanged\n"@;
    let p4 = p3.push(same + " unchanged\n"@);
    lemma_more(s4, p4, failed);
    assert(p4[0] == books + " books, "@ && p4[1] == chapters + " chapters, "@);
    assert(p4[2] == marks + " annotations written; "@ && p4[3] == same + " unchanged\n"@);
    if report.skipped.len() > 0 {
        let count = decimal(report.skipped.len());
        let part = count + " could not be read:\n"@;
        lemma_counted("\n"@, none, count, " could not be read:\n"@);
        let lines = failed_lines(
            report.skipped,
            if report.skipped.len() < 10 {
                report.skipped.len()
            } else {
                10
            },
        );
        lemma_more("\n"@ + count + " could not be read:\n"@, none.push(part), lines);
        assert(none.push(part)[0] == part);
        assert(says(failed, part));
        lemma_says_add(s4, failed, part);
    }
}

proof fn lemma_led(s: Seq<char>, i: int)
    requires
        0 <= i <= s.len(),
        forall|k: int| 0 <= k < i ==> leads(#[trigger] s[k]),
    ensures
        led_by(s, skip_marks(s, i)),
    decreases s.len() - i,
{
    if i < s.len() && leads(s[i]) {
        lemma_led(s, i + 1);
    }
}

/// The words that a line of an export leads to are its first, without the marks in
/// front of them; an empty line and the front matter lead nowhere.
pub proof fn a_line_leads_to_its_words(text: Seq<char>, line: int)
    requires
        1 <= line <= lines_of(text).len(),
    ensures
        ({
            let raw = trim(lines_of(text)[line - 1]);
            if raw.len() == 0 || occurs_at(raw, "---"@, 0) {
                landing_words(text, line) is None
            } else {
                exists|m: int| #[trigger]
                    led_by(raw, m) && landing_words(text, line) == words_from_first(
                        trim(raw.skip(m)),
                        1,
                    )
            }
        }),
{
    let raw = trim(lines_of(text)[line - 1]);
    if !(raw.len() == 0 || occurs_at(raw, "---"@, 0)) {
        lemma_led(raw, 0);
        let m = skip_marks(raw, 0);
        assert(raw.subrange(m, raw.len() as int) =~= raw.skip(m));
        assert(led_by(raw, m) && landing_words(text, line) == words_from_first(
            trim(raw.skip(m)),
            1,
        ));
    }
}

/// A tilde on the command line stands for the home directory.
pub proof fn a_tilde_is_the_home_directory(rest: Seq<char>, home: Seq<char>)
    ensures
        expanded("~/"@ + rest, Some(home)) == path_joined(home, rest),
        !occurs_at(rest, "~/"@, 0) ==> expanded(rest, Some(home)) == rest,
        expanded(rest, None) == rest,
{
    reveal_strlit("~/");
    let path = "~/"@ + rest;
    assert(path.subrange(0, 2) =~= "~/"@);
    assert(occurs_at(path, "~/"@, 0));
    assert(path.subrange(2, path.len() as int) =~= rest);
}

/// As many hits are on a screen as fit above the status line, and at least one.
pub proof fn a_screen_holds_whole_hits(height: u16)
    ensures
        Picker::per_screen(height) >= 1,
        height >= 4 ==> 3 * Picker::per_screen(height) + 1 <= height < 3 * (Picker::per_screen(
            height,
        ) + 1) + 1,
{
}

} // verus!
