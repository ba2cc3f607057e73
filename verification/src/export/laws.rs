//! What holds of every chapter and every set of notes written as Markdown.

use vstd::prelude::*;
use crate::annotation::AnnotationView;
use crate::doc::{BlockView, ChapterView, KindView};
use crate::epub::{book_opened, chapter_at, entry_title, BookView};
use crate::export::{
    chapter_file, chapter_files, exported, latest, nothing_is_later_than_the_latest, step_of,
    JobView, OutView, ReportView, Step, WorkView,
};
use crate::export::markdown::{
    block_markdown, blocks_markdown, fence, front, is_code, mark_markdown, markdown,
    marks_markdown, notes_markdown, repeated, titled,
};
use crate::gather::{gathers, lemma_gather};
use crate::journal::{precedes, Moment};
use crate::text::{blank, decimal, occurs_at};

verus! {

// ---------------------------------------------------------------------------
// Chapters
// ---------------------------------------------------------------------------
/// A block that Markdown shows: all but pictures and paragraphs without text.
pub open spec fn is_shown(b: BlockView) -> bool {
    blank(b.plain()) ==> !(b.kind is Paragraph) && !(b.kind is Image)
}

/// How many characters of the document are a block's own.
pub open spec fn extent(b: BlockView) -> int {
    match b.kind {
        KindView::Rule => 6,
        _ => b.plain().len() as int,
    }
}

/// A line of the document begins at `p`.
pub open spec fn starts_line(md: Seq<char>, p: int) -> bool {
    0 <= p <= md.len() && (p == 0 || md[p - 1] == '\n')
}

/// `n` times the character `c` stands in front of `p`.
pub open spec fn row_before(md: Seq<char>, p: int, c: char, n: int) -> bool {
    0 <= n <= p <= md.len() && forall|k: int| p - n <= k < p ==> #[trigger] md[k] == c
}

/// A block's text stands at `p`, on a line of its own, behind the mark of its kind.
/// `under_title` says that the document has a title of its own.
#[verifier::opaque]
pub open spec fn set_down(md: Seq<char>, p: int, b: BlockView, under_title: bool) -> bool {
    let text = b.plain();
    let q = p + text.len();
    match b.kind {
        KindView::Rule => occurs_at(md, "\n---\n\n"@, p),
        KindView::Heading(level) => {
            let deep = level + (if under_title {
                1int
            } else {
                0int
            });
            let n = if deep < 1 {
                1
            } else if deep > 6 {
                6
            } else {
                deep
            };
            &&& occurs_at(md, text, p)
            &&& p >= 1 && md[p - 1] == ' '
            &&& row_before(md, p - 1, '#', n)
            &&& p - 1 - n >= 1 && md[p - 2 - n] == '\n'
            &&& q + 1 < md.len() && md[q] == '\n' && md[q + 1] == '\n'
        },
        KindView::Code => {
            &&& occurs_at(md, text, p)
            &&& starts_line(md, p)
            &&& q < md.len() && md[q] == '\n'
        },
        KindView::Quote => {
            &&& occurs_at(md, text, p)
            &&& p >= 2 && md[p - 2] == '>' && md[p - 1] == ' '
            &&& starts_line(md, p - 2)
            &&& q + 1 < md.len() && md[q] == '\n' && md[q + 1] == '\n'
        },
        KindView::ListItem { depth, ordinal: Some(n) } => {
            let digits = decimal(n as nat);
            let mark = p - 2 - digits.len();
            &&& occurs_at(md, text, p)
            &&& p >= 2 && md[p - 2] == '.' && md[p - 1] == ' '
            &&& occurs_at(md, digits, mark)
            &&& row_before(md, mark, ' ', 2 * depth)
            &&& starts_line(md, mark - 2 * depth)
            &&& q < md.len() && md[q] == '\n'
        },
        KindView::ListItem { depth, ordinal: None } => {
            &&& occurs_at(md, text, p)
            &&& p >= 2 && md[p - 2] == '-' && md[p - 1] == ' '
            &&& row_before(md, p - 2, ' ', 2 * depth)
            &&& starts_line(md, p - 2 - 2 * depth)
            &&& q < md.len() && md[q] == '\n'
        },
        KindView::Image { .. } => {
            &&& occurs_at(md, text, p)
            &&& p >= 2 && md[p - 2] == '!' && md[p - 1] == '['
            &&& starts_line(md, p - 2)
            &&& q < md.len() && md[q] == ']'
        },
        KindView::Paragraph => {
            &&& occurs_at(md, text, p)
            &&& starts_line(md, p)
            &&& q + 1 < md.len() && md[q] == '\n' && md[q + 1] == '\n'
        },
    }
}

/// A fence stands on the line in front of `p`.
#[verifier::opaque]
pub open spec fn fence_before(md: Seq<char>, p: int) -> bool {
    4 <= p <= md.len() && row_before(md, p - 1, '`', 3) && md[p - 1] == '\n' && starts_line(
        md,
        p - 4,
    )
}

/// A fence stands on the line behind the one that ends at `q`.
#[verifier::opaque]
pub open spec fn fence_after(md: Seq<char>, q: int) -> bool {
    0 <= q && q + 5 <= md.len() && md[q] == '\n' && row_before(md, q + 4, '`', 3) && md[q + 4]
        == '\n'
}

/// Where the blocks stand: every block that is shown in its place, in the order of
/// the blocks, and every run of code inside one pair of fences.
pub open spec fn stand_at(
    at: Seq<int>,
    md: Seq<char>,
    blocks: Seq<BlockView>,
    under_title: bool,
    ended: bool,
) -> bool {
    &&& at.len() == blocks.len()
    &&& forall|i: int|
        0 <= i < at.len() && is_shown(blocks[i]) ==> set_down(
            md,
            #[trigger] at[i],
            blocks[i],
            under_title,
        )
    &&& forall|i: int, j: int|
        0 <= i < j < at.len() && is_shown(blocks[i]) && is_shown(blocks[j]) ==> #[trigger] at[i]
            + extent(blocks[i]) <= #[trigger] at[j]
    &&& forall|i: int|
        0 <= i < at.len() && blocks[i].kind is Code && (i == 0 || !(blocks[i - 1].kind is Code))
            ==> fence_before(md, #[trigger] at[i])
    &&& forall|i: int|
        0 <= i < at.len() && blocks[i].kind is Code && (if i + 1 < at.len() {
            !(blocks[i + 1].kind is Code)
        } else {
            ended
        }) ==> fence_after(md, #[trigger] at[i] + blocks[i].plain().len())
    &&& forall|i: int|
        0 < i < at.len() && blocks[i - 1].kind is Code && blocks[i].kind is Code
            ==> #[trigger] at[i] == at[i - 1] + blocks[i - 1].plain().len() + 1
}

proof fn lemma_row(c: char, s: Seq<char>, n: nat)
    requires
        forall|k: int| 0 <= k < s.len() ==> s[k] == c,
    ensures
        repeated(s, n).len() == n * s.len(),
        forall|k: int| 0 <= k < repeated(s, n).len() ==> #[trigger] repeated(s, n)[k] == c,
    decreases n,
{
    if n > 0 {
        lemma_row(c, s, (n - 1) as nat);
        assert(n * s.len() == (n - 1) * s.len() + s.len()) by (nonlinear_arith);
    } else {
        assert(n * s.len() == 0) by (nonlinear_arith)
            requires
                n == 0,
        ;
    }
}

/// Where the text of a block begins in its Markdown.
spec fn mark_length(b: BlockView, shift: int) -> int {
    match b.kind {
        KindView::Heading(level) => 2 + crate::export::markdown::heading_level(level, shift),
        KindView::Quote => 2,
        KindView::Image { .. } => 2,
        KindView::ListItem { depth, ordinal: Some(n) } => 2 * depth + decimal(n as nat).len() + 2,
        KindView::ListItem { depth, ordinal: None } => 2 * depth + 2,
        _ => 0,
    }
}

#[verifier::rlimit(100)]
proof fn lemma_block(m: Seq<char>, b: BlockView, shift: int)
    requires
        starts_line(m, m.len() as int),
        shift == 0 || shift == 1,
    ensures
        is_shown(b) ==> set_down(
            m + block_markdown(b, shift),
            m.len() + mark_length(b, shift),
            b,
            shift == 1,
        ),
        starts_line(
            m + block_markdown(b, shift),
            (m + block_markdown(b, shift)).len() as int,
        ),
        is_shown(b) ==> m.len() + mark_length(b, shift) + extent(b) <= (m + block_markdown(
            b,
            shift,
        )).len(),
{
    reveal(set_down);
    reveal_strlit("#");
    reveal_strlit(" ");
    reveal_strlit("  ");
    reveal_strlit("\n\n");
    reveal_strlit("> ");
    reveal_strlit(". ");
    reveal_strlit("- ");
    reveal_strlit("![");
    reveal_strlit("]()\n\n");
    reveal_strlit("\n---\n\n");
    let text = b.plain();
    let bm = block_markdown(b, shift);
    let md = m + bm;
    let p = m.len() + mark_length(b, shift);
    match b.kind {
        KindView::Heading(level) => {
            let n = crate::export::markdown::heading_level(level, shift);
            lemma_row('#', "#"@, n as nat);
            let r = repeated("#"@, n as nat);
            assert forall|k: int| p - 1 - n <= k < p - 1 implies #[trigger] md[k] == '#' by {
                assert(md[k] == r[k - m.len() - 1]);
            }
            assert(md.subrange(p, p + text.len()) =~= text);
        },
        KindView::ListItem { depth, ordinal } => {
            lemma_row(' ', "  "@, depth as nat);
            let r = repeated("  "@, depth as nat);
            assert(r.len() == 2 * depth);
            assert forall|k: int| m.len() <= k < m.len() + r.len() implies #[trigger] md[k]
                == ' ' by {
                assert(md[k] == r[k - m.len()]);
            }
            match ordinal {
                Some(n) => {
                    let digits = decimal(n as nat);
                    let mark = p - 2 - digits.len();
                    assert(mark == m.len() + r.len());
                    assert(md.subrange(mark, mark + digits.len()) =~= digits);
                    assert(md.subrange(p, p + text.len()) =~= text);
                },
                None => {
                    assert(md.subrange(p, p + text.len()) =~= text);
                },
            }
        },
        KindView::Rule => {
            assert(md.subrange(p, p + 6) =~= "\n---\n\n"@);
        },
        _ => {
            if is_shown(b) {
                assert(md.subrange(p, p + text.len()) =~= text);
            }
        },
    }
}

proof fn lemma_still_down(md: Seq<char>, more: Seq<char>, p: int, b: BlockView, t: bool)
    requires
        set_down(md, p, b, t),
    ensures
        set_down(md + more, p, b, t),
{
    reveal(set_down);
    let x = md + more;
    reveal_strlit("\n---\n\n");
    match b.kind {
        KindView::Rule => {
            assert(x.subrange(p, p + 6) =~= md.subrange(p, p + 6));
        },
        KindView::ListItem { depth, ordinal: Some(n) } => {
            let digits = decimal(n as nat);
            let mark = p - 2 - digits.len();
            assert(x.subrange(mark, mark + digits.len()) =~= md.subrange(
                mark,
                mark + digits.len(),
            ));
            assert(x.subrange(p, p + b.plain().len()) =~= md.subrange(p, p + b.plain().len()));
        },
        _ => {
            assert(x.subrange(p, p + b.plain().len()) =~= md.subrange(p, p + b.plain().len()));
        },
    }
}

/// A line of code ends with the line it stands on.
proof fn lemma_code_line(md: Seq<char>, p: int, b: BlockView, t: bool)
    requires
        set_down(md, p, b, t),
        b.kind is Code,
    ensures
        0 <= p && p + b.plain().len() < md.len() && md[p + b.plain().len()] == '\n',
{
    reveal(set_down);
}

proof fn lemma_still_fenced(md: Seq<char>, more: Seq<char>, p: int)
    ensures
        fence_before(md, p) ==> fence_before(md + more, p),
        fence_after(md, p) ==> fence_after(md + more, p),
{
    reveal(fence_before);
    reveal(fence_after);
}

proof fn lemma_opens(m: Seq<char>, more: Seq<char>)
    ensures
        fence_before(m + "\n```\n"@ + more, (m + "\n```\n"@).len() as int),
{
    reveal_strlit("\n```\n");
    reveal(fence_before);
}

proof fn lemma_closes(m: Seq<char>, more: Seq<char>)
    requires
        m.len() > 0,
        m.last() == '\n',
    ensures
        fence_after(m + "```\n\n"@ + more, m.len() - 1),
        fence_after(m + "```\n"@, m.len() - 1),
{
    reveal_strlit("```\n\n");
    reveal_strlit("```\n");
    reveal(fence_after);
}

/// The blocks behind a head stand where they should, while the last run of code is
/// still open.
#[verifier::rlimit(60)]
proof fn lemma_blocks(head: Seq<char>, blocks: Seq<BlockView>, shift: int) -> (at: Seq<int>)
    requires
        starts_line(head, head.len() as int),
        shift == 0 || shift == 1,
    ensures
        stand_at(at, head + blocks_markdown(blocks, shift), blocks, shift == 1, false),
        starts_line(
            head + blocks_markdown(blocks, shift),
            (head + blocks_markdown(blocks, shift)).len() as int,
        ),
        forall|i: int|
            0 <= i < at.len() && is_shown(blocks[i]) ==> #[trigger] at[i] + extent(blocks[i]) <= (
            head + blocks_markdown(blocks, shift)).len(),
        blocks.len() > 0 && is_code(blocks.last()) ==> at.last() + blocks.last().plain().len() + 1
            == (head + blocks_markdown(blocks, shift)).len(),
    decreases blocks.len(),
{
    let md = head + blocks_markdown(blocks, shift);
    if blocks.len() == 0 {
        assert(md =~= head);
        Seq::empty()
    } else {
        let d = blocks.drop_last();
        let b = blocks.last();
        let n = d.len() as int;
        let m = head + blocks_markdown(d, shift);
        let before = lemma_blocks(head, d, shift);
        let was = n > 0 && is_code(d.last());
        let f = fence(was, is_code(b));
        let open = m + f;
        assert(starts_line(open, open.len() as int)) by {
            reveal_strlit("\n```\n");
            reveal_strlit("```\n\n");
        }
        lemma_block(open, b, shift);
        let bm = block_markdown(b, shift);
        assert(md =~= open + bm);
        assert(md =~= m + (f + bm));
        let p = open.len() + mark_length(b, shift);
        let at = before.push(p);
        assert forall|i: int| 0 <= i < at.len() && is_shown(blocks[i]) implies set_down(
            md,
            #[trigger] at[i],
            blocks[i],
            shift == 1,
        ) by {
            if i < n {
                assert(d[i] == blocks[i]);
                assert(before[i] == at[i]);
                lemma_still_down(m, f + bm, at[i], blocks[i], shift == 1);
            }
        }
        assert forall|i: int| 0 <= i < at.len() && is_shown(blocks[i]) implies #[trigger] at[i]
            + extent(blocks[i]) <= md.len() by {
            if i < n {
                assert(d[i] == blocks[i]);
                assert(before[i] == at[i]);
            }
        }
        assert forall|i: int, j: int|
            0 <= i < j < at.len() && is_shown(blocks[i]) && is_shown(blocks[j]) implies
            #[trigger] at[i] + extent(blocks[i]) <= #[trigger] at[j] by {
            assert(d[i] == blocks[i] && before[i] == at[i]);
            if j < n {
                assert(d[j] == blocks[j] && before[j] == at[j]);
            }
        }
        assert forall|i: int|
            0 <= i < at.len() && blocks[i].kind is Code && (i == 0 || !(blocks[i
                - 1].kind is Code)) implies fence_before(md, #[trigger] at[i]) by {
            if i < n {
                assert(d[i] == blocks[i] && before[i] == at[i]);
                if i > 0 {
                    assert(d[i - 1] == blocks[i - 1]);
                }
                assert(fence_before(m, before[i]));
                lemma_still_fenced(m, f + bm, at[i]);
            } else {
                if n > 0 {
                    assert(d.last() == blocks[n - 1]);
                }
                lemma_opens(m, bm);
            }
        }
        assert forall|i: int|
            0 <= i < at.len() && blocks[i].kind is Code && (if i + 1 < at.len() {
                !(blocks[i + 1].kind is Code)
            } else {
                false
            }) implies fence_after(md, #[trigger] at[i] + blocks[i].plain().len()) by {
            assert(d[i] == blocks[i] && before[i] == at[i]);
            if i + 1 < n {
                assert(d[i + 1] == blocks[i + 1]);
                assert(fence_after(m, before[i] + d[i].plain().len()));
                lemma_still_fenced(m, f + bm, at[i] + blocks[i].plain().len());
            } else {
                assert(d.last() == blocks[i]);
                assert(is_shown(d[i]));
                lemma_code_line(m, before[i], d[i], shift == 1);
                lemma_closes(m, bm);
            }
        }
        assert forall|i: int|
            0 < i < at.len() && blocks[i - 1].kind is Code && blocks[i].kind is Code implies
            #[trigger] at[i] == at[i - 1] + blocks[i - 1].plain().len() + 1 by {
            assert(d[i - 1] == blocks[i - 1] && before[i - 1] == at[i - 1]);
            if i < n {
                assert(d[i] == blocks[i] && before[i] == at[i]);
            } else {
                assert(d.last() == blocks[i - 1]);
            }
        }
        at
    }
}

/// The document is given a title of its own.
pub open spec fn has_title(book: Option<Seq<char>>, chapter: Option<Seq<char>>) -> bool {
    book is Some || chapter is Some
}

/// The Markdown of a chapter has the text of every block, in the order of the
/// blocks: each on a line of its own, marked as what it is, and each run of code
/// between two fences. Only pictures and paragraphs without text are left out. The
/// title comes first where there is one.
pub proof fn every_block_is_written_out(
    chapter: ChapterView,
    book_title: Option<Seq<char>>,
    chapter_title: Option<Seq<char>>,
)
    ensures
        ({
            let md = markdown(chapter, book_title, chapter_title);
            exists|at: Seq<int>| #[trigger]
                stand_at(at, md, chapter.blocks, has_title(book_title, chapter_title), true)
        }),
        ({
            let md = markdown(chapter, book_title, chapter_title);
            match (book_title, chapter_title) {
                (Some(b), Some(c)) => ("# "@ + b + " · "@ + c + "\n\n"@).is_prefix_of(md),
                (Some(t), None) => ("# "@ + t + "\n\n"@).is_prefix_of(md),
                (None, Some(t)) => ("# "@ + t + "\n\n"@).is_prefix_of(md),
                (None, None) => true,
            }
        }),
{
    let md = markdown(chapter, book_title, chapter_title);
    let title = titled(book_title, chapter_title);
    let head = match title {
        Some(t) => "# "@ + t + "\n\n"@,
        None => Seq::empty(),
    };
    let shift = if title is Some {
        1int
    } else {
        0int
    };
    assert(starts_line(head, head.len() as int)) by {
        reveal_strlit("\n\n");
    }
    assert(head.is_prefix_of(md));
    match (book_title, chapter_title) {
        (Some(b), Some(c)) => {
            assert(head =~= "# "@ + b + " · "@ + c + "\n\n"@);
        },
        _ => {},
    }
    let blocks = chapter.blocks;
    let at = lemma_blocks(head, blocks, shift);
    let body = head + blocks_markdown(blocks, shift);
    let under = shift == 1;
    let more = if blocks.len() > 0 && is_code(blocks.last()) {
        "```\n"@
    } else {
        Seq::empty()
    };
    assert(md =~= body + more);
    assert forall|i: int| 0 <= i < at.len() && is_shown(blocks[i]) implies set_down(
        md,
        #[trigger] at[i],
        blocks[i],
        under,
    ) by {
        lemma_still_down(body, more, at[i], blocks[i], under);
    }
    assert forall|i: int|
        0 <= i < at.len() && blocks[i].kind is Code && (i == 0 || !(blocks[i
            - 1].kind is Code)) implies fence_before(md, #[trigger] at[i]) by {
        assert(fence_before(body, at[i]));
        lemma_still_fenced(body, more, at[i]);
    }
    assert forall|i: int|
        0 <= i < at.len() && blocks[i].kind is Code && (if i + 1 < at.len() {
            !(blocks[i + 1].kind is Code)
        } else {
            true
        }) implies fence_after(md, #[trigger] at[i] + blocks[i].plain().len()) by {
        if i + 1 < at.len() {
            assert(fence_after(body, at[i] + blocks[i].plain().len()));
            lemma_still_fenced(body, more, at[i] + blocks[i].plain().len());
        } else {
            assert(blocks[i] == blocks.last());
            assert(is_shown(blocks[i]));
            lemma_code_line(body, at[i], blocks[i], under);
            lemma_closes(body, Seq::empty());
        }
    }
    assert(stand_at(at, md, blocks, has_title(book_title, chapter_title), true));
}

// ---------------------------------------------------------------------------
// Notes
// ---------------------------------------------------------------------------
/// A quote at `p`, its line breaks as spaces, behind the mark of a quote, and the
/// comment two lines below it.
pub open spec fn noted_at(md: Seq<char>, p: int, a: AnnotationView) -> bool {
    let q = p + a.quote.len();
    &&& 2 <= p && q + 2 <= md.len()
    &&& md[p - 2] == '>' && md[p - 1] == ' '
    &&& forall|k: int|
        0 <= k < a.quote.len() ==> #[trigger] md[p + k] == (if a.quote[k] == '\n' {
            ' '
        } else {
            a.quote[k]
        })
    &&& md[q] == '\n' && md[q + 1] == '\n'
    &&& match a.note {
        Some(note) => occurs_at(md, note, q + 2),
        None => true,
    }
}

/// Where the quotes stand, in the order of the annotations.
pub open spec fn noted(at: Seq<int>, md: Seq<char>, all: Seq<AnnotationView>) -> bool {
    &&& at.len() == all.len()
    &&& forall|i: int| 0 <= i < at.len() ==> noted_at(md, #[trigger] at[i], all[i])
    &&& forall|i: int, j: int|
        0 <= i < j < at.len() ==> #[trigger] at[i] + all[i].quote.len() <= #[trigger] at[j]
}

/// What an annotation begins with: everything up to the quote.
#[verifier::opaque]
spec fn lead_of(a: AnnotationView) -> Seq<char> {
    "## "@ + crate::annotation::name_of(a.color) + " · "@ + a.href + "\n\n"@ + "> "@
}

/// An annotation up to its comment.
spec fn quoted_of(a: AnnotationView) -> Seq<char> {
    lead_of(a) + crate::export::markdown::on_one_line(a.quote) + "\n\n"@
}

proof fn lemma_mark_begins(a: AnnotationView)
    ensures
        quoted_of(a).is_prefix_of(mark_markdown(a)),
        a.note is Some ==> (quoted_of(a) + a.note->0).is_prefix_of(mark_markdown(a)),
{
    let body = match a.note {
        Some(note) => quoted_of(a) + note + "\n\n"@,
        None => quoted_of(a),
    };
    let mm = mark_markdown(a);
    reveal(lead_of);
    assert(body.is_prefix_of(mm)) by {
        if a.slices.len() > 0 {
            let rest = "<!-- at chapter="@ + a.href + " block="@ + decimal(
                a.slices[0].block as nat,
            ) + " offset="@ + decimal(a.slices[0].start as nat) + " -->\n\n"@;
            assert(mm =~= body + rest);
        }
    }
    if let Some(note) = a.note {
        let x = quoted_of(a) + note;
        assert(x.is_prefix_of(body));
        assert(quoted_of(a).is_prefix_of(body));
        assert(x =~= mm.take(x.len() as int));
        assert(quoted_of(a) =~= mm.take(quoted_of(a).len() as int));
    }
}

/// One annotation behind a text.
proof fn lemma_mark(m: Seq<char>, a: AnnotationView) -> (p: int)
    ensures
        noted_at(m + mark_markdown(a), p, a),
        m.len() <= p,
{
    let mm = mark_markdown(a);
    let md = m + mm;
    let lead = lead_of(a);
    let p = (m + lead).len() as int;
    let one = crate::export::markdown::on_one_line(a.quote);
    let upto = quoted_of(a);
    let k = lead.len() as int;
    lemma_mark_begins(a);
    assert(one.len() == a.quote.len());
    let q = p + a.quote.len();
    assert forall|x: int| 0 <= x < upto.len() implies md[m.len() + x] == #[trigger] upto[x] by {
        assert(mm.take(upto.len() as int)[x] == upto[x]);
    }
    assert(k >= 2 && lead[k - 2] == '>' && lead[k - 1] == ' ') by {
        reveal(lead_of);
        reveal_strlit("> ");
    }
    assert(upto.len() == k + one.len() + 2 && upto[k + one.len()] == '\n' && upto[k + one.len() + 1]
        == '\n') by {
        reveal_strlit("\n\n");
    }
    assert(upto[k - 2] == '>' && upto[k - 1] == ' ');
    assert forall|x: int| 0 <= x < a.quote.len() implies #[trigger] md[p + x] == (
    if a.quote[x] == '\n' {
        ' '
    } else {
        a.quote[x]
    }) by {
        assert(upto[k + x] == one[x]);
    }
    if let Some(note) = a.note {
        let full = upto + note;
        assert(md.subrange(q + 2, q + 2 + note.len()) =~= note) by {
            assert forall|x: int| 0 <= x < note.len() implies md[q + 2 + x]
                == #[trigger] note[x] by {
                assert(mm.take(full.len() as int)[upto.len() + x] == full[upto.len() + x]);
            }
        }
    }
    p
}

proof fn lemma_still_noted(m: Seq<char>, more: Seq<char>, p: int, a: AnnotationView)
    requires
        noted_at(m, p, a),
    ensures
        noted_at(m + more, p, a),
        p + a.quote.len() <= m.len(),
{
    let md = m + more;
    assert forall|k: int| 0 <= k < a.quote.len() implies #[trigger] md[p + k] == (
    if a.quote[k] == '\n' {
        ' '
    } else {
        a.quote[k]
    }) by {
        assert(md[p + k] == m[p + k]);
    }
    let e = p + a.quote.len() + 2;
    if let Some(note) = a.note {
        assert(md.subrange(e, e + note.len()) =~= m.subrange(e, e + note.len()));
    }
}

proof fn lemma_marks(head: Seq<char>, all: Seq<AnnotationView>) -> (at: Seq<int>)
    ensures
        noted(at, head + marks_markdown(all), all),
        forall|i: int|
            0 <= i < at.len() ==> #[trigger] at[i] + all[i].quote.len() <= (head
                + marks_markdown(all)).len(),
    decreases all.len(),
{
    let md = head + marks_markdown(all);
    if all.len() == 0 {
        Seq::empty()
    } else {
        let d = all.drop_last();
        let a = all.last();
        let before = lemma_marks(head, d);
        let m = head + marks_markdown(d);
        let mm = mark_markdown(a);
        assert(md =~= m + mm);
        let p = lemma_mark(m, a);
        let at = before.push(p);
        assert forall|i: int| 0 <= i < at.len() implies noted_at(md, #[trigger] at[i], all[i]) by {
            if i < d.len() {
                assert(d[i] == all[i] && before[i] == at[i]);
                assert(noted_at(m, before[i], d[i]));
                lemma_still_noted(m, mm, at[i], all[i]);
            }
        }
        assert forall|i: int, j: int| 0 <= i < j < at.len() implies #[trigger] at[i]
            + all[i].quote.len() <= #[trigger] at[j] by {
            assert(d[i] == all[i] && before[i] == at[i]);
            if j < d.len() {
                assert(d[j] == all[j] && before[j] == at[j]);
            }
        }
        assert forall|i: int| 0 <= i < at.len() implies #[trigger] at[i] + all[i].quote.len()
            <= md.len() by {
            if i < d.len() {
                assert(d[i] == all[i] && before[i] == at[i]);
            } else {
                lemma_still_noted(md, Seq::empty(), p, a);
            }
        }
        at
    }
}

/// The notes on a book hold every passage that was marked, with its comment, in the
/// order of the annotations.
pub proof fn every_annotation_is_written_out(
    id: Seq<char>,
    title: Seq<char>,
    authors: Seq<char>,
    annotations: Seq<AnnotationView>,
)
    ensures
        exists|at: Seq<int>| #[trigger]
            noted(at, notes_markdown(id, title, authors, annotations), annotations),
{
    let head = front(
        seq![("book"@, id), ("title"@, title), ("author"@, authors), ("kind"@, "annotations"@)],
    ) + "\n# Notes on "@ + title + "\n\n"@;
    let at = lemma_marks(head, annotations);
    assert(noted(at, notes_markdown(id, title, authors, annotations), annotations));
}

// ---------------------------------------------------------------------------
// Files
// ---------------------------------------------------------------------------
/// The file of a chapter.
pub open spec fn file_by(job: JobView, book: BookView) -> spec_fn(int) -> Option<OutView> {
    |k: int| chapter_file(job, book, k)
}

proof fn lemma_files(job: JobView, book: BookView, n: nat) -> (at: Seq<int>)
    ensures
        gathers(at, chapter_files(job, book, n), n as int, file_by(job, book)),
    decreases n,
{
    if n == 0 {
        Seq::empty()
    } else {
        let m = (n - 1) as nat;
        let before = lemma_files(job, book, m);
        lemma_gather(before, chapter_files(job, book, m), m as int, file_by(job, book))
    }
}

/// Every chapter that can be shown and says anything is written to a file of its own,
/// in reading order: its number leads the name, and its Markdown is the end of it.
pub proof fn every_chapter_is_exported(job: JobView, book: BookView, k: int)
    requires
        0 <= k < book.spine.len(),
    ensures
        exists|at: Seq<int>| #[trigger]
            gathers(
                at,
                chapter_files(job, book, book.spine.len()),
                book.spine.len() as int,
                file_by(job, book),
            ),
        chapter_at(book, k) is Err ==> file_by(job, book)(k) is None,
        chapter_at(book, k) matches Ok(chapter) ==> ({
            let title = entry_title(book.spine[k], k);
            let md = markdown(chapter, Some(job.title), Some(title));
            &&& blank(md) ==> file_by(job, book)(k) is None
            &&& !blank(md) ==> (file_by(job, book)(k) matches Some(f) && f.text.len() >= md.len()
                && f.text.skip(f.text.len() - md.len()) == md)
        }),
{
    let at = lemma_files(job, book, book.spine.len());
    assert(gathers(
        at,
        chapter_files(job, book, book.spine.len()),
        book.spine.len() as int,
        file_by(job, book),
    ));
    if let Ok(chapter) = chapter_at(book, k) {
        let title = entry_title(book.spine[k], k);
        let md = markdown(chapter, Some(job.title), Some(title));
        if !blank(md) {
            let f = chapter_file(job, book, k)->0;
            assert(f.text.skip(f.text.len() - md.len()) =~= md);
        }
    }
}

/// What an export does for a book: all of it where its chapters are out of date, the
/// notes alone where only those are, and nothing where nothing is. Annotations are
/// written where there are any, and an old file of notes goes where there are none.
pub proof fn an_export_writes_what_is_out_of_date(
    job: JobView,
    annotations: Seq<AnnotationView>,
    archive: Seq<u8>,
)
    ensures
        exported(job, annotations, Step::Unchanged, archive) matches Ok(w) && w.files.len() == 0
            && !w.clear && !w.remove_notes && w.chapters == 0 && w.annotations == 0,
        exported(job, annotations, Step::Notes, archive) matches Ok(w) && !w.clear && w.chapters
            == 0 && w.annotations == annotations.len() && (annotations.len() == 0
            ==> w.files.len() == 0 && w.remove_notes) && (annotations.len() > 0 ==> w.files.len()
            == 1 && !w.remove_notes && w.files[0].text == notes_markdown(
            job.id,
            job.title,
            job.authors,
            annotations,
        )),
        book_opened(archive, job.path) is Err ==> exported(
            job,
            annotations,
            Step::Whole,
            archive,
        ) is Err,
        book_opened(archive, job.path) matches Ok(book) ==> (exported(
            job,
            annotations,
            Step::Whole,
            archive,
        ) matches Ok(w) && w.clear && w.annotations == annotations.len() && w.chapters
            == chapter_files(job, book, book.spine.len()).len() && chapter_files(
            job,
            book,
            book.spine.len(),
        ).is_prefix_of(w.files) && w.files.len() == w.chapters + (if annotations.len() > 0 {
            1int
        } else {
            0int
        }) && (annotations.len() > 0 ==> w.files.last().text == notes_markdown(
            job.id,
            job.title,
            job.authors,
            annotations,
        ))),
{
}

/// A book is written anew when it is forced, was never written, or its file is newer
/// than every chapter; its notes when the journal is newer than they are.
pub proof fn what_is_out_of_date(
    force: bool,
    annotated: bool,
    source: Option<Moment>,
    chapters: Seq<Moment>,
    notes: Option<Moment>,
    notes_exist: bool,
    journal: Option<Moment>,
)
    ensures
        ({
            let step = step_of(force, annotated, source, chapters, notes, notes_exist, journal);
            &&& force || chapters.len() == 0 || source is None ==> step is Whole
            &&& source matches Some(s) ==> (forall|i: int|
                0 <= i < chapters.len() ==> precedes(#[trigger] chapters[i], s)) ==> step is Whole
            &&& !force && (source matches Some(s) && exists|i: int|
                0 <= i < chapters.len() && !precedes(#[trigger] chapters[i], s)) ==> !(step is Whole)
            &&& !(step is Whole) && annotated && (notes is None || journal is None || precedes(
                notes->0,
                journal->0,
            )) ==> step is Notes
            &&& !(step is Whole) && notes is Some && journal is Some && !precedes(
                notes->0,
                journal->0,
            ) ==> step is Unchanged
            &&& !(step is Whole) && !annotated && !notes_exist ==> step is Unchanged
        }),
{
    if chapters.len() > 0 {
        nothing_is_later_than_the_latest(chapters, 0);
        let l = latest(chapters)->0;
        let k = choose|k: int| 0 <= k < chapters.len() && chapters[k] == l;
        if let Some(s) = source {
            if exists|i: int| 0 <= i < chapters.len() && !precedes(#[trigger] chapters[i], s) {
                let i = choose|i: int|
                    0 <= i < chapters.len() && !precedes(#[trigger] chapters[i], s);
                nothing_is_later_than_the_latest(chapters, i);
            }
        }
    }
}

/// A report counts what was done: every book is written, unchanged or skipped, and a
/// skipped one is named with the reason.
pub proof fn every_book_is_reported(
    report: ReportView,
    job: JobView,
    step: Step,
    result: Result<WorkView, Seq<Seq<char>>>,
)
    requires
        0 <= report.books < usize::MAX,
        0 <= report.unchanged < usize::MAX,
        0 <= report.chapters,
        0 <= report.annotations,
        result matches Ok(w) ==> 0 <= w.chapters && 0 <= w.annotations && report.chapters
            + w.chapters <= usize::MAX && report.annotations + w.annotations <= usize::MAX,
    ensures
        ({
            let after = report.with(job, step, result);
            &&& after.books + after.unchanged + after.skipped.len() == report.books
                + report.unchanged + report.skipped.len() + 1
            &&& result is Err ==> after.skipped.len() == report.skipped.len() + 1
                && after.skipped.last().0 == job.slug && after.chapters == report.chapters
            &&& result is Ok && step is Unchanged ==> after.unchanged == report.unchanged + 1
            &&& result is Ok && !(step is Unchanged) ==> after.books == report.books + 1
                && after.chapters == report.chapters + result->Ok_0.chapters && after.annotations
                == report.annotations + result->Ok_0.annotations
        }),
{
}

} // verus!
