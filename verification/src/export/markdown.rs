//! Chapters and annotations as Markdown, and the front matter above them.

use vstd::prelude::*;
use crate::annotation::{name_of, Annotation, AnnotationView};
use crate::doc::{BlockKind, BlockView, Chapter, ChapterView, KindView};
use crate::text::{
    blank, chars_of, code, decimal, decimal_of, is_blank_text, push_chars, push_text, text_of,
};
use crate::xml::slice_opt;

verus! {

/// A text `n` times over.
pub open spec fn repeated(s: Seq<char>, n: nat) -> Seq<char>
    decreases n,
{
    if n == 0 {
        Seq::empty()
    } else {
        repeated(s, (n - 1) as nat) + s
    }
}

fn push_repeated(out: &mut Vec<char>, s: &str, n: usize)
    ensures
        final(out)@ == old(out)@ + repeated(s@, n as nat),
{
    let ghost before = out@;
    let mut i: usize = 0;
    assert(before + repeated(s@, 0) =~= before);
    while i < n
        invariant
            i <= n,
            out@ == before + repeated(s@, i as nat),
        decreases n - i,
    {
        push_text(out, s);
        i += 1;
        assert(out@ =~= before + repeated(s@, i as nat));
    }
}

// ----- front matter -----
/// How a character stands inside a quoted YAML scalar. A line break would end
/// the field, so it becomes a space.
pub open spec fn escaped_char(c: char) -> Seq<char> {
    if c == '\\' {
        seq!['\\', '\\']
    } else if c == '"' {
        seq!['\\', '"']
    } else if c == '\n' {
        seq![' ']
    } else {
        seq![c]
    }
}

pub open spec fn escaped(s: Seq<char>) -> Seq<char>
    decreases s.len(),
{
    if s.len() == 0 {
        Seq::empty()
    } else {
        escaped(s.drop_last()) + escaped_char(s.last())
    }
}

/// A quoted YAML scalar.
pub open spec fn scalar(value: Seq<char>) -> Seq<char> {
    seq!['"'] + escaped(value) + seq!['"']
}

fn push_scalar(out: &mut Vec<char>, value: &str)
    ensures
        final(out)@ == old(out)@ + scalar(value@),
{
    let ghost before = out@;
    out.push('"');
    let ghost start = out@;
    assert(start =~= before + seq!['"']);
    assert(value@.take(0) =~= Seq::<char>::empty());
    for c in it: value.chars()
        invariant
            it.seq() == value@,
            out@ == start + escaped(value@.take(it.index() as int)),
    {
        let ghost seen = value@.take(it.index() + 1);
        assert(seen.drop_last() =~= value@.take(it.index() as int));
        if c == '\\' {
            out.push('\\');
            out.push('\\');
        } else if c == '"' {
            out.push('\\');
            out.push('"');
        } else if c == '\n' {
            out.push(' ');
        } else {
            out.push(c);
        }
        assert(out@ =~= start + escaped(seen));
    }
    assert(value@.take(value@.len() as int) =~= value@);
    out.push('"');
    assert(out@ =~= before + scalar(value@));
}

/// Quotes a YAML scalar. Colons and leading characters would otherwise change
/// the meaning of a line, and book titles are full of colons.
pub fn quote(value: &str) -> (r: String)
    ensures
        r@ == scalar(value@),
{
    let mut out: Vec<char> = Vec::new();
    push_scalar(&mut out, value);
    assert(out@ =~= scalar(value@));
    text_of(&out)
}

/// The fields of a front matter as mathematical values.
pub open spec fn field_views(fields: Seq<(&str, &str)>) -> Seq<(Seq<char>, Seq<char>)> {
    fields.map_values(|f: (&str, &str)| (f.0@, f.1@))
}

/// One line of a front matter.
pub open spec fn field_line(field: (Seq<char>, Seq<char>)) -> Seq<char> {
    field.0 + seq![':', ' '] + scalar(field.1)
}

pub open spec fn field_lines(fields: Seq<(Seq<char>, Seq<char>)>) -> Seq<char>
    decreases fields.len(),
{
    if fields.len() == 0 {
        Seq::empty()
    } else {
        field_lines(fields.drop_last()) + field_line(fields.last()) + seq!['\n']
    }
}

/// YAML front matter.
pub open spec fn front(fields: Seq<(Seq<char>, Seq<char>)>) -> Seq<char> {
    seq!['-', '-', '-', '\n'] + field_lines(fields) + seq!['-', '-', '-', '\n']
}

fn push_dashes(out: &mut Vec<char>)
    ensures
        final(out)@ == old(out)@ + seq!['-', '-', '-', '\n'],
{
    let ghost before = out@;
    out.push('-');
    out.push('-');
    out.push('-');
    out.push('\n');
    assert(out@ =~= before + seq!['-', '-', '-', '\n']);
}

/// YAML front matter, as qmd and most Markdown tools expect it.
pub fn front_matter(fields: &Vec<(&str, &str)>) -> (r: String)
    ensures
        r@ == front(field_views(fields@)),
{
    let ghost all = field_views(fields@);
    let mut out: Vec<char> = Vec::new();
    push_dashes(&mut out);
    let ghost start = seq!['-', '-', '-', '\n'];
    assert(out@ =~= start);
    assert(all.take(0) =~= Seq::<(Seq<char>, Seq<char>)>::empty());
    assert(out@ =~= start + field_lines(all.take(0)));
    let mut i: usize = 0;
    while i < fields.len()
        invariant
            i <= fields@.len(),
            all == field_views(fields@),
            all.len() == fields@.len(),
            out@ == start + field_lines(all.take(i as int)),
        decreases fields@.len() - i,
    {
        let ghost before = out@;
        let field = fields[i];
        assert(all[i as int] == (field.0@, field.1@));
        push_text(&mut out, field.0);
        out.push(':');
        out.push(' ');
        push_scalar(&mut out, field.1);
        out.push('\n');
        proof {
            let seen = all.take(i + 1);
            assert(seen.drop_last() =~= all.take(i as int));
            assert(out@ =~= before + field_line(all[i as int]) + seq!['\n']);
            assert(out@ =~= start + field_lines(seen));
        }
        i += 1;
    }
    assert(all.take(all.len() as int) =~= all);
    push_dashes(&mut out);
    text_of(&out)
}

// ----- chapters -----
/// A document's title: book, chapter, or both.
pub open spec fn titled(book: Option<Seq<char>>, chapter: Option<Seq<char>>) -> Option<Seq<char>> {
    match (book, chapter) {
        (Some(b), Some(c)) => Some(b + " · "@ + c),
        (Some(b), None) => Some(b),
        (None, Some(c)) => Some(c),
        (None, None) => None,
    }
}

/// How deep a heading stands in Markdown.
pub open spec fn heading_level(level: u8, shift: int) -> int {
    if level + shift < 1 {
        1
    } else if level + shift > 6 {
        6
    } else {
        level + shift
    }
}

/// One block as Markdown. Code is fenced by what stands around it.
pub open spec fn block_markdown(block: BlockView, shift: int) -> Seq<char> {
    let text = block.plain();
    match block.kind {
        KindView::Heading(level) => seq!['\n'] + repeated(
            "#"@,
            heading_level(level, shift) as nat,
        ) + " "@ + text + "\n\n"@,
        KindView::Code => text + seq!['\n'],
        KindView::Quote => "> "@ + text + "\n\n"@,
        KindView::ListItem { depth, ordinal } => match ordinal {
            Some(n) => repeated("  "@, depth as nat) + decimal(n as nat) + ". "@ + text
                + seq!['\n'],
            None => repeated("  "@, depth as nat) + "- "@ + text + seq!['\n'],
        },
        KindView::Rule => "\n---\n\n"@,
        KindView::Image { .. } => if blank(text) {
            Seq::empty()
        } else {
            "!["@ + text + "]()\n\n"@
        },
        KindView::Paragraph => if blank(text) {
            Seq::empty()
        } else {
            text + "\n\n"@
        },
    }
}

pub open spec fn is_code(block: BlockView) -> bool {
    block.kind is Code
}

/// The fence between two blocks, of which the first may be missing: one opens
/// where code begins and one closes where it ends.
pub open spec fn fence(was_code: bool, code: bool) -> Seq<char> {
    if code && !was_code {
        "\n```\n"@
    } else if !code && was_code {
        "```\n\n"@
    } else {
        Seq::empty()
    }
}

/// Blocks as Markdown, the last run of code still open.
pub open spec fn blocks_markdown(blocks: Seq<BlockView>, shift: int) -> Seq<char>
    decreases blocks.len(),
{
    if blocks.len() == 0 {
        Seq::empty()
    } else {
        let front = blocks.drop_last();
        blocks_markdown(front, shift) + fence(
            front.len() > 0 && is_code(front.last()),
            is_code(blocks.last()),
        ) + block_markdown(blocks.last(), shift)
    }
}

/// A chapter as Markdown. The chapter's own headings move down one level where
/// the document has a title of its own.
pub open spec fn markdown(
    chapter: ChapterView,
    book_title: Option<Seq<char>>,
    chapter_title: Option<Seq<char>>,
) -> Seq<char> {
    let title = titled(book_title, chapter_title);
    let head = match title {
        Some(t) => "# "@ + t + "\n\n"@,
        None => Seq::empty(),
    };
    let shift = if title is Some {
        1int
    } else {
        0int
    };
    let body = head + blocks_markdown(chapter.blocks, shift);
    if chapter.blocks.len() > 0 && is_code(chapter.blocks.last()) {
        body + "```\n"@
    } else {
        body
    }
}

fn push_block(out: &mut Vec<char>, kind: &BlockKind, text: &str, shift: u8, Ghost(b): Ghost<BlockView>)
    requires
        b.kind == kind@,
        b.plain() == text@,
        shift <= 1,
    ensures
        final(out)@ == old(out)@ + block_markdown(b, shift as int),
{
    let ghost before = out@;
    match kind {
        BlockKind::Heading(level) => {
            let level = *level;
            let depth: u8 = if level >= 6 {
                6
            } else if level + shift < 1 {
                1
            } else {
                level + shift
            };
            out.push('\n');
            push_repeated(out, "#", depth as usize);
            push_text(out, " ");
            push_text(out, text);
            push_text(out, "\n\n");
        },
        BlockKind::Code => {
            push_text(out, text);
            out.push('\n');
        },
        BlockKind::Quote => {
            push_text(out, "> ");
            push_text(out, text);
            push_text(out, "\n\n");
        },
        BlockKind::ListItem { depth, ordinal } => {
            push_repeated(out, "  ", *depth as usize);
            match ordinal {
                Some(n) => {
                    let digits = decimal_of(*n as u64);
                    push_chars(out, &digits);
                    push_text(out, ". ");
                },
                None => {
                    push_text(out, "- ");
                },
            }
            push_text(out, text);
            out.push('\n');
        },
        BlockKind::Rule => push_text(out, "\n---\n\n"),
        BlockKind::Image { .. } => {
            if !is_blank_text(text) {
                push_text(out, "![");
                push_text(out, text);
                push_text(out, "]()\n\n");
            }
        },
        BlockKind::Paragraph => {
            if !is_blank_text(text) {
                push_text(out, text);
                push_text(out, "\n\n");
            }
        },
    }
    assert(out@ =~= before + block_markdown(b, shift as int));
}

/// A chapter as Markdown.
///
/// The aim is searchable prose, not a faithful copy: headings keep their level so
/// a hit can be placed in the book's structure, code stays fenced so it is not
/// mistaken for text, and images become their alt text.
pub fn chapter_markdown(chapter: &Chapter) -> (r: String)
    ensures
        r@ == markdown(chapter@, None, None),
{
    chapter_markdown_titled(chapter, None, None)
}

fn push_title(out: &mut Vec<char>, book_title: Option<&str>, chapter_title: Option<&str>)
    ensures
        final(out)@ == old(out)@ + (match titled(slice_opt(book_title), slice_opt(chapter_title)) {
            Some(t) => "# "@ + t + "\n\n"@,
            None => Seq::empty(),
        }),
{
    let ghost before = out@;
    let ghost title = titled(slice_opt(book_title), slice_opt(chapter_title));
    if book_title.is_none() && chapter_title.is_none() {
        assert(out@ =~= before + Seq::<char>::empty());
        return;
    }
    push_text(out, "# ");
    if let Some(book) = book_title {
        push_text(out, book);
        if chapter_title.is_some() {
            push_text(out, " · ");
        }
    }
    if let Some(chapter) = chapter_title {
        push_text(out, chapter);
    }
    push_text(out, "\n\n");
    assert(out@ =~= before + ("# "@ + title->0 + "\n\n"@));
}

/// As `chapter_markdown`, with a title line naming book and chapter.
///
/// Search engines show a document's first heading as the title of a hit, and
/// "34" or "Pattern: Snapshots" alone says nothing about the book. The chapter's
/// own headings move down one level so the document has a single title with the
/// chapter's structure beneath it. Replacing the first heading instead would go
/// wrong wherever a book splits number and title across two of them.
pub fn chapter_markdown_titled(
    chapter: &Chapter,
    book_title: Option<&str>,
    chapter_title: Option<&str>,
) -> (r: String)
    ensures
        r@ == markdown(chapter@, slice_opt(book_title), slice_opt(chapter_title)),
{
    let ghost blocks = chapter@.blocks;
    let shift: u8 = if book_title.is_some() || chapter_title.is_some() {
        1
    } else {
        0
    };
    let mut out: Vec<char> = Vec::new();
    push_title(&mut out, book_title, chapter_title);
    let ghost head = out@;
    let mut in_code = false;
    let mut i: usize = 0;
    assert(blocks.take(0) =~= Seq::<BlockView>::empty());
    assert(out@ =~= head + blocks_markdown(blocks.take(0), shift as int));
    while i < chapter.blocks.len()
        invariant
            i <= chapter.blocks@.len(),
            shift <= 1,
            blocks == chapter@.blocks,
            blocks.len() == chapter.blocks@.len(),
            in_code == (i > 0 && is_code(blocks[i - 1])),
            out@ == head + blocks_markdown(blocks.take(i as int), shift as int),
        decreases chapter.blocks@.len() - i,
    {
        let ghost before = out@;
        let block = &chapter.blocks[i];
        let ghost b = blocks[i as int];
        assert(b == block@);
        let text = block.plain_text();
        let code = match &block.kind {
            BlockKind::Code => true,
            _ => false,
        };
        if code && !in_code {
            push_text(&mut out, "\n```\n");
        } else if !code && in_code {
            push_text(&mut out, "```\n\n");
        }
        assert(out@ =~= before + fence(in_code, code));
        in_code = code;
        push_block(&mut out, &block.kind, &text, shift, Ghost(b));
        proof {
            let seen = blocks.take(i + 1);
            assert(seen.drop_last() =~= blocks.take(i as int));
            assert(seen.last() == b);
            assert(out@ =~= head + blocks_markdown(seen, shift as int));
        }
        i += 1;
    }
    assert(blocks.take(blocks.len() as int) =~= blocks);
    if in_code {
        push_text(&mut out, "```\n");
    }
    text_of(&out)
}

// ----- annotations -----
/// A text on one line.
pub open spec fn on_one_line(s: Seq<char>) -> Seq<char> {
    s.map_values(
        |c: char|
            if c == '\n' {
                ' '
            } else {
                c
            },
    )
}

/// One annotation, quote and comment together, with the anchor that leads back
/// to the passage itself.
pub open spec fn mark_markdown(a: AnnotationView) -> Seq<char> {
    let head = "## "@ + name_of(a.color) + " · "@ + a.href + "\n\n"@ + "> "@ + on_one_line(a.quote)
        + "\n\n"@;
    let body = match a.note {
        Some(note) => head + note + "\n\n"@,
        None => head,
    };
    if a.slices.len() > 0 {
        body + "<!-- at chapter="@ + a.href + " block="@ + decimal(a.slices[0].block as nat)
            + " offset="@ + decimal(a.slices[0].start as nat) + " -->\n\n"@
    } else {
        body
    }
}

pub open spec fn marks_markdown(annotations: Seq<AnnotationView>) -> Seq<char>
    decreases annotations.len(),
{
    if annotations.len() == 0 {
        Seq::empty()
    } else {
        marks_markdown(annotations.drop_last()) + mark_markdown(annotations.last())
    }
}

/// The annotations of one book as a document.
pub open spec fn notes_markdown(
    id: Seq<char>,
    title: Seq<char>,
    authors: Seq<char>,
    annotations: Seq<AnnotationView>,
) -> Seq<char> {
    front(
        seq![("book"@, id), ("title"@, title), ("author"@, authors), ("kind"@, "annotations"@)],
    ) + "\n# Notes on "@ + title + "\n\n"@ + marks_markdown(annotations)
}

fn push_mark(out: &mut Vec<char>, a: &Annotation)
    ensures
        final(out)@ == old(out)@ + mark_markdown(a@),
{
    let ghost before = out@;
    push_text(out, "## ");
    push_text(out, a.color.label());
    push_text(out, " · ");
    push_text(out, &a.href);
    push_text(out, "\n\n");
    push_text(out, "> ");
    let ghost start = out@;
    for c in it: a.quote.chars()
        invariant
            it.seq() == a.quote@,
            out@ == start + on_one_line(a.quote@.take(it.index() as int)),
    {
        let ghost k = it.index() as int;
        out.push(
            if c == '\n' {
                ' '
            } else {
                c
            },
        );
        assert(out@ =~= start + on_one_line(a.quote@.take(k + 1)));
    }
    assert(a.quote@.take(a.quote@.len() as int) =~= a.quote@);
    push_text(out, "\n\n");
    let ghost head = "## "@ + name_of(a.color) + " · "@ + a.href@ + "\n\n"@ + "> "@ + on_one_line(
        a.quote@,
    ) + "\n\n"@;
    assert(out@ =~= before + head);
    let ghost mut body = head;
    if let Some(note) = &a.note {
        push_text(out, note);
        push_text(out, "\n\n");
        proof {
            body = head + note@ + "\n\n"@;
        }
    }
    assert(out@ =~= before + body);
    if a.slices.len() > 0 {
        let slice = a.slices[0];
        push_text(out, "<!-- at chapter=");
        push_text(out, &a.href);
        push_text(out, " block=");
        let digits = decimal_of(slice.block as u64);
        push_chars(out, &digits);
        push_text(out, " offset=");
        let digits = decimal_of(slice.start as u64);
        push_chars(out, &digits);
        push_text(out, " -->\n\n");
    }
    assert(out@ =~= before + mark_markdown(a@));
}

/// Annotations of one book as Markdown, quote and comment together.
pub fn annotations_markdown(
    id: &str,
    title: &str,
    authors: &str,
    annotations: &Vec<Annotation>,
) -> (r: String)
    ensures
        r@ == notes_markdown(id@, title@, authors@, annotations@.map_values(|a: Annotation| a@)),
{
    let fields: Vec<(&str, &str)> = vec![
        ("book", id),
        ("title", title),
        ("author", authors),
        ("kind", "annotations"),
    ];
    let head = front_matter(&fields);
    proof {
        assert(field_views(fields@) =~= seq![
            ("book"@, id@),
            ("title"@, title@),
            ("author"@, authors@),
            ("kind"@, "annotations"@),
        ]);
    }
    let mut out = chars_of(&head);
    push_text(&mut out, "\n# Notes on ");
    push_text(&mut out, title);
    push_text(&mut out, "\n\n");
    let ghost start = out@;
    let ghost all = annotations@.map_values(|a: Annotation| a@);
    let mut i: usize = 0;
    assert(all.take(0) =~= Seq::<AnnotationView>::empty());
    assert(out@ =~= start + marks_markdown(all.take(0)));
    while i < annotations.len()
        invariant
            i <= annotations@.len(),
            all == annotations@.map_values(|a: Annotation| a@),
            all.len() == annotations@.len(),
            out@ == start + marks_markdown(all.take(i as int)),
        decreases annotations@.len() - i,
    {
        push_mark(&mut out, &annotations[i]);
        proof {
            let seen = all.take(i + 1);
            assert(seen.drop_last() =~= all.take(i as int));
            assert(seen.last() == annotations@[i as int]@);
            assert(out@ =~= start + marks_markdown(seen));
        }
        i += 1;
    }
    assert(all.take(all.len() as int) =~= all);
    text_of(&out)
}

} // verus!
