//! Where an exported file came from, and the names files are exported under.

use vstd::prelude::*;
use crate::export::markdown::{escaped, escaped_char, field_line, field_lines, front, scalar};
use crate::text::{
    ascii_lower, char_views, chars_are, chars_of, copy_text, find_chars, find_from, is_white,
    lemma_find_from, lemma_split_len, lines, lines_of, lower_ascii, occurs_at, push_text,
    skip_white, split_at, stands_at, sub_chars, text_of, text_opt, trim, trim_end, trim_start,
    trimmed, without_return,
};

verus! {

// ----- trimming -----
/// The first position at or after `i` that holds another character.
pub open spec fn skip_char(s: Seq<char>, c: char, i: int) -> int
    decreases s.len() - i,
{
    if 0 <= i < s.len() && s[i] == c {
        skip_char(s, c, i + 1)
    } else {
        i
    }
}

/// How many of the first `n` characters are left once `c` is dropped from their
/// end.
pub open spec fn keep_char(s: Seq<char>, c: char, n: int) -> int
    decreases n,
{
    if 0 < n <= s.len() && s[n - 1] == c {
        keep_char(s, c, n - 1)
    } else {
        n
    }
}

/// A text without `c` at its two ends.
pub open spec fn trim_char(s: Seq<char>, c: char) -> Seq<char> {
    let t = s.subrange(skip_char(s, c, 0), s.len() as int);
    t.subrange(0, keep_char(t, c, t.len() as int))
}

proof fn lemma_skip_char(s: Seq<char>, c: char, i: int)
    requires
        0 <= i <= s.len(),
    ensures
        i <= skip_char(s, c, i) <= s.len(),
        skip_char(s, c, i) < s.len() ==> s[skip_char(s, c, i)] != c,
    decreases s.len() - i,
{
    if i < s.len() && s[i] == c {
        lemma_skip_char(s, c, i + 1);
    }
}

proof fn lemma_keep_char(s: Seq<char>, c: char, n: int)
    requires
        0 <= n <= s.len(),
    ensures
        0 <= keep_char(s, c, n) <= n,
        keep_char(s, c, n) > 0 ==> s[keep_char(s, c, n) - 1] != c,
        n > 0 && s[0] != c ==> keep_char(s, c, n) > 0,
    decreases n,
{
    if 0 < n && s[n - 1] == c {
        lemma_keep_char(s, c, n - 1);
    }
}

fn trimmed_of(v: &Vec<char>, c: char) -> (r: Vec<char>)
    ensures
        r@ == trim_char(v@, c),
{
    let mut start: usize = 0;
    while start < v.len() && v[start] == c
        invariant
            start <= v@.len(),
            skip_char(v@, c, 0) == skip_char(v@, c, start as int),
        decreases v@.len() - start,
    {
        start += 1;
    }
    let ghost t = v@.subrange(start as int, v@.len() as int);
    let mut end: usize = v.len();
    assert(t.len() == end - start);
    while end > start && v[end - 1] == c
        invariant
            start <= end <= v@.len(),
            t == v@.subrange(start as int, v@.len() as int),
            keep_char(t, c, t.len() as int) == keep_char(t, c, end - start),
        decreases end,
    {
        assert(t[end - start - 1] == v@[end - 1]);
        end -= 1;
    }
    proof {
        if end > start {
            assert(t[end - start - 1] == v@[end - 1]);
        }
        assert(v@.subrange(start as int, end as int) =~= t.subrange(0, end - start));
    }
    sub_chars(v, start, end)
}

// ----- names -----
pub open spec fn ascii_letter_or_digit(c: char) -> bool {
    'a' <= c <= 'z' || 'A' <= c <= 'Z' || '0' <= c <= '9'
}

/// Lowercase, ASCII, one hyphen for whatever stands between.
pub open spec fn hyphenated(s: Seq<char>) -> Seq<char>
    decreases s.len(),
{
    if s.len() == 0 {
        Seq::empty()
    } else {
        let front = hyphenated(s.drop_last());
        if ascii_letter_or_digit(s.last()) {
            front.push(ascii_lower(s.last()))
        } else if front.len() > 0 && front.last() != '-' {
            front.push('-')
        } else {
            front
        }
    }
}

/// The length a name is cut to. Long titles would make unwieldy paths.
pub const SLUG_LENGTH: usize = 60;

pub open spec fn slug(s: Seq<char>) -> Seq<char> {
    let name = trim_char(hyphenated(s), '-');
    let cut = if name.len() > SLUG_LENGTH {
        name.take(SLUG_LENGTH as int)
    } else {
        name
    };
    if cut.len() == 0 {
        "untitled"@
    } else {
        trim_char(cut, '-')
    }
}

/// Lowercase, ASCII, hyphens. A file name that survives every filesystem.
pub fn slugify(text: &str) -> (r: String)
    ensures
        r@ == slug(text@),
{
    let mut out: Vec<char> = Vec::new();
    let mut last_dash = true;
    assert(text@.take(0) =~= Seq::<char>::empty());
    for c in it: text.chars()
        invariant
            it.seq() == text@,
            out@ == hyphenated(text@.take(it.index() as int)),
            last_dash == (out@.len() == 0 || out@.last() == '-'),
    {
        assert(text@.take(it.index() + 1).drop_last() =~= text@.take(it.index() as int));
        if ('a' <= c && c <= 'z') || ('A' <= c && c <= 'Z') || ('0' <= c && c <= '9') {
            out.push(lower_ascii(c));
            last_dash = false;
        } else if !last_dash {
            out.push('-');
            last_dash = true;
        }
    }
    assert(text@.take(text@.len() as int) =~= text@);
    let name = trimmed_of(&out, '-');
    let cut = if name.len() > SLUG_LENGTH {
        sub_chars(&name, 0, SLUG_LENGTH)
    } else {
        name
    };
    proof {
        let n = trim_char(hyphenated(text@), '-');
        if n.len() > SLUG_LENGTH {
            assert(n.subrange(0, SLUG_LENGTH as int) =~= n.take(SLUG_LENGTH as int));
        }
    }
    if cut.len() == 0 {
        return copy_text("untitled");
    }
    let kept = trimmed_of(&cut, '-');
    text_of(&kept)
}

/// A character that stands in every name.
pub open spec fn safe_in_a_name(c: char) -> bool {
    'a' <= c <= 'z' || '0' <= c <= '9' || c == '-'
}

proof fn lemma_hyphenated(s: Seq<char>)
    ensures
        forall|i: int| 0 <= i < hyphenated(s).len() ==> safe_in_a_name(#[trigger] hyphenated(s)[i]),
        hyphenated(s).len() > 0 ==> hyphenated(s)[0] != '-',
    decreases s.len(),
{
    if s.len() > 0 {
        lemma_hyphenated(s.drop_last());
    }
}

/// A name holds nothing but small letters, digits and hyphens, neither begins
/// nor ends with a hyphen, is never empty and never too long.
pub proof fn slugs_are_safe_file_names(s: Seq<char>)
    ensures
        0 < slug(s).len() <= SLUG_LENGTH,
        forall|i: int| 0 <= i < slug(s).len() ==> safe_in_a_name(#[trigger] slug(s)[i]),
        slug(s)[0] != '-',
        slug(s).last() != '-',
{
    let h = hyphenated(s);
    lemma_hyphenated(s);
    lemma_skip_char(h, '-', 0);
    let t = h.subrange(skip_char(h, '-', 0), h.len() as int);
    lemma_keep_char(t, '-', t.len() as int);
    let name = trim_char(h, '-');
    assert(forall|i: int| 0 <= i < name.len() ==> safe_in_a_name(#[trigger] name[i]));
    assert(name.len() > 0 ==> name[0] != '-');
    let cut = if name.len() > SLUG_LENGTH {
        name.take(SLUG_LENGTH as int)
    } else {
        name
    };
    if cut.len() == 0 {
        reveal_strlit("untitled");
    } else {
        lemma_skip_char(cut, '-', 0);
        assert(cut[0] == name[0]);
        assert(skip_char(cut, '-', 0) == 0);
        let u = cut.subrange(0, cut.len() as int);
        assert(u =~= cut);
        lemma_keep_char(cut, '-', cut.len() as int);
    }
}

/// Directory name for a book: its title, plus enough of the hash to keep two
/// books of the same title apart.
pub open spec fn book_slug(title: Seq<char>, id: Seq<char>) -> Seq<char> {
    let from = if id.len() < 7 {
        id.len() as int
    } else {
        7
    };
    let to = if id.len() < 15 {
        id.len() as int
    } else {
        15
    };
    slug(title) + "-"@ + id.subrange(from, to)
}

pub fn slug_of(title: &str, id: &str) -> (r: String)
    ensures
        r@ == book_slug(title@, id@),
{
    let slug = slugify(title);
    let mut out = chars_of(&slug);
    push_text(&mut out, "-");
    let whole = chars_of(id);
    let n = whole.len();
    let from = if n < 7 {
        n
    } else {
        7
    };
    let to = if n < 15 {
        n
    } else {
        15
    };
    let short = sub_chars(&whole, from, to);
    crate::text::push_chars(&mut out, &short);
    text_of(&out)
}

// ----- origin -----
/// What an exported file says about where it came from.
#[derive(Debug, PartialEq, Eq)]
pub struct Origin {
    pub book: String,
    pub chapter: Option<String>,
}

#[verifier::ext_equal]
pub struct OriginView {
    pub book: Seq<char>,
    pub chapter: Option<Seq<char>>,
}

impl View for Origin {
    type V = OriginView;

    open spec fn view(&self) -> OriginView {
        OriginView { book: self.book@, chapter: text_opt(self.chapter) }
    }
}

/// The key and value on a line. A line without a colon has neither.
pub open spec fn field_on(line: Seq<char>) -> Option<(Seq<char>, Seq<char>)> {
    match find_from(line, seq![':'], 0) {
        Some(i) => Some(
            (trim(line.take(i)), trim_char(trim(line.subrange(i + 1, line.len() as int)), '"')),
        ),
        None => None,
    }
}

/// The value of the last line with a key.
pub open spec fn value_for(lines: Seq<Seq<char>>, key: Seq<char>) -> Option<Seq<char>>
    decreases lines.len(),
{
    if lines.len() == 0 {
        None
    } else {
        match field_on(lines.last()) {
            Some((k, v)) => if k == key {
                Some(v)
            } else {
                value_for(lines.drop_last(), key)
            },
            None => value_for(lines.drop_last(), key),
        }
    }
}

/// The lines of a front matter, if the text starts with one.
pub open spec fn front_lines(text: Seq<char>) -> Option<Seq<Seq<char>>> {
    if !occurs_at(text, seq!['-', '-', '-'], 0) {
        None
    } else {
        let body = text.subrange(3, text.len() as int);
        match find_from(body, seq!['\n', '-', '-', '-'], 0) {
            Some(end) => Some(lines_of(body.take(end))),
            None => None,
        }
    }
}

/// Where a text came from, as its front matter says. There has to be a book.
pub open spec fn origin(text: Seq<char>) -> Option<OriginView> {
    match front_lines(text) {
        Some(lines) => match value_for(lines, "book"@) {
            Some(book) => Some(OriginView { book, chapter: value_for(lines, "chapter"@) }),
            None => None,
        },
        None => None,
    }
}

fn field_of(line: &Vec<char>) -> (r: Option<(Vec<char>, Vec<char>)>)
    ensures
        match field_on(line@) {
            Some((k, v)) => r is Some && (r->0).0@ == k && (r->0).1@ == v,
            None => r is None,
        },
{
    let colon: Vec<char> = vec![':'];
    assert(colon@ =~= seq![':']);
    let n = line.len();
    match find_chars(line, &colon, 0) {
        Some(i) => {
            proof {
                lemma_find_from(line@, seq![':'], 0);
                assert(i + 1 <= n);
                assert(line@.subrange(0, i as int) =~= line@.take(i as int));
            }
            let key = sub_chars(line, 0, i);
            let value = sub_chars(line, i + 1, n);
            let key = trimmed(&key);
            let value = trimmed(&value);
            let value = trimmed_of(&value, '"');
            Some((key, value))
        },
        None => None,
    }
}

/// Reads the front matter of an exported text. This is what turns a search hit
/// back into a place in a book.
pub fn parse_origin(text: &str) -> (r: Option<Origin>)
    ensures
        match origin(text@) {
            Some(o) => r is Some && r->0@ == o,
            None => r is None,
        },
{
    let whole = chars_of(text);
    let dashes: Vec<char> = vec!['-', '-', '-'];
    assert(dashes@ =~= seq!['-', '-', '-']);
    if !stands_at(&whole, &dashes, 0) {
        return None;
    }
    let body = sub_chars(&whole, 3, whole.len());
    let closing: Vec<char> = vec!['\n', '-', '-', '-'];
    assert(closing@ =~= seq!['\n', '-', '-', '-']);
    let end = match find_chars(&body, &closing, 0) {
        Some(e) => e,
        None => {
            return None;
        },
    };
    proof {
        lemma_find_from(body@, closing@, 0);
        assert(body@.subrange(0, end as int) =~= body@.take(end as int));
    }
    let head = sub_chars(&body, 0, end);
    let all = lines(&head);
    let ghost views = char_views(all@);
    let mut book: Option<String> = None;
    let mut chapter: Option<String> = None;
    let mut i: usize = 0;
    assert(views.take(0) =~= Seq::<Seq<char>>::empty());
    while i < all.len()
        invariant
            i <= all@.len(),
            views == char_views(all@),
            views.len() == all@.len(),
            text_opt(book) == value_for(views.take(i as int), "book"@),
            text_opt(chapter) == value_for(views.take(i as int), "chapter"@),
        decreases all@.len() - i,
    {
        proof {
            assert(views.take(i + 1).drop_last() =~= views.take(i as int));
            assert(views.take(i + 1).last() == all@[i as int]@);
            reveal_strlit("book");
            reveal_strlit("chapter");
            assert("book"@.len() != "chapter"@.len());
        }
        if let Some((key, value)) = field_of(&all[i]) {
            if chars_are(&key, "book") {
                book = Some(text_of(&value));
            } else if chars_are(&key, "chapter") {
                chapter = Some(text_of(&value));
            }
        }
        i += 1;
    }
    assert(views.take(views.len() as int) =~= views);
    match book {
        Some(book) => Some(Origin { book, chapter }),
        None => None,
    }
}

// ----- reading back what was written -----
/// A value that stands unchanged between quotes.
pub open spec fn plain(value: Seq<char>) -> bool {
    forall|i: int|
        0 <= i < value.len() ==> (#[trigger] value[i]) != '"' && value[i] != '\\' && value[i] != '\n'
}

/// A key is a word: no white space, no colon, no hyphen in front.
pub open spec fn is_key(key: Seq<char>) -> bool {
    &&& key.len() > 0
    &&& key[0] != '-'
    &&& forall|i: int|
        0 <= i < key.len() ==> !is_white(#[trigger] key[i]) && key[i] != ':' && key[i] != '\n'
}

pub open spec fn are_keys(fields: Seq<(Seq<char>, Seq<char>)>) -> bool {
    forall|i: int| 0 <= i < fields.len() ==> is_key((#[trigger] fields[i]).0)
}

/// The value of the last field with a key.
pub open spec fn field_value(fields: Seq<(Seq<char>, Seq<char>)>, key: Seq<char>) -> Option<
    Seq<char>,
>
    decreases fields.len(),
{
    if fields.len() == 0 {
        None
    } else if fields.last().0 == key {
        Some(fields.last().1)
    } else {
        field_value(fields.drop_last(), key)
    }
}

proof fn lemma_escaped(value: Seq<char>)
    ensures
        plain(value) ==> escaped(value) == value,
        forall|i: int| 0 <= i < escaped(value).len() ==> (#[trigger] escaped(value)[i]) != '\n',
    decreases value.len(),
{
    if value.len() > 0 {
        let d = value.drop_last();
        lemma_escaped(d);
        if plain(value) {
            assert forall|i: int| 0 <= i < d.len() implies (#[trigger] d[i]) != '"' && d[i] != '\\'
                && d[i] != '\n' by {
                assert(d[i] == value[i]);
            }
            assert(value[value.len() - 1] == value.last());
            assert(escaped(value) =~= value);
        }
        let e = escaped(value);
        assert forall|i: int| 0 <= i < e.len() implies (#[trigger] e[i]) != '\n' by {
            if i < escaped(d).len() {
                assert(e[i] == escaped(d)[i]);
            } else {
                assert(e[i] == escaped_char(value.last())[i - escaped(d).len()]);
            }
        }
    }
}

/// A field line holds no line break and does not start like the end of the front
/// matter.
proof fn lemma_field_line(field: (Seq<char>, Seq<char>))
    requires
        is_key(field.0),
    ensures
        field_line(field).len() > 0,
        field_line(field)[0] != '-',
        field_line(field).last() == '"',
        forall|i: int| 0 <= i < field_line(field).len() ==> (#[trigger] field_line(field)[i]) != '\n',
{
    lemma_escaped(field.1);
    let line = field_line(field);
    let k = field.0.len();
    assert(line[0] == field.0[0]);
    let s = scalar(field.1);
    assert forall|i: int| 0 <= i < line.len() implies (#[trigger] line[i]) != '\n' by {
        if i < k {
            assert(line[i] == field.0[i]);
        } else if i >= k + 2 {
            assert(line[i] == s[i - k - 2]);
            if 1 <= i - k - 2 < s.len() - 1 {
                assert(s[i - k - 2] == escaped(field.1)[i - k - 3]);
            }
        }
    }
}

proof fn lemma_field_lines(fields: Seq<(Seq<char>, Seq<char>)>)
    requires
        are_keys(fields),
    ensures
        ({
            let t = field_lines(fields);
            &&& fields.len() > 0 ==> t.len() > 0 && t[0] != '-' && t.last() == '\n'
            &&& fields.len() == 0 ==> t.len() == 0
            &&& forall|i: int|
                0 <= i < t.len() - 1 && (#[trigger] t[i]) == '\n' ==> t[i + 1] != '-'
        }),
    decreases fields.len(),
{
    if fields.len() > 0 {
        let d = fields.drop_last();
        lemma_field_lines(d);
        lemma_field_line(fields.last());
        let a = field_lines(d);
        let l = field_line(fields.last());
        let t = field_lines(fields);
        assert(t =~= a + l + seq!['\n']);
        if a.len() > 0 {
            assert(t[0] == a[0]);
        } else {
            assert(t[0] == l[0]);
        }
        assert forall|i: int| 0 <= i < t.len() - 1 && (#[trigger] t[i]) == '\n' implies t[i + 1]
            != '-' by {
            if i < a.len() - 1 {
                assert(t[i] == a[i] && t[i + 1] == a[i + 1]);
            } else if i == a.len() - 1 {
                assert(t[i + 1] == l[0]);
            } else {
                assert(t[i] == l[i - a.len()]);
            }
        }
    }
}

proof fn lemma_find_first(s: Seq<char>, pattern: Seq<char>, from: int, at: int)
    requires
        0 <= from <= at,
        occurs_at(s, pattern, at),
        forall|i: int| from <= i < at ==> !#[trigger] occurs_at(s, pattern, i),
    ensures
        find_from(s, pattern, from) == Some(at),
    decreases at - from,
{
    if from < at {
        assert(!occurs_at(s, pattern, from));
        lemma_find_first(s, pattern, from + 1, at);
    }
}

proof fn lemma_split_append(s: Seq<char>, t: Seq<char>)
    requires
        forall|i: int| 0 <= i < t.len() ==> (#[trigger] t[i]) != '\n',
    ensures
        split_at(s + t, '\n') == split_at(s, '\n').drop_last().push(split_at(s, '\n').last() + t),
    decreases t.len(),
{
    lemma_split_len(s, '\n');
    let parts = split_at(s, '\n');
    if t.len() == 0 {
        assert(s + t =~= s);
        assert(parts.last() + t =~= parts.last());
        assert(parts.drop_last().push(parts.last()) =~= parts);
    } else {
        let d = t.drop_last();
        assert forall|i: int| 0 <= i < d.len() implies (#[trigger] d[i]) != '\n' by {
            assert(d[i] == t[i]);
        }
        lemma_split_append(s, d);
        assert((s + t).drop_last() =~= s + d);
        assert((s + t).last() == t[t.len() - 1]);
        let front = split_at(s + d, '\n');
        assert(front.last() == parts.last() + d);
        assert(front.drop_last() =~= parts.drop_last());
        assert((parts.last() + d).push(t.last()) =~= parts.last() + t);
    }
}

/// The lines of the fields, as they come apart again.
pub open spec fn line_list(fields: Seq<(Seq<char>, Seq<char>)>) -> Seq<Seq<char>> {
    fields.map_values(|f: (Seq<char>, Seq<char>)| field_line(f))
}

proof fn lemma_split_fields(fields: Seq<(Seq<char>, Seq<char>)>)
    requires
        are_keys(fields),
    ensures
        split_at(seq!['\n'] + field_lines(fields), '\n') == seq![Seq::<char>::empty()] + line_list(
            fields,
        ) + seq![Seq::<char>::empty()],
    decreases fields.len(),
{
    let e = Seq::<char>::empty();
    let s = seq!['\n'] + field_lines(fields);
    if fields.len() == 0 {
        assert(s =~= seq!['\n']);
        assert(s.drop_last() =~= e);
        assert(split_at(e, '\n') =~= seq![e]);
        assert(split_at(s, '\n') =~= seq![e].push(e));
        assert(line_list(fields) =~= Seq::<Seq<char>>::empty());
        assert(seq![e] + line_list(fields) + seq![e] =~= seq![e].push(e));
    } else {
        let d = fields.drop_last();
        let l = field_line(fields.last());
        lemma_split_fields(d);
        lemma_field_line(fields.last());
        let a = seq!['\n'] + field_lines(d);
        assert(s =~= (a + l).push('\n'));
        lemma_split_append(a, l);
        assert(s.drop_last() =~= a + l);
        let before = seq![e] + line_list(d) + seq![e];
        assert(before.drop_last() =~= seq![e] + line_list(d));
        assert(before.last() + l =~= l);
        assert(line_list(fields) =~= line_list(d).push(l));
        assert(split_at(s, '\n') =~= seq![e] + line_list(fields) + seq![e]);
    }
}

proof fn lemma_front_lines(fields: Seq<(Seq<char>, Seq<char>)>, rest: Seq<char>)
    requires
        are_keys(fields),
        fields.len() > 0,
    ensures
        front_lines(front(fields) + rest) == Some(seq![Seq::<char>::empty()] + line_list(fields)),
{
    let text = front(fields) + rest;
    let t = field_lines(fields);
    let dashes = seq!['-', '-', '-'];
    let closing = seq!['\n', '-', '-', '-'];
    lemma_field_lines(fields);
    assert(text.subrange(0, 3) =~= dashes);
    assert(occurs_at(text, dashes, 0));
    let body = text.subrange(3, text.len() as int);
    assert(body =~= seq!['\n'] + t + seq!['-', '-', '-', '\n'] + rest);
    let at = t.len() as int;
    assert(body[at] == t[at - 1]);
    assert(body.subrange(at, at + 4) =~= closing);
    assert(occurs_at(body, closing, at));
    assert forall|i: int| 0 <= i < at implies !#[trigger] occurs_at(body, closing, i) by {
        if occurs_at(body, closing, i) {
            assert(body.subrange(i, i + 4)[0] == '\n' && body.subrange(i, i + 4)[1] == '-');
            assert(body[i] == '\n' && body[i + 1] == '-');
            if i == 0 {
                assert(body[1] == t[0]);
            } else {
                assert(body[i] == t[i - 1]);
                assert(body[i + 1] == t[i]);
            }
        }
    }
    lemma_find_first(body, closing, 0, at);
    let head = body.take(at);
    let whole = seq!['\n'] + t;
    assert(whole.drop_last() =~= head);
    assert(whole.last() == '\n');
    lemma_split_fields(fields);
    let parts = split_at(head, '\n');
    let e = Seq::<char>::empty();
    assert(split_at(whole, '\n') == parts.push(e));
    assert(parts =~= seq![e] + line_list(fields)) by {
        let all = seq![e] + line_list(fields) + seq![e];
        assert(parts.push(e).drop_last() =~= parts);
        assert(all.drop_last() =~= seq![e] + line_list(fields));
    }
    let n = fields.len() as int;
    lemma_field_line(fields[n - 1]);
    assert(parts.last() == field_line(fields[n - 1]));
    let ended = parts.drop_last().map_values(|p: Seq<char>| without_return(p));
    assert(ended =~= parts.drop_last()) by {
        assert forall|i: int| 0 <= i < parts.len() - 1 implies #[trigger] ended[i] == parts[i] by {
            if i > 0 {
                assert(parts[i] == field_line(fields[i - 1]));
                lemma_field_line(fields[i - 1]);
            }
        }
    }
    assert(ended.push(parts.last()) =~= parts);
}

proof fn lemma_trim_nothing(s: Seq<char>)
    requires
        s.len() > 0,
        !is_white(s[0]),
        !is_white(s.last()),
    ensures
        trim(s) == s,
        trim(seq![' '] + s) == s,
{
    assert(trim_start(s) =~= s);
    assert(trim_end(s) =~= s);
    let t = seq![' '] + s;
    assert(t[0] == ' ');
    assert(t[1] == s[0]);
    assert(skip_white(t, 1) == 1);
    assert(skip_white(t, 0) == 1);
    assert(trim_start(t) =~= s);
}

/// A field is read back from its line.
proof fn lemma_field_on(field: (Seq<char>, Seq<char>))
    requires
        is_key(field.0),
    ensures
        field_on(field_line(field)) is Some,
        (field_on(field_line(field))->0).0 == field.0,
        plain(field.1) ==> (field_on(field_line(field))->0).1 == field.1,
{
    let line = field_line(field);
    let k = field.0.len() as int;
    let colon = seq![':'];
    assert(line.subrange(k, k + 1) =~= colon);
    assert(occurs_at(line, colon, k));
    assert forall|i: int| 0 <= i < k implies !#[trigger] occurs_at(line, colon, i) by {
        if occurs_at(line, colon, i) {
            assert(line.subrange(i, i + 1)[0] == ':');
            assert(line[i] == field.0[i]);
        }
    }
    lemma_find_first(line, colon, 0, k);
    assert(line.take(k) =~= field.0);
    lemma_trim_nothing(field.0);
    let s = scalar(field.1);
    assert(line.subrange(k + 1, line.len() as int) =~= seq![' '] + s);
    lemma_trim_nothing(s);
    if plain(field.1) {
        lemma_escaped(field.1);
        let v = field.1;
        assert(s =~= seq!['"'] + v + seq!['"']);
        assert(s[0] == '"');
        if v.len() == 0 {
            assert(s.len() == 2 && s[1] == '"');
            assert(skip_char(s, '"', 2) == 2);
            assert(skip_char(s, '"', 1) == 2);
            assert(skip_char(s, '"', 0) == 2);
            assert(trim_char(s, '"') =~= v);
        } else {
            assert(s[1] == v[0]);
            assert(skip_char(s, '"', 1) == 1);
            assert(skip_char(s, '"', 0) == 1);
            let t = s.subrange(1, s.len() as int);
            let n = v.len() as int;
            assert(t =~= v + seq!['"']);
            assert(t[n] == '"');
            assert(t[n - 1] == v[n - 1]);
            assert(keep_char(t, '"', n) == n);
            assert(keep_char(t, '"', n + 1) == n);
            assert(trim_char(s, '"') =~= v);
        }
    }
}

proof fn lemma_value_for(fields: Seq<(Seq<char>, Seq<char>)>, key: Seq<char>)
    requires
        are_keys(fields),
        forall|i: int| 0 <= i < fields.len() && (#[trigger] fields[i]).0 == key ==> plain(
            fields[i].1,
        ),
    ensures
        value_for(seq![Seq::<char>::empty()] + line_list(fields), key) == field_value(fields, key),
    decreases fields.len(),
{
    let e = Seq::<char>::empty();
    let lines = seq![e] + line_list(fields);
    if fields.len() == 0 {
        assert(lines =~= seq![e]);
        assert(lines.drop_last() =~= Seq::<Seq<char>>::empty());
        assert(find_from(e, seq![':'], 0) is None) by {
            lemma_find_from(e, seq![':'], 0);
        }
        assert(lines.last() == e);
        assert(value_for(lines.drop_last(), key) is None);
    } else {
        let d = fields.drop_last();
        assert forall|i: int| 0 <= i < d.len() implies is_key((#[trigger] d[i]).0) && (d[i].0 == key
            ==> plain(d[i].1)) by {
            assert(d[i] == fields[i]);
        }
        lemma_value_for(d, key);
        lemma_field_on(fields.last());
        assert(lines.drop_last() =~= seq![e] + line_list(d));
        assert(lines.last() == field_line(fields.last()));
        assert(fields[fields.len() - 1] == fields.last());
    }
}

/// What a front matter says of book and chapter is read back, whatever follows
/// it, as long as both are plain.
pub proof fn front_matter_is_read_back(fields: Seq<(Seq<char>, Seq<char>)>, rest: Seq<char>)
    requires
        are_keys(fields),
        fields.len() > 0,
        forall|i: int|
            0 <= i < fields.len() && ((#[trigger] fields[i]).0 == "book"@ || fields[i].0
                == "chapter"@) ==> plain(fields[i].1),
    ensures
        origin(front(fields) + rest) == (match field_value(fields, "book"@) {
            Some(book) => Some(
                OriginView { book, chapter: field_value(fields, "chapter"@) },
            ),
            None => None,
        }),
{
    lemma_front_lines(fields, rest);
    lemma_value_for(fields, "book"@);
    lemma_value_for(fields, "chapter"@);
}

/// A text without its hyphens.
pub open spec fn unhyphened(s: Seq<char>) -> Seq<char> {
    s.filter(|c: char| c != '-')
}

proof fn lemma_unhyphened_add(a: Seq<char>, b: Seq<char>)
    ensures
        unhyphened(a + b) == unhyphened(a) + unhyphened(b),
{
    Seq::filter_distributes_over_add(a, b, |c: char| c != '-');
}

/// The letters and digits of a text, in small letters.
pub open spec fn letters_of(s: Seq<char>) -> Seq<char> {
    s.filter(|c: char| ascii_letter_or_digit(c)).map_values(|c: char| ascii_lower(c))
}

proof fn lemma_letters(s: Seq<char>)
    ensures
        unhyphened(hyphenated(s)) == letters_of(s),
    decreases s.len(),
{
    reveal(Seq::filter);
    if s.len() > 0 {
        let d = s.drop_last();
        let front = hyphenated(d);
        let c = s.last();
        lemma_letters(d);
        if ascii_letter_or_digit(c) {
            assert(front.push(ascii_lower(c)).drop_last() =~= front);
            assert(ascii_lower(c) != '-');
            assert(letters_of(s) =~= letters_of(d).push(ascii_lower(c)));
        } else if front.len() > 0 && front.last() != '-' {
            assert(front.push('-').drop_last() =~= front);
        }
    } else {
        assert(letters_of(s) =~= Seq::<char>::empty());
    }
}

/// A file's name has every letter and digit of the title that fits, in order and in
/// small letters.
pub proof fn a_name_spells_its_title(s: Seq<char>)
    requires
        hyphenated(s).len() <= SLUG_LENGTH,
        letters_of(s).len() > 0,
    ensures
        unhyphened(slug(s)) == letters_of(s),
{
    reveal(Seq::filter);
    let h = hyphenated(s);
    lemma_letters(s);
    lemma_trim_keeps(h);
    let name = trim_char(h, '-');
    lemma_trim_keeps(name);
    if name.len() == 0 {
        assert(unhyphened(name).len() == 0);
    }
}

/// Trimming hyphens leaves all else.
proof fn lemma_trim_keeps(s: Seq<char>)
    ensures
        unhyphened(trim_char(s, '-')) == unhyphened(s),
        trim_char(s, '-').len() <= s.len(),
{
    let a = skip_char(s, '-', 0);
    lemma_skip_all(s, 0);
    let t = s.subrange(a, s.len() as int);
    let n = t.len() as int;
    let z = keep_char(t, '-', n);
    lemma_keep_all(t, n);
    let left = s.subrange(0, a);
    let right = t.subrange(z, n);
    assert(s =~= left + t);
    assert(t =~= trim_char(s, '-') + right);
    lemma_unhyphened_add(left, t);
    lemma_unhyphened_add(trim_char(s, '-'), right);
    lemma_all_hyphens(left);
    lemma_all_hyphens(right);
    assert(unhyphened(s) =~= unhyphened(trim_char(s, '-')));
}

proof fn lemma_skip_all(s: Seq<char>, i: int)
    requires
        0 <= i <= s.len(),
    ensures
        i <= skip_char(s, '-', i) <= s.len(),
        forall|k: int| i <= k < skip_char(s, '-', i) ==> #[trigger] s[k] == '-',
    decreases s.len() - i,
{
    if i < s.len() && s[i] == '-' {
        lemma_skip_all(s, i + 1);
    }
}

proof fn lemma_keep_all(s: Seq<char>, n: int)
    requires
        0 <= n <= s.len(),
    ensures
        0 <= keep_char(s, '-', n) <= n,
        forall|k: int| keep_char(s, '-', n) <= k < n ==> #[trigger] s[k] == '-',
    decreases n,
{
    if n > 0 && s[n - 1] == '-' {
        lemma_keep_all(s, n - 1);
    }
}

proof fn lemma_all_hyphens(s: Seq<char>)
    requires
        forall|i: int| 0 <= i < s.len() ==> #[trigger] s[i] == '-',
    ensures
        unhyphened(s) == Seq::<char>::empty(),
    decreases s.len(),
{
    reveal(Seq::filter);
    if s.len() > 0 {
        let d = s.drop_last();
        assert forall|i: int| 0 <= i < d.len() implies #[trigger] d[i] == '-' by {
            assert(d[i] == s[i]);
        }
        lemma_all_hyphens(d);
        assert(s[s.len() - 1] == '-');
    }
}

/// The directory of a book begins with its title, and two books have different ones
/// wherever the part of their ids behind the name of the hash differs.
pub proof fn directories_tell_books_apart(title: Seq<char>, a: Seq<char>, b: Seq<char>)
    requires
        a.len() >= 15,
        b.len() >= 15,
    ensures
        book_slug(title, a) == slug(title) + "-"@ + a.subrange(7, 15),
        a.subrange(7, 15) != b.subrange(7, 15) ==> book_slug(title, a) != book_slug(title, b),
{
    let n = slug(title).len() + "-"@.len();
    assert(book_slug(title, a).skip(n as int) =~= a.subrange(7, 15));
    assert(book_slug(title, b).skip(n as int) =~= b.subrange(7, 15));
}

} // verus!
