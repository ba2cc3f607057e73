//! Where omalibre keeps its files, and the settings that point there.
//!
//! Three locations with three jobs, following the XDG base directories:
//!
//! - `~/.config/omalibre/config.toml` holds settings and belongs in version
//!   control.
//! - `~/.local/share/omalibre/` holds the read model, which is derived and may
//!   be deleted at any time.
//! - The journal directory holds the source of truth. It defaults to the data
//!   directory and should be moved to a synchronised folder when the reading
//!   position is meant to hold across machines.

use vstd::prelude::*;
use vstd::string::*;
use vstd::utf8::{encode_utf8, valid_utf8};
use crate::failure::{join, joined, Failure};
use crate::settings::{
    find_setting, parse_toml, parsed_toml, setting_of, setting_views, settings_result, Leaf,
    LeafView, Setting, SettingView,
};
use crate::text::{
    alphanumeric, char_views, chars_are, chars_of, copy_text, occurs_at, push_chars, push_text,
    same_chars, split, split_at, stands_at, sub_chars, text_of, text_opt, texts, trim, trimmed,
};

verus! {

// ---------------------------------------------------------------------------
// Components of a path
// ---------------------------------------------------------------------------
/// The named components of a path, in order. Repeated separators and `.` count
/// for nothing.
pub open spec fn names_of(path: Seq<char>) -> Seq<Seq<char>> {
    split_at(path, '/').filter(|part: Seq<char>| part.len() > 0 && part != "."@)
}

/// Whether a path starts at the root.
pub open spec fn is_rooted(path: Seq<char>) -> bool {
    path.len() > 0 && path[0] == '/'
}

/// Whether a path starts with `.`, the one place where that is a component.
pub open spec fn starts_here(path: Seq<char>) -> bool {
    split_at(path, '/')[0] == "."@
}

/// Whether two texts name the same path, component by component.
pub open spec fn paths_equal(a: Seq<char>, b: Seq<char>) -> bool {
    is_rooted(a) == is_rooted(b) && starts_here(a) == starts_here(b) && names_of(a) == names_of(b)
}

/// Takes a path apart into its named components.
fn names(parts: &Vec<Vec<char>>) -> (r: Vec<Vec<char>>)
    ensures
        char_views(r@) == char_views(parts@).filter(
            |part: Seq<char>| part.len() > 0 && part != "."@,
        ),
{
    reveal(Seq::filter);
    let ghost named = |part: Seq<char>| part.len() > 0 && part != "."@;
    let ghost all = char_views(parts@);
    let mut out: Vec<Vec<char>> = Vec::new();
    let mut i: usize = 0;
    assert(char_views(out@) =~= all.take(0).filter(named));
    while i < parts.len()
        invariant
            i <= parts@.len(),
            all == char_views(parts@),
            named == |part: Seq<char>| part.len() > 0 && part != "."@,
            char_views(out@) == all.take(i as int).filter(named),
        decreases parts@.len() - i,
    {
        reveal(Seq::filter);
        let part = &parts[i];
        let ghost before = char_views(out@);
        assert(all[i as int] == part@);
        assert(all.take(i + 1).drop_last() =~= all.take(i as int));
        if part.len() > 0 && !chars_are(part, ".") {
            let name = sub_chars(part, 0, part.len());
            assert(name@ =~= part@);
            out.push(name);
            assert(char_views(out@) =~= before.push(part@));
        }
        i += 1;
    }
    assert(all.take(all.len() as int) =~= all);
    out
}

/// Compares two paths component by component, as a file system with `/` for its
/// separator does.
pub(crate) fn same_path(a: &str, b: &str) -> (r: bool)
    ensures
        r == paths_equal(a@, b@),
{
    let x = chars_of(a);
    let y = chars_of(b);
    if (x.len() > 0 && x[0] == '/') != (y.len() > 0 && y[0] == '/') {
        return false;
    }
    let xs = split(&x, '/');
    let ys = split(&y, '/');
    assert(char_views(xs@)[0] == xs@[0]@ && char_views(ys@)[0] == ys@[0]@);
    if chars_are(&xs[0], ".") != chars_are(&ys[0], ".") {
        return false;
    }
    let p = names(&xs);
    let q = names(&ys);
    assert(char_views(p@) == names_of(a@) && char_views(q@) == names_of(b@));
    assert(char_views(p@).len() == p@.len() && char_views(q@).len() == q@.len());
    if p.len() != q.len() {
        return false;
    }
    let mut i: usize = 0;
    while i < p.len()
        invariant
            i <= p@.len() == q@.len(),
            char_views(p@) == names_of(a@),
            char_views(q@) == names_of(b@),
            forall|k: int| 0 <= k < i ==> (#[trigger] p@[k])@ == q@[k]@,
        decreases p@.len() - i,
    {
        if !same_chars(&p[i], &q[i]) {
            assert(char_views(p@)[i as int] != char_views(q@)[i as int]);
            return false;
        }
        i += 1;
    }
    assert(char_views(p@) =~= char_views(q@));
    true
}

/// The last component of a path, if that is a name.
pub open spec fn file_name_of(path: Seq<char>) -> Option<Seq<char>> {
    let names = names_of(path);
    if names.len() == 0 || names.last() == ".."@ {
        None
    } else {
        Some(names.last())
    }
}

/// The last component of a path, if that is a name: there may be none, and `..`
/// is none.
fn last_name(path: &str) -> (r: Option<Vec<char>>)
    ensures
        (match r {
            Some(v) => Some(v@),
            None => None,
        }) == file_name_of(path@),
{
    let v = chars_of(path);
    let parts = split(&v, '/');
    let all = names(&parts);
    let n = all.len();
    assert(char_views(all@) == names_of(path@));
    assert(char_views(all@).len() == n);
    if n == 0 {
        return None;
    }
    let last = &all[n - 1];
    assert(names_of(path@).last() == last@);
    if chars_are(last, "..") {
        return None;
    }
    let name = sub_chars(last, 0, last.len());
    assert(name@ =~= last@);
    Some(name)
}

pub(crate) fn file_name(path: &str) -> (r: Option<String>)
    ensures
        text_opt(r) == file_name_of(path@),
{
    match last_name(path) {
        Some(v) => Some(text_of(&v)),
        None => None,
    }
}

/// The position of the last dot before `i`, or -1.
pub open spec fn last_dot(name: Seq<char>, i: int) -> int
    decreases i,
{
    if i <= 0 {
        -1
    } else if name[i - 1] == '.' {
        i - 1
    } else {
        last_dot(name, i - 1)
    }
}

/// The last component of a path without its extension. A dot in front of the name
/// starts none.
pub open spec fn stem_of(path: Seq<char>) -> Option<Seq<char>> {
    match file_name_of(path) {
        Some(name) => {
            let dot = last_dot(name, name.len() as int);
            if dot <= 0 {
                Some(name)
            } else {
                Some(name.take(dot))
            }
        },
        None => None,
    }
}

/// Where the extension of a name begins: at its last dot, unless that stands in
/// front.
fn extension_dot(name: &Vec<char>) -> (r: Option<usize>)
    ensures
        match r {
            Some(dot) => dot == last_dot(name@, name@.len() as int) && 0 < dot < name@.len(),
            None => last_dot(name@, name@.len() as int) <= 0,
        },
{
    let mut i: usize = name.len();
    while i > 0 && name[i - 1] != '.'
        invariant
            i <= name@.len(),
            last_dot(name@, name@.len() as int) == last_dot(name@, i as int),
        decreases i,
    {
        i -= 1;
    }
    if i > 1 {
        Some(i - 1)
    } else {
        None
    }
}

pub(crate) fn file_stem(path: &str) -> (r: Option<String>)
    ensures
        text_opt(r) == stem_of(path@),
{
    match last_name(path) {
        Some(name) => match extension_dot(&name) {
            Some(dot) => {
                let stem = sub_chars(&name, 0, dot);
                assert(stem@ =~= name@.take(dot as int));
                Some(text_of(&stem))
            },
            None => Some(text_of(&name)),
        },
        None => None,
    }
}

/// The extension of a path's last component.
pub open spec fn extension_of(path: Seq<char>) -> Option<Seq<char>> {
    match file_name_of(path) {
        Some(name) => {
            let dot = last_dot(name, name.len() as int);
            if dot <= 0 {
                None
            } else {
                Some(name.skip(dot + 1))
            }
        },
        None => None,
    }
}

pub(crate) fn extension(path: &str) -> (r: Option<String>)
    ensures
        text_opt(r) == extension_of(path@),
{
    match last_name(path) {
        Some(name) => match extension_dot(&name) {
            Some(dot) => {
                let n = name.len();
                let tail = sub_chars(&name, dot + 1, n);
                assert(tail@ =~= name@.skip(dot + 1));
                Some(text_of(&tail))
            },
            None => None,
        },
        None => None,
    }
}

/// The path without its last component.
pub uninterp spec fn parent_of(path: Seq<char>) -> Option<Seq<char>>;

/// Whether a path has the components of another but the last.
pub open spec fn lies_above(parent: Seq<char>, path: Seq<char>) -> bool {
    names_of(path).len() > 0 ==> names_of(parent) == names_of(path).drop_last() && is_rooted(parent)
        == is_rooted(path)
}

/// `Path::parent`. Claims that its text depends on the path alone, that it has the
/// components of the path but the last, and that only the root and the empty path
/// have none. How the separators in front of the last component are written in
/// that text is left unsaid.
#[verifier::external_body]
pub(crate) fn parent(path: &str) -> (r: Option<String>)
    ensures
        text_opt(r) == parent_of(path@),
        (r is None) == (names_of(path@).len() == 0 && !starts_here(path@)),
        r matches Some(p) ==> lies_above(p@, path@),
{
    std::path::Path::new(path).parent().map(|s| s.to_string_lossy().into_owned())
}

/// The directory a file lies in; the empty path at the top.
pub open spec fn directory_of(path: Seq<char>) -> Seq<char> {
    match parent_of(path) {
        Some(p) => p,
        None => Seq::empty(),
    }
}

/// The directory a file lies in.
pub fn directory(path: &str) -> (r: String)
    ensures
        r@ == directory_of(path@),
{
    match parent(path) {
        Some(p) => p,
        None => {
            let s = String::new();
            assert(s@ =~= Seq::<char>::empty());
            s
        },
    }
}

/// A path below a directory. An absolute path stands on its own.
pub open spec fn path_joined(base: Seq<char>, path: Seq<char>) -> Seq<char> {
    if (path.len() > 0 && path[0] == '/') || base.len() == 0 {
        path
    } else if base.last() == '/' {
        base + path
    } else {
        base + "/"@ + path
    }
}

/// Puts a path below a directory.
pub fn join_path(base: &str, path: &str) -> (r: String)
    ensures
        r@ == path_joined(base@, path@),
{
    let b = chars_of(base);
    let p = chars_of(path);
    if (p.len() > 0 && p[0] == '/') || b.len() == 0 {
        return text_of(&p);
    }
    let slash = b[b.len() - 1] == '/';
    let mut out = b;
    if !slash {
        push_text(&mut out, "/");
    }
    push_chars(&mut out, &p);
    text_of(&out)
}

// ---------------------------------------------------------------------------
// Paths inside a container
// ---------------------------------------------------------------------------
/// Path components with `.` dropped and `..` taking back what stands before it.
pub open spec fn dots_resolved(parts: Seq<Seq<char>>) -> Seq<Seq<char>>
    decreases parts.len(),
{
    if parts.len() == 0 {
        Seq::empty()
    } else {
        let front = dots_resolved(parts.drop_last());
        let part = parts.last();
        if part == ""@ || part == "."@ {
            front
        } else if part == ".."@ {
            if front.len() == 0 {
                front
            } else {
                front.drop_last()
            }
        } else {
            front.push(part)
        }
    }
}

/// A path without empty components, `.` and `..`.
pub open spec fn tidied(path: Seq<char>) -> Seq<char> {
    joined(dots_resolved(split_at(path, '/')), "/"@)
}

/// What is left of a path names neither the directory itself nor its parent.
pub proof fn tidying_leaves_no_dots(parts: Seq<Seq<char>>, i: int)
    requires
        0 <= i < dots_resolved(parts).len(),
    ensures
        dots_resolved(parts)[i] != ""@,
        dots_resolved(parts)[i] != "."@,
        dots_resolved(parts)[i] != ".."@,
    decreases parts.len(),
{
    let front = dots_resolved(parts.drop_last());
    if i < front.len() {
        tidying_leaves_no_dots(parts.drop_last(), i);
    }
}

/// Collapses `.` and `..` without touching the filesystem.
pub fn tidy_path(path: &Vec<char>) -> (r: String)
    ensures
        r@ == tidied(path@),
{
    let parts = split(path, '/');
    let ghost all = char_views(parts@);
    let mut kept: Vec<String> = Vec::new();
    let mut i: usize = 0;
    assert(all.take(0) =~= Seq::<Seq<char>>::empty());
    assert(texts(kept@) =~= Seq::<Seq<char>>::empty());
    while i < parts.len()
        invariant
            i <= parts@.len(),
            all == char_views(parts@),
            texts(kept@) == dots_resolved(all.take(i as int)),
        decreases parts@.len() - i,
    {
        let part = &parts[i];
        let ghost before = texts(kept@);
        assert(all.take(i + 1).drop_last() =~= all.take(i as int));
        assert(all[i as int] == part@);
        if chars_are(part, "") || chars_are(part, ".") {
        } else if chars_are(part, "..") {
            if kept.len() > 0 {
                kept.pop();
                assert(texts(kept@) =~= before.drop_last());
            }
        } else {
            kept.push(text_of(part));
            assert(texts(kept@) =~= before.push(part@));
        }
        i += 1;
    }
    assert(all.take(all.len() as int) =~= all);
    join(&kept, "/")
}

/// A reference without its fragment.
pub open spec fn before_hash(s: Seq<char>) -> Seq<char> {
    split_at(s, '#')[0]
}

/// Drops the fragment of a reference.
pub fn drop_fragment(v: &Vec<char>) -> (r: Vec<char>)
    ensures
        r@ == before_hash(v@),
{
    let parts = split(v, '#');
    assert(char_views(parts@)[0] == parts@[0]@);
    let n = parts[0].len();
    assert(parts@[0]@.subrange(0, n as int) =~= parts@[0]@);
    sub_chars(&parts[0], 0, n)
}

/// The text that bytes stand for, with invalid sequences replaced.
pub uninterp spec fn utf8_lossy(bytes: Seq<u8>) -> Seq<char>;

/// `String::from_utf8_lossy`. Claims that the text depends on the bytes alone,
/// and that valid UTF-8 decodes to the text it encodes.
#[verifier::external_body]
pub(crate) fn lossy_text(bytes: &[u8]) -> (r: String)
    ensures
        r@ == utf8_lossy(bytes@),
        valid_utf8(bytes@) ==> encode_utf8(r@) == bytes@,
{
    String::from_utf8_lossy(bytes).into_owned()
}

/// Decodes bytes as UTF-8, replacing invalid sequences rather than failing.
pub fn decode(bytes: &Vec<u8>) -> (r: String)
    ensures
        r@ == utf8_lossy(bytes@),
        valid_utf8(bytes@) ==> encode_utf8(r@) == bytes@,
{
    lossy_text(bytes.as_slice())
}

/// The value of a hexadecimal digit.
pub open spec fn hex_value(b: u8) -> Option<int> {
    if 48 <= b <= 57 {
        Some(b - 48)
    } else if 97 <= b <= 102 {
        Some(b - 87)
    } else if 65 <= b <= 70 {
        Some(b - 55)
    } else {
        None
    }
}

/// The byte that two characters behind a percent sign stand for. A plus sign in
/// front of a digit counts as a sign.
pub open spec fn escape_value(high: u8, low: u8) -> Option<int> {
    match (hex_value(high), hex_value(low)) {
        (Some(h), Some(l)) => Some(16 * h + l),
        (None, Some(l)) => if high == 43 {
            Some(l)
        } else {
            None
        },
        _ => None,
    }
}

/// The bytes from `i` on with percent escapes resolved.
pub open spec fn unescaped(b: Seq<u8>, i: int) -> Seq<u8>
    decreases b.len() - i,
{
    if i < 0 || i >= b.len() {
        Seq::empty()
    } else if b[i] == 37 && i + 2 < b.len() && escape_value(b[i + 1], b[i + 2]) is Some {
        seq![escape_value(b[i + 1], b[i + 2])->0 as u8] + unescaped(b, i + 3)
    } else {
        seq![b[i]] + unescaped(b, i + 1)
    }
}

/// A text with percent escapes resolved.
pub open spec fn percent_decoded(s: Seq<char>) -> Seq<char> {
    utf8_lossy(unescaped(encode_utf8(s), 0))
}

fn hex_digit_value(b: u8) -> (r: Option<u8>)
    ensures
        r is Some <==> hex_value(b) is Some,
        r matches Some(v) ==> hex_value(b) == Some(v as int) && v < 16,
{
    if 48 <= b && b <= 57 {
        Some(b - 48)
    } else if 97 <= b && b <= 102 {
        Some(b - 87)
    } else if 65 <= b && b <= 70 {
        Some(b - 55)
    } else {
        None
    }
}

fn escape_byte(high: u8, low: u8) -> (r: Option<u8>)
    ensures
        r is Some <==> escape_value(high, low) is Some,
        r matches Some(v) ==> escape_value(high, low) == Some(v as int),
{
    match (hex_digit_value(high), hex_digit_value(low)) {
        (Some(h), Some(l)) => Some(16 * h + l),
        (None, Some(l)) => if high == 43 {
            Some(l)
        } else {
            None
        },
        _ => None,
    }
}

/// Resolves percent escapes.
pub fn percent_decode(text: &str) -> (r: String)
    ensures
        r@ == percent_decoded(text@),
{
    let bytes = text.as_bytes();
    let mut out: Vec<u8> = Vec::new();
    let mut i: usize = 0;
    let n = bytes.len();
    let ghost all = bytes@;
    assert(out@ + unescaped(all, 0) =~= unescaped(all, 0));
    while i < n
        invariant
            i <= n,
            n == all.len(),
            all == bytes@,
            out@ + unescaped(all, i as int) == unescaped(all, 0),
        decreases n - i,
    {
        let ghost before = out@;
        let ghost at = i as int;
        let b = bytes[i];
        let mut step: usize = 1;
        let mut byte = b;
        if b == 37 && n - i > 2 {
            if let Some(v) = escape_byte(bytes[i + 1], bytes[i + 2]) {
                byte = v;
                step = 3;
            }
        }
        out.push(byte);
        i += step;
        assert(before + (seq![byte] + unescaped(all, at + step)) =~= out@ + unescaped(
            all,
            at + step,
        ));
    }
    assert(out@ + Seq::<u8>::empty() =~= out@);
    lossy_text(out.as_slice())
}

/// An href of the package document, seen from the container root and without
/// its fragment.
pub open spec fn normalized(root: Seq<char>, href: Seq<char>) -> Seq<char> {
    tidied(path_joined(root, percent_decoded(before_hash(href))))
}

/// Resolves an href from the package document against the container root and
/// strips any fragment.
pub fn normalize(root: &str, href: &str) -> (r: String)
    ensures
        r@ == normalized(root@, href@),
{
    let v = chars_of(href);
    let plain = drop_fragment(&v);
    let text = text_of(&plain);
    let decoded = percent_decode(&text);
    let whole = join_path(root, &decoded);
    let w = chars_of(&whole);
    tidy_path(&w)
}

/// A reference inside a chapter, seen from the container root and without its
/// fragment.
pub open spec fn resolved(base: Seq<char>, href: Seq<char>) -> Seq<char> {
    let h = before_hash(href);
    if base.len() == 0 || (h.len() > 0 && h[0] == '/') {
        tidied(h)
    } else {
        tidied(base + "/"@ + h)
    }
}

/// Resolves a relative path against the chapter's directory, collapsing `.`
/// and `..` without touching the filesystem.
pub fn resolve(base: &str, href: &str) -> (r: String)
    ensures
        r@ == resolved(base@, href@),
{
    let v = chars_of(href);
    let h = drop_fragment(&v);
    if base.is_empty() || (h.len() > 0 && h[0] == '/') {
        return tidy_path(&h);
    }
    let mut whole = chars_of(base);
    push_text(&mut whole, "/");
    push_chars(&mut whole, &h);
    tidy_path(&whole)
}

// ---------------------------------------------------------------------------
// Settings
// ---------------------------------------------------------------------------
#[derive(Debug)]
pub struct Config {
    /// Directory holding the journal files. One file per machine.
    pub journal_dir: Option<String>,
    /// Maximum reading width in columns. `None` uses the full window.
    pub max_width: Option<u16>,
    /// How to draw pictures: `kitty`, `sixel` or `half-blocks`. `None` asks the
    /// terminal.
    pub images: Option<String>,
}

#[verifier::ext_equal]
pub struct ConfigView {
    pub journal_dir: Option<Seq<char>>,
    pub max_width: Option<u16>,
    pub images: Option<Seq<char>>,
}

impl View for Config {
    type V = ConfigView;

    open spec fn view(&self) -> ConfigView {
        ConfigView {
            journal_dir: text_opt(self.journal_dir),
            max_width: self.max_width,
            images: text_opt(self.images),
        }
    }
}

/// Nothing is configured.
pub open spec fn no_config() -> ConfigView {
    ConfigView { journal_dir: None, max_width: None, images: None }
}

impl Default for Config {
    fn default() -> (r: Self)
        ensures
            r@ == no_config(),
    {
        Config { journal_dir: None, max_width: None, images: None }
    }
}

/// A setting that has to be a text: missing, there, or of the wrong kind.
pub open spec fn text_setting(
    s: Seq<(Seq<char>, SettingView)>,
    name: Seq<char>,
) -> Option<Option<Seq<char>>> {
    match setting_of(s, name) {
        None => Some(None),
        Some(SettingView::Leaf(LeafView::Text(t))) => Some(Some(t)),
        Some(_) => None,
    }
}

/// A setting that has to be a number of columns.
pub open spec fn columns_setting(
    s: Seq<(Seq<char>, SettingView)>,
    name: Seq<char>,
) -> Option<Option<u16>> {
    match setting_of(s, name) {
        None => Some(None),
        Some(SettingView::Leaf(LeafView::Integer(n))) => if 0 <= n <= u16::MAX {
            Some(Some(n as u16))
        } else {
            None
        },
        Some(_) => None,
    }
}

/// What is reported of a setting of the wrong kind.
pub open spec fn misfit(name: Seq<char>) -> Seq<Seq<char>> {
    seq!["invalid value for "@ + name]
}

/// The configuration that settings give, or what is wrong with them.
pub open spec fn config_of(file: Result<Seq<(Seq<char>, SettingView)>, Seq<char>>) -> Result<
    ConfigView,
    Seq<Seq<char>>,
> {
    match file {
        Err(m) => Err(seq![m]),
        Ok(s) => match text_setting(s, "journal_dir"@) {
            None => Err(misfit("journal_dir"@)),
            Some(journal_dir) => match columns_setting(s, "max_width"@) {
                None => Err(misfit("max_width"@)),
                Some(max_width) => match text_setting(s, "images"@) {
                    None => Err(misfit("images"@)),
                    Some(images) => Ok(ConfigView { journal_dir, max_width, images }),
                },
            },
        },
    }
}

fn read_text(s: &Vec<(String, Setting)>, name: &str) -> (r: Result<Option<String>, Failure>)
    ensures
        match text_setting(setting_views(s@), name@) {
            None => r matches Err(e) && e@ == misfit(name@),
            Some(t) => r matches Ok(o) && text_opt(o) == t,
        },
{
    match find_setting(s, name) {
        None => Ok(None),
        Some(Setting::Leaf(Leaf::Text(t))) => Ok(Some(t.clone())),
        Some(_) => Err(report_misfit(name)),
    }
}

fn report_misfit(name: &str) -> (r: Failure)
    ensures
        r@ == misfit(name@),
{
    let mut text = chars_of("invalid value for ");
    push_text(&mut text, name);
    Failure::new(text_of(&text))
}

fn read_columns(s: &Vec<(String, Setting)>, name: &str) -> (r: Result<Option<u16>, Failure>)
    ensures
        match columns_setting(setting_views(s@), name@) {
            None => r matches Err(e) && e@ == misfit(name@),
            Some(t) => r matches Ok(o) && o == t,
        },
{
    match find_setting(s, name) {
        None => Ok(None),
        Some(Setting::Leaf(Leaf::Integer(n))) => if 0 <= *n && *n <= 65535 {
            Ok(Some(*n as u16))
        } else {
            Err(report_misfit(name))
        },
        Some(_) => Err(report_misfit(name)),
    }
}

/// The configuration that parsed settings give.
pub fn read_config(file: Result<Vec<(String, Setting)>, String>) -> (r: Result<Config, Failure>)
    ensures
        match config_of(settings_result(file)) {
            Ok(c) => r matches Ok(config) && config@ == c,
            Err(report) => r matches Err(e) && e@ == report,
        },
{
    let s = match file {
        Ok(s) => s,
        Err(m) => {
            return Err(Failure::new(m));
        },
    };
    let journal_dir = match read_text(&s, "journal_dir") {
        Ok(v) => v,
        Err(e) => {
            return Err(e);
        },
    };
    let max_width = match read_columns(&s, "max_width") {
        Ok(v) => v,
        Err(e) => {
            return Err(e);
        },
    };
    let images = match read_text(&s, "images") {
        Ok(v) => v,
        Err(e) => {
            return Err(e);
        },
    };
    Ok(Config { journal_dir, max_width, images })
}

/// A path with a leading `~/` replaced by the home directory, where that is
/// known.
pub open spec fn tilde_expanded(path: Seq<char>, home: Option<Seq<char>>) -> Seq<char> {
    if occurs_at(path, "~/"@, 0) && home is Some {
        path_joined(home->0, path.skip(2))
    } else {
        path
    }
}

fn expand_tilde(path: &str, home: Option<&str>) -> (r: String)
    ensures
        r@ == tilde_expanded(path@, crate::xml::slice_opt(home)),
{
    let v = chars_of(path);
    let p = chars_of("~/");
    proof {
        reveal_strlit("~/");
    }
    if stands_at(&v, &p, 0) {
        if let Some(h) = home {
            let rest = sub_chars(&v, 2, v.len());
            assert(rest@ =~= path@.skip(2));
            let rest = text_of(&rest);
            return join_path(h, &rest);
        }
    }
    text_of(&v)
}

/// A directory of ours below one of the base directories.
pub open spec fn own_dir(base: Option<Seq<char>>) -> Option<Seq<char>> {
    match base {
        Some(b) => Some(path_joined(b, "omalibre"@)),
        None => None,
    }
}

/// Derived data: the read model and anything else that can be rebuilt. `base` is
/// the user's data directory.
pub fn data_dir(base: Option<&str>) -> (r: Result<String, Failure>)
    ensures
        match own_dir(crate::xml::slice_opt(base)) {
            Some(d) => r matches Ok(s) && s@ == d,
            None => r matches Err(e) && e@ == seq!["cannot determine the data directory"@],
        },
{
    match base {
        Some(b) => Ok(join_path(b, "omalibre")),
        None => Err(Failure::new(copy_text("cannot determine the data directory"))),
    }
}

/// The settings file. `base` is the user's configuration directory.
pub fn config_file(base: Option<&str>) -> (r: Result<String, Failure>)
    ensures
        match own_dir(crate::xml::slice_opt(base)) {
            Some(d) => r matches Ok(s) && s@ == path_joined(d, "config.toml"@),
            None => r matches Err(e) && e@ == seq!["cannot determine the configuration directory"@],
        },
{
    match base {
        Some(b) => {
            let dir = join_path(b, "omalibre");
            Ok(join_path(&dir, "config.toml"))
        },
        None => Err(Failure::new(copy_text("cannot determine the configuration directory"))),
    }
}

/// A private directory for short-lived files handed to another program.
///
/// The shared temporary directory will not do. A file there is readable by
/// every account on the machine, and the note handed to an editor carries both
/// what the reader wrote and the passage it belongs to. The runtime directory is
/// per-user. Where it is absent, the data directory serves: it sits under the
/// home directory rather than in a world-writable one.
pub fn scratch_dir(runtime: Option<&str>, data: Option<&str>) -> (r: Result<String, Failure>)
    ensures
        match own_dir(crate::xml::slice_opt(runtime)) {
            Some(d) => r matches Ok(s) && s@ == d,
            None => match own_dir(crate::xml::slice_opt(data)) {
                Some(d) => r matches Ok(s) && s@ == path_joined(d, "scratch"@),
                None => r matches Err(e) && e@ == seq!["cannot determine the data directory"@],
            },
        },
{
    match runtime {
        Some(b) => Ok(join_path(b, "omalibre")),
        None => match data_dir(data) {
            Ok(d) => Ok(join_path(&d, "scratch")),
            Err(e) => Err(e),
        },
    }
}

/// Where the journal lies: where the settings say, or below the data directory.
pub open spec fn journal_place(
    config: ConfigView,
    home: Option<Seq<char>>,
    data: Option<Seq<char>>,
) -> Option<Seq<char>> {
    match config.journal_dir {
        Some(dir) => Some(tilde_expanded(dir, home)),
        None => match own_dir(data) {
            Some(d) => Some(path_joined(d, "journal"@)),
            None => None,
        },
    }
}

/// A commented starter file for the settings.
pub open spec fn starter_text(journal: Seq<char>) -> Seq<char> {
    "# omalibre settings\n\n# Where the journal lives. It is the source of truth for reading\n# positions and annotations. Point this at a synchronised folder to\n# carry your reading position between machines. Each machine writes\n# only its own file, so no conflict can arise.\n# journal_dir = \""@
        + journal
        + "\"\n\n# Reading width in columns. Comment out to use the full window.\n# max_width = 66\n\n# How pictures are drawn. Left out, the terminal is asked and the\n# best of kitty, sixel and half-blocks is used. Inside tmux only\n# half-blocks work, because tmux manages the screen itself.\n# images = \"sixel\"\n"@
}

impl Config {
    /// Reads the settings file. `shown` is the name it goes by in a report.
    pub fn parse(text: &str, shown: &str) -> (r: Result<Self, Failure>)
        ensures
            match config_of(parsed_toml(text@)) {
                Ok(c) => r matches Ok(config) && config@ == c,
                Err(report) => r matches Err(e) && e@ == seq![shown@ + " is malformed"@] + report,
            },
    {
        match read_config(parse_toml(text)) {
            Ok(c) => Ok(c),
            Err(e) => {
                let mut message = chars_of(shown);
                push_text(&mut message, " is malformed");
                Err(e.context(text_of(&message)))
            },
        }
    }

    /// The directory of the journal. `home` and `data` are the user's home and
    /// data directories, as far as they are known.
    pub fn journal_dir(&self, home: Option<&str>, data: Option<&str>) -> (r: Result<String, Failure>)
        ensures
            match journal_place(
                self@,
                crate::xml::slice_opt(home),
                crate::xml::slice_opt(data),
            ) {
                Some(d) => r matches Ok(s) && s@ == d,
                None => r matches Err(e) && e@ == seq!["cannot determine the data directory"@],
            },
    {
        match &self.journal_dir {
            Some(dir) => Ok(expand_tilde(dir, home)),
            None => match data_dir(data) {
                Ok(d) => Ok(join_path(&d, "journal")),
                Err(e) => Err(e),
            },
        }
    }

    /// A commented starter file, with the place the journal has by default.
    pub fn starter(default_journal: &str) -> (r: String)
        ensures
            r@ == starter_text(default_journal@),
    {
        let mut out = chars_of(
            "# omalibre settings\n\n# Where the journal lives. It is the source of truth for reading\n# positions and annotations. Point this at a synchronised folder to\n# carry your reading position between machines. Each machine writes\n# only its own file, so no conflict can arise.\n# journal_dir = \"",
        );
        push_text(&mut out, default_journal);
        push_text(
            &mut out,
            "\"\n\n# Reading width in columns. Comment out to use the full window.\n# max_width = 66\n\n# How pictures are drawn. Left out, the terminal is asked and the\n# best of kitty, sixel and half-blocks is used. Inside tmux only\n# half-blocks work, because tmux manages the screen itself.\n# images = \"sixel\"\n",
        );
        text_of(&out)
    }
}

// ---------------------------------------------------------------------------
// The machine's name
// ---------------------------------------------------------------------------
/// A character that is safe in a file name.
pub open spec fn safe_char(c: char) -> char {
    if alphanumeric(c) || c == '-' {
        c
    } else {
        '_'
    }
}

/// The name a machine goes by in the journal.
pub open spec fn machine_name(raw: Seq<char>) -> Seq<char> {
    let t = trim(raw);
    if t.len() == 0 {
        "unknown-host"@
    } else {
        t.map_values(|c: char| safe_char(c))
    }
}

/// The name is never empty, and holds nothing but letters, digits, `-` and `_`.
pub proof fn the_machine_name_is_usable_in_a_filename(raw: Seq<char>, i: int)
    ensures
        machine_name(raw).len() > 0,
        trim(raw).len() > 0 && 0 <= i < machine_name(raw).len() ==> alphanumeric(
            machine_name(raw)[i],
        ) || machine_name(raw)[i] == '-' || machine_name(raw)[i] == '_',
{
    reveal_strlit("unknown-host");
}

/// Name of this machine, used to name its journal file. Falls back to a fixed
/// name so a missing hostname never loses events.
pub fn hostname(raw: &str) -> (r: String)
    ensures
        r@ == machine_name(raw@),
{
    let v = chars_of(raw);
    let t = trimmed(&v);
    if t.len() == 0 {
        return copy_text("unknown-host");
    }
    let mut out: Vec<char> = Vec::new();
    let mut i: usize = 0;
    while i < t.len()
        invariant
            i <= t@.len(),
            out@.len() == i,
            forall|k: int| 0 <= k < i ==> #[trigger] out@[k] == safe_char(t@[k]),
        decreases t@.len() - i,
    {
        let c = t[i];
        if c.is_alphanumeric() || c == '-' {
            out.push(c);
        } else {
            out.push('_');
        }
        i += 1;
    }
    assert(out@ =~= machine_name(raw@));
    text_of(&out)
}

/// Whether a file in the journal directory is a journal.
pub fn is_journal_file(path: &str) -> (r: bool)
    ensures
        r == (extension_of(path@) == Some("jsonl"@)),
{
    match extension(path) {
        Some(e) => {
            let v = chars_of(&e);
            chars_are(&v, "jsonl")
        },
        None => false,
    }
}

// ---------------------------------------------------------------------------
// What holds of every path
// ---------------------------------------------------------------------------
/// A component that names something.
pub open spec fn is_name(part: Seq<char>) -> bool {
    part.len() > 0 && part != seq!['.'] && part != seq!['.', '.']
}

proof fn lemma_dots()
    ensures
        ""@ == Seq::<char>::empty(),
        "."@ == seq!['.'],
        ".."@ == seq!['.', '.'],
{
    reveal_strlit("");
    reveal_strlit(".");
    reveal_strlit("..");
    assert(""@ =~= Seq::<char>::empty());
    assert("."@ =~= seq!['.']);
    assert(".."@ =~= seq!['.', '.']);
}

/// What follows is resolved against what is left of what stands before.
proof fn lemma_dots_after(a: Seq<Seq<char>>, b: Seq<Seq<char>>, rest: Seq<Seq<char>>)
    requires
        dots_resolved(a) == dots_resolved(b),
    ensures
        dots_resolved(a + rest) == dots_resolved(b + rest),
    decreases rest.len(),
{
    if rest.len() == 0 {
        assert(a + rest =~= a);
        assert(b + rest =~= b);
    } else {
        lemma_dots_after(a, b, rest.drop_last());
        assert((a + rest).drop_last() =~= a + rest.drop_last());
        assert((b + rest).drop_last() =~= b + rest.drop_last());
    }
}

/// A name followed by `..` leads back to where it was, and `.` and an empty
/// component lead nowhere.
pub proof fn going_up_takes_a_name_back(
    a: Seq<Seq<char>>,
    name: Seq<char>,
    rest: Seq<Seq<char>>,
)
    requires
        is_name(name),
    ensures
        dots_resolved(a + seq![name, seq!['.', '.']] + rest) == dots_resolved(a + rest),
        dots_resolved(a + seq![seq!['.']] + rest) == dots_resolved(a + rest),
        dots_resolved(a + seq![Seq::<char>::empty()] + rest) == dots_resolved(a + rest),
{
    lemma_dots();
    let up = seq![name, seq!['.', '.']];
    let x = a + up;
    assert(x.drop_last() =~= a.push(name));
    assert(a.push(name).drop_last() =~= a);
    assert(dots_resolved(a.push(name)) =~= dots_resolved(a).push(name)) by {
        assert(name != ""@);
    }
    assert(x.last() == seq!['.', '.']);
    assert(seq!['.', '.'].len() == 2 && seq!['.'].len() == 1);
    assert(dots_resolved(x) =~= dots_resolved(a));
    lemma_dots_after(x, a, rest);
    let y = a + seq![seq!['.']];
    assert(y.drop_last() =~= a);
    lemma_dots_after(y, a, rest);
    let z = a + seq![Seq::<char>::empty()];
    assert(z.drop_last() =~= a);
    lemma_dots_after(z, a, rest);
}

/// A path of names alone stays as it is.
pub proof fn names_are_kept(parts: Seq<Seq<char>>)
    requires
        forall|i: int| 0 <= i < parts.len() ==> is_name(#[trigger] parts[i]),
    ensures
        dots_resolved(parts) == parts,
    decreases parts.len(),
{
    lemma_dots();
    if parts.len() > 0 {
        let d = parts.drop_last();
        assert forall|i: int| 0 <= i < d.len() implies is_name(#[trigger] d[i]) by {
            assert(d[i] == parts[i]);
        }
        names_are_kept(d);
        assert(is_name(parts[parts.len() - 1]));
        assert(parts =~= d.push(parts.last()));
    } else {
        assert(dots_resolved(parts) =~= parts);
    }
}

/// A reference is resolved component by component against the directory it stands
/// in, and one that starts at the root against nothing. Its fragment plays no part.
pub proof fn references_are_resolved_in_their_directory(
    base: Seq<char>,
    href: Seq<char>,
    fragment: Seq<char>,
)
    requires
        !href.contains('#'),
    ensures
        resolved(base, href.push('#') + fragment) == resolved(base, href),
        base.len() > 0 && !(href.len() > 0 && href[0] == '/') ==> resolved(base, href) == joined(
            dots_resolved(split_at(base, '/') + split_at(href, '/')),
            "/"@,
        ),
        href.len() > 0 && href[0] == '/' ==> resolved(base, href) == resolved(Seq::empty(), href),
{
    crate::text::splitting_parts_at_every_separator(href, '#', fragment);
    crate::text::splitting_needs_a_separator(href, '#');
    assert(before_hash(href) == href);
    assert(before_hash(href.push('#') + fragment) == href);
    crate::text::splitting_parts_at_every_separator(base, '/', href);
    reveal_strlit("/");
    assert(base + "/"@ + href =~= base.push('/') + href);
}

/// The code of a hexadecimal digit.
pub open spec fn digit_code(v: int, capital: bool) -> int {
    if v < 10 {
        48 + v
    } else if capital {
        55 + v
    } else {
        87 + v
    }
}

/// A percent sign with two hexadecimal digits stands for the byte of that value, in
/// capitals or not, and what stands before it is kept where it has no such sign.
pub proof fn escapes_stand_for_their_byte(
    before: Seq<u8>,
    h: int,
    l: int,
    capital: bool,
    after: Seq<u8>,
)
    requires
        0 <= h < 16,
        0 <= l < 16,
        forall|i: int| 0 <= i < before.len() ==> #[trigger] before[i] != 37,
    ensures
        unescaped(
            before + seq![37u8, digit_code(h, capital) as u8, digit_code(l, capital) as u8] + after,
            0,
        ) == before + seq![(16 * h + l) as u8] + unescaped(after, 0),
        unescaped(before, 0) == before,
{
    let mid = seq![37u8, digit_code(h, capital) as u8, digit_code(l, capital) as u8];
    let s = before + mid + after;
    lemma_unescaped_plain(before, mid + after, 0);
    assert(s =~= before + (mid + after));
    let n = before.len() as int;
    assert(s[n] == 37);
    assert(s[n + 1] == mid[1] && s[n + 2] == mid[2]);
    assert(escape_value(mid[1], mid[2]) == Some(16 * h + l));
    lemma_unescaped_suffix(before + mid, after, n + 3);
    assert(unescaped(s, n) =~= seq![(16 * h + l) as u8] + unescaped(after, 0));
    assert(unescaped(s, 0) =~= before + unescaped(s, n));
    lemma_unescaped_plain(before, Seq::empty(), 0);
    assert(before + Seq::<u8>::empty() =~= before);
    assert(unescaped(before, 0) =~= before);
}

proof fn lemma_unescaped_plain(before: Seq<u8>, after: Seq<u8>, i: int)
    requires
        0 <= i <= before.len(),
        forall|k: int| 0 <= k < before.len() ==> #[trigger] before[k] != 37,
    ensures
        unescaped(before + after, i) == before.skip(i) + unescaped(
            before + after,
            before.len() as int,
        ),
    decreases before.len() - i,
{
    let s = before + after;
    if i < before.len() {
        lemma_unescaped_plain(before, after, i + 1);
        assert(s[i] == before[i]);
        assert(before.skip(i) =~= seq![before[i]] + before.skip(i + 1));
        assert(unescaped(s, i) =~= before.skip(i) + unescaped(s, before.len() as int));
    } else {
        assert(before.skip(i) =~= Seq::<u8>::empty());
        assert(Seq::<u8>::empty() + unescaped(s, i) =~= unescaped(s, i));
    }
}

proof fn lemma_unescaped_suffix(a: Seq<u8>, b: Seq<u8>, i: int)
    requires
        a.len() <= i,
    ensures
        unescaped(a + b, i) == unescaped(b, i - a.len()),
    decreases a.len() + b.len() - i,
{
    let s = a + b;
    let k = i - a.len();
    if i < s.len() {
        assert(s[i] == b[k]);
        if i + 1 < s.len() {
            assert(s[i + 1] == b[k + 1]);
        }
        if i + 2 < s.len() {
            assert(s[i + 2] == b[k + 2]);
        }
        lemma_unescaped_suffix(a, b, i + 1);
        if i + 2 < s.len() {
            lemma_unescaped_suffix(a, b, i + 3);
        }
    }
}

proof fn lemma_last_dot(name: Seq<char>, i: int)
    requires
        0 <= i <= name.len(),
    ensures
        -1 <= last_dot(name, i) < i,
        last_dot(name, i) >= 0 ==> name[last_dot(name, i)] == '.',
        forall|k: int| last_dot(name, i) < k < i ==> #[trigger] name[k] != '.',
    decreases i,
{
    if i > 0 && name[i - 1] != '.' {
        lemma_last_dot(name, i - 1);
    }
}

/// A file's name is its stem, a dot and its extension; the extension has no dot, and
/// a name without one is all stem.
pub proof fn a_name_is_stem_and_extension(path: Seq<char>)
    ensures
        match (file_name_of(path), stem_of(path), extension_of(path)) {
            (Some(name), Some(stem), Some(extension)) => name == stem.push('.') + extension
                && stem.len() > 0 && !extension.contains('.'),
            (Some(name), Some(stem), None) => name == stem && !name.skip(1).contains('.'),
            (None, stem, extension) => stem is None && extension is None,
            _ => false,
        },
{
    if let Some(name) = file_name_of(path) {
        let n = name.len() as int;
        let dot = last_dot(name, n);
        lemma_last_dot(name, n);
        if dot > 0 {
            let e = name.skip(dot + 1);
            assert(name =~= name.take(dot).push('.') + e);
            if e.contains('.') {
                let k = choose|k: int| 0 <= k < e.len() && e[k] == '.';
                assert(name[dot + 1 + k] == '.');
            }
        } else {
            let e = name.skip(1);
            if e.contains('.') {
                let k = choose|k: int| 0 <= k < e.len() && e[k] == '.';
                assert(name[1 + k] == '.');
            }
        }
    }
}

/// A file in a directory has its own name, whatever the directory, unless it is a
/// dot or two.
pub proof fn a_file_keeps_its_name_anywhere(directory: Seq<char>, name: Seq<char>)
    requires
        is_name(name),
        !name.contains('/'),
    ensures
        file_name_of(directory.push('/') + name) == Some(name),
        file_name_of(name) == Some(name),
{
    lemma_dots();
    reveal(Seq::filter);
    crate::text::splitting_parts_at_every_separator(directory, '/', name);
    crate::text::splitting_needs_a_separator(name, '/');
    let keep = |part: Seq<char>| part.len() > 0 && part != "."@;
    let parts = split_at(directory, '/');
    let all = parts + seq![name];
    assert(all.drop_last() =~= parts);
    assert(keep(name));
    assert(names_of(directory.push('/') + name) =~= parts.filter(keep).push(name));
    let one = seq![name];
    assert(one.drop_last() =~= Seq::<Seq<char>>::empty());
    assert(names_of(name) =~= Seq::<Seq<char>>::empty().push(name));
}

/// A configuration holds what its file sets, each value under its own name, and a file
/// with a value of the wrong kind is refused with the name of that value.
pub proof fn settings_are_taken_from_the_file(s: Seq<(Seq<char>, SettingView)>)
    ensures
        match config_of(Ok(s)) {
            Ok(c) => (match setting_of(s, "journal_dir"@) {
                None => c.journal_dir is None,
                Some(v) => v matches SettingView::Leaf(LeafView::Text(t)) && c.journal_dir == Some(t),
            }) && (match setting_of(s, "max_width"@) {
                None => c.max_width is None,
                Some(v) => v matches SettingView::Leaf(LeafView::Integer(n)) && 0 <= n <= 65535
                    && c.max_width is Some && c.max_width->0 == n,
            }) && (match setting_of(s, "images"@) {
                None => c.images is None,
                Some(v) => v matches SettingView::Leaf(LeafView::Text(t)) && c.images == Some(t),
            }),
            Err(report) => report.len() == 1 && ((report[0] == "invalid value for "@
                + "journal_dir"@ && setting_of(s, "journal_dir"@) is Some) || (report[0]
                == "invalid value for "@ + "max_width"@ && setting_of(s, "max_width"@) is Some) || (
            report[0] == "invalid value for "@ + "images"@ && setting_of(s, "images"@) is Some)),
        },
        forall|m: Seq<char>| config_of(Err(m)) is Err,
{
}

/// A tilde stands for the home directory, and the journal lies where the settings say,
/// or else below the data directory.
pub proof fn the_journal_lies_where_it_was_put(
    rest: Seq<char>,
    home: Seq<char>,
    data: Seq<char>,
    config: ConfigView,
)
    ensures
        tilde_expanded("~/"@ + rest, Some(home)) == path_joined(home, rest),
        !occurs_at(rest, "~/"@, 0) ==> tilde_expanded(rest, Some(home)) == rest,
        config.journal_dir matches Some(dir) ==> journal_place(config, Some(home), Some(data))
            == Some(tilde_expanded(dir, Some(home))),
        config.journal_dir is None ==> journal_place(config, Some(home), Some(data)) == Some(
            path_joined(path_joined(data, "omalibre"@), "journal"@),
        ),
        config.journal_dir is None ==> journal_place(config, Some(home), None) is None,
{
    reveal_strlit("~/");
    let path = "~/"@ + rest;
    assert(path.subrange(0, 2) =~= "~/"@);
    assert(occurs_at(path, "~/"@, 0));
    assert(path.skip(2) =~= rest);
}

/// A path joined to a directory ends in that path, begins with the directory, and has
/// one slash between them; an absolute path stands alone.
pub proof fn a_joined_path_has_both_parts(base: Seq<char>, path: Seq<char>)
    requires
        base.len() > 0,
    ensures
        path.len() > 0 && path[0] == '/' ==> path_joined(base, path) == path,
        !(path.len() > 0 && path[0] == '/') && base.last() != '/' ==> path_joined(base, path)
            == base.push('/') + path,
        !(path.len() > 0 && path[0] == '/') && base.last() == '/' ==> path_joined(base, path)
            == base + path,
        path_joined(Seq::empty(), path) == path,
{
    reveal_strlit("/");
    assert(base + "/"@ + path =~= base.push('/') + path);
}

} // verus!
