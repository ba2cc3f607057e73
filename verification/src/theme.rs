//! Colours, taken from the active Omarchy theme.
//!
//! Omarchy renders `~/.config/omarchy/themed/omalibre.toml.tpl` on every theme
//! change and writes the result into the current theme directory. The reader
//! reads that file and falls back to built-in colours when it is absent, so it
//! works on a machine without Omarchy just as well.
//!
//! The file is re-read when its timestamp changes. A theme change replaces the
//! whole directory by an atomic swap, so the path points at a new file; checking
//! the timestamp of the path catches that, where a watch on the file itself would
//! lose track of it.

use vstd::prelude::*;
use crate::image::sixel::{color_distance, distance, square, wide};
use crate::journal::{cleaned, non_empty, Moment};
use crate::paths::{join_path, path_joined};
use crate::settings::{
    find_leaf, find_setting, leaf_of, leaf_views, parse_toml, parsed_toml, setting_of,
    settings_result, Leaf, LeafView, Setting, SettingView,
};
use crate::text::{chars_of, code, sub_chars, text_opt, texts, trim, trimmed};

verus! {

/// A colour as 24-bit RGB.
pub type Rgb = (u8, u8, u8);

#[derive(Debug, Clone, Copy, PartialEq, Eq)]
pub struct Theme {
    pub background: Rgb,
    pub foreground: Rgb,
    /// Headings and progress.
    pub accent: Rgb,
    /// Rules, image labels, the status line.
    pub muted: Rgb,
    pub code_background: Rgb,
    pub code_foreground: Rgb,
    pub quote: Rgb,
    /// The five annotation colours, in the order of `annotation::Color::ALL`.
    pub marks: [Rgb; 5],
}

/// A theme as a mathematical value.
#[verifier::ext_equal]
pub struct ThemeView {
    pub background: Rgb,
    pub foreground: Rgb,
    pub accent: Rgb,
    pub muted: Rgb,
    pub code_background: Rgb,
    pub code_foreground: Rgb,
    pub quote: Rgb,
    pub marks: Seq<Rgb>,
}

impl View for Theme {
    type V = ThemeView;

    open spec fn view(&self) -> ThemeView {
        ThemeView {
            background: self.background,
            foreground: self.foreground,
            accent: self.accent,
            muted: self.muted,
            code_background: self.code_background,
            code_foreground: self.code_foreground,
            quote: self.quote,
            marks: self.marks@,
        }
    }
}

/// Annotation colours that are known to tell each other apart: yellow, green,
/// blue, red and purple. Used when a theme offers no five distinguishable ones.
pub open spec fn built_in_marks() -> Seq<Rgb> {
    seq![
        (0xd9u8, 0xb8u8, 0x4cu8),
        (0x6fu8, 0xb8u8, 0x6fu8),
        (0x6au8, 0x9fu8, 0xd8u8),
        (0xe0u8, 0x7au8, 0x6au8),
        (0xb4u8, 0x8au8, 0xd8u8),
    ]
}

/// The built-in annotation colours.
pub fn default_marks() -> (r: [Rgb; 5])
    ensures
        r@ == built_in_marks(),
{
    let r: [Rgb; 5] = [
        (0xd9, 0xb8, 0x4c),
        (0x6f, 0xb8, 0x6f),
        (0x6a, 0x9f, 0xd8),
        (0xe0, 0x7a, 0x6a),
        (0xb4, 0x8a, 0xd8),
    ];
    assert(r@ =~= built_in_marks());
    r
}

/// The built-in colours.
pub open spec fn default_theme() -> ThemeView {
    ThemeView {
        background: (0x1a, 0x1b, 0x26),
        foreground: (0xc8, 0xd3, 0xf5),
        accent: (0xff, 0xc7, 0x77),
        muted: (0x7a, 0x88, 0xa8),
        code_background: (0x24, 0x28, 0x36),
        code_foreground: (0x86, 0xe1, 0xfc),
        quote: (0x9a, 0xa5, 0xce),
        marks: built_in_marks(),
    }
}

impl Default for Theme {
    fn default() -> (r: Self)
        ensures
            r@ == default_theme(),
    {
        Theme {
            background: (0x1a, 0x1b, 0x26),
            foreground: (0xc8, 0xd3, 0xf5),
            accent: (0xff, 0xc7, 0x77),
            muted: (0x7a, 0x88, 0xa8),
            code_background: (0x24, 0x28, 0x36),
            code_foreground: (0x86, 0xe1, 0xfc),
            quote: (0x9a, 0xa5, 0xce),
            marks: default_marks(),
        }
    }
}

// ---------------------------------------------------------------------------
// Colours as text
// ---------------------------------------------------------------------------
/// The value of a hexadecimal digit.
pub open spec fn hex_digit_of(c: char) -> Option<int> {
    let n = c as int;
    if 48 <= n <= 57 {
        Some(n - 48)
    } else if 97 <= n <= 102 {
        Some(n - 87)
    } else if 65 <= n <= 70 {
        Some(n - 55)
    } else {
        None
    }
}

fn hex_digit(c: char) -> (r: Option<u8>)
    ensures
        match hex_digit_of(c) {
            Some(v) => r == Some(v as u8) && 0 <= v < 16,
            None => r is None,
        },
{
    let n = code(c);
    if 48 <= n && n <= 57 {
        Some((n - 48) as u8)
    } else if 97 <= n && n <= 102 {
        Some((n - 87) as u8)
    } else if 65 <= n && n <= 70 {
        Some((n - 55) as u8)
    } else {
        None
    }
}

/// How many characters of a text, from `i` on, are hash signs.
pub open spec fn behind_hashes(s: Seq<char>, i: int) -> int
    decreases s.len() - i,
{
    if 0 <= i < s.len() && s[i] == '#' {
        behind_hashes(s, i + 1)
    } else {
        i
    }
}

proof fn lemma_behind_hashes(s: Seq<char>, i: int)
    requires
        0 <= i <= s.len(),
    ensures
        i <= behind_hashes(s, i) <= s.len(),
    decreases s.len() - i,
{
    if i < s.len() && s[i] == '#' {
        lemma_behind_hashes(s, i + 1);
    }
}

/// The digits of a colour: without white space at the ends and leading hashes.
pub open spec fn color_digits(s: Seq<char>) -> Seq<char> {
    let t = trim(s);
    t.skip(behind_hashes(t, 0))
}

/// One channel out of two digits.
pub open spec fn channel(s: Seq<char>, at: int) -> u8 {
    (16 * hex_digit_of(s[at])->0 + hex_digit_of(s[at + 1])->0) as u8
}

/// The colour that a text names: six hexadecimal digits, with or without a hash.
pub open spec fn color_of(s: Seq<char>) -> Option<Rgb> {
    let d = color_digits(s);
    if d.len() == 6 && forall|i: int| 0 <= i < 6 ==> hex_digit_of(#[trigger] d[i]) is Some {
        Some((channel(d, 0), channel(d, 2), channel(d, 4)))
    } else {
        None
    }
}

/// Parses `#rrggbb`, with or without the hash.
pub fn hex(text: &str) -> (r: Option<Rgb>)
    ensures
        r == color_of(text@),
{
    let v = chars_of(text);
    let t = trimmed(&v);
    let mut at: usize = 0;
    while at < t.len() && t[at] == '#'
        invariant
            at <= t@.len(),
            behind_hashes(t@, 0) == behind_hashes(t@, at as int),
        decreases t@.len() - at,
    {
        at += 1;
    }
    let d = sub_chars(&t, at, t.len());
    assert(d@ =~= color_digits(text@));
    if d.len() != 6 {
        return None;
    }
    let mut values: Vec<u8> = Vec::new();
    let mut i: usize = 0;
    while i < 6
        invariant
            i <= 6,
            d@.len() == 6,
            d@ == color_digits(text@),
            values@.len() == i,
            forall|k: int|
                0 <= k < i ==> hex_digit_of(#[trigger] d@[k]) == Some(values@[k] as int)
                    && values@[k] < 16,
        decreases 6 - i,
    {
        match hex_digit(d[i]) {
            Some(x) => {
                values.push(x);
            },
            None => {
                assert(hex_digit_of(d@[i as int]) is None);
                return None;
            },
        }
        i += 1;
    }
    assert(hex_digit_of(d@[0]) is Some && hex_digit_of(d@[1]) is Some && hex_digit_of(d@[2]) is Some
        && hex_digit_of(d@[3]) is Some && hex_digit_of(d@[4]) is Some && hex_digit_of(
        d@[5],
    ) is Some);
    Some(
        (
            16 * values[0] + values[1],
            16 * values[2] + values[3],
            16 * values[4] + values[5],
        ),
    )
}

// ---------------------------------------------------------------------------
// Marks
// ---------------------------------------------------------------------------
/// Squared distance in RGB below which two colours read as the same mark.
pub const MIN_MARK_DISTANCE: u32 = 3000;

/// No two marks read as the same.
pub open spec fn distinguishable(marks: Seq<Rgb>) -> bool {
    forall|i: int, j: int|
        0 <= i < j < marks.len() ==> color_distance(
            wide(#[trigger] marks[i]),
            wide(#[trigger] marks[j]),
        ) >= MIN_MARK_DISTANCE
}

/// The built-in marks can be told apart.
pub proof fn the_built_in_marks_are_distinguishable()
    ensures
        distinguishable(built_in_marks()),
{
    let m = built_in_marks();
    assert forall|i: int, j: int| 0 <= i < j < m.len() implies color_distance(
        wide(#[trigger] m[i]),
        wide(#[trigger] m[j]),
    ) >= MIN_MARK_DISTANCE by {
        assert(m[0] == (0xd9u8, 0xb8u8, 0x4cu8));
        assert(m[1] == (0x6fu8, 0xb8u8, 0x6fu8));
        assert(m[2] == (0x6au8, 0x9fu8, 0xd8u8));
        assert(m[3] == (0xe0u8, 0x7au8, 0x6au8));
        assert(m[4] == (0xb4u8, 0x8au8, 0xd8u8));
        assert(square(-140) == 19600) by (nonlinear_arith);
        assert(square(-118) == 13924) by (nonlinear_arith);
        assert(square(-113) == 12769) by (nonlinear_arith);
        assert(square(-110) == 12100) by (nonlinear_arith);
        assert(square(-105) == 11025) by (nonlinear_arith);
        assert(square(-74) == 5476) by (nonlinear_arith);
        assert(square(-69) == 4761) by (nonlinear_arith);
        assert(square(-35) == 1225) by (nonlinear_arith);
        assert(square(-30) == 900) by (nonlinear_arith);
        assert(square(-16) == 256) by (nonlinear_arith);
        assert(square(-7) == 49) by (nonlinear_arith);
        assert(square(0) == 0) by (nonlinear_arith);
        assert(square(5) == 25) by (nonlinear_arith);
        assert(square(21) == 441) by (nonlinear_arith);
        assert(square(25) == 625) by (nonlinear_arith);
        assert(square(37) == 1369) by (nonlinear_arith);
        assert(square(44) == 1936) by (nonlinear_arith);
        assert(square(46) == 2116) by (nonlinear_arith);
        assert(square(62) == 3844) by (nonlinear_arith);
        assert(square(106) == 11236) by (nonlinear_arith);
        assert(square(110) == 12100) by (nonlinear_arith);
        assert(square(111) == 12321) by (nonlinear_arith);
        assert(color_distance(wide(m[0]), wide(m[1])) == 12461);
        assert(color_distance(wide(m[0]), wide(m[2])) == 32546);
        assert(color_distance(wide(m[0]), wide(m[3])) == 4793);
        assert(color_distance(wide(m[0]), wide(m[4])) == 23085);
        assert(color_distance(wide(m[1]), wide(m[2])) == 11675);
        assert(color_distance(wide(m[1]), wide(m[3])) == 16638);
        assert(color_distance(wide(m[1]), wide(m[4])) == 17902);
        assert(color_distance(wide(m[2]), wide(m[3])) == 27393);
        assert(color_distance(wide(m[2]), wide(m[4])) == 5917);
        assert(color_distance(wide(m[3]), wide(m[4])) == 14292);
    }
}

pub fn all_distinguishable(marks: &[Rgb; 5]) -> (r: bool)
    ensures
        r == distinguishable(marks@),
{
    let mut i: usize = 0;
    while i < 5
        invariant
            i <= 5,
            forall|a: int, b: int|
                0 <= a < i && a < b < 5 ==> color_distance(
                    wide(#[trigger] marks@[a]),
                    wide(#[trigger] marks@[b]),
                ) >= MIN_MARK_DISTANCE,
        decreases 5 - i,
    {
        let mut j: usize = i + 1;
        while j < 5
            invariant
                i < j <= 5,
                forall|b: int|
                    i < b < j ==> color_distance(
                        wide(marks@[i as int]),
                        wide(#[trigger] marks@[b]),
                    ) >= MIN_MARK_DISTANCE,
            decreases 5 - j,
        {
            if distance(marks[i], marks[j]) < MIN_MARK_DISTANCE {
                assert(color_distance(wide(marks@[i as int]), wide(marks@[j as int]))
                    < MIN_MARK_DISTANCE);
                return false;
            }
            j += 1;
        }
        i += 1;
    }
    true
}

// ---------------------------------------------------------------------------
// The theme file
// ---------------------------------------------------------------------------
/// The names of the colours a theme file may set.
pub open spec fn color_names() -> Seq<Seq<char>> {
    seq![
        "background"@,
        "foreground"@,
        "accent"@,
        "muted"@,
        "code_background"@,
        "code_foreground"@,
        "quote"@,
        "mark_yellow"@,
        "mark_green"@,
        "mark_blue"@,
        "mark_red"@,
        "mark_purple"@,
    ]
}

/// The table of colours in a file: empty when there is none, nothing when it is
/// not a table.
pub open spec fn colors_table(s: Seq<(Seq<char>, SettingView)>) -> Option<
    Seq<(Seq<char>, LeafView)>,
> {
    match setting_of(s, "colors"@) {
        None => Some(Seq::empty()),
        Some(SettingView::Table(t)) => Some(t),
        Some(_) => None,
    }
}

/// Every colour that is set is set to a text.
pub open spec fn colors_are_texts(t: Seq<(Seq<char>, LeafView)>) -> bool {
    forall|i: int|
        0 <= i < color_names().len() ==> (leaf_of(t, #[trigger] color_names()[i]) matches Some(l)
            ==> l is Text)
}

/// A colour of the table, or its default where it is missing or makes no sense.
pub open spec fn picked(t: Seq<(Seq<char>, LeafView)>, name: Seq<char>, default: Rgb) -> Rgb {
    match leaf_of(t, name) {
        Some(LeafView::Text(s)) => match color_of(s) {
            Some(c) => c,
            None => default,
        },
        _ => default,
    }
}

/// The theme that a table of colours gives.
///
/// Annotation colours carry meaning, so they have to be told apart. Not every
/// theme offers five that are: some map red and purple onto one accent. Where
/// that happens the built-in set is used as a whole, so the five stay a coherent
/// scale instead of a mixture.
pub open spec fn theme_from(t: Seq<(Seq<char>, LeafView)>) -> ThemeView {
    let d = default_theme();
    let marks = seq![
        picked(t, "mark_yellow"@, built_in_marks()[0]),
        picked(t, "mark_green"@, built_in_marks()[1]),
        picked(t, "mark_blue"@, built_in_marks()[2]),
        picked(t, "mark_red"@, built_in_marks()[3]),
        picked(t, "mark_purple"@, built_in_marks()[4]),
    ];
    ThemeView {
        background: picked(t, "background"@, d.background),
        foreground: picked(t, "foreground"@, d.foreground),
        accent: picked(t, "accent"@, d.accent),
        muted: picked(t, "muted"@, d.muted),
        code_background: picked(t, "code_background"@, d.code_background),
        code_foreground: picked(t, "code_foreground"@, d.code_foreground),
        quote: picked(t, "quote"@, d.quote),
        marks: if distinguishable(marks) {
            marks
        } else {
            built_in_marks()
        },
    }
}

/// The theme that a settings file gives. A malformed file must not leave the
/// reader colourless.
pub open spec fn theme_of(file: Result<Seq<(Seq<char>, SettingView)>, Seq<char>>) -> ThemeView {
    match file {
        Err(_) => default_theme(),
        Ok(s) => match colors_table(s) {
            None => default_theme(),
            Some(t) => if colors_are_texts(t) {
                theme_from(t)
            } else {
                default_theme()
            },
        },
    }
}

/// Whatever the file says, the annotation colours can be told apart.
pub proof fn marks_can_always_be_told_apart(
    file: Result<Seq<(Seq<char>, SettingView)>, Seq<char>>,
)
    ensures
        distinguishable(theme_of(file).marks),
        theme_of(file).marks.len() == 5,
{
    the_built_in_marks_are_distinguishable();
}

fn pick(t: &Vec<(String, Leaf)>, name: &str, default: Rgb) -> (r: Rgb)
    ensures
        r == picked(leaf_views(t@), name@, default),
{
    match find_leaf(t, name) {
        Some(Leaf::Text(s)) => match hex(s) {
            Some(c) => c,
            None => default,
        },
        _ => default,
    }
}

fn is_text_or_missing(t: &Vec<(String, Leaf)>, name: &str) -> (r: bool)
    ensures
        r == (leaf_of(leaf_views(t@), name@) matches Some(l) ==> l is Text),
{
    match find_leaf(t, name) {
        Some(Leaf::Text(_)) => true,
        Some(_) => false,
        None => true,
    }
}

fn all_texts(t: &Vec<(String, Leaf)>) -> (r: bool)
    ensures
        r == colors_are_texts(leaf_views(t@)),
{
    let ghost n = color_names();
    assert(n[0] == "background"@ && n[1] == "foreground"@ && n[2] == "accent"@ && n[3] == "muted"@
        && n[4] == "code_background"@ && n[5] == "code_foreground"@ && n[6] == "quote"@ && n[7]
        == "mark_yellow"@ && n[8] == "mark_green"@ && n[9] == "mark_blue"@ && n[10] == "mark_red"@
        && n[11] == "mark_purple"@);
    is_text_or_missing(t, "background") && is_text_or_missing(t, "foreground")
        && is_text_or_missing(t, "accent") && is_text_or_missing(t, "muted") && is_text_or_missing(
        t,
        "code_background",
    ) && is_text_or_missing(t, "code_foreground") && is_text_or_missing(t, "quote")
        && is_text_or_missing(t, "mark_yellow") && is_text_or_missing(t, "mark_green")
        && is_text_or_missing(t, "mark_blue") && is_text_or_missing(t, "mark_red")
        && is_text_or_missing(t, "mark_purple")
}

fn build_theme(t: &Vec<(String, Leaf)>) -> (r: Theme)
    ensures
        r@ == theme_from(leaf_views(t@)),
{
    let d = Theme::default();
    let b = default_marks();
    let marks: [Rgb; 5] = [
        pick(t, "mark_yellow", b[0]),
        pick(t, "mark_green", b[1]),
        pick(t, "mark_blue", b[2]),
        pick(t, "mark_red", b[3]),
        pick(t, "mark_purple", b[4]),
    ];
    let ghost wanted = seq![
        picked(leaf_views(t@), "mark_yellow"@, built_in_marks()[0]),
        picked(leaf_views(t@), "mark_green"@, built_in_marks()[1]),
        picked(leaf_views(t@), "mark_blue"@, built_in_marks()[2]),
        picked(leaf_views(t@), "mark_red"@, built_in_marks()[3]),
        picked(leaf_views(t@), "mark_purple"@, built_in_marks()[4]),
    ];
    assert(marks@ =~= wanted);
    Theme {
        background: pick(t, "background", d.background),
        foreground: pick(t, "foreground", d.foreground),
        accent: pick(t, "accent", d.accent),
        muted: pick(t, "muted", d.muted),
        code_background: pick(t, "code_background", d.code_background),
        code_foreground: pick(t, "code_foreground", d.code_foreground),
        quote: pick(t, "quote", d.quote),
        marks: if all_distinguishable(&marks) {
            marks
        } else {
            b
        },
    }
}

/// The theme that parsed settings give.
pub fn read_theme(file: &Result<Vec<(String, Setting)>, String>) -> (r: Theme)
    ensures
        r@ == theme_of(settings_result(*file)),
{
    match file {
        Err(_) => Theme::default(),
        Ok(settings) => match find_setting(settings, "colors") {
            None => {
                let t: Vec<(String, Leaf)> = Vec::new();
                assert(leaf_views(t@) =~= Seq::<(Seq<char>, LeafView)>::empty());
                if all_texts(&t) {
                    build_theme(&t)
                } else {
                    Theme::default()
                }
            },
            Some(Setting::Table(t)) => if all_texts(t) {
                build_theme(t)
            } else {
                Theme::default()
            },
            Some(_) => Theme::default(),
        },
    }
}

/// Reads a theme file.
pub fn parse(text: &str) -> (r: Theme)
    ensures
        r@ == theme_of(parsed_toml(text@)),
{
    let file = parse_toml(text);
    read_theme(&file)
}

// ---------------------------------------------------------------------------
// Following the file
// ---------------------------------------------------------------------------
/// Where the rendered theme file may live below the home directory, the first
/// that exists counting. Quattro keeps the current theme in the state directory;
/// earlier releases used the config directory.
pub fn theme_files(home: &str) -> (r: Vec<String>)
    ensures
        texts(r@) == seq![
            path_joined(home@, ".local/state/omarchy/current/theme/omalibre.toml"@),
            path_joined(home@, ".config/omarchy/current/theme/omalibre.toml"@),
        ],
{
    let mut out: Vec<String> = Vec::new();
    out.push(join_path(home, ".local/state/omarchy/current/theme/omalibre.toml"));
    out.push(join_path(home, ".config/omarchy/current/theme/omalibre.toml"));
    assert(texts(out@) =~= seq![
        path_joined(home@, ".local/state/omarchy/current/theme/omalibre.toml"@),
        path_joined(home@, ".config/omarchy/current/theme/omalibre.toml"@),
    ]);
    out
}

/// The theme in use, as the files that record it say: the first that could be
/// read decides.
pub fn current_theme_name(state: Option<String>, config: Option<String>) -> (r: Option<String>)
    ensures
        text_opt(r) == (match (state, config) {
            (Some(s), _) => cleaned(s@),
            (None, Some(c)) => cleaned(c@),
            (None, None) => None,
        }),
{
    match state {
        Some(s) => non_empty(s),
        None => match config {
            Some(c) => non_empty(c),
            None => None,
        },
    }
}

/// Watches the theme file and hands out the current colours.
#[derive(Debug)]
pub struct Watcher {
    /// Whether there is a file to watch.
    pub watching: bool,
    /// Timestamp of the file when it was last read.
    pub seen: Option<Moment>,
    pub theme: Theme,
}

/// The theme that the content of the file gives; without one, the built-in
/// colours.
pub open spec fn theme_read(text: Option<&str>) -> ThemeView {
    match text {
        Some(t) => theme_of(parsed_toml(t@)),
        None => default_theme(),
    }
}

fn load(text: Option<&str>) -> (r: Theme)
    ensures
        r@ == theme_read(text),
{
    match text {
        Some(t) => parse(t),
        None => Theme::default(),
    }
}

fn same_rgb(a: Rgb, b: Rgb) -> (r: bool)
    ensures
        r == (a == b),
{
    a.0 == b.0 && a.1 == b.1 && a.2 == b.2
}

fn same_theme(a: &Theme, b: &Theme) -> (r: bool)
    ensures
        r == (a@ == b@),
{
    let r = same_rgb(a.background, b.background) && same_rgb(a.foreground, b.foreground)
        && same_rgb(a.accent, b.accent) && same_rgb(a.muted, b.muted) && same_rgb(
        a.code_background,
        b.code_background,
    ) && same_rgb(a.code_foreground, b.code_foreground) && same_rgb(a.quote, b.quote) && same_rgb(
        a.marks[0],
        b.marks[0],
    ) && same_rgb(a.marks[1], b.marks[1]) && same_rgb(a.marks[2], b.marks[2]) && same_rgb(
        a.marks[3],
        b.marks[3],
    ) && same_rgb(a.marks[4], b.marks[4]);
    proof {
        if r {
            assert(a.marks@ =~= b.marks@);
        } else if a@ == b@ {
            assert(a.marks@[0] == b.marks@[0]);
            assert(a.marks@[1] == b.marks@[1]);
            assert(a.marks@[2] == b.marks@[2]);
            assert(a.marks@[3] == b.marks@[3]);
            assert(a.marks@[4] == b.marks@[4]);
        }
    }
    r
}

impl Watcher {
    /// Starts with what the file says. `watching` is whether there is one,
    /// `stamp` and `text` its timestamp and content as far as they can be had.
    pub fn new(watching: bool, stamp: Option<Moment>, text: Option<&str>) -> (r: Self)
        ensures
            r.watching == watching,
            watching ==> r.seen == stamp && r.theme@ == theme_read(text),
            !watching ==> r.seen is None && r.theme@ == default_theme(),
    {
        if watching {
            Watcher { watching, seen: stamp, theme: load(text) }
        } else {
            Watcher { watching, seen: None, theme: Theme::default() }
        }
    }

    pub fn theme(&self) -> (r: Theme)
        ensures
            r@ == self.theme@,
    {
        self.theme
    }

    /// Whether the file has to be read again.
    pub fn is_stale(&self, stamp: Option<Moment>) -> (r: bool)
        ensures
            r == (self.watching && self.seen != stamp),
    {
        if !self.watching {
            return false;
        }
        match (self.seen, stamp) {
            (Some(a), Some(b)) => a != b,
            (None, None) => false,
            _ => true,
        }
    }

    /// Takes over the file's content if it changed. Returns true when the
    /// colours moved.
    pub fn refresh(&mut self, stamp: Option<Moment>, text: Option<&str>) -> (r: bool)
        ensures
            final(self).watching == old(self).watching,
            old(self).watching && old(self).seen != stamp ==> {
                &&& final(self).seen == stamp
                &&& final(self).theme@ == theme_read(text)
                &&& r == (old(self).theme@ != final(self).theme@)
            },
            !(old(self).watching && old(self).seen != stamp) ==> {
                &&& !r
                &&& final(self).seen == old(self).seen
                &&& final(self).theme@ == old(self).theme@
            },
    {
        if !self.is_stale(stamp) {
            return false;
        }
        let before = self.theme;
        self.seen = stamp;
        self.theme = load(text);
        !same_theme(&before, &self.theme)
    }
}

// ---------------------------------------------------------------------------
// What a file says
// ---------------------------------------------------------------------------
/// The character of a hexadecimal digit.
pub open spec fn digit_char(v: int, capital: bool) -> char {
    if v < 10 {
        (48 + v) as char
    } else if capital {
        (55 + v) as char
    } else {
        (87 + v) as char
    }
}

proof fn lemma_digit(v: int, capital: bool)
    requires
        0 <= v < 16,
    ensures
        hex_digit_of(digit_char(v, capital)) == Some(v),
        digit_char(v, capital) != '#',
        !crate::text::is_white(digit_char(v, capital)),
{
}

/// A colour is read as its six hexadecimal digits say, two for each of red, green and
/// blue, in capitals or not, with a hash in front or without one.
#[verifier::rlimit(40)]
pub proof fn a_colour_is_what_its_digits_say(v: Seq<int>, capital: bool)
    requires
        v.len() == 6,
        forall|i: int| 0 <= i < 6 ==> 0 <= #[trigger] v[i] < 16,
    ensures
        ({
            let digits = v.map_values(|x: int| digit_char(x, capital));
            let colour = (
                (16 * v[0] + v[1]) as u8,
                (16 * v[2] + v[3]) as u8,
                (16 * v[4] + v[5]) as u8,
            );
            color_of(digits) == Some(colour) && color_of(seq!['#'] + digits) == Some(colour)
        }),
{
    let digits = v.map_values(|x: int| digit_char(x, capital));
    let with = seq!['#'] + digits;
    assert forall|i: int| 0 <= i < 6 implies hex_digit_of(#[trigger] digits[i]) == Some(v[i])
        && digits[i] != '#' && !crate::text::is_white(digits[i]) by {
        lemma_digit(v[i], capital);
    }
    lemma_untrimmed(digits);
    assert(with[0] == '#' && with[6] == digits[5]);
    lemma_untrimmed(with);
    assert(behind_hashes(digits, 0) == 0) by {
        assert(digits[0] != '#');
    }
    assert(digits.skip(0) =~= digits);
    assert(behind_hashes(with, 0) == behind_hashes(with, 1));
    assert(with[1] == digits[0]);
    assert(behind_hashes(with, 1) == 1);
    assert(with.skip(1) =~= digits);
    assert(color_digits(digits) == digits);
    assert(color_digits(with) == digits);
    assert(v[0] == v[0] && v[1] == v[1] && v[2] == v[2] && v[3] == v[3] && v[4] == v[4] && v[5]
        == v[5]);
    assert(hex_digit_of(digits[0]) == Some(v[0]) && hex_digit_of(digits[1]) == Some(v[1]));
    assert(hex_digit_of(digits[2]) == Some(v[2]) && hex_digit_of(digits[3]) == Some(v[3]));
    assert(hex_digit_of(digits[4]) == Some(v[4]) && hex_digit_of(digits[5]) == Some(v[5]));
}

proof fn lemma_untrimmed(s: Seq<char>)
    requires
        s.len() > 0,
        !crate::text::is_white(s[0]),
        !crate::text::is_white(s.last()),
    ensures
        trim(s) == s,
{
    assert(crate::text::skip_white(s, 0) == 0);
    assert(crate::text::trim_start(s) =~= s);
    assert(crate::text::keep_end(s, s.len() as int) == s.len());
    assert(crate::text::trim_end(s) =~= s);
}

/// What a file says of a colour: the colour it names, and the built-in one where it
/// names none that can be read.
pub open spec fn is_chosen(c: Rgb, t: Seq<(Seq<char>, LeafView)>, name: Seq<char>, usual: Rgb) -> bool {
    match leaf_of(t, name) {
        Some(LeafView::Text(s)) => match color_of(s) {
            Some(x) => c == x,
            None => c == usual,
        },
        _ => c == usual,
    }
}

/// Every colour of a theme is the one that the file gives under its name, and the
/// marks too as long as they can be told apart.
pub proof fn every_colour_is_taken_from_the_file(t: Seq<(Seq<char>, LeafView)>)
    ensures
        ({
            let theme = theme_from(t);
            let usual = default_theme();
            &&& is_chosen(theme.background, t, "background"@, usual.background)
            &&& is_chosen(theme.foreground, t, "foreground"@, usual.foreground)
            &&& is_chosen(theme.accent, t, "accent"@, usual.accent)
            &&& is_chosen(theme.muted, t, "muted"@, usual.muted)
            &&& is_chosen(theme.code_background, t, "code_background"@, usual.code_background)
            &&& is_chosen(theme.code_foreground, t, "code_foreground"@, usual.code_foreground)
            &&& is_chosen(theme.quote, t, "quote"@, usual.quote)
            &&& theme.marks.len() == 5
            &&& theme.marks == built_in_marks() || (is_chosen(
                theme.marks[0],
                t,
                "mark_yellow"@,
                built_in_marks()[0],
            ) && is_chosen(theme.marks[1], t, "mark_green"@, built_in_marks()[1]) && is_chosen(
                theme.marks[2],
                t,
                "mark_blue"@,
                built_in_marks()[2],
            ) && is_chosen(theme.marks[3], t, "mark_red"@, built_in_marks()[3]) && is_chosen(
                theme.marks[4],
                t,
                "mark_purple"@,
                built_in_marks()[4],
            ))
        }),
{
}

/// Marks that can be told apart are taken as the file gives them.
pub proof fn marks_are_taken_from_the_file(t: Seq<(Seq<char>, LeafView)>, marks: Seq<Rgb>)
    requires
        marks.len() == 5,
        distinguishable(marks),
        is_chosen(marks[0], t, "mark_yellow"@, built_in_marks()[0]),
        is_chosen(marks[1], t, "mark_green"@, built_in_marks()[1]),
        is_chosen(marks[2], t, "mark_blue"@, built_in_marks()[2]),
        is_chosen(marks[3], t, "mark_red"@, built_in_marks()[3]),
        is_chosen(marks[4], t, "mark_purple"@, built_in_marks()[4]),
    ensures
        theme_from(t).marks == marks,
{
    let own = seq![
        picked(t, "mark_yellow"@, built_in_marks()[0]),
        picked(t, "mark_green"@, built_in_marks()[1]),
        picked(t, "mark_blue"@, built_in_marks()[2]),
        picked(t, "mark_red"@, built_in_marks()[3]),
        picked(t, "mark_purple"@, built_in_marks()[4]),
    ];
    assert(own =~= marks);
}

} // verus!
