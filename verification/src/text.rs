//! Strings as sequences of characters.
//!
//! The rest of the crate works on `Vec<char>` and states its contracts over
//! `Seq<char>`. This module holds the way in and out, and the handful of string
//! operations the other modules share.

use vstd::prelude::*;
use vstd::string::*;
use vstd::utf8::encode_utf8_decode_utf8;

verus! {

/// `String::push` appends one character to the end.
pub assume_specification[ String::push ](s: &mut String, c: char)
    ensures
        final(s)@ == old(s)@.push(c),
;

/// Whether two slices hold the same bytes.
pub fn same_bytes(x: &[u8], y: &[u8]) -> (r: bool)
    ensures
        r == (x@ == y@),
{
    if x.len() != y.len() {
        return false;
    }
    let mut i: usize = 0;
    while i < x.len()
        invariant
            i <= x@.len(),
            x@.len() == y@.len(),
            forall|k: int| 0 <= k < i ==> x@[k] == y@[k],
        decreases x@.len() - i,
    {
        if x[i] != y[i] {
            return false;
        }
        i += 1;
    }
    assert(x@ =~= y@);
    true
}

/// Whether two texts hold the same characters. Compares the bytes, which encode
/// nothing else.
pub fn same(a: &str, b: &str) -> (r: bool)
    ensures
        r == (a@ == b@),
{
    proof {
        encode_utf8_decode_utf8(a@);
        encode_utf8_decode_utf8(b@);
    }
    same_bytes(a.as_bytes(), b.as_bytes())
}

/// The characters of a string.
pub fn chars_of(s: &str) -> (r: Vec<char>)
    ensures
        r@ == s@,
{
    let mut out: Vec<char> = Vec::new();
    for c in it: s.chars()
        invariant
            it.seq() == s@,
            out@ == it.seq().take(it.index()),
    {
        out.push(c);
    }
    out
}

/// The characters from `from` up to `to` as a string.
pub fn slice_text(v: &Vec<char>, from: usize, to: usize) -> (r: String)
    requires
        from <= to <= v@.len(),
    ensures
        r@ == v@.subrange(from as int, to as int),
{
    let mut out = String::new();
    let mut i: usize = from;
    while i < to
        invariant
            from <= i <= to <= v@.len(),
            out@ == v@.subrange(from as int, i as int),
        decreases to - i,
    {
        out.push(v[i]);
        i += 1;
        assert(v@.subrange(from as int, i as int) =~= v@.subrange(from as int, i - 1).push(v@[i - 1]));
    }
    out
}

/// All characters of a vector as a string.
pub fn text_of(v: &Vec<char>) -> (r: String)
    ensures
        r@ == v@,
{
    assert(v@.subrange(0, v@.len() as int) =~= v@);
    slice_text(v, 0, v.len())
}

/// A copy of a string slice.
pub fn copy_text(s: &str) -> (r: String)
    ensures
        r@ == s@,
{
    s.to_owned()
}

/// Appends a string to a vector of characters.
pub fn push_text(out: &mut Vec<char>, s: &str)
    ensures
        final(out)@ == old(out)@ + s@,
{
    let ghost before = out@;
    for c in it: s.chars()
        invariant
            it.seq() == s@,
            out@ == before + it.seq().take(it.index()),
    {
        out.push(c);
        assert(it.seq().take(it.index() + 1) =~= it.seq().take(it.index()).push(c));
    }
    assert(s@.take(s@.len() as int) =~= s@);
}

/// Appends characters to a vector of characters.
pub fn push_chars(out: &mut Vec<char>, v: &Vec<char>)
    ensures
        final(out)@ == old(out)@ + v@,
{
    let ghost before = out@;
    let mut i: usize = 0;
    while i < v.len()
        invariant
            i <= v@.len(),
            out@ == before + v@.take(i as int),
        decreases v@.len() - i,
    {
        out.push(v[i]);
        i += 1;
        assert(v@.take(i as int) =~= v@.take(i - 1).push(v@[i - 1]));
    }
    assert(v@.take(v@.len() as int) =~= v@);
}

/// The views of a sequence of strings.
pub open spec fn texts(s: Seq<String>) -> Seq<Seq<char>> {
    s.map_values(|t: String| t@)
}

/// The view of an optional string.
pub open spec fn text_opt(o: Option<String>) -> Option<Seq<char>> {
    match o {
        Some(s) => Some(s@),
        None => None,
    }
}

// ---------------------------------------------------------------------------
// Whitespace
// ---------------------------------------------------------------------------
/// The Unicode property `White_Space`.
pub open spec fn is_white(c: char) -> bool {
    let n = c as int;
    ||| 0x09 <= n <= 0x0d
    ||| n == 0x20
    ||| n == 0x85
    ||| n == 0xa0
    ||| n == 0x1680
    ||| 0x2000 <= n <= 0x200a
    ||| n == 0x2028
    ||| n == 0x2029
    ||| n == 0x202f
    ||| n == 0x205f
    ||| n == 0x3000
}

/// Whether a character is white space.
pub fn white(c: char) -> (r: bool)
    ensures
        r == is_white(c),
{
    let n = c as u32;
    (0x09 <= n && n <= 0x0d) || n == 0x20 || n == 0x85 || n == 0xa0 || n == 0x1680 || (0x2000 <= n
        && n <= 0x200a) || n == 0x2028 || n == 0x2029 || n == 0x202f || n == 0x205f || n == 0x3000
}

/// The first position at or after `i` that holds no white space.
pub open spec fn skip_white(s: Seq<char>, i: int) -> int
    decreases s.len() - i,
{
    if 0 <= i < s.len() && is_white(s[i]) {
        skip_white(s, i + 1)
    } else {
        i
    }
}

/// How many of the first `n` characters are left once trailing white space is
/// dropped.
pub open spec fn keep_end(s: Seq<char>, n: int) -> int
    decreases n,
{
    if 0 < n <= s.len() && is_white(s[n - 1]) {
        keep_end(s, n - 1)
    } else {
        n
    }
}

pub open spec fn trim_start(s: Seq<char>) -> Seq<char> {
    s.subrange(skip_white(s, 0), s.len() as int)
}

pub open spec fn trim_end(s: Seq<char>) -> Seq<char> {
    s.subrange(0, keep_end(s, s.len() as int))
}

/// A text without white space at its two ends.
pub open spec fn trim(s: Seq<char>) -> Seq<char> {
    trim_end(trim_start(s))
}

/// Nothing but white space.
pub open spec fn blank(s: Seq<char>) -> bool {
    forall|i: int| 0 <= i < s.len() ==> is_white(#[trigger] s[i])
}

pub proof fn lemma_skip_white(s: Seq<char>, i: int)
    requires
        0 <= i <= s.len(),
    ensures
        i <= skip_white(s, i) <= s.len(),
        forall|k: int| i <= k < skip_white(s, i) ==> is_white(#[trigger] s[k]),
        skip_white(s, i) < s.len() ==> !is_white(s[skip_white(s, i)]),
    decreases s.len() - i,
{
    if i < s.len() && is_white(s[i]) {
        lemma_skip_white(s, i + 1);
    }
}

pub proof fn lemma_keep_end(s: Seq<char>, n: int)
    requires
        0 <= n <= s.len(),
    ensures
        0 <= keep_end(s, n) <= n,
        forall|k: int| keep_end(s, n) <= k < n ==> is_white(#[trigger] s[k]),
        keep_end(s, n) > 0 ==> !is_white(s[keep_end(s, n) - 1]),
    decreases n,
{
    if 0 < n && is_white(s[n - 1]) {
        lemma_keep_end(s, n - 1);
    }
}

/// Trimming leaves nothing exactly when there was nothing but white space.
pub proof fn lemma_trim_empty(s: Seq<char>)
    ensures
        trim(s).len() == 0 <==> blank(s),
        trim_start(s).len() == 0 <==> blank(s),
        trim_end(s).len() == 0 <==> blank(s),
{
    lemma_skip_white(s, 0);
    lemma_keep_end(s, s.len() as int);
    let t = trim_start(s);
    lemma_keep_end(t, t.len() as int);
    if !blank(s) {
        let w = choose|k: int| 0 <= k < s.len() && !is_white(#[trigger] s[k]);
        assert(skip_white(s, 0) <= w);
        assert(keep_end(s, s.len() as int) > w);
        assert(t[w - skip_white(s, 0)] == s[w]);
        assert(keep_end(t, t.len() as int) > w - skip_white(s, 0));
    }
}

pub proof fn lemma_skip_prefix(s: Seq<char>, t: Seq<char>, i: int)
    requires
        0 <= i <= s.len(),
    ensures
        skip_white(s, i) < s.len() ==> skip_white(s + t, i) == skip_white(s, i),
    decreases s.len() - i,
{
    if i < s.len() {
        assert((s + t)[i] == s[i]);
        if is_white(s[i]) {
            lemma_skip_prefix(s, t, i + 1);
        }
    }
}

proof fn lemma_keep_prefix(s: Seq<char>, t: Seq<char>, n: int)
    requires
        0 <= n <= s.len(),
    ensures
        keep_end(s + t, n) == keep_end(s, n),
    decreases n,
{
    if n > 0 {
        assert((s + t)[n - 1] == s[n - 1]);
        lemma_keep_prefix(s, t, n - 1);
    }
}

pub proof fn lemma_keep_tail(s: Seq<char>, t: Seq<char>, n: int)
    requires
        blank(t),
        s.len() <= n <= s.len() + t.len(),
    ensures
        keep_end(s + t, n) == keep_end(s, s.len() as int),
    decreases n,
{
    if n > s.len() {
        assert((s + t)[n - 1] == t[n - 1 - s.len()]);
        lemma_keep_tail(s, t, n - 1);
    } else {
        lemma_keep_prefix(s, t, n);
    }
}

/// White space in front of a text only moves where it begins.
pub proof fn lemma_skip_blank(s: Seq<char>, t: Seq<char>, i: int)
    requires
        blank(s),
        0 <= i <= s.len(),
    ensures
        skip_white(s + t, i) == s.len() + skip_white(t, 0),
    decreases s.len() - i,
{
    if i < s.len() {
        assert((s + t)[i] == s[i]);
        lemma_skip_blank(s, t, i + 1);
    } else {
        lemma_skip_shift(s, t, 0);
    }
}

proof fn lemma_skip_shift(s: Seq<char>, t: Seq<char>, i: int)
    requires
        0 <= i <= t.len(),
    ensures
        skip_white(s + t, s.len() + i) == s.len() + skip_white(t, i),
    decreases t.len() - i,
{
    if i < t.len() {
        assert((s + t)[s.len() + i] == t[i]);
        lemma_skip_shift(s, t, i + 1);
    }
}

/// What is kept of a text whose end is not blank ends in that end.
pub proof fn lemma_keep_suffix(s: Seq<char>, t: Seq<char>, n: int)
    requires
        0 <= n <= t.len(),
        keep_end(t, n) > 0,
    ensures
        keep_end(s + t, s.len() + n) == s.len() + keep_end(t, n),
    decreases n,
{
    if n > 0 {
        assert((s + t)[s.len() + n - 1] == t[n - 1]);
        if is_white(t[n - 1]) {
            lemma_keep_suffix(s, t, n - 1);
        }
    }
}

/// White space behind a text does not matter to trimming.
pub proof fn lemma_trim_tail(s: Seq<char>, t: Seq<char>)
    requires
        blank(t),
    ensures
        trim(s + t) == trim(s),
{
    lemma_trim_empty(s);
    lemma_trim_empty(s + t);
    if blank(s) {
        assert forall|i: int| 0 <= i < (s + t).len() implies is_white(#[trigger] (s + t)[i]) by {
            if i < s.len() {
                assert((s + t)[i] == s[i]);
            } else {
                assert((s + t)[i] == t[i - s.len()]);
            }
        }
        assert(trim(s + t) =~= trim(s));
    } else {
        lemma_skip_white(s, 0);
        let k = skip_white(s, 0);
        assert(trim_start(s).len() > 0);
        lemma_skip_prefix(s, t, 0);
        let u = trim_start(s);
        assert(trim_start(s + t) =~= u + t);
        lemma_keep_tail(u, t, (u + t).len() as int);
        lemma_keep_end(u, u.len() as int);
        assert(trim_end(u + t) =~= trim_end(u));
    }
}

/// Drops leading white space.
pub fn trimmed_start(v: &Vec<char>) -> (r: Vec<char>)
    ensures
        r@ == trim_start(v@),
{
    let a = leading_white(v);
    sub_chars(v, a, v.len())
}

/// Counts the white space in front.
pub fn leading_white(v: &Vec<char>) -> (r: usize)
    ensures
        r == skip_white(v@, 0),
        r <= v@.len(),
{
    let mut a: usize = 0;
    while a < v.len() && white(v[a])
        invariant
            a <= v@.len(),
            skip_white(v@, a as int) == skip_white(v@, 0),
        decreases v@.len() - a,
    {
        a += 1;
    }
    a
}

/// Drops trailing white space.
pub fn trimmed_end(v: &Vec<char>) -> (r: Vec<char>)
    ensures
        r@ == trim_end(v@),
{
    let mut n: usize = v.len();
    while n > 0 && white(v[n - 1])
        invariant
            n <= v@.len(),
            keep_end(v@, n as int) == keep_end(v@, v@.len() as int),
        decreases n,
    {
        n -= 1;
    }
    sub_chars(v, 0, n)
}

/// The characters from `from` up to `to`.
pub fn sub_chars(v: &Vec<char>, from: usize, to: usize) -> (r: Vec<char>)
    requires
        from <= to <= v@.len(),
    ensures
        r@ == v@.subrange(from as int, to as int),
{
    let mut out: Vec<char> = Vec::new();
    let mut i: usize = from;
    while i < to
        invariant
            from <= i <= to <= v@.len(),
            out@ == v@.subrange(from as int, i as int),
        decreases to - i,
    {
        out.push(v[i]);
        i += 1;
        assert(v@.subrange(from as int, i as int) =~= v@.subrange(from as int, i - 1).push(v@[i - 1]));
    }
    out
}

/// Drops white space at both ends.
pub fn trimmed(v: &Vec<char>) -> (r: Vec<char>)
    ensures
        r@ == trim(v@),
{
    let t = trimmed_start(v);
    trimmed_end(&t)
}

/// Whether a text holds nothing but white space.
pub fn is_blank_text(s: &str) -> (r: bool)
    ensures
        r == blank(s@),
{
    let v = chars_of(s);
    let mut i: usize = 0;
    while i < v.len()
        invariant
            i <= v@.len(),
            v@ == s@,
            forall|k: int| 0 <= k < i ==> is_white(#[trigger] s@[k]),
        decreases v@.len() - i,
    {
        if !white(v[i]) {
            return false;
        }
        i += 1;
    }
    true
}

// ---------------------------------------------------------------------------
// Letters
// ---------------------------------------------------------------------------
/// A character of the ASCII range.
pub open spec fn is_ascii(c: char) -> bool {
    (c as int) < 0x80
}

/// A letter of the ASCII range.
pub open spec fn ascii_letter(c: char) -> bool {
    'a' <= c <= 'z' || 'A' <= c <= 'Z'
}

/// A letter or a digit of the ASCII range.
pub open spec fn ascii_letter_or_digit(c: char) -> bool {
    ascii_letter(c) || '0' <= c <= '9'
}

/// The Unicode properties `Alphabetic` or `Numeric`.
pub uninterp spec fn char_alphanumeric(c: char) -> bool;

/// `char::is_alphanumeric`. Claims that the answer depends on the character
/// alone, and that in the ASCII range it is yes for letters and digits.
pub assume_specification[ char::is_alphanumeric ](c: char) -> (r: bool)
    ensures
        r == char_alphanumeric(c),
        is_ascii(c) ==> r == ascii_letter_or_digit(c),
;

/// A letter or a digit.
pub open spec fn alphanumeric(c: char) -> bool {
    if is_ascii(c) {
        ascii_letter_or_digit(c)
    } else {
        char_alphanumeric(c)
    }
}

/// The Unicode property `Alphabetic`.
pub uninterp spec fn char_alphabetic(c: char) -> bool;

/// `char::is_alphabetic`. Claims that the answer depends on the character alone,
/// and that in the ASCII range it is yes for letters.
pub assume_specification[ char::is_alphabetic ](c: char) -> (r: bool)
    ensures
        r == char_alphabetic(c),
        is_ascii(c) ==> r == ascii_letter(c),
;

/// A letter.
pub open spec fn alphabetic(c: char) -> bool {
    if is_ascii(c) {
        ascii_letter(c)
    } else {
        char_alphabetic(c)
    }
}

/// White space of the ASCII range: space, tab, line feed, form feed and carriage
/// return.
pub open spec fn ascii_white(c: char) -> bool {
    c == ' ' || c == '\t' || c == '\n' || c == '\x0c' || c == '\r'
}

/// An ASCII capital as its small letter, and any other character as it is.
pub open spec fn ascii_lower(c: char) -> char {
    if 'A' as int <= c as int <= 'Z' as int {
        (c as int + 32) as char
    } else {
        c
    }
}

/// `ascii_lower` of every character.
pub open spec fn ascii_lowered(s: Seq<char>) -> Seq<char> {
    s.map_values(|c: char| ascii_lower(c))
}

pub fn lower_ascii(c: char) -> (r: char)
    ensures
        r == ascii_lower(c),
{
    let n = c as u32;
    if 65 <= n && n <= 90 {
        (n as u8 + 32u8) as char
    } else {
        c
    }
}

pub fn lower_ascii_all(v: &Vec<char>) -> (r: Vec<char>)
    ensures
        r@ == ascii_lowered(v@),
{
    let mut out: Vec<char> = Vec::new();
    let mut i: usize = 0;
    while i < v.len()
        invariant
            i <= v@.len(),
            out@ == ascii_lowered(v@.take(i as int)),
        decreases v@.len() - i,
    {
        out.push(lower_ascii(v[i]));
        i += 1;
        assert(ascii_lowered(v@.take(i as int)) =~= ascii_lowered(v@.take(i - 1)).push(
            ascii_lower(v@[i - 1]),
        ));
    }
    assert(v@.take(v@.len() as int) =~= v@);
    out
}

/// Whether two character vectors hold the same characters.
pub fn same_chars(a: &Vec<char>, b: &Vec<char>) -> (r: bool)
    ensures
        r == (a@ == b@),
{
    if a.len() != b.len() {
        return false;
    }
    let mut i: usize = 0;
    while i < a.len()
        invariant
            i <= a@.len(),
            a@.len() == b@.len(),
            forall|k: int| 0 <= k < i ==> a@[k] == b@[k],
        decreases a@.len() - i,
    {
        if a[i] != b[i] {
            return false;
        }
        i += 1;
    }
    assert(a@ =~= b@);
    true
}

/// Whether characters are those of a string.
pub fn chars_are(a: &Vec<char>, b: &str) -> (r: bool)
    ensures
        r == (a@ == b@),
{
    let v = chars_of(b);
    same_chars(a, &v)
}

// ---------------------------------------------------------------------------
// Numbers
// ---------------------------------------------------------------------------
/// The decimal digit for `d`.
pub open spec fn digit(d: int) -> char {
    (d + 48) as char
}

/// A natural number in decimal.
pub open spec fn decimal(n: nat) -> Seq<char>
    decreases n,
{
    if n < 10 {
        seq![digit(n as int)]
    } else {
        decimal(n / 10).push(digit((n % 10) as int))
    }
}

/// An integer in decimal, with a leading minus sign below zero.
pub open spec fn signed_decimal(n: int) -> Seq<char> {
    if n < 0 {
        seq!['-'] + decimal((-n) as nat)
    } else {
        decimal(n as nat)
    }
}

/// Ten to the power of `k`.
pub open spec fn ten_to(k: nat) -> nat
    decreases k,
{
    if k == 0 {
        1
    } else {
        10 * ten_to((k - 1) as nat)
    }
}

/// A number below ten to the power of `k` has at most `k` digits, and nothing
/// but digits.
pub proof fn lemma_decimal_digits(n: nat, k: nat)
    requires
        k >= 1,
        n < ten_to(k),
    ensures
        1 <= decimal(n).len() <= k,
        forall|i: int| 0 <= i < decimal(n).len() ==> 48 <= #[trigger] (decimal(n)[i] as int) <= 57,
    decreases n,
{
    if n >= 10 {
        if k == 1 {
            assert(ten_to(1) == 10 * ten_to(0));
        }
        lemma_decimal_digits(n / 10, (k - 1) as nat);
        let front = decimal(n / 10);
        assert forall|i: int| 0 <= i < decimal(n).len() implies 48 <= #[trigger] (decimal(
            n,
        )[i] as int) <= 57 by {
            if i < front.len() {
                assert(decimal(n)[i] == front[i]);
            }
        }
    }
}

/// A 64-bit number has at most twenty digits.
pub proof fn lemma_decimal_u64(n: u64)
    ensures
        1 <= decimal(n as nat).len() <= 20,
        forall|i: int|
            0 <= i < decimal(n as nat).len() ==> 48 <= #[trigger] (decimal(n as nat)[i] as int) <= 57,
{
    reveal_with_fuel(ten_to, 21);
    lemma_decimal_digits(n as nat, 20);
}

/// A number is written with digits only.
pub proof fn lemma_no_hyphen(n: nat)
    ensures
        decimal(n).len() > 0,
        forall|i: int| 0 <= i < decimal(n).len() ==> #[trigger] decimal(n)[i] != '-',
    decreases n,
{
    if n >= 10 {
        lemma_no_hyphen(n / 10);
        let front = decimal(n / 10);
        assert forall|i: int| 0 <= i < decimal(n).len() implies #[trigger] decimal(n)[i] != '-' by {
            if i < front.len() {
                assert(decimal(n)[i] == front[i]);
            }
        }
    }
}

/// Two numbers that are written alike are the same.
pub proof fn lemma_decimal_is_injective(a: nat, b: nat)
    requires
        decimal(a) == decimal(b),
    ensures
        a == b,
    decreases a,
{
    assert(decimal(a).last() == digit((a % 10) as int));
    assert(decimal(b).last() == digit((b % 10) as int));
    if a >= 10 {
        lemma_no_hyphen(a / 10);
        assert(decimal(a).drop_last() =~= decimal(a / 10));
    }
    if b >= 10 {
        lemma_no_hyphen(b / 10);
        assert(decimal(b).drop_last() =~= decimal(b / 10));
    }
    if a >= 10 && b >= 10 {
        lemma_decimal_is_injective(a / 10, b / 10);
    }
}

/// Two integers that are written alike are the same.
pub proof fn lemma_signed_is_injective(a: int, b: int)
    requires
        signed_decimal(a) == signed_decimal(b),
    ensures
        a == b,
{
    let x = (if a < 0 {
        -a
    } else {
        a
    }) as nat;
    let y = (if b < 0 {
        -b
    } else {
        b
    }) as nat;
    lemma_no_hyphen(x);
    lemma_no_hyphen(y);
    if a < 0 {
        assert(signed_decimal(a)[0] == '-');
        assert(signed_decimal(a).skip(1) =~= decimal(x));
    }
    if b < 0 {
        assert(signed_decimal(b)[0] == '-');
        assert(signed_decimal(b).skip(1) =~= decimal(y));
    }
    lemma_decimal_is_injective(x, y);
}

/// Writes a number in decimal.
pub fn decimal_of(n: u64) -> (r: Vec<char>)
    ensures
        r@ == decimal(n as nat),
    decreases n,
{
    let d = (n % 10) as u8 + 48u8;
    let c = d as char;
    assert(c == digit((n % 10) as int));
    if n < 10 {
        let mut out: Vec<char> = Vec::new();
        out.push(c);
        assert(out@ =~= seq![digit(n as int)]);
        out
    } else {
        let mut out = decimal_of(n / 10);
        out.push(c);
        out
    }
}

/// Writes a signed number in decimal.
pub fn signed_decimal_of(n: i64) -> (r: Vec<char>)
    ensures
        r@ == signed_decimal(n as int),
{
    if n >= 0 {
        return decimal_of(n as u64);
    }
    // The smallest value has no positive counterpart of its own type.
    let mut out: Vec<char> = Vec::new();
    out.push('-');
    let high: i64 = -(n + 1);
    let magnitude: u64 = high as u64 + 1;
    let digits = decimal_of(magnitude);
    push_chars(&mut out, &digits);
    assert(out@ =~= signed_decimal(n as int));
    out
}

// ---------------------------------------------------------------------------
// Order
// ---------------------------------------------------------------------------
/// Lexicographic order by code point: `a` sorts before `b`.
pub open spec fn text_less(a: Seq<char>, b: Seq<char>) -> bool
    decreases a.len(),
{
    if b.len() == 0 {
        false
    } else if a.len() == 0 {
        true
    } else if a[0] != b[0] {
        (a[0] as int) < (b[0] as int)
    } else {
        text_less(a.drop_first(), b.drop_first())
    }
}

/// The code point of a character.
pub fn code(c: char) -> (r: u32)
    ensures
        r == c as int,
{
    c as u32
}

/// Whether `a` sorts before `b`.
pub fn sorts_before(a: &str, b: &str) -> (r: bool)
    ensures
        r == text_less(a@, b@),
{
    let x = chars_of(a);
    let y = chars_of(b);
    chars_before(&x, &y)
}

/// Lexicographic order is a strict order that tells any two texts apart.
pub proof fn lemma_text_order(a: Seq<char>, b: Seq<char>, c: Seq<char>)
    ensures
        !text_less(a, a),
        text_less(a, b) ==> !text_less(b, a),
        text_less(a, b) && text_less(b, c) ==> text_less(a, c),
        !text_less(a, b) && !text_less(b, a) ==> a == b,
    decreases a.len(), b.len(), c.len(),
{
    if a.len() > 0 && b.len() > 0 && c.len() > 0 {
        lemma_text_order(a.drop_first(), b.drop_first(), c.drop_first());
    } else if a.len() > 0 && b.len() > 0 {
        lemma_text_order(a.drop_first(), b.drop_first(), c);
    } else if a.len() > 0 {
        lemma_text_order(a.drop_first(), b, c);
    }
    if !text_less(a, b) && !text_less(b, a) {
        if a.len() > 0 {
            assert(a =~= seq![a[0]] + a.drop_first());
            assert(b =~= seq![b[0]] + b.drop_first());
        }
        assert(a =~= b);
    }
}

// ---------------------------------------------------------------------------
// Pieces
// ---------------------------------------------------------------------------
/// The views of a sequence of character vectors.
pub open spec fn char_views(s: Seq<Vec<char>>) -> Seq<Seq<char>> {
    s.map_values(|v: Vec<char>| v@)
}

/// The pieces between separators. There is always one more piece than there are
/// separators.
pub open spec fn split_at(s: Seq<char>, separator: char) -> Seq<Seq<char>>
    decreases s.len(),
{
    if s.len() == 0 {
        seq![Seq::empty()]
    } else {
        let front = split_at(s.drop_last(), separator);
        if s.last() == separator {
            front.push(Seq::empty())
        } else {
            front.drop_last().push(front.last().push(s.last()))
        }
    }
}

pub proof fn lemma_split_len(s: Seq<char>, separator: char)
    ensures
        split_at(s, separator).len() >= 1,
    decreases s.len(),
{
    if s.len() > 0 {
        lemma_split_len(s.drop_last(), separator);
    }
}

pub fn split(v: &Vec<char>, separator: char) -> (r: Vec<Vec<char>>)
    ensures
        char_views(r@) == split_at(v@, separator),
        r@.len() >= 1,
{
    let mut out: Vec<Vec<char>> = Vec::new();
    let mut piece: Vec<char> = Vec::new();
    let mut i: usize = 0;
    assert(v@.take(0) =~= Seq::<char>::empty());
    assert(char_views(out@).push(piece@) =~= seq![Seq::<char>::empty()]);
    while i < v.len()
        invariant
            i <= v@.len(),
            split_at(v@.take(i as int), separator) == char_views(out@).push(piece@),
        decreases v@.len() - i,
    {
        let c = v[i];
        let ghost done = char_views(out@);
        let ghost part = piece@;
        assert(v@.take(i + 1).drop_last() =~= v@.take(i as int));
        assert(done.push(part).drop_last() =~= done);
        if c == separator {
            out.push(piece);
            piece = Vec::new();
            assert(char_views(out@) =~= done.push(part));
            assert(piece@ =~= Seq::<char>::empty());
        } else {
            piece.push(c);
        }
        i += 1;
    }
    assert(v@.take(v@.len() as int) =~= v@);
    let ghost done = char_views(out@);
    let ghost part = piece@;
    out.push(piece);
    assert(char_views(out@) =~= done.push(part));
    out
}

/// A line without the carriage return at its end.
pub open spec fn without_return(s: Seq<char>) -> Seq<char> {
    if s.len() > 0 && s.last() == '\r' {
        s.drop_last()
    } else {
        s
    }
}

/// The lines of a text. A line ends with a line feed, or with a carriage return
/// and a line feed; the last one needs no ending.
pub open spec fn lines_of(s: Seq<char>) -> Seq<Seq<char>> {
    let parts = split_at(s, '\n');
    let ended = parts.drop_last().map_values(|p: Seq<char>| without_return(p));
    if parts.last().len() == 0 {
        ended
    } else {
        ended.push(parts.last())
    }
}

pub fn lines(v: &Vec<char>) -> (r: Vec<Vec<char>>)
    ensures
        char_views(r@) == lines_of(v@),
{
    let parts = split(v, '\n');
    let ghost all = char_views(parts@);
    let ghost ended = all.drop_last().map_values(|p: Seq<char>| without_return(p));
    let mut out: Vec<Vec<char>> = Vec::new();
    let mut i: usize = 0;
    let n = parts.len();
    while i + 1 < n
        invariant
            n == parts@.len(),
            n >= 1,
            i < n,
            all == char_views(parts@),
            ended == all.drop_last().map_values(|p: Seq<char>| without_return(p)),
            char_views(out@) == ended.take(i as int),
        decreases n - i,
    {
        let part = &parts[i];
        let m = part.len();
        let ghost before = char_views(out@);
        let line = if m > 0 && part[m - 1] == '\r' {
            let l = sub_chars(part, 0, m - 1);
            assert(l@ =~= part@.drop_last());
            l
        } else {
            let l = sub_chars(part, 0, m);
            assert(l@ =~= part@);
            l
        };
        assert(ended[i as int] == line@);
        out.push(line);
        assert(char_views(out@) =~= before.push(line@));
        i += 1;
        assert(ended.take(i as int) =~= ended.take(i - 1).push(line@));
    }
    assert(ended.take(ended.len() as int) =~= ended);
    let m = parts[n - 1].len();
    if m > 0 {
        let ghost before = char_views(out@);
        let last = sub_chars(&parts[n - 1], 0, m);
        assert(last@ =~= all.last());
        out.push(last);
        assert(char_views(out@) =~= before.push(last@));
    }
    out
}

/// Where the word that starts at `i` ends.
pub open spec fn word_end(s: Seq<char>, i: int) -> int
    decreases s.len() - i,
{
    if 0 <= i < s.len() && !is_white(s[i]) {
        word_end(s, i + 1)
    } else {
        i
    }
}

pub proof fn lemma_word_end(s: Seq<char>, i: int)
    requires
        0 <= i <= s.len(),
    ensures
        i <= word_end(s, i) <= s.len(),
        i < s.len() && !is_white(s[i]) ==> i < word_end(s, i),
    decreases s.len() - i,
{
    if i < s.len() && !is_white(s[i]) {
        lemma_word_end(s, i + 1);
    }
}

/// The words of a text from `i` on: the stretches without white space.
pub open spec fn words_from(s: Seq<char>, i: int) -> Seq<Seq<char>>
    decreases s.len() - i,
    via words_from_decreases
{
    if i < 0 || i > s.len() {
        Seq::empty()
    } else {
        let a = skip_white(s, i);
        if a >= s.len() {
            Seq::empty()
        } else {
            let b = word_end(s, a);
            seq![s.subrange(a, b)] + words_from(s, b)
        }
    }
}

#[via_fn]
proof fn words_from_decreases(s: Seq<char>, i: int) {
    if 0 <= i <= s.len() {
        lemma_skip_white(s, i);
        lemma_word_end(s, skip_white(s, i));
    }
}

/// The words of a text.
pub open spec fn words_of(s: Seq<char>) -> Seq<Seq<char>> {
    words_from(s, 0)
}

pub fn words(v: &Vec<char>) -> (r: Vec<Vec<char>>)
    ensures
        char_views(r@) == words_of(v@),
{
    let mut out: Vec<Vec<char>> = Vec::new();
    let mut i: usize = 0;
    assert(char_views(out@) + words_from(v@, 0) =~= words_of(v@));
    loop
        invariant
            i <= v@.len(),
            char_views(out@) + words_from(v@, i as int) == words_of(v@),
        ensures
            char_views(out@) == words_of(v@),
        decreases v@.len() - i,
    {
        let ghost from = i as int;
        proof {
            lemma_skip_white(v@, from);
            lemma_word_end(v@, skip_white(v@, from));
        }
        let mut a: usize = i;
        while a < v.len() && white(v[a])
            invariant
                from <= a <= v@.len(),
                0 <= from,
                skip_white(v@, from) == skip_white(v@, a as int),
            decreases v@.len() - a,
        {
            a += 1;
        }
        assert(a == skip_white(v@, from));
        if a >= v.len() {
            assert(words_from(v@, from) =~= Seq::<Seq<char>>::empty());
            assert(char_views(out@) + Seq::<Seq<char>>::empty() =~= char_views(out@));
            break;
        }
        let mut b: usize = a;
        while b < v.len() && !white(v[b])
            invariant
                a <= b <= v@.len(),
                word_end(v@, a as int) == word_end(v@, b as int),
            decreases v@.len() - b,
        {
            b += 1;
        }
        let word = sub_chars(v, a, b);
        let ghost before = char_views(out@);
        out.push(word);
        assert(char_views(out@) =~= before.push(word@));
        assert(before + words_from(v@, from) =~= char_views(out@) + words_from(v@, b as int));
        i = b;
    }
    out
}

/// `pattern` stands in `s` at `i`.
pub open spec fn occurs_at(s: Seq<char>, pattern: Seq<char>, i: int) -> bool {
    0 <= i && i + pattern.len() <= s.len() && s.subrange(i, i + pattern.len()) == pattern
}

pub fn stands_at(v: &Vec<char>, pattern: &Vec<char>, i: usize) -> (r: bool)
    ensures
        r == occurs_at(v@, pattern@, i as int),
{
    if i > v.len() || pattern.len() > v.len() - i {
        return false;
    }
    let mut k: usize = 0;
    assert(v@.len() == v.len());
    while k < pattern.len()
        invariant
            k <= pattern@.len(),
            i + pattern@.len() <= v@.len() <= usize::MAX,
            forall|j: int| 0 <= j < k ==> v@[i + j] == pattern@[j],
        decreases pattern@.len() - k,
    {
        if v[i + k] != pattern[k] {
            assert(v@.subrange(i as int, i + pattern@.len())[k as int] != pattern@[k as int]);
            return false;
        }
        k += 1;
    }
    assert(v@.subrange(i as int, i + pattern@.len()) =~= pattern@);
    true
}

/// `s` from `i` on, with every occurrence of `from` replaced, left to right.
pub open spec fn replaced_from(s: Seq<char>, from: Seq<char>, to: Seq<char>, i: int) -> Seq<char>
    decreases s.len() - i,
{
    if i < 0 || i >= s.len() || from.len() == 0 {
        Seq::empty()
    } else if occurs_at(s, from, i) {
        to + replaced_from(s, from, to, i + from.len())
    } else {
        seq![s[i]] + replaced_from(s, from, to, i + 1)
    }
}

/// `s` with every occurrence of a pattern replaced.
pub open spec fn replaced(s: Seq<char>, from: Seq<char>, to: Seq<char>) -> Seq<char> {
    if from.len() == 0 {
        s
    } else {
        replaced_from(s, from, to, 0)
    }
}

pub fn replace(v: &Vec<char>, from: &str, to: &str) -> (r: Vec<char>)
    ensures
        r@ == replaced(v@, from@, to@),
{
    let pattern = chars_of(from);
    if pattern.len() == 0 {
        assert(v@.subrange(0, v@.len() as int) =~= v@);
        return sub_chars(v, 0, v.len());
    }
    let mut out: Vec<char> = Vec::new();
    let mut i: usize = 0;
    assert(out@ + replaced_from(v@, from@, to@, 0) =~= replaced(v@, from@, to@));
    while i < v.len()
        invariant
            i <= v@.len(),
            pattern@ == from@,
            pattern@.len() > 0,
            out@ + replaced_from(v@, from@, to@, i as int) == replaced(v@, from@, to@),
        decreases v@.len() - i,
    {
        let ghost before = out@;
        let ghost at = i as int;
        if v[i] == pattern[0] && stands_at(v, &pattern, i) {
            push_text(&mut out, to);
            i += pattern.len();
            assert(before + (to@ + replaced_from(v@, from@, to@, i as int)) =~= out@
                + replaced_from(v@, from@, to@, i as int));
        } else {
            assert(!occurs_at(v@, from@, at)) by {
                if occurs_at(v@, from@, at) {
                    assert(v@.subrange(at, at + from@.len())[0] == v@[at]);
                }
            }
            out.push(v[i]);
            i += 1;
            assert(before + (seq![v@[at]] + replaced_from(v@, from@, to@, i as int)) =~= out@
                + replaced_from(v@, from@, to@, i as int));
        }
    }
    assert(out@ + Seq::<char>::empty() =~= out@);
    out
}

/// The first place at or after `i` where a pattern stands.
pub open spec fn find_from(s: Seq<char>, pattern: Seq<char>, i: int) -> Option<int>
    decreases s.len() - i,
{
    if i < 0 || i > s.len() {
        None
    } else if occurs_at(s, pattern, i) {
        Some(i)
    } else if i == s.len() {
        None
    } else {
        find_from(s, pattern, i + 1)
    }
}

/// Whether a pattern stands anywhere in a text.
pub open spec fn contains_text(s: Seq<char>, pattern: Seq<char>) -> bool {
    exists|i: int| #[trigger] occurs_at(s, pattern, i)
}

pub proof fn lemma_find_from(s: Seq<char>, pattern: Seq<char>, i: int)
    requires
        0 <= i <= s.len(),
    ensures
        find_from(s, pattern, i) matches Some(k) ==> i <= k && occurs_at(s, pattern, k),
        find_from(s, pattern, i) is None ==> forall|k: int| i <= k ==> !#[trigger] occurs_at(s, pattern, k),
    decreases s.len() - i,
{
    if !occurs_at(s, pattern, i) && i < s.len() {
        lemma_find_from(s, pattern, i + 1);
    }
}

pub fn find_chars(v: &Vec<char>, pattern: &Vec<char>, from: usize) -> (r: Option<usize>)
    requires
        from <= v@.len(),
    ensures
        (match r {
            Some(i) => Some(i as int),
            None => None,
        }) == find_from(v@, pattern@, from as int),
        r matches Some(i) ==> from <= i && i + pattern@.len() <= v@.len(),
{
    let mut i: usize = from;
    loop
        invariant
            from <= i <= v@.len(),
            find_from(v@, pattern@, from as int) == find_from(v@, pattern@, i as int),
        decreases v@.len() - i,
    {
        if stands_at(v, pattern, i) {
            return Some(i);
        }
        if i >= v.len() {
            return None;
        }
        i += 1;
    }
}

pub fn has_text(v: &Vec<char>, pattern: &str) -> (r: bool)
    ensures
        r == contains_text(v@, pattern@),
{
    let p = chars_of(pattern);
    proof {
        lemma_find_from(v@, p@, 0);
    }
    match find_chars(v, &p, 0) {
        Some(_) => true,
        None => {
            assert forall|i: int| !#[trigger] occurs_at(v@, pattern@, i) by {}
            false
        },
    }
}

// ---------------------------------------------------------------------------
// Case
// ---------------------------------------------------------------------------
/// The Unicode lowercase form of a character, which may be several.
pub uninterp spec fn char_lowercase(c: char) -> Seq<char>;

/// `char::to_lowercase`. Claims that the lowercase form depends on the character
/// alone, and that in the ASCII range it is the small letter, or the character
/// itself.
#[verifier::external_body]
fn to_lowercase(c: char) -> (r: Vec<char>)
    ensures
        r@ == char_lowercase(c),
        is_ascii(c) ==> r@ == seq![ascii_lower(c)],
{
    c.to_lowercase().collect()
}

/// The lowercase form of a character, which may be several.
pub open spec fn lowercase_of(c: char) -> Seq<char> {
    if is_ascii(c) {
        seq![ascii_lower(c)]
    } else {
        char_lowercase(c)
    }
}

pub fn lowercase(c: char) -> (r: Vec<char>)
    ensures
        r@ == lowercase_of(c),
{
    to_lowercase(c)
}

/// A text of the ASCII range.
pub open spec fn all_ascii(s: Seq<char>) -> bool {
    forall|i: int| 0 <= i < s.len() ==> is_ascii(#[trigger] s[i])
}

/// A text in Unicode lowercase.
pub uninterp spec fn str_lowercase(s: Seq<char>) -> Seq<char>;

/// `str::to_lowercase`. Claims that the result depends on the text alone, and
/// that in the ASCII range it is the text with small letters.
#[verifier::external_body]
fn to_lowercase_text(s: &str) -> (r: String)
    ensures
        r@ == str_lowercase(s@),
        all_ascii(s@) ==> r@ == ascii_lowered(s@),
{
    s.to_lowercase()
}

/// A text in lowercase.
pub open spec fn text_lowercase(s: Seq<char>) -> Seq<char> {
    if all_ascii(s) {
        ascii_lowered(s)
    } else {
        str_lowercase(s)
    }
}

pub fn lower_text(s: &str) -> (r: String)
    ensures
        r@ == text_lowercase(s@),
{
    to_lowercase_text(s)
}

/// A text in quotes, with special characters escaped.
pub uninterp spec fn quoted_text(s: Seq<char>) -> Seq<char>;

/// The `Debug` form of `str`. Claims that it depends on the text alone.
#[verifier::external_body]
pub(crate) fn quote_text(s: &str) -> (r: String)
    ensures
        r@ == quoted_text(s@),
{
    format!("{:?}", s)
}

/// Whether the characters of `a` sort before those of `b`.
pub fn chars_before(a: &Vec<char>, b: &Vec<char>) -> (r: bool)
    ensures
        r == text_less(a@, b@),
{
    let mut i: usize = 0;
    assert(a@.skip(0) =~= a@);
    assert(b@.skip(0) =~= b@);
    while i < a.len() && i < b.len() && a[i] == b[i]
        invariant
            i <= a@.len(),
            i <= b@.len(),
            text_less(a@, b@) == text_less(a@.skip(i as int), b@.skip(i as int)),
        decreases a@.len() - i,
    {
        assert(a@.skip(i as int).drop_first() =~= a@.skip(i + 1));
        assert(b@.skip(i as int).drop_first() =~= b@.skip(i + 1));
        i += 1;
    }
    assert(i < a@.len() ==> a@.skip(i as int)[0] == a@[i as int]);
    assert(i < b@.len() ==> b@.skip(i as int)[0] == b@[i as int]);
    if i >= b.len() {
        false
    } else if i >= a.len() {
        true
    } else {
        code(a[i]) < code(b[i])
    }
}

// ---------------------------------------------------------------------------
// Reading numbers
// ---------------------------------------------------------------------------
pub open spec fn is_digit(c: char) -> bool {
    '0' as int <= c as int <= '9' as int
}

/// The value of a sequence of decimal digits, if it is one.
pub open spec fn digits_value(s: Seq<char>) -> Option<int>
    decreases s.len(),
{
    if s.len() == 0 {
        Some(0)
    } else if !is_digit(s.last()) {
        None
    } else {
        match digits_value(s.drop_last()) {
            Some(n) => Some(10 * n + (s.last() as int - 48)),
            None => None,
        }
    }
}

/// A number as Rust reads one: an optional plus sign and at least one digit.
pub open spec fn number_value(s: Seq<char>) -> Option<int> {
    let digits = if s.len() > 0 && s[0] == '+' {
        s.skip(1)
    } else {
        s
    };
    if digits.len() == 0 {
        None
    } else {
        digits_value(digits)
    }
}

pub proof fn lemma_digits_prefix(s: Seq<char>, n: int)
    requires
        0 <= n <= s.len(),
        digits_value(s) is Some,
    ensures
        digits_value(s.take(n)) is Some,
        0 <= digits_value(s.take(n))->0 <= digits_value(s)->0,
    decreases s.len(),
{
    if n < s.len() {
        lemma_digits_prefix(s.drop_last(), n);
        assert(s.drop_last().take(n) =~= s.take(n));
    } else {
        assert(s.take(n) =~= s);
        if s.len() > 0 {
            lemma_digits_prefix(s.drop_last(), s.len() - 1);
            assert(s.drop_last().take(s.len() - 1) =~= s.drop_last());
        }
    }
}

/// Reads a number no larger than `limit`.
pub fn read_number(v: &Vec<char>, limit: u64) -> (r: Option<u64>)
    ensures
        match number_value(v@) {
            Some(n) => if n <= limit {
                0 <= n && r == Some(n as u64)
            } else {
                r is None
            },
            None => r is None,
        },
{
    let start: usize = if v.len() > 0 && v[0] == '+' {
        1
    } else {
        0
    };
    let ghost digits = v@.skip(start as int);
    if v.len() == start {
        return None;
    }
    assert(start == 0 ==> digits =~= v@);
    let mut value: u64 = 0;
    let mut i: usize = start;
    assert(digits.take(0) =~= Seq::<char>::empty());
    while i < v.len()
        invariant
            start <= i <= v@.len(),
            start <= 1,
            digits == v@.skip(start as int),
            digits_value(digits.take(i - start)) == Some(value as int),
            value <= limit,
            digits.len() > 0,
            number_value(v@) == digits_value(digits),
        decreases v@.len() - i,
    {
        let n = code(v[i]);
        assert(digits[i - start] == v@[i as int]);
        assert(digits.take(i - start + 1).drop_last() =~= digits.take(i - start));
        if n < 48 || n > 57 {
            proof {
                assert(digits_value(digits.take(i - start + 1)) is None);
                if digits_value(digits) is Some {
                    lemma_digits_prefix(digits, i - start + 1);
                }
            }
            return None;
        }
        let d: u64 = (n - 48) as u64;
        assert(digits_value(digits.take(i - start + 1)) == Some(10 * value + d));
        if value > limit / 10 || d > limit - value * 10 {
            proof {
                assert(10 * value + d > limit);
                if digits_value(digits) is Some {
                    lemma_digits_prefix(digits, i - start + 1);
                }
            }
            return None;
        }
        value = value * 10 + d;
        i += 1;
    }
    assert(digits.take(digits.len() as int) =~= digits);
    Some(value)
}

// ---------------------------------------------------------------------------
// Splitting
// ---------------------------------------------------------------------------
/// Splitting is undone by joining, and no part holds the separator.
pub proof fn splitting_loses_nothing(s: Seq<char>, separator: char)
    ensures
        crate::failure::joined(split_at(s, separator), seq![separator]) == s,
        forall|i: int|
            0 <= i < split_at(s, separator).len() ==> !(#[trigger] split_at(
                s,
                separator,
            )[i]).contains(separator),
        split_at(s, separator).len() >= 1,
    decreases s.len(),
{
    let parts = split_at(s, separator);
    let sep = seq![separator];
    if s.len() == 0 {
        assert(crate::failure::joined(parts, sep) =~= s);
    } else {
        let d = s.drop_last();
        let front = split_at(d, separator);
        splitting_loses_nothing(d, separator);
        if s.last() == separator {
            assert(parts.drop_last() =~= front);
            assert(crate::failure::joined(parts, sep) =~= s);
            assert forall|i: int| 0 <= i < parts.len() implies !(#[trigger] parts[i]).contains(
                separator,
            ) by {
                if i < front.len() {
                    assert(parts[i] == front[i]);
                }
            }
        } else {
            let l = front.last().push(s.last());
            assert(parts.drop_last() =~= front.drop_last());
            assert(d.push(s.last()) =~= s);
            if front.len() == 1 {
                assert(parts =~= seq![l]);
                assert(crate::failure::joined(front, sep) == front[0]);
                assert(crate::failure::joined(parts, sep) == l);
            } else {
                let a = crate::failure::joined(front.drop_last(), sep);
                assert(crate::failure::joined(front, sep) == a + sep + front.last());
                assert(crate::failure::joined(parts, sep) == a + sep + l);
                assert(a + sep + l =~= (a + sep + front.last()).push(s.last()));
            }
            assert forall|i: int| 0 <= i < parts.len() implies !(#[trigger] parts[i]).contains(
                separator,
            ) by {
                if i < front.len() - 1 {
                    assert(parts[i] == front[i]);
                } else {
                    assert(parts[i] == l);
                    if l.contains(separator) {
                        let k = choose|k: int| 0 <= k < l.len() && l[k] == separator;
                        assert(k < front.last().len());
                        assert(front.last()[k] == separator);
                        assert(front[front.len() - 1].contains(separator));
                    }
                }
            }
        }
    }
}

/// A separator between two texts parts them.
pub proof fn splitting_parts_at_every_separator(a: Seq<char>, separator: char, b: Seq<char>)
    ensures
        split_at(a.push(separator) + b, separator) == split_at(a, separator) + split_at(
            b,
            separator,
        ),
    decreases b.len(),
{
    let s = a.push(separator) + b;
    let left = split_at(a, separator);
    if b.len() == 0 {
        assert(s =~= a.push(separator));
        assert(s.drop_last() =~= a);
        assert(split_at(s, separator) =~= left + split_at(b, separator));
    } else {
        let d = b.drop_last();
        lemma_split_len(d, separator);
        splitting_parts_at_every_separator(a, separator, d);
        assert(s.drop_last() =~= a.push(separator) + d);
        let right = split_at(d, separator);
        if b.last() == separator {
            assert(split_at(s, separator) =~= left + split_at(b, separator));
        } else {
            assert((left + right).drop_last() =~= left + right.drop_last());
            assert((left + right).last() == right.last());
            assert(split_at(s, separator) =~= left + split_at(b, separator));
        }
    }
}

/// A text without the separator is one part.
pub proof fn splitting_needs_a_separator(s: Seq<char>, separator: char)
    requires
        !s.contains(separator),
    ensures
        split_at(s, separator) == seq![s],
    decreases s.len(),
{
    if s.len() > 0 {
        let d = s.drop_last();
        assert(!d.contains(separator)) by {
            if d.contains(separator) {
                let k = choose|k: int| 0 <= k < d.len() && d[k] == separator;
                assert(s[k] == separator);
            }
        }
        assert(s[s.len() - 1] != separator);
        splitting_needs_a_separator(d, separator);
        assert(d.push(s.last()) =~= s);
        assert(split_at(s, separator) =~= seq![s]);
    } else {
        assert(s =~= Seq::<char>::empty());
    }
}

/// The lines of a text that ends each with a line feed, one more of which may stand
/// behind the last, are that text: joined again they give it back.
pub proof fn lines_are_the_text(s: Seq<char>)
    requires
        !s.contains('\r'),
        s.len() > 0,
    ensures
        s == crate::failure::joined(lines_of(s), seq!['\n']) || s == crate::failure::joined(
            lines_of(s),
            seq!['\n'],
        ).push('\n'),
        forall|i: int| 0 <= i < lines_of(s).len() ==> !(#[trigger] lines_of(s)[i]).contains('\n'),
{
    let parts = split_at(s, '\n');
    let d = parts.drop_last();
    let ended = d.map_values(|p: Seq<char>| without_return(p));
    splitting_loses_nothing(s, '\n');
    lemma_no_part_has(s, '\n', '\r');
    assert forall|i: int| 0 <= i < d.len() implies #[trigger] ended[i] == d[i] by {
        assert(!parts[i].contains('\r'));
        assert(d[i] == parts[i]);
        if d[i].len() > 0 {
            assert(parts[i].contains(parts[i][d[i].len() - 1]));
        }
    }
    assert(ended =~= d);
    if parts.last().len() == 0 {
        if parts.len() == 1 {
            assert(parts[0] =~= Seq::<char>::empty());
            assert(false);
        } else {
            assert(crate::failure::joined(parts, seq!['\n']) =~= crate::failure::joined(
                d,
                seq!['\n'],
            ).push('\n'));
        }
        assert forall|i: int| 0 <= i < lines_of(s).len() implies !(#[trigger] lines_of(
            s,
        )[i]).contains('\n') by {
            assert(lines_of(s)[i] == parts[i]);
        }
    } else {
        assert(lines_of(s) =~= parts);
    }
}

proof fn lemma_no_part_has(s: Seq<char>, separator: char, c: char)
    requires
        !s.contains(c),
    ensures
        forall|i: int|
            0 <= i < split_at(s, separator).len() ==> !(#[trigger] split_at(
                s,
                separator,
            )[i]).contains(c),
    decreases s.len(),
{
    let parts = split_at(s, separator);
    if s.len() > 0 {
        let d = s.drop_last();
        let front = split_at(d, separator);
        lemma_split_len(d, separator);
        assert(!d.contains(c)) by {
            if d.contains(c) {
                let k = choose|k: int| 0 <= k < d.len() && d[k] == c;
                assert(s[k] == c);
            }
        }
        assert(s[s.len() - 1] != c);
        lemma_no_part_has(d, separator, c);
        assert forall|i: int| 0 <= i < parts.len() implies !(#[trigger] parts[i]).contains(c) by {
            if s.last() == separator {
                if i < front.len() {
                    assert(parts[i] == front[i]);
                }
            } else if i < front.len() - 1 {
                assert(parts[i] == front[i]);
            } else {
                let l = front.last().push(s.last());
                assert(parts[i] == l);
                if l.contains(c) {
                    let k = choose|k: int| 0 <= k < l.len() && l[k] == c;
                    assert(front.last()[k] == c);
                    assert(front[front.len() - 1].contains(c));
                }
            }
        }
    }
}

} // verus!
