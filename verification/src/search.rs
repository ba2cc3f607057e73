//! Searching inside a book.
//!
//! The search runs over the parsed blocks, not the raw markup, so it finds what
//! the reader shows and never a tag name. Matching ignores case.
//!
//! Chapters are searched one at a time, starting from where the reader stands.
//! A book of a hundred chapters is not indexed up front: that would cost seconds
//! on opening, for something the reader may never ask for.

use vstd::prelude::*;
use crate::annotation::earlier;
use crate::doc::{BlockView, Chapter};
use crate::text::{chars_of, lowercase, lowercase_of};

verus! {

/// Where a match sits: the block and the character offset inside it.
pub type Hit = (usize, usize);

/// A text in lowercase, character by character.
pub open spec fn lowered(s: Seq<char>) -> Seq<char>
    decreases s.len(),
{
    if s.len() == 0 {
        s
    } else {
        lowered(s.drop_last()) + lowercase_of(s.last())
    }
}

/// `needle` stands in `s` at `at`, whatever the case of the letters. A letter
/// whose lowercase form has several characters matches them one by one.
pub open spec fn matches_at(s: Seq<char>, needle: Seq<char>, at: int) -> bool {
    0 <= at < s.len() && lowered(needle).is_prefix_of(lowered(s.skip(at)))
}

/// Where the text ends that begins at `at` and is `left` characters long in
/// lowercase.
pub open spec fn match_end(s: Seq<char>, at: int, left: int) -> int
    decreases s.len() - at,
{
    if at < 0 || at >= s.len() {
        at
    } else if left <= lowercase_of(s[at]).len() {
        at + 1
    } else {
        match_end(s, at + 1, left - lowercase_of(s[at]).len())
    }
}

/// Where a match that begins at `at` ends.
pub open spec fn end_of_match(s: Seq<char>, needle: Seq<char>, at: int) -> int {
    match_end(s, at, lowered(needle).len() as int)
}

/// The matches in a text from `at` on. Overlapping matches are not reported
/// twice: the search steps past a match, as a reader would expect.
pub open spec fn matches_from(s: Seq<char>, needle: Seq<char>, at: int) -> Seq<int>
    decreases s.len() - at,
{
    if at < 0 || needle.len() == 0 || at >= s.len() {
        Seq::empty()
    } else if matches_at(s, needle, at) {
        let end = end_of_match(s, needle, at);
        if end <= at || end > s.len() {
            seq![at]
        } else {
            seq![at] + matches_from(s, needle, end)
        }
    } else {
        matches_from(s, needle, at + 1)
    }
}

proof fn lemma_match_end(s: Seq<char>, at: int, left: int)
    requires
        0 <= at < s.len(),
    ensures
        at < match_end(s, at, left) <= s.len(),
    decreases s.len() - at,
{
    let rest = left - lowercase_of(s[at]).len();
    if rest > 0 {
        if at + 1 < s.len() {
            lemma_match_end(s, at + 1, rest);
        } else {
            assert(match_end(s, at + 1, rest) == at + 1);
        }
    }
}

proof fn lemma_lowered_adds(a: Seq<char>, b: Seq<char>)
    ensures
        lowered(a + b) == lowered(a) + lowered(b),
    decreases b.len(),
{
    if b.len() == 0 {
        assert(a + b =~= a);
        assert(lowered(a) + lowered(b) =~= lowered(a));
    } else {
        lemma_lowered_adds(a, b.drop_last());
        assert((a + b).drop_last() =~= a + b.drop_last());
        assert((a + b).last() == b.last());
        assert(lowered(a + b) =~= lowered(a) + lowered(b));
    }
}

/// The hits in one block.
pub open spec fn block_hits(text: Seq<char>, needle: Seq<char>, block: int) -> Seq<Hit> {
    matches_from(text, needle, 0).map_values(|at: int| (block as usize, at as usize))
}

/// The hits in the first `n` blocks, in reading order.
pub open spec fn hits_in(blocks: Seq<BlockView>, needle: Seq<char>, n: int) -> Seq<Hit>
    decreases n,
{
    if n <= 0 || n > blocks.len() {
        Seq::empty()
    } else {
        hits_in(blocks, needle, n - 1) + block_hits(blocks[n - 1].plain(), needle, n - 1)
    }
}

/// Every match of a needle in a chapter. An empty needle matches nothing.
pub open spec fn all_hits(blocks: Seq<BlockView>, needle: Seq<char>) -> Seq<Hit> {
    hits_in(blocks, needle, blocks.len() as int)
}

/// A text in lowercase, and where each of its characters begins in that.
struct Lowered {
    text: Vec<char>,
    starts: Vec<usize>,
}

impl Lowered {
    /// `s` in lowercase.
    spec fn is_of(&self, s: Seq<char>) -> bool {
        &&& self.text@ == lowered(s)
        &&& self.starts@.len() == s.len() + 1
        &&& forall|i: int|
            0 <= i <= s.len() ==> (#[trigger] self.starts@[i]) == lowered(s.take(i)).len()
    }

    fn new(v: &Vec<char>) -> (r: Self)
        ensures
            r.is_of(v@),
    {
        let mut text: Vec<char> = Vec::new();
        let mut starts: Vec<usize> = vec![0];
        let mut i: usize = 0;
        assert(v@.take(0) =~= Seq::<char>::empty());
        while i < v.len()
            invariant
                i <= v@.len(),
                text@ == lowered(v@.take(i as int)),
                starts@.len() == i + 1,
                forall|k: int|
                    0 <= k <= i ==> (#[trigger] starts@[k]) == lowered(v@.take(k)).len(),
            decreases v@.len() - i,
        {
            let mut form = lowercase(v[i]);
            text.append(&mut form);
            starts.push(text.len());
            i += 1;
            assert(v@.take(i as int).drop_last() =~= v@.take(i - 1));
        }
        assert(v@.take(v@.len() as int) =~= v@);
        Lowered { text, starts }
    }

    fn matches(&self, wanted: &Vec<char>, at: usize, Ghost(s): Ghost<Seq<char>>) -> (r: bool)
        requires
            self.is_of(s),
            at < s.len(),
        ensures
            r == wanted@.is_prefix_of(lowered(s.skip(at as int))),
    {
        let start = self.starts[at];
        let total = self.text.len();
        proof {
            lemma_lowered_adds(s.take(at as int), s.skip(at as int));
            assert(s =~= s.take(at as int) + s.skip(at as int));
            assert(self.text@.skip(start as int) =~= lowered(s.skip(at as int)));
        }
        let ghost rest = self.text@.skip(start as int);
        if wanted.len() > total - start {
            return false;
        }
        let mut k: usize = 0;
        while k < wanted.len()
            invariant
                k <= wanted@.len(),
                start + wanted@.len() <= self.text@.len() == total,
                rest == self.text@.skip(start as int),
                rest == lowered(s.skip(at as int)),
                forall|j: int| 0 <= j < k ==> (#[trigger] wanted@[j]) == rest[j],
            decreases wanted@.len() - k,
        {
            if self.text[start + k] != wanted[k] {
                assert(rest.subrange(0, wanted@.len() as int)[k as int] == rest[k as int]);
                return false;
            }
            k += 1;
        }
        assert(wanted@ =~= rest.take(wanted@.len() as int));
        true
    }

    fn end(&self, length: usize, at: usize, Ghost(s): Ghost<Seq<char>>) -> (r: usize)
        requires
            self.is_of(s),
            at < s.len(),
        ensures
            r == match_end(s, at as int, length as int),
            at < r <= s.len(),
    {
        let total = self.starts.len() - 1;
        let mut e: usize = at;
        let mut left: usize = length;
        proof {
            lemma_match_end(s, at as int, length as int);
        }
        while e < total
            invariant
                self.is_of(s),
                total == s.len(),
                at <= e <= total,
                at < match_end(s, at as int, length as int) <= s.len(),
                match_end(s, at as int, length as int) == match_end(s, e as int, left as int),
            decreases total - e,
        {
            assert(s.take(e + 1).drop_last() =~= s.take(e as int));
            assert(self.starts@[e + 1] == lowered(s.take(e + 1)).len());
            assert(self.starts@[e as int] == lowered(s.take(e as int)).len());
            let n = self.starts[e + 1] - self.starts[e];
            e += 1;
            if left <= n {
                return e;
            }
            left -= n;
        }
        e
    }
}

/// Finds the matches in one text.
fn find_in(text: &Vec<char>, needle: &Vec<char>, block: usize, hits: &mut Vec<Hit>)
    requires
        needle@.len() > 0,
    ensures
        final(hits)@ == old(hits)@ + block_hits(text@, needle@, block as int),
{
    let low = Lowered::new(text);
    let wanted = Lowered::new(needle).text;
    let ghost start = hits@;
    let ghost all = block_hits(text@, needle@, block as int);
    let mut at: usize = 0;
    assert(start + all =~= hits@ + matches_from(text@, needle@, 0).map_values(
        |at: int| (block as usize, at as usize),
    ));
    while at < text.len()
        invariant
            needle@.len() > 0,
            at <= text@.len(),
            low.is_of(text@),
            wanted@ == lowered(needle@),
            start + all == hits@ + matches_from(text@, needle@, at as int).map_values(
                |at: int| (block as usize, at as usize),
            ),
        decreases text@.len() - at,
    {
        let ghost before = hits@;
        let ghost here = at as int;
        if low.matches(&wanted, at, Ghost(text@)) {
            hits.push((block, at));
            at = low.end(wanted.len(), at, Ghost(text@));
            assert(before + (seq![here] + matches_from(text@, needle@, at as int)).map_values(
                |at: int| (block as usize, at as usize),
            ) =~= hits@ + matches_from(text@, needle@, at as int).map_values(
                |at: int| (block as usize, at as usize),
            ));
        } else {
            at += 1;
        }
    }
    assert(matches_from(text@, needle@, at as int).map_values(
        |at: int| (block as usize, at as usize),
    ) =~= Seq::<Hit>::empty());
    assert(hits@ + Seq::<Hit>::empty() =~= hits@);
}

proof fn lemma_no_needle(blocks: Seq<BlockView>, needle: Seq<char>, n: int)
    requires
        needle.len() == 0,
    ensures
        hits_in(blocks, needle, n) == Seq::<Hit>::empty(),
    decreases n,
{
    if n > 0 && n <= blocks.len() {
        lemma_no_needle(blocks, needle, n - 1);
        assert(block_hits(blocks[n - 1].plain(), needle, n - 1) =~= Seq::<Hit>::empty());
        assert(hits_in(blocks, needle, n) =~= Seq::<Hit>::empty());
    }
}

/// Every match of `needle` in a chapter, in reading order.
///
/// Matching is case-insensitive. Comparing lowercased strings can shift offsets
/// for characters whose lowercase form has a different length, so a hit names the
/// character of the text that its match begins with.
pub fn find_all(chapter: &Chapter, needle: &str) -> (r: Vec<Hit>)
    ensures
        r@ == all_hits(chapter@.blocks, needle@),
{
    let wanted = chars_of(needle);
    let mut hits: Vec<Hit> = Vec::new();
    if wanted.len() == 0 {
        proof {
            lemma_no_needle(chapter@.blocks, needle@, chapter@.blocks.len() as int);
        }
        return hits;
    }
    let ghost blocks = chapter@.blocks;
    let mut index: usize = 0;
    while index < chapter.blocks.len()
        invariant
            index <= chapter.blocks@.len(),
            blocks == chapter@.blocks,
            wanted@ == needle@,
            wanted@.len() > 0,
            hits@ == hits_in(blocks, needle@, index as int),
        decreases chapter.blocks@.len() - index,
    {
        assert(blocks[index as int] == chapter.blocks@[index as int]@);
        let text = chapter.blocks[index].plain_chars();
        find_in(&text, &wanted, index, &mut hits);
        index += 1;
    }
    hits
}

// ---------------------------------------------------------------------------
// What holds of the matches
// ---------------------------------------------------------------------------
/// `found` are places at or after `at` where the needle stands, in order and
/// without overlap.
pub open spec fn proper_matches(found: Seq<int>, s: Seq<char>, needle: Seq<char>, at: int) -> bool {
    &&& forall|i: int|
        0 <= i < found.len() ==> at <= #[trigger] found[i] && matches_at(s, needle, found[i])
    &&& forall|i: int, j: int|
        0 <= i < j < found.len() ==> end_of_match(s, needle, #[trigger] found[i])
            <= #[trigger] found[j]
}

proof fn lemma_matches(s: Seq<char>, needle: Seq<char>, at: int)
    requires
        0 <= at,
        needle.len() > 0,
    ensures
        proper_matches(matches_from(s, needle, at), s, needle, at),
    decreases s.len() - at,
{
    let all = matches_from(s, needle, at);
    if at < s.len() {
        if matches_at(s, needle, at) {
            let end = end_of_match(s, needle, at);
            lemma_match_end(s, at, lowered(needle).len() as int);
            lemma_matches(s, needle, end);
            let rest = matches_from(s, needle, end);
            assert forall|i: int| 0 <= i < all.len() implies at <= #[trigger] all[i] && matches_at(
                s,
                needle,
                all[i],
            ) by {
                if i > 0 {
                    assert(all[i] == rest[i - 1]);
                }
            }
            assert forall|i: int, j: int| 0 <= i < j < all.len() implies end_of_match(
                s,
                needle,
                #[trigger] all[i],
            ) <= #[trigger] all[j] by {
                assert(all[j] == rest[j - 1]);
                if i > 0 {
                    assert(all[i] == rest[i - 1]);
                }
            }
        } else {
            lemma_matches(s, needle, at + 1);
        }
    }
}

/// Each hit really is a match, and hits do not overlap.
pub proof fn hits_are_matches_that_do_not_overlap(s: Seq<char>, needle: Seq<char>)
    requires
        needle.len() > 0,
    ensures
        proper_matches(matches_from(s, needle, 0), s, needle, 0),
{
    lemma_matches(s, needle, 0);
}

/// A hit names a block of the chapter, and the match lies inside it.
pub proof fn hits_lie_in_their_blocks(blocks: Seq<BlockView>, needle: Seq<char>, n: int, k: int)
    requires
        0 <= n <= blocks.len() <= usize::MAX,
        forall|b: int| 0 <= b < blocks.len() ==> (#[trigger] blocks[b]).plain().len() <= usize::MAX,
        0 <= k < hits_in(blocks, needle, n).len(),
    ensures
        ({
            let hit = hits_in(blocks, needle, n)[k];
            let s = blocks[hit.0 as int].plain();
            hit.0 < n && hit.1 < end_of_match(s, needle, hit.1 as int) <= s.len()
        }),
    decreases n,
{
    let front = hits_in(blocks, needle, n - 1);
    let s = blocks[n - 1].plain();
    if k < front.len() {
        hits_lie_in_their_blocks(blocks, needle, n - 1, k);
    } else {
        assert(needle.len() > 0);
        lemma_matches(s, needle, 0);
        let found = matches_from(s, needle, 0);
        let at = found[k - front.len()];
        lemma_match_end(s, at, lowered(needle).len() as int);
        assert(block_hits(s, needle, n - 1)[k - front.len()] == ((n - 1) as usize, at as usize));
    }
}

/// No match is missed: wherever the needle stands, a hit covers its beginning.
pub proof fn every_match_is_covered(s: Seq<char>, needle: Seq<char>, from: int, at: int)
    requires
        0 <= from <= at,
        needle.len() > 0,
        matches_at(s, needle, at),
    ensures
        exists|i: int|
            0 <= i < matches_from(s, needle, from).len() && #[trigger] matches_from(
                s,
                needle,
                from,
            )[i] <= at < end_of_match(s, needle, matches_from(s, needle, from)[i]),
    decreases s.len() - from,
{
    let all = matches_from(s, needle, from);
    if matches_at(s, needle, from) {
        let end = end_of_match(s, needle, from);
        lemma_match_end(s, from, lowered(needle).len() as int);
        assert(all[0] == from);
        if at >= end {
            every_match_is_covered(s, needle, end, at);
            let rest = matches_from(s, needle, end);
            let i = choose|i: int|
                0 <= i < rest.len() && #[trigger] rest[i] <= at < end_of_match(s, needle, rest[i]);
            assert(all[i + 1] == rest[i]);
        }
    } else {
        every_match_is_covered(s, needle, from + 1, at);
    }
}

/// A text whose letters all have one lowercase character each.
pub open spec fn plainly_cased(s: Seq<char>) -> bool {
    forall|i: int| 0 <= i < s.len() ==> lowercase_of(#[trigger] s[i]).len() == 1
}

proof fn lemma_plainly_lowered(s: Seq<char>)
    requires
        plainly_cased(s),
    ensures
        lowered(s).len() == s.len(),
        forall|i: int| 0 <= i < s.len() ==> seq![#[trigger] lowered(s)[i]] == lowercase_of(s[i]),
    decreases s.len(),
{
    if s.len() > 0 {
        let front = s.drop_last();
        assert(plainly_cased(front)) by {
            assert forall|i: int| 0 <= i < front.len() implies lowercase_of(
                #[trigger] front[i],
            ).len() == 1 by {
                assert(front[i] == s[i]);
            }
        }
        lemma_plainly_lowered(front);
        assert(lowercase_of(s[s.len() - 1]).len() == 1);
        assert forall|i: int| 0 <= i < s.len() implies seq![#[trigger] lowered(s)[i]]
            == lowercase_of(s[i]) by {
            if i < front.len() {
                assert(lowered(s)[i] == lowered(front)[i]);
                assert(front[i] == s[i]);
            } else {
                assert(seq![lowered(s)[i]] =~= lowercase_of(s[i]));
            }
        }
    }
}

/// Where every letter has a single lowercase character, the needle matches
/// exactly where it stands letter by letter.
pub proof fn letters_match_one_by_one(s: Seq<char>, needle: Seq<char>, at: int)
    requires
        plainly_cased(s),
        plainly_cased(needle),
        0 <= at < s.len(),
    ensures
        matches_at(s, needle, at) <==> at + needle.len() <= s.len() && forall|k: int|
            0 <= k < needle.len() ==> lowercase_of(#[trigger] s.skip(at)[k]) == lowercase_of(
                needle[k],
            ),
{
    let rest = s.skip(at);
    assert(plainly_cased(rest)) by {
        assert forall|i: int| 0 <= i < rest.len() implies lowercase_of(#[trigger] rest[i]).len()
            == 1 by {
            assert(rest[i] == s[at + i]);
        }
    }
    lemma_plainly_lowered(rest);
    lemma_plainly_lowered(needle);
    let a = lowered(needle);
    let b = lowered(rest);
    if matches_at(s, needle, at) {
        assert forall|k: int| 0 <= k < needle.len() implies lowercase_of(#[trigger] rest[k])
            == lowercase_of(needle[k]) by {
            assert(a[k] == b.take(a.len() as int)[k]);
            assert(seq![a[k]] == lowercase_of(needle[k]) && seq![b[k]] == lowercase_of(rest[k]));
        }
    }
    if at + needle.len() <= s.len() && forall|k: int|
        0 <= k < needle.len() ==> lowercase_of(#[trigger] rest[k]) == lowercase_of(needle[k]) {
        assert forall|k: int| 0 <= k < a.len() implies a[k] == b[k] by {
            assert(lowercase_of(rest[k]) == lowercase_of(needle[k]));
            assert(seq![a[k]] == lowercase_of(needle[k]) && seq![b[k]] == lowercase_of(rest[k]));
            assert(seq![a[k]][0] == seq![b[k]][0]);
        }
        assert(a =~= b.take(a.len() as int));
    }
}

/// Hits are in reading order.
pub open spec fn in_reading_order(hits: Seq<Hit>) -> bool {
    forall|i: int, j: int| 0 <= i < j < hits.len() ==> earlier(#[trigger] hits[i], #[trigger] hits[j])
}

proof fn lemma_hits_in(blocks: Seq<BlockView>, needle: Seq<char>, n: int)
    requires
        0 <= n <= blocks.len() <= usize::MAX,
        needle.len() > 0,
        forall|i: int| 0 <= i < blocks.len() ==> (#[trigger] blocks[i]).plain().len() <= usize::MAX,
    ensures
        in_reading_order(hits_in(blocks, needle, n)),
        forall|i: int|
            0 <= i < hits_in(blocks, needle, n).len() ==> (#[trigger] hits_in(blocks, needle, n)[i]).0
                < n && matches_at(
                blocks[hits_in(blocks, needle, n)[i].0 as int].plain(),
                needle,
                hits_in(blocks, needle, n)[i].1 as int,
            ),
    decreases n,
{
    if n > 0 {
        lemma_hits_in(blocks, needle, n - 1);
        let front = hits_in(blocks, needle, n - 1);
        let s = blocks[n - 1].plain();
        let here = block_hits(s, needle, n - 1);
        let found = matches_from(s, needle, 0);
        lemma_matches(s, needle, 0);
        let all = hits_in(blocks, needle, n);
        assert forall|i: int| 0 <= i < here.len() implies (#[trigger] here[i]).0 == n - 1
            && here[i].1 == found[i] && matches_at(s, needle, found[i]) by {}
        assert forall|i: int, j: int| 0 <= i < j < all.len() implies earlier(
            #[trigger] all[i],
            #[trigger] all[j],
        ) by {
            if j < front.len() {
                assert(all[i] == front[i] && all[j] == front[j]);
            } else {
                assert(all[j] == here[j - front.len()]);
                if i < front.len() {
                    assert(all[i] == front[i]);
                } else {
                    assert(all[i] == here[i - front.len()]);
                    let at = found[i - front.len()];
                    lemma_match_end(s, at, lowered(needle).len() as int);
                    assert(end_of_match(s, needle, at) <= found[j - front.len()]);
                }
            }
        }
        assert forall|i: int| 0 <= i < all.len() implies (#[trigger] all[i]).0 < n && matches_at(
            blocks[all[i].0 as int].plain(),
            needle,
            all[i].1 as int,
        ) by {
            if i < front.len() {
                assert(all[i] == front[i]);
            } else {
                assert(all[i] == here[i - front.len()]);
            }
        }
    }
}

/// The hits of a chapter come in reading order, and each names a block and an
/// offset in it where the needle stands.
pub proof fn hits_come_in_reading_order(blocks: Seq<BlockView>, needle: Seq<char>)
    requires
        needle.len() > 0,
        blocks.len() <= usize::MAX,
        forall|i: int| 0 <= i < blocks.len() ==> (#[trigger] blocks[i]).plain().len() <= usize::MAX,
    ensures
        in_reading_order(all_hits(blocks, needle)),
        forall|i: int|
            0 <= i < all_hits(blocks, needle).len() ==> (#[trigger] all_hits(blocks, needle)[i]).0
                < blocks.len() && matches_at(
                blocks[all_hits(blocks, needle)[i].0 as int].plain(),
                needle,
                all_hits(blocks, needle)[i].1 as int,
            ),
{
    lemma_hits_in(blocks, needle, blocks.len() as int);
}

// ---------------------------------------------------------------------------
// A search under way
// ---------------------------------------------------------------------------
#[derive(Debug)]
pub struct Search {
    /// What was typed, as typed.
    pub query: String,
    /// Matches in the chapter currently laid out.
    pub hits: Vec<Hit>,
    /// Which of those the reader is on.
    pub current: Option<usize>,
}

#[verifier::ext_equal]
pub struct SearchView {
    pub query: Seq<char>,
    pub hits: Seq<Hit>,
    pub current: Option<usize>,
}

impl View for Search {
    type V = SearchView;

    open spec fn view(&self) -> SearchView {
        SearchView { query: self.query@, hits: self.hits@, current: self.current }
    }
}

/// No search at all.
pub open spec fn no_search() -> SearchView {
    SearchView { query: Seq::empty(), hits: Seq::empty(), current: None }
}

/// The first hit at or after `from` that does not come before a position.
pub open spec fn first_not_before(hits: Seq<Hit>, at: Hit, from: int) -> Option<int>
    decreases hits.len() - from,
{
    if from < 0 || from >= hits.len() {
        None
    } else if !earlier(hits[from], at) {
        Some(from)
    } else {
        first_not_before(hits, at, from + 1)
    }
}

/// The last of the first `n` hits that comes before a position.
pub open spec fn last_before(hits: Seq<Hit>, at: Hit, n: int) -> Option<int>
    decreases n,
{
    if n <= 0 || n > hits.len() {
        None
    } else if earlier(hits[n - 1], at) {
        Some(n - 1)
    } else {
        last_before(hits, at, n - 1)
    }
}

impl SearchView {
    /// The match the reader is on is one of the matches.
    pub open spec fn wf(self) -> bool {
        self.current matches Some(i) ==> i < self.hits.len()
    }

    pub open spec fn hit(self) -> Option<Hit> {
        match self.current {
            Some(i) => if i < self.hits.len() {
                Some(self.hits[i as int])
            } else {
                None
            },
            None => None,
        }
    }

    pub open spec fn at_index(self, i: int) -> SearchView {
        SearchView { current: Some(i as usize), ..self }
    }

    /// The next match within the chapter; unchanged when there is none.
    pub open spec fn stepped(self) -> SearchView {
        match self.current {
            Some(i) => if i + 1 < self.hits.len() {
                self.at_index(i + 1)
            } else {
                self
            },
            None => if self.hits.len() > 0 {
                self.at_index(0)
            } else {
                self
            },
        }
    }

    pub open spec fn can_step(self) -> bool {
        match self.current {
            Some(i) => i + 1 < self.hits.len(),
            None => self.hits.len() > 0,
        }
    }

    /// The match before within the chapter; unchanged when there is none.
    pub open spec fn stepped_back(self) -> SearchView {
        match self.current {
            Some(i) => if i > 0 {
                self.at_index(i - 1)
            } else {
                self
            },
            None => if self.hits.len() > 0 {
                self.at_index(self.hits.len() - 1)
            } else {
                self
            },
        }
    }

    pub open spec fn can_step_back(self) -> bool {
        match self.current {
            Some(i) => i > 0,
            None => self.hits.len() > 0,
        }
    }
}

/// Going on to the next match and back again ends where it began.
pub proof fn stepping_back_undoes_a_step(s: SearchView)
    requires
        s.wf(),
        s.hits.len() <= usize::MAX,
        s.current is Some,
        s.can_step(),
    ensures
        s.stepped().stepped_back() == s,
        s.stepped().can_step_back(),
        s.stepped().wf(),
{
}

impl Default for Search {
    fn default() -> (r: Self)
        ensures
            r@ == no_search(),
    {
        let r = Search { query: String::new(), hits: Vec::new(), current: None };
        assert(r@ =~= no_search());
        r
    }
}

impl Search {
    pub fn query(&self) -> (r: &str)
        ensures
            r@ == self@.query,
    {
        self.query.as_str()
    }

    pub fn is_active(&self) -> (r: bool)
        ensures
            r == (self@.query.len() > 0),
    {
        !self.query.as_str().is_empty()
    }

    pub fn hits(&self) -> (r: &Vec<Hit>)
        ensures
            r@ == self@.hits,
    {
        &self.hits
    }

    pub fn current(&self) -> (r: Option<Hit>)
        ensures
            r == self@.hit(),
    {
        match self.current {
            Some(i) => if i < self.hits.len() {
                Some(self.hits[i])
            } else {
                None
            },
            None => None,
        }
    }

    /// True when this position is the match the reader is on.
    pub fn is_current(&self, block: usize, offset: usize) -> (r: bool)
        ensures
            r == (self@.hit() == Some((block, offset))),
    {
        match self.current() {
            Some(hit) => hit.0 == block && hit.1 == offset,
            None => false,
        }
    }

    /// Characters in the query.
    pub fn len(&self) -> (r: usize)
        ensures
            r == self@.query.len(),
    {
        self.query.as_str().unicode_len()
    }

    pub fn set_query(&mut self, query: String)
        ensures
            final(self)@ == (SearchView { query: query@, hits: Seq::empty(), current: None }),
    {
        self.query = query;
        self.hits.clear();
        self.current = None;
    }

    pub fn clear(&mut self)
        ensures
            final(self)@ == no_search(),
    {
        self.query = String::new();
        self.hits.clear();
        self.current = None;
        assert(self@ =~= no_search());
    }

    /// Re-runs the search over a chapter, keeping the query.
    pub fn scan(&mut self, chapter: &Chapter)
        ensures
            final(self)@ == (SearchView {
                query: old(self)@.query,
                hits: all_hits(chapter@.blocks, old(self)@.query),
                current: None,
            }),
            final(self)@.wf(),
    {
        self.hits = find_all(chapter, &self.query);
        self.current = None;
    }

    /// Selects the first match at or after a position. Returns whether one was
    /// found in this chapter.
    pub fn go_to_first_after(&mut self, block: usize, offset: usize) -> (r: bool)
        ensures
            match first_not_before(old(self)@.hits, (block, offset), 0) {
                Some(i) => r && final(self)@ == old(self)@.at_index(i) && final(self)@.wf(),
                None => !r && final(self)@ == old(self)@,
            },
    {
        let mut i: usize = 0;
        while i < self.hits.len()
            invariant
                i <= self.hits@.len(),
                self@ == old(self)@,
                first_not_before(self@.hits, (block, offset), 0) == first_not_before(
                    self@.hits,
                    (block, offset),
                    i as int,
                ),
            decreases self.hits@.len() - i,
        {
            let hit = self.hits[i];
            if !(hit.0 < block || (hit.0 == block && hit.1 < offset)) {
                self.current = Some(i);
                return true;
            }
            i += 1;
        }
        false
    }

    /// Selects the last match before a position.
    pub fn go_to_last_before(&mut self, block: usize, offset: usize) -> (r: bool)
        ensures
            match last_before(old(self)@.hits, (block, offset), old(self)@.hits.len() as int) {
                Some(i) => r && final(self)@ == old(self)@.at_index(i) && final(self)@.wf(),
                None => !r && final(self)@ == old(self)@,
            },
    {
        let mut n: usize = self.hits.len();
        while n > 0
            invariant
                n <= self.hits@.len(),
                self@ == old(self)@,
                last_before(self@.hits, (block, offset), self@.hits.len() as int) == last_before(
                    self@.hits,
                    (block, offset),
                    n as int,
                ),
            decreases n,
        {
            let hit = self.hits[n - 1];
            if hit.0 < block || (hit.0 == block && hit.1 < offset) {
                self.current = Some(n - 1);
                return true;
            }
            n -= 1;
        }
        false
    }

    pub fn go_to_first(&mut self) -> (r: bool)
        ensures
            r == (old(self)@.hits.len() > 0),
            final(self)@ == (if r {
                old(self)@.at_index(0)
            } else {
                SearchView { current: None, ..old(self)@ }
            }),
    {
        if self.hits.len() == 0 {
            self.current = None;
            false
        } else {
            self.current = Some(0);
            true
        }
    }

    pub fn go_to_last(&mut self) -> (r: bool)
        ensures
            r == (old(self)@.hits.len() > 0),
            final(self)@ == (if r {
                old(self)@.at_index(old(self)@.hits.len() - 1)
            } else {
                SearchView { current: None, ..old(self)@ }
            }),
    {
        let n = self.hits.len();
        if n == 0 {
            self.current = None;
            false
        } else {
            self.current = Some(n - 1);
            true
        }
    }

    /// Steps to the next match within this chapter. False when there is none, so
    /// the caller can move on to the next chapter.
    pub fn next_in_chapter(&mut self) -> (r: bool)
        requires
            old(self)@.wf(),
        ensures
            r == old(self)@.can_step(),
            final(self)@ == old(self)@.stepped(),
            final(self)@.wf(),
    {
        let n = self.hits.len();
        match self.current {
            Some(i) => if i + 1 < n {
                self.current = Some(i + 1);
                true
            } else {
                false
            },
            None => if self.hits.len() > 0 {
                self.current = Some(0);
                true
            } else {
                false
            },
        }
    }

    /// Steps to the match before within this chapter.
    pub fn previous_in_chapter(&mut self) -> (r: bool)
        requires
            old(self)@.wf(),
        ensures
            r == old(self)@.can_step_back(),
            final(self)@ == old(self)@.stepped_back(),
            final(self)@.wf(),
    {
        match self.current {
            Some(i) => if i > 0 {
                self.current = Some(i - 1);
                true
            } else {
                false
            },
            None => if self.hits.len() > 0 {
                self.current = Some(self.hits.len() - 1);
                true
            } else {
                false
            },
        }
    }

    /// Position of the match the reader is on, for scrolling to it.
    pub fn current_position(&self) -> (r: Option<Hit>)
        ensures
            r == self@.hit(),
    {
        self.current()
    }

    /// Which match of how many, for the status line.
    pub fn progress(&self) -> (r: Option<(usize, usize)>)
        requires
            self@.wf(),
        ensures
            match self@.current {
                Some(i) => r is Some && (r->0).0 == i + 1 && (r->0).1 == self@.hits.len(),
                None => r is None,
            },
    {
        let n = self.hits.len();
        match self.current {
            Some(i) => Some((i + 1, n)),
            None => None,
        }
    }
}

// ---------------------------------------------------------------------------
// Going to a match
// ---------------------------------------------------------------------------
proof fn lemma_first_not_before(hits: Seq<Hit>, at: Hit, from: int)
    requires
        0 <= from <= hits.len(),
    ensures
        match first_not_before(hits, at, from) {
            Some(i) => from <= i < hits.len() && !earlier(hits[i], at) && forall|k: int|
                from <= k < i ==> earlier(#[trigger] hits[k], at),
            None => forall|k: int| from <= k < hits.len() ==> earlier(#[trigger] hits[k], at),
        },
    decreases hits.len() - from,
{
    if from < hits.len() && earlier(hits[from], at) {
        lemma_first_not_before(hits, at, from + 1);
    }
}

proof fn lemma_last_before(hits: Seq<Hit>, at: Hit, n: int)
    requires
        0 <= n <= hits.len(),
    ensures
        match last_before(hits, at, n) {
            Some(i) => 0 <= i < n && earlier(hits[i], at) && forall|k: int|
                i < k < n ==> !earlier(#[trigger] hits[k], at),
            None => forall|k: int| 0 <= k < n ==> !earlier(#[trigger] hits[k], at),
        },
    decreases n,
{
    if n > 0 && !earlier(hits[n - 1], at) {
        lemma_last_before(hits, at, n - 1);
    }
}

/// Going forward from a place leads to the first match that is not in front of it,
/// going back to the last one that is; between the two there is no other.
pub proof fn a_search_goes_to_the_nearest_match(hits: Seq<Hit>, at: Hit)
    ensures
        match first_not_before(hits, at, 0) {
            Some(i) => 0 <= i < hits.len() && (hits[i].0 > at.0 || (hits[i].0 == at.0 && hits[i].1
                >= at.1)) && forall|k: int| 0 <= k < i ==> earlier(#[trigger] hits[k], at),
            None => forall|k: int| 0 <= k < hits.len() ==> earlier(#[trigger] hits[k], at),
        },
        match last_before(hits, at, hits.len() as int) {
            Some(i) => 0 <= i < hits.len() && (hits[i].0 < at.0 || (hits[i].0 == at.0 && hits[i].1
                < at.1)) && forall|k: int| i < k < hits.len() ==> !earlier(#[trigger] hits[k], at),
            None => forall|k: int| 0 <= k < hits.len() ==> !earlier(#[trigger] hits[k], at),
        },
{
    lemma_first_not_before(hits, at, 0);
    lemma_last_before(hits, at, hits.len() as int);
}

} // verus!
