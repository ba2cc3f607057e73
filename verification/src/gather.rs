//! What one pass over a row of things collects.

use vstd::prelude::*;
use crate::text::occurs_at;

verus! {

/// `out` is what `of` finds among the first `n` places, in their order: nothing is
/// passed over, nothing is taken twice. `at` says where each comes from.
pub open spec fn gathers<T>(at: Seq<int>, out: Seq<T>, n: int, of: spec_fn(int) -> Option<T>) -> bool {
    &&& at.len() == out.len()
    &&& forall|i: int| 0 <= i < at.len() ==> 0 <= #[trigger] at[i] < n && of(at[i]) == Some(out[i])
    &&& forall|i: int, j: int| 0 <= i < j < at.len() ==> #[trigger] at[i] < #[trigger] at[j]
    &&& forall|k: int| 0 <= k < n && (#[trigger] of(k)) is Some ==> is_at(at, k)
}

/// A place among those taken from.
pub open spec fn is_at(at: Seq<int>, k: int) -> bool {
    exists|i: int| 0 <= i < at.len() && #[trigger] at[i] == k
}

/// One place more.
pub proof fn lemma_gather<T>(at: Seq<int>, out: Seq<T>, n: int, of: spec_fn(int) -> Option<T>) -> (r:
    Seq<int>)
    requires
        0 <= n,
        gathers(at, out, n, of),
    ensures
        match of(n) {
            Some(t) => gathers(r, out.push(t), n + 1, of),
            None => gathers(r, out, n + 1, of),
        },
{
    match of(n) {
        Some(t) => {
            let r = at.push(n);
            let more = out.push(t);
            assert forall|i: int| 0 <= i < r.len() implies 0 <= #[trigger] r[i] < n + 1 && of(r[i])
                == Some(more[i]) by {
                if i < at.len() {
                    assert(r[i] == at[i]);
                }
            }
            assert forall|i: int, j: int| 0 <= i < j < r.len() implies #[trigger] r[i]
                < #[trigger] r[j] by {
                assert(r[i] == at[i]);
                if j < at.len() {
                    assert(r[j] == at[j]);
                }
            }
            assert forall|k: int| 0 <= k < n + 1 && (#[trigger] of(k)) is Some implies is_at(
                r,
                k,
            ) by {
                if k == n {
                    assert(r[at.len() as int] == k);
                } else {
                    assert(is_at(at, k));
                    let i = choose|i: int| 0 <= i < at.len() && #[trigger] at[i] == k;
                    assert(r[i] == k);
                }
            }
            r
        },
        None => {
            assert forall|k: int| 0 <= k < n + 1 && (#[trigger] of(k)) is Some implies is_at(
                at,
                k,
            ) by {
                assert(k < n);
            }
            at
        },
    }
}

/// `o` is the first thing that `of` finds among the first `n` places.
pub open spec fn is_first<T>(o: Option<T>, n: int, of: spec_fn(int) -> Option<T>) -> bool {
    match o {
        Some(t) => exists|k: int|
            0 <= k < n && #[trigger] of(k) == Some(t) && forall|j: int|
                0 <= j < k ==> (#[trigger] of(j)) is None,
        None => forall|j: int| 0 <= j < n ==> (#[trigger] of(j)) is None,
    }
}

/// `o` is the last thing that `of` finds among the first `n` places.
pub open spec fn is_last<T>(o: Option<T>, n: int, of: spec_fn(int) -> Option<T>) -> bool {
    match o {
        Some(t) => exists|k: int|
            0 <= k < n && #[trigger] of(k) == Some(t) && forall|j: int|
                k < j < n ==> (#[trigger] of(j)) is None,
        None => forall|j: int| 0 <= j < n ==> (#[trigger] of(j)) is None,
    }
}

pub proof fn lemma_first<T>(o: Option<T>, n: int, of: spec_fn(int) -> Option<T>)
    requires
        0 <= n,
        is_first(o, n, of),
    ensures
        is_first(
            if o is Some {
                o
            } else {
                of(n)
            },
            n + 1,
            of,
        ),
{
    if let Some(t) = o {
        let k = choose|k: int|
            0 <= k < n && #[trigger] of(k) == Some(t) && forall|j: int|
                0 <= j < k ==> (#[trigger] of(j)) is None;
        assert(of(k) == Some(t));
    } else if let Some(t) = of(n) {
        assert(of(n) == Some(t));
    }
}

pub proof fn lemma_last<T>(o: Option<T>, n: int, of: spec_fn(int) -> Option<T>)
    requires
        0 <= n,
        is_last(o, n, of),
    ensures
        is_last(
            if of(n) is Some {
                of(n)
            } else {
                o
            },
            n + 1,
            of,
        ),
{
    if let Some(t) = of(n) {
        assert(of(n) == Some(t));
    } else if let Some(t) = o {
        let k = choose|k: int|
            0 <= k < n && #[trigger] of(k) == Some(t) && forall|j: int|
                k < j < n ==> (#[trigger] of(j)) is None;
        assert(of(k) == Some(t));
    }
}

// ---------------------------------------------------------------------------
// Parts of a text
// ---------------------------------------------------------------------------
/// A text holds another.
pub open spec fn says(t: Seq<char>, part: Seq<char>) -> bool {
    exists|p: int| #[trigger] occurs_at(t, part, p)
}

pub proof fn lemma_says(before: Seq<char>, part: Seq<char>, after: Seq<char>)
    ensures
        says(before + part + after, part),
{
    let t = before + part + after;
    let p = before.len() as int;
    assert(t.subrange(p, p + part.len()) =~= part);
    assert(occurs_at(t, part, p));
}

pub proof fn lemma_says_add(a: Seq<char>, b: Seq<char>, part: Seq<char>)
    ensures
        says(a, part) ==> says(a + b, part),
        says(b, part) ==> says(a + b, part),
{
    let t = a + b;
    if says(a, part) {
        let p = choose|p: int| #[trigger] occurs_at(a, part, p);
        assert(t.subrange(p, p + part.len()) =~= a.subrange(p, p + part.len()));
        assert(occurs_at(t, part, p));
    }
    if says(b, part) {
        let p = choose|p: int| #[trigger] occurs_at(b, part, p);
        let q = a.len() + p;
        assert(t.subrange(q, q + part.len()) =~= b.subrange(p, p + part.len()));
        assert(occurs_at(t, part, q));
    }
}

/// A text holds some others one after the other; `at` says where.
pub open spec fn listed(at: Seq<int>, t: Seq<char>, parts: Seq<Seq<char>>) -> bool {
    &&& at.len() == parts.len()
    &&& forall|i: int| 0 <= i < at.len() ==> occurs_at(t, parts[i], #[trigger] at[i])
    &&& forall|i: int, j: int|
        0 <= i < j < at.len() ==> #[trigger] at[i] + parts[i].len() <= #[trigger] at[j]
}

/// One more text with one more part.
pub proof fn lemma_listed(
    at: Seq<int>,
    t: Seq<char>,
    parts: Seq<Seq<char>>,
    row: Seq<char>,
    part: Seq<char>,
) -> (r: Seq<int>)
    requires
        listed(at, t, parts),
        says(row, part),
    ensures
        listed(r, t + row, parts.push(part)),
{
    let p = choose|p: int| #[trigger] occurs_at(row, part, p);
    let r = at.push(t.len() + p);
    let all = parts.push(part);
    let x = t + row;
    assert forall|i: int| 0 <= i < r.len() implies occurs_at(x, all[i], #[trigger] r[i]) by {
        if i < at.len() {
            assert(r[i] == at[i] && all[i] == parts[i]);
            assert(occurs_at(t, parts[i], at[i]));
            assert(x.subrange(r[i], r[i] + all[i].len()) =~= t.subrange(
                r[i],
                r[i] + all[i].len(),
            ));
        } else {
            assert(x.subrange(r[i], r[i] + part.len()) =~= row.subrange(p, p + part.len()));
        }
    }
    assert forall|i: int, j: int| 0 <= i < j < r.len() implies #[trigger] r[i] + all[i].len()
        <= #[trigger] r[j] by {
        assert(r[i] == at[i] && all[i] == parts[i]);
        assert(occurs_at(t, parts[i], at[i]));
        if j < at.len() {
            assert(r[j] == at[j]);
        }
    }
    r
}

/// The same parts with more around them.
pub proof fn lemma_listed_within(
    at: Seq<int>,
    before: Seq<char>,
    t: Seq<char>,
    after: Seq<char>,
    parts: Seq<Seq<char>>,
) -> (r: Seq<int>)
    requires
        listed(at, t, parts),
    ensures
        listed(r, before + t + after, parts),
{
    let n = before.len() as int;
    let r = at.map_values(|p: int| n + p);
    let x = before + t + after;
    assert forall|i: int| 0 <= i < r.len() implies occurs_at(x, parts[i], #[trigger] r[i]) by {
        assert(r[i] == n + at[i]);
        assert(occurs_at(t, parts[i], at[i]));
        assert(x.subrange(r[i], r[i] + parts[i].len()) =~= t.subrange(
            at[i],
            at[i] + parts[i].len(),
        ));
    }
    assert forall|i: int, j: int| 0 <= i < j < r.len() implies #[trigger] r[i] + parts[i].len()
        <= #[trigger] r[j] by {
        assert(r[i] == n + at[i] && r[j] == n + at[j]);
    }
    r
}

} // verus!
