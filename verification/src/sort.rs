//! A stable sort.

use vstd::prelude::*;

verus! {

/// Where a stable insertion puts `x` into `s`: behind everything that `x` does
/// not sort before.
pub open spec fn insert_position<T>(s: Seq<T>, x: T, less: spec_fn(T, T) -> bool) -> int
    decreases s.len(),
{
    if s.len() > 0 && less(x, s.last()) {
        insert_position(s.drop_last(), x, less)
    } else {
        s.len() as int
    }
}

/// `s` in the order of `less`; items that `less` does not tell apart keep the
/// order they came in.
pub open spec fn sorted_by<T>(s: Seq<T>, less: spec_fn(T, T) -> bool) -> Seq<T>
    decreases s.len(),
{
    if s.len() == 0 {
        s
    } else {
        let front = sorted_by(s.drop_last(), less);
        front.insert(insert_position(front, s.last(), less), s.last())
    }
}

/// `less` ranks items: nothing sorts before itself, and what does not sort
/// before something else ranks at or above it.
pub open spec fn ranks<T>(less: spec_fn(T, T) -> bool) -> bool {
    &&& forall|a: T| !(#[trigger] less(a, a))
    &&& forall|a: T, b: T| #[trigger] less(a, b) ==> !less(b, a)
    &&& forall|a: T, b: T, c: T|
        !(#[trigger] less(a, b)) && !(#[trigger] less(b, c)) ==> !less(a, c)
}

/// Nothing later sorts before something earlier.
pub open spec fn in_order<T>(s: Seq<T>, less: spec_fn(T, T) -> bool) -> bool {
    forall|i: int, j: int| 0 <= i < j < s.len() ==> !less(#[trigger] s[j], #[trigger] s[i])
}

pub proof fn lemma_insert_position<T>(s: Seq<T>, x: T, less: spec_fn(T, T) -> bool)
    ensures
        0 <= insert_position(s, x, less) <= s.len(),
        forall|k: int| insert_position(s, x, less) <= k < s.len() ==> less(x, #[trigger] s[k]),
        insert_position(s, x, less) > 0 ==> !less(x, s[insert_position(s, x, less) - 1]),
    decreases s.len(),
{
    if s.len() > 0 && less(x, s.last()) {
        lemma_insert_position(s.drop_last(), x, less);
        let p = insert_position(s, x, less);
        assert forall|k: int| p <= k < s.len() implies less(x, #[trigger] s[k]) by {
            if k < s.len() - 1 {
                assert(s.drop_last()[k] == s[k]);
            }
        }
        if p > 0 {
            assert(s.drop_last()[p - 1] == s[p - 1]);
        }
    }
}

/// Sorting keeps every item, and as often as it was there.
pub proof fn sorting_keeps_the_items<T>(s: Seq<T>, less: spec_fn(T, T) -> bool)
    ensures
        sorted_by(s, less).to_multiset() == s.to_multiset(),
        sorted_by(s, less).len() == s.len(),
    decreases s.len(),
{
    broadcast use vstd::seq_lib::group_to_multiset_ensures;

    if s.len() > 0 {
        let front = sorted_by(s.drop_last(), less);
        sorting_keeps_the_items(s.drop_last(), less);
        lemma_insert_position(front, s.last(), less);
        let p = insert_position(front, s.last(), less);
        assert(s =~= s.drop_last().push(s.last()));
    }
}

/// The result is in order whenever `less` ranks the items.
pub proof fn sorting_puts_in_order<T>(s: Seq<T>, less: spec_fn(T, T) -> bool)
    requires
        ranks(less),
    ensures
        in_order(sorted_by(s, less), less),
    decreases s.len(),
{
    if s.len() > 0 {
        let x = s.last();
        let front = sorted_by(s.drop_last(), less);
        sorting_puts_in_order(s.drop_last(), less);
        lemma_insert_position(front, x, less);
        let p = insert_position(front, x, less);
        let r = front.insert(p, x);
        assert forall|i: int, j: int| 0 <= i < j < r.len() implies !less(
            #[trigger] r[j],
            #[trigger] r[i],
        ) by {
            if j < p {
                assert(r[i] == front[i] && r[j] == front[j]);
            } else if j == p {
                assert(r[i] == front[i]);
                if i < p - 1 {
                    assert(!less(front[p - 1], front[i]));
                }
            } else {
                assert(r[j] == front[j - 1]);
                assert(less(x, front[j - 1]));
                if i < p {
                    assert(r[i] == front[i]);
                } else if i > p {
                    assert(r[i] == front[i - 1]);
                }
            }
        }
    }
}

/// Items that `less` does not tell apart are the same.
pub open spec fn tells_apart<T>(s: Seq<T>, less: spec_fn(T, T) -> bool) -> bool {
    forall|x: T, y: T|
        s.contains(x) && s.contains(y) && x != y ==> #[trigger] less(x, y) || less(y, x)
}

proof fn lemma_one_order<T>(a: Seq<T>, b: Seq<T>, less: spec_fn(T, T) -> bool)
    requires
        in_order(a, less),
        in_order(b, less),
        tells_apart(a, less),
        a.to_multiset() == b.to_multiset(),
    ensures
        a == b,
    decreases a.len(),
{
    broadcast use vstd::seq_lib::group_to_multiset_ensures;

    assert(a.len() == a.to_multiset().len() && b.len() == b.to_multiset().len());
    if a.len() > 0 {
        let x = a.last();
        let y = b.last();
        assert(a.contains(x) && b.contains(y));
        assert(a.to_multiset().count(y) > 0 && b.to_multiset().count(x) > 0);
        assert(a.contains(y) && b.contains(x));
        if x != y {
            let i = choose|i: int| 0 <= i < a.len() && a[i] == y;
            let j = choose|j: int| 0 <= j < b.len() && b[j] == x;
            assert(!less(a[a.len() - 1], a[i]));
            assert(!less(b[b.len() - 1], b[j]));
            assert(less(x, y) || less(y, x));
        }
        let c = a.drop_last();
        let d = b.drop_last();
        assert(c =~= a.remove(a.len() - 1));
        assert(d =~= b.remove(b.len() - 1));
        assert forall|u: T, v: T| c.contains(u) && c.contains(v) && u != v implies #[trigger] less(
            u,
            v,
        ) || less(v, u) by {
            let i = choose|i: int| 0 <= i < c.len() && c[i] == u;
            let j = choose|j: int| 0 <= j < c.len() && c[j] == v;
            assert(a[i] == u && a[j] == v);
        }
        lemma_one_order(c, d, less);
        assert(a =~= c.push(x));
        assert(b =~= d.push(y));
    }
    assert(a =~= b);
}

/// Two listings of the same items sort to one order, where `less` tells the items
/// apart.
pub proof fn listings_sort_alike<T>(s: Seq<T>, t: Seq<T>, less: spec_fn(T, T) -> bool)
    requires
        ranks(less),
        tells_apart(s, less),
        s.to_multiset() == t.to_multiset(),
    ensures
        sorted_by(s, less) == sorted_by(t, less),
{
    broadcast use vstd::seq_lib::group_to_multiset_ensures;

    let a = sorted_by(s, less);
    sorting_keeps_the_items(s, less);
    sorting_keeps_the_items(t, less);
    sorting_puts_in_order(s, less);
    sorting_puts_in_order(t, less);
    assert forall|x: T, y: T| a.contains(x) && a.contains(y) && x != y implies #[trigger] less(x, y)
        || less(y, x) by {
        assert(a.to_multiset().count(x) > 0 && a.to_multiset().count(y) > 0);
        assert(s.contains(x) && s.contains(y));
    }
    lemma_one_order(a, sorted_by(t, less), less);
}

/// `f` says where each item of `to` stood in `from`; every place is named once.
pub open spec fn rearranges<T>(f: Seq<int>, from: Seq<T>, to: Seq<T>) -> bool {
    &&& f.len() == from.len()
    &&& to.len() == from.len()
    &&& forall|i: int| 0 <= i < f.len() ==> 0 <= #[trigger] f[i] < from.len() && to[i] == from[f[i]]
    &&& forall|i: int, j: int| 0 <= i < j < f.len() ==> #[trigger] f[i] != #[trigger] f[j]
    &&& forall|k: int| 0 <= k < from.len() ==> #[trigger] names(f, k)
}

/// Some item of `f` is `k`.
pub open spec fn names(f: Seq<int>, k: int) -> bool {
    exists|i: int| 0 <= i < f.len() && #[trigger] f[i] == k
}

/// Sorting only moves items about.
pub proof fn lemma_sorting_permutes<T>(s: Seq<T>, less: spec_fn(T, T) -> bool)
    ensures
        exists|f: Seq<int>| rearranges(f, s, sorted_by(s, less)),
    decreases s.len(),
{
    let r = sorted_by(s, less);
    if s.len() == 0 {
        assert(rearranges(Seq::<int>::empty(), s, r));
    } else {
        let d = s.drop_last();
        let front = sorted_by(d, less);
        lemma_sorting_permutes(d, less);
        let g = choose|g: Seq<int>| rearranges(g, d, front);
        lemma_insert_position(front, s.last(), less);
        let p = insert_position(front, s.last(), less);
        let f = g.insert(p, s.len() - 1);
        assert forall|i: int| 0 <= i < f.len() implies 0 <= #[trigger] f[i] < s.len() && r[i]
            == s[f[i]] by {
            if i < p {
                assert(f[i] == g[i]);
            } else if i > p {
                assert(f[i] == g[i - 1]);
            }
        }
        assert forall|i: int, j: int| 0 <= i < j < f.len() implies #[trigger] f[i] != #[trigger] f[j] by {
            if i < p {
                assert(f[i] == g[i]);
            } else if i > p {
                assert(f[i] == g[i - 1]);
            }
            if j < p {
                assert(f[j] == g[j]);
            } else if j > p {
                assert(f[j] == g[j - 1]);
            }
        }
        assert forall|k: int| 0 <= k < s.len() implies #[trigger] names(f, k) by {
            if k == s.len() - 1 {
                assert(f[p] == k);
            } else {
                assert(names(g, k));
                let i = choose|i: int| 0 <= i < g.len() && #[trigger] g[i] == k;
                if i < p {
                    assert(f[i] == k);
                } else {
                    assert(f[i + 1] == k);
                }
            }
        }
        assert(rearranges(f, s, r));
    }
}

/// Items that `less` does not tell apart keep the order they came in.
pub open spec fn stably<T>(f: Seq<int>, to: Seq<T>, less: spec_fn(T, T) -> bool) -> bool {
    forall|i: int, j: int|
        0 <= i < j < to.len() && !less(to[i], to[j]) && !less(to[j], to[i]) ==> #[trigger] f[i]
            < #[trigger] f[j]
}

/// Sorting moves every item once, and items that `less` does not tell apart keep
/// the order they came in.
pub proof fn lemma_sorting_is_stable<T>(s: Seq<T>, less: spec_fn(T, T) -> bool)
    requires
        ranks(less),
    ensures
        exists|f: Seq<int>| #[trigger]
            rearranges(f, s, sorted_by(s, less)) && stably(f, sorted_by(s, less), less),
    decreases s.len(),
{
    let r = sorted_by(s, less);
    if s.len() == 0 {
        let e = Seq::<int>::empty();
        assert(rearranges(e, s, r));
        assert(stably(e, r, less));
    } else {
        let d = s.drop_last();
        let x = s.last();
        let front = sorted_by(d, less);
        lemma_sorting_is_stable(d, less);
        let g = choose|g: Seq<int>| #[trigger] rearranges(g, d, front) && stably(g, front, less);
        lemma_insert_position(front, x, less);
        sorting_puts_in_order(d, less);
        let p = insert_position(front, x, less);
        let n = s.len() - 1;
        let f = g.insert(p, n);
        assert forall|i: int| 0 <= i < f.len() implies 0 <= #[trigger] f[i] < s.len() && r[i]
            == s[f[i]] by {
            if i < p {
                assert(f[i] == g[i] && r[i] == front[i]);
            } else if i > p {
                assert(f[i] == g[i - 1] && r[i] == front[i - 1]);
            }
        }
        assert forall|i: int, j: int| 0 <= i < j < f.len() implies #[trigger] f[i]
            != #[trigger] f[j] by {
            let a = if i < p {
                i
            } else {
                i - 1
            };
            let b = if j < p {
                j
            } else {
                j - 1
            };
            if i != p {
                assert(f[i] == g[a]);
            }
            if j != p {
                assert(f[j] == g[b]);
            }
            if i != p && j != p {
                assert(a < b);
            }
        }
        assert forall|k: int| 0 <= k < s.len() implies #[trigger] names(f, k) by {
            if k == n {
                assert(f[p] == k);
            } else {
                assert(names(g, k));
                let i = choose|i: int| 0 <= i < g.len() && #[trigger] g[i] == k;
                if i < p {
                    assert(f[i] == k);
                } else {
                    assert(f[i + 1] == k);
                }
            }
        }
        assert(rearranges(f, s, r));
        assert forall|i: int, j: int|
            0 <= i < j < r.len() && !less(r[i], r[j]) && !less(r[j], r[i]) implies #[trigger] f[i]
            < #[trigger] f[j] by {
            if j < p {
                assert(r[i] == front[i] && r[j] == front[j]);
                assert(g[i] < g[j]);
            } else if j == p {
                assert(f[i] == g[i]);
            } else if i == p {
                assert(r[j] == front[j - 1]);
                assert(less(x, front[j - 1]));
            } else if i > p {
                assert(r[i] == front[i - 1] && r[j] == front[j - 1]);
                assert(g[i - 1] < g[j - 1]);
            } else {
                assert(r[i] == front[i] && r[j] == front[j - 1]);
                assert(g[i] < g[j - 1]);
            }
        }
    }
}

proof fn lemma_position_of_images<T, V>(
    s: Seq<T>,
    x: T,
    f: spec_fn(T) -> V,
    less: spec_fn(T, T) -> bool,
    image_less: spec_fn(V, V) -> bool,
)
    requires
        forall|a: T, b: T| #[trigger] less(a, b) == image_less(f(a), f(b)),
    ensures
        insert_position(s, x, less) == insert_position(s.map_values(f), f(x), image_less),
    decreases s.len(),
{
    if s.len() > 0 {
        assert(s.map_values(f).drop_last() =~= s.drop_last().map_values(f));
        assert(less(x, s.last()) == image_less(f(x), f(s.last())));
        lemma_position_of_images(s.drop_last(), x, f, less, image_less);
    }
}

/// Sorting commutes with an `f` that keeps the order.
pub proof fn lemma_sort_of_images<T, V>(
    s: Seq<T>,
    f: spec_fn(T) -> V,
    less: spec_fn(T, T) -> bool,
    image_less: spec_fn(V, V) -> bool,
)
    requires
        forall|a: T, b: T| #[trigger] less(a, b) == image_less(f(a), f(b)),
    ensures
        sorted_by(s, less).map_values(f) == sorted_by(s.map_values(f), image_less),
    decreases s.len(),
{
    let r = sorted_by(s, less);
    if s.len() == 0 {
        assert(r.map_values(f) =~= Seq::<V>::empty());
        assert(s.map_values(f) =~= Seq::<V>::empty());
    } else {
        let d = s.drop_last();
        let x = s.last();
        let front = sorted_by(d, less);
        lemma_sort_of_images(d, f, less, image_less);
        assert(s.map_values(f).drop_last() =~= d.map_values(f));
        assert(s.map_values(f).last() == f(x));
        lemma_position_of_images(front, x, f, less, image_less);
        lemma_insert_position(front, x, less);
        let p = insert_position(front, x, less);
        assert(front.insert(p, x).map_values(f) =~= front.map_values(f).insert(p, f(x)));
    }
}

/// Sorts a vector. `before` decides the order that `less` states.
pub(crate) fn stable_sort<T, F: Fn(&T, &T) -> bool>(
    items: Vec<T>,
    before: F,
    Ghost(less): Ghost<spec_fn(T, T) -> bool>,
) -> (r: Vec<T>)
    requires
        forall|a: T, b: T| call_requires(before, (&a, &b)),
        forall|a: T, b: T, out: bool| call_ensures(before, (&a, &b), out) ==> out == less(a, b),
    ensures
        r@ == sorted_by(items@, less),
{
    let mut out: Vec<T> = Vec::new();
    let ghost all = items@;
    assert(sorted_by(all.take(0), less) =~= Seq::<T>::empty());
    for x in it: items
        invariant
            it.seq() == all,
            out@ == sorted_by(all.take(it.index()), less),
            forall|a: T, b: T| call_requires(before, (&a, &b)),
            forall|a: T, b: T, o: bool| call_ensures(before, (&a, &b), o) ==> o == less(a, b),
    {
        let mut p: usize = out.len();
        proof {
            assert(out@.take(out@.len() as int) =~= out@);
        }
        while p > 0 && before(&x, &out[p - 1])
            invariant
                p <= out@.len(),
                insert_position(out@.take(p as int), x, less) == insert_position(out@, x, less),
                forall|a: T, b: T| call_requires(before, (&a, &b)),
                forall|a: T, b: T, o: bool| call_ensures(before, (&a, &b), o) ==> o == less(a, b),
            ensures
                p <= out@.len(),
                insert_position(out@, x, less) == p,
            decreases p,
        {
            assert(out@.take(p as int).drop_last() =~= out@.take(p - 1));
            p -= 1;
        }
        let ghost i = it.index();
        assert(all.take(i + 1).drop_last() =~= all.take(i));
        out.insert(p, x);
    }
    assert(all.take(all.len() as int) =~= all);
    out
}

} // verus!
