//! A map from text to values that remembers the order of insertion.

use vstd::prelude::*;
use crate::text::same;

verus! {

/// No key occurs twice.
pub open spec fn distinct_keys<T>(e: Seq<(String, T)>) -> bool {
    forall|i: int, j: int|
        0 <= i < j < e.len() ==> (#[trigger] e[i]).0@ != (#[trigger] e[j]).0@
}

/// Whether some entry carries the key.
pub open spec fn has_key<T>(e: Seq<(String, T)>, k: Seq<char>) -> bool {
    exists|i: int| 0 <= i < e.len() && (#[trigger] e[i]).0@ == k
}

/// What entries with distinct keys map to.
pub open spec fn entries_map<T>(e: Seq<(String, T)>) -> Map<Seq<char>, T> {
    Map::new(
        |k: Seq<char>| has_key(e, k),
        |k: Seq<char>| e[choose|i: int| 0 <= i < e.len() && (#[trigger] e[i]).0@ == k].1,
    )
}

/// Values by name. A name occurs at most once.
#[derive(Debug)]
pub struct Table<T> {
    pub entries: Vec<(String, T)>,
}

impl<T> View for Table<T> {
    type V = Map<Seq<char>, T>;

    open spec fn view(&self) -> Map<Seq<char>, T> {
        entries_map(self.entries@)
    }
}

pub proof fn lemma_entry<T>(e: Seq<(String, T)>, i: int)
    requires
        distinct_keys(e),
        0 <= i < e.len(),
    ensures
        entries_map(e).contains_key(e[i].0@),
        entries_map(e)[e[i].0@] == e[i].1,
{
    let k = e[i].0@;
    let c = choose|j: int| 0 <= j < e.len() && (#[trigger] e[j]).0@ == k;
    assert(0 <= c < e.len() && e[c].0@ == k);
    assert(c == i);
}

pub proof fn lemma_push<T>(e: Seq<(String, T)>, k: String, v: T)
    requires
        distinct_keys(e),
        !has_key(e, k@),
    ensures
        distinct_keys(e.push((k, v))),
        entries_map(e.push((k, v))) == entries_map(e).insert(k@, v),
{
    let f = e.push((k, v));
    assert forall|i: int, j: int| 0 <= i < j < f.len() implies (#[trigger] f[i]).0@ != (
    #[trigger] f[j]).0@ by {
        if j == e.len() {
            assert(f[i] == e[i]);
        } else {
            assert(f[i] == e[i] && f[j] == e[j]);
        }
    }
    let want = entries_map(e).insert(k@, v);
    assert forall|q: Seq<char>| entries_map(f).contains_key(q) <==> want.contains_key(q) by {
        if has_key(e, q) {
            let i = choose|i: int| 0 <= i < e.len() && (#[trigger] e[i]).0@ == q;
            assert(f[i].0@ == q);
        }
        if has_key(f, q) && q != k@ {
            let i = choose|i: int| 0 <= i < f.len() && (#[trigger] f[i]).0@ == q;
            assert(f[i] == e[i]);
        }
        assert(f[e.len() as int].0@ == k@);
    }
    assert forall|q: Seq<char>| entries_map(f).contains_key(q) implies entries_map(f)[q]
        == want[q] by {
        let i = choose|i: int| 0 <= i < f.len() && (#[trigger] f[i]).0@ == q;
        lemma_entry(f, i);
        if i < e.len() {
            assert(f[i] == e[i]);
            lemma_entry(e, i);
        }
    }
    assert(entries_map(f) =~= want);
}

pub proof fn lemma_update<T>(e: Seq<(String, T)>, i: int, v: T)
    requires
        distinct_keys(e),
        0 <= i < e.len(),
    ensures
        distinct_keys(e.update(i, (e[i].0, v))),
        entries_map(e.update(i, (e[i].0, v))) == entries_map(e).insert(e[i].0@, v),
{
    let f = e.update(i, (e[i].0, v));
    assert forall|a: int| 0 <= a < e.len() implies (#[trigger] f[a]).0 == e[a].0 by {}
    assert forall|a: int, b: int| 0 <= a < b < f.len() implies (#[trigger] f[a]).0@ != (
    #[trigger] f[b]).0@ by {
        assert(e[a].0@ != e[b].0@);
    }
    let want = entries_map(e).insert(e[i].0@, v);
    assert forall|q: Seq<char>| entries_map(f).contains_key(q) <==> want.contains_key(q) by {
        if has_key(e, q) {
            let a = choose|a: int| 0 <= a < e.len() && (#[trigger] e[a]).0@ == q;
            assert(f[a].0@ == q);
        }
        if has_key(f, q) {
            let a = choose|a: int| 0 <= a < f.len() && (#[trigger] f[a]).0@ == q;
            assert(e[a].0@ == q);
        }
        assert(f[i].0@ == e[i].0@);
    }
    assert forall|q: Seq<char>| entries_map(f).contains_key(q) implies entries_map(f)[q]
        == want[q] by {
        let a = choose|a: int| 0 <= a < f.len() && (#[trigger] f[a]).0@ == q;
        lemma_entry(f, a);
        lemma_entry(e, a);
    }
    assert(entries_map(f) =~= want);
}

pub proof fn lemma_values<T>(e: Seq<(String, T)>, f: Seq<(String, T)>, g: spec_fn(T) -> T)
    requires
        distinct_keys(e),
        e.len() == f.len(),
        forall|i: int| 0 <= i < e.len() ==> (#[trigger] f[i]).0@ == e[i].0@ && f[i].1 == g(e[i].1),
    ensures
        distinct_keys(f),
        entries_map(f) == entries_map(e).map_values(g),
{
    assert forall|a: int, b: int| 0 <= a < b < f.len() implies (#[trigger] f[a]).0@ != (
    #[trigger] f[b]).0@ by {
        assert(e[a].0@ != e[b].0@);
    }
    let want = entries_map(e).map_values(g);
    assert forall|q: Seq<char>| entries_map(f).contains_key(q) <==> want.contains_key(q) by {
        if has_key(e, q) {
            let a = choose|a: int| 0 <= a < e.len() && (#[trigger] e[a]).0@ == q;
            assert(f[a].0@ == q);
        }
        if has_key(f, q) {
            let a = choose|a: int| 0 <= a < f.len() && (#[trigger] f[a]).0@ == q;
            assert(e[a].0@ == q);
        }
    }
    assert forall|q: Seq<char>| entries_map(f).contains_key(q) implies entries_map(f)[q]
        == want[q] by {
        let a = choose|a: int| 0 <= a < f.len() && (#[trigger] f[a]).0@ == q;
        lemma_entry(f, a);
        lemma_entry(e, a);
    }
    assert(entries_map(f) =~= want);
}

pub proof fn lemma_remove<T>(e: Seq<(String, T)>, i: int)
    requires
        distinct_keys(e),
        0 <= i < e.len(),
    ensures
        distinct_keys(e.remove(i)),
        entries_map(e.remove(i)) == entries_map(e).remove(e[i].0@),
{
    let f = e.remove(i);
    assert forall|a: int| 0 <= a < f.len() implies #[trigger] f[a] == e[if a < i {
        a
    } else {
        a + 1
    }] by {}
    assert forall|a: int, b: int| 0 <= a < b < f.len() implies (#[trigger] f[a]).0@ != (
    #[trigger] f[b]).0@ by {
        let x = if a < i { a } else { a + 1 };
        let y = if b < i { b } else { b + 1 };
        assert(e[x].0@ != e[y].0@);
    }
    let want = entries_map(e).remove(e[i].0@);
    assert forall|q: Seq<char>| entries_map(f).contains_key(q) <==> want.contains_key(q) by {
        if has_key(e, q) && q != e[i].0@ {
            let a = choose|a: int| 0 <= a < e.len() && (#[trigger] e[a]).0@ == q;
            let b = if a < i { a } else { a - 1 };
            assert(f[b] == e[a]);
        }
        if has_key(f, q) {
            let b = choose|b: int| 0 <= b < f.len() && (#[trigger] f[b]).0@ == q;
            let a = if b < i { b } else { b + 1 };
            assert(e[a].0@ == q);
            assert(e[a].0@ != e[i].0@);
        }
    }
    assert forall|q: Seq<char>| entries_map(f).contains_key(q) implies entries_map(f)[q]
        == want[q] by {
        let b = choose|b: int| 0 <= b < f.len() && (#[trigger] f[b]).0@ == q;
        lemma_entry(f, b);
        let a = if b < i { b } else { b + 1 };
        lemma_entry(e, a);
    }
    assert(entries_map(f) =~= want);
}

impl<T> Table<T> {
    /// Every name occurs once.
    pub open spec fn wf(&self) -> bool {
        distinct_keys(self.entries@)
    }

    pub fn new() -> (r: Self)
        ensures
            r.wf(),
            r@ == Map::<Seq<char>, T>::empty(),
            r.entries@.len() == 0,
    {
        let r = Table { entries: Vec::new() };
        assert(r@ =~= Map::<Seq<char>, T>::empty());
        r
    }

    /// Where the entry of that name stands.
    pub fn find(&self, key: &str) -> (r: Option<usize>)
        requires
            self.wf(),
        ensures
            r is Some <==> self@.contains_key(key@),
            r matches Some(i) ==> i < self.entries@.len() && self.entries@[i as int].0@ == key@
                && self@[key@] == self.entries@[i as int].1,
    {
        let mut i: usize = 0;
        while i < self.entries.len()
            invariant
                i <= self.entries@.len(),
                self.wf(),
                forall|k: int| 0 <= k < i ==> (#[trigger] self.entries@[k]).0@ != key@,
            decreases self.entries@.len() - i,
        {
            if same(&self.entries[i].0, key) {
                proof {
                    lemma_entry(self.entries@, i as int);
                }
                return Some(i);
            }
            i += 1;
        }
        None
    }

    /// The value of that name.
    pub fn get(&self, key: &str) -> (r: Option<&T>)
        requires
            self.wf(),
        ensures
            r is Some <==> self@.contains_key(key@),
            r matches Some(v) ==> *v == self@[key@],
    {
        match self.find(key) {
            Some(i) => Some(&self.entries[i].1),
            None => None,
        }
    }

    /// Sets a value, in place of an earlier one of the same name.
    pub fn insert(&mut self, key: String, value: T)
        requires
            old(self).wf(),
        ensures
            final(self).wf(),
            final(self)@ == old(self)@.insert(key@, value),
    {
        match self.find(&key) {
            Some(i) => {
                proof {
                    lemma_update(self.entries@, i as int, value);
                }
                self.entries[i].1 = value;
                assert(self.entries@ =~= old(self).entries@.update(
                    i as int,
                    (old(self).entries@[i as int].0, value),
                ));
            },
            None => {
                proof {
                    lemma_push(self.entries@, key, value);
                }
                self.entries.push((key, value));
            },
        }
    }

    /// Drops the entry of that name, if there is one.
    pub fn remove(&mut self, key: &str)
        requires
            old(self).wf(),
        ensures
            final(self).wf(),
            final(self)@ == old(self)@.remove(key@),
    {
        match self.find(key) {
            Some(i) => {
                proof {
                    lemma_remove(self.entries@, i as int);
                }
                self.entries.remove(i);
            },
            None => {
                assert(self@ =~= self@.remove(key@));
            },
        }
    }
}

} // verus!
