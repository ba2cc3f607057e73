//! What went wrong, from the outside in.

use vstd::prelude::*;
use crate::text::{occurs_at, push_text, text_of, texts};

verus! {

/// Texts one after the other with a separator between them.
pub open spec fn joined(parts: Seq<Seq<char>>, separator: Seq<char>) -> Seq<char>
    decreases parts.len(),
{
    if parts.len() == 0 {
        Seq::empty()
    } else if parts.len() == 1 {
        parts[0]
    } else {
        joined(parts.drop_last(), separator) + separator + parts.last()
    }
}

/// Joins texts with a separator.
pub fn join(parts: &Vec<String>, separator: &str) -> (r: String)
    ensures
        r@ == joined(texts(parts@), separator@),
{
    let mut out: Vec<char> = Vec::new();
    let ghost all = texts(parts@);
    let mut i: usize = 0;
    assert(all.take(0) =~= Seq::<Seq<char>>::empty());
    while i < parts.len()
        invariant
            i <= parts@.len(),
            all == texts(parts@),
            out@ == joined(all.take(i as int), separator@),
        decreases parts@.len() - i,
    {
        if i > 0 {
            push_text(&mut out, separator);
        }
        push_text(&mut out, &parts[i]);
        i += 1;
        assert(all.take(i as int).drop_last() =~= all.take(i - 1));
        assert(out@ =~= joined(all.take(i as int), separator@));
    }
    assert(all.take(all.len() as int) =~= all);
    text_of(&out)
}

/// A failure with what was being attempted, outermost first.
#[derive(Debug)]
pub struct Failure {
    pub messages: Vec<String>,
}

impl View for Failure {
    type V = Seq<Seq<char>>;

    open spec fn view(&self) -> Seq<Seq<char>> {
        texts(self.messages@)
    }
}

impl Failure {
    /// A failure with one message.
    pub fn new(message: String) -> (r: Self)
        ensures
            r@ == seq![message@],
    {
        let mut messages: Vec<String> = Vec::new();
        messages.push(message);
        let r = Failure { messages };
        assert(r@ =~= seq![message@]);
        r
    }

    /// The same failure, seen from one step further out.
    pub fn context(self, message: String) -> (r: Self)
        ensures
            r@ == seq![message@] + self@,
    {
        let mut messages = self.messages;
        messages.insert(0, message);
        let r = Failure { messages };
        assert(r@ =~= seq![message@] + self@);
        r
    }

    /// The outermost message.
    pub fn short(&self) -> (r: String)
        ensures
            r@ == (if self@.len() == 0 { Seq::empty() } else { self@[0] }),
    {
        if self.messages.len() == 0 {
            String::new()
        } else {
            self.messages[0].clone()
        }
    }

    /// Every message, from the outermost to the cause.
    pub fn full(&self) -> (r: String)
        ensures
            r@ == joined(self@, ": "@),
    {
        join(&self.messages, ": ")
    }
}

/// Joining keeps every part, in order, with one separator between each two: where
/// the parts stand.
pub proof fn joining_keeps_every_part(parts: Seq<Seq<char>>, separator: Seq<char>) -> (at: Seq<int>)
    ensures
        at.len() == parts.len(),
        forall|i: int|
            0 <= i < parts.len() ==> occurs_at(
                joined(parts, separator),
                parts[i],
                #[trigger] at[i],
            ),
        forall|i: int|
            0 < i < parts.len() ==> #[trigger] at[i] == at[i - 1] + parts[i - 1].len()
                + separator.len() && occurs_at(
                joined(parts, separator),
                separator,
                at[i] - separator.len(),
            ),
        parts.len() > 0 ==> at[0] == 0 && at.last() + parts.last().len() == joined(
            parts,
            separator,
        ).len(),
        parts.len() == 0 ==> joined(parts, separator).len() == 0,
    decreases parts.len(),
{
    let s = joined(parts, separator);
    if parts.len() == 0 {
        Seq::empty()
    } else if parts.len() == 1 {
        assert(s.subrange(0, s.len() as int) =~= s);
        let at = seq![0int];
        assert(at.last() == 0 && parts.last() == parts[0]);
        at
    } else {
        let d = parts.drop_last();
        let n = d.len() as int;
        let front = joined(d, separator);
        let before = joining_keeps_every_part(d, separator);
        let p = front.len() + separator.len() as int;
        let at = before.push(p);
        assert forall|i: int| 0 <= i < parts.len() implies occurs_at(
            s,
            parts[i],
            #[trigger] at[i],
        ) by {
            if i < n {
                assert(d[i] == parts[i] && before[i] == at[i]);
                assert(occurs_at(front, d[i], before[i]));
                assert(s.subrange(at[i], at[i] + parts[i].len()) =~= front.subrange(
                    at[i],
                    at[i] + parts[i].len(),
                ));
            } else {
                assert(s.subrange(p, p + parts[i].len()) =~= parts.last());
            }
        }
        assert forall|i: int| 0 < i < parts.len() implies #[trigger] at[i] == at[i - 1] + parts[i
            - 1].len() + separator.len() && occurs_at(s, separator, at[i] - separator.len()) by {
            assert(d[i - 1] == parts[i - 1] && before[i - 1] == at[i - 1]);
            let q = at[i] - separator.len();
            if i < n {
                assert(before[i] == at[i]);
                assert(occurs_at(front, separator, q));
                assert(s.subrange(q, q + separator.len()) =~= front.subrange(
                    q,
                    q + separator.len(),
                ));
            } else {
                assert(d.last() == parts[i - 1] && before.last() == at[i - 1]);
                assert(s.subrange(q, q + separator.len()) =~= separator);
            }
        }
        assert(at[0] == before[0]);
        at
    }
}

} // verus!
