//! The flat output: an ordered mapping from key text to leaf value.

use vstd::prelude::*;
use crate::text::{
    lemma_text_lt_total, lemma_text_lt_transitive, str_equal, text_less, text_lt,
};
use crate::value::{Value, ValueView};

verus! {

/// One entry of a flat mapping: the key text and the value stored under it.
pub type EntryView = (Seq<char>, ValueView);

/// The mapping `s` after storing `v` under `k`: the entry takes the place of
/// the first entry whose key is not below `k`, replacing it when the keys are
/// equal and standing before it otherwise.
pub open spec fn put(s: Seq<EntryView>, k: Seq<char>, v: ValueView) -> Seq<EntryView>
    decreases s.len(),
{
    if s.len() == 0 {
        seq![(k, v)]
    } else if text_lt(s[0].0, k) {
        seq![s[0]] + put(s.drop_first(), k, v)
    } else if s[0].0 == k {
        s.update(0, (k, v))
    } else {
        seq![(k, v)] + s
    }
}

/// The mapping `acc` after storing every entry of `entries`, first to last.
pub open spec fn put_all(acc: Seq<EntryView>, entries: Seq<EntryView>) -> Seq<EntryView>
    decreases entries.len(),
{
    if entries.len() == 0 {
        acc
    } else {
        put(put_all(acc, entries.drop_last()), entries.last().0, entries.last().1)
    }
}

/// The value that a mapping holds under `k`, if any.
pub open spec fn lookup(s: Seq<EntryView>, k: Seq<char>) -> Option<ValueView>
    decreases s.len(),
{
    if s.len() == 0 {
        None
    } else if s[0].0 == k {
        Some(s[0].1)
    } else {
        lookup(s.drop_first(), k)
    }
}

/// The value of the last entry of a list that carries the key `k`, if any.
pub open spec fn last_written(entries: Seq<EntryView>, k: Seq<char>) -> Option<ValueView>
    decreases entries.len(),
{
    if entries.len() == 0 {
        None
    } else if entries.last().0 == k {
        Some(entries.last().1)
    } else {
        last_written(entries.drop_last(), k)
    }
}

/// Keys strictly ascend from each entry to every later one.
pub open spec fn ascending(s: Seq<EntryView>) -> bool {
    forall|i: int, j: int| 0 <= i < j < s.len() ==> text_lt(#[trigger] s[i].0, #[trigger] s[j].0)
}

/// A flat mapping from key to leaf value, iterated in the natural order of its keys.
#[derive(Debug)]
pub struct FlatMap {
    entries: Vec<(String, Value)>,
}

impl View for FlatMap {
    type V = Seq<EntryView>;

    closed spec fn view(&self) -> Seq<EntryView> {
        Seq::new(self.entries.len() as nat, |i: int| (self.entries[i].0@, self.entries[i].1@))
    }
}

impl FlatMap {
    /// The entries are in strictly ascending order of their keys.
    pub open spec fn wf(&self) -> bool {
        ascending(self@)
    }

    /// The empty mapping.
    pub fn new() -> (r: FlatMap)
        ensures
            r@ == Seq::<EntryView>::empty(),
            r.wf(),
    {
        let r = FlatMap { entries: Vec::new() };
        assert(r@ =~= Seq::<EntryView>::empty());
        r
    }

    /// The number of entries.
    pub fn len(&self) -> (n: usize)
        ensures
            n == self@.len(),
    {
        self.entries.len()
    }

    /// The key of the entry at position `i` in key order.
    pub fn key_at(&self, i: usize) -> (k: &String)
        requires
            i < self@.len(),
        ensures
            k@ == self@[i as int].0,
    {
        &self.entries[i].0
    }

    /// The value of the entry at position `i` in key order.
    pub fn value_at(&self, i: usize) -> (v: &Value)
        requires
            i < self@.len(),
        ensures
            v@ == self@[i as int].1,
    {
        &self.entries[i].1
    }

    /// The value stored under `key`, if any.
    pub fn get(&self, key: &str) -> (r: Option<&Value>)
        ensures
            match r {
                Some(v) => lookup(self@, key@) == Some(v@),
                None => lookup(self@, key@) is None,
            },
    {
        let mut i: usize = 0;
        proof {
            assert(self@.skip(0) =~= self@);
        }
        while i < self.entries.len()
            invariant
                i <= self.entries.len(),
                lookup(self@, key@) == lookup(self@.skip(i as int), key@),
            decreases self.entries.len() - i,
        {
            proof {
                assert(self@.skip(i as int).drop_first() =~= self@.skip(i + 1));
            }
            if str_equal(self.entries[i].0.as_str(), key) {
                return Some(&self.entries[i].1);
            }
            i += 1;
        }
        None
    }

    /// Stores `value` under `key`; an entry already stored under that key is replaced.
    pub fn insert(&mut self, key: String, value: Value)
        ensures
            final(self)@ == put(old(self)@, key@, value@),
            old(self).wf() ==> final(self).wf(),
    {
        let mut i: usize = 0;
        proof {
            assert(self@.skip(0) =~= self@);
            assert(self@.take(0) + put(self@.skip(0), key@, value@) =~= put(self@, key@, value@));
        }
        while i < self.entries.len() && text_less(self.entries[i].0.as_str(), key.as_str())
            invariant
                *self == *old(self),
                i <= self.entries.len(),
                put(self@, key@, value@) == self@.take(i as int) + put(
                    self@.skip(i as int),
                    key@,
                    value@,
                ),
            decreases self.entries.len() - i,
        {
            proof {
                let rest = self@.skip(i as int);
                assert(rest.drop_first() =~= self@.skip(i + 1));
                assert(self@.take(i as int) + (seq![rest[0]] + put(rest.drop_first(), key@, value@))
                    =~= self@.take(i + 1) + put(rest.drop_first(), key@, value@));
            }
            i += 1;
        }
        proof {
            if old(self).wf() {
                lemma_put_ascending(old(self)@, key@, value@);
            }
        }
        let ghost before = self@;
        let ghost rest = before.skip(i as int);
        if i < self.entries.len() && self.entries[i].0 == key {
            self.entries.set(i, (key, value));
            assert(self@ =~= before.take(i as int) + rest.update(0, (key@, value@)));
        } else {
            self.entries.insert(i, (key, value));
            assert(self@ =~= before.take(i as int) + (seq![(key@, value@)] + rest));
        }
    }
}

/// Storing an entry keeps the keys in ascending order.
pub proof fn lemma_put_ascending(s: Seq<EntryView>, k: Seq<char>, v: ValueView)
    requires
        ascending(s),
    ensures
        ascending(put(s, k, v)),
    decreases s.len(),
{
    let r = put(s, k, v);
    if s.len() == 0 {
    } else if text_lt(s[0].0, k) {
        let rest = s.drop_first();
        assert(ascending(rest)) by {
            assert forall|i: int, j: int| 0 <= i < j < rest.len() implies text_lt(
                #[trigger] rest[i].0,
                #[trigger] rest[j].0,
            ) by {
                assert(rest[i] == s[i + 1] && rest[j] == s[j + 1]);
            }
        }
        lemma_put_ascending(rest, k, v);
        lemma_put_members(rest, k, v);
        let tail = put(rest, k, v);
        assert forall|i: int, j: int| 0 <= i < j < r.len() implies text_lt(
            #[trigger] r[i].0,
            #[trigger] r[j].0,
        ) by {
            if i == 0 {
                let e = tail[j - 1];
                assert(r[j] == e);
                if e != (k, v) {
                    let m = choose|m: int| 0 <= m < rest.len() && rest[m] == e;
                    assert(rest[m] == s[m + 1]);
                    assert(text_lt(s[0].0, s[m + 1].0));
                }
            } else {
                assert(r[i] == tail[i - 1] && r[j] == tail[j - 1]);
            }
        }
    } else if s[0].0 == k {
        assert forall|i: int, j: int| 0 <= i < j < r.len() implies text_lt(
            #[trigger] r[i].0,
            #[trigger] r[j].0,
        ) by {
            assert(r[i].0 == s[i].0 && r[j].0 == s[j].0);
        }
    } else {
        lemma_text_lt_total(s[0].0, k);
        assert forall|i: int, j: int| 0 <= i < j < r.len() implies text_lt(
            #[trigger] r[i].0,
            #[trigger] r[j].0,
        ) by {
            if i == 0 {
                assert(r[j] == s[j - 1]);
                if j > 1 {
                    assert(text_lt(s[0].0, s[j - 1].0));
                    lemma_text_lt_transitive(k, s[0].0, s[j - 1].0);
                }
            } else {
                assert(r[i] == s[i - 1] && r[j] == s[j - 1]);
            }
        }
    }
}

/// Every entry of a mapping after a store is the stored entry or an entry that was there before.
pub proof fn lemma_put_members(s: Seq<EntryView>, k: Seq<char>, v: ValueView)
    ensures
        forall|i: int|
            0 <= i < put(s, k, v).len() ==> (#[trigger] put(s, k, v)[i]) == (k, v) || exists|
                m: int,
            |
                0 <= m < s.len() && s[m] == put(s, k, v)[i],
    decreases s.len(),
{
    let r = put(s, k, v);
    if s.len() == 0 {
    } else if text_lt(s[0].0, k) {
        let rest = s.drop_first();
        let tail = put(rest, k, v);
        lemma_put_members(rest, k, v);
        assert forall|i: int| 0 <= i < r.len() implies (#[trigger] r[i]) == (k, v) || exists|m: int|
            0 <= m < s.len() && s[m] == r[i] by {
            if i == 0 {
                assert(s[0] == r[0]);
            } else {
                assert(r[i] == tail[i - 1]);
                if tail[i - 1] != (k, v) {
                    let m = choose|m: int| 0 <= m < rest.len() && rest[m] == tail[i - 1];
                    assert(s[m + 1] == r[i]);
                }
            }
        }
    } else if s[0].0 == k {
        assert forall|i: int| 0 <= i < r.len() implies (#[trigger] r[i]) == (k, v) || exists|m: int|
            0 <= m < s.len() && s[m] == r[i] by {
            if i > 0 {
                assert(s[i] == r[i]);
            }
        }
    } else {
        assert forall|i: int| 0 <= i < r.len() implies (#[trigger] r[i]) == (k, v) || exists|m: int|
            0 <= m < s.len() && s[m] == r[i] by {
            if i > 0 {
                assert(s[i - 1] == r[i]);
            }
        }
    }
}

} // verus!
