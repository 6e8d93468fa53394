//! A map from raw frame keys to interned frame ids.
use vstd::prelude::*;
use crate::types::{FrameId, FrameKey};

verus! {

/// The map that a list of distinct-key entries describes.
pub open spec fn entries_map(s: Seq<(FrameKey, FrameId)>) -> Map<FrameKey, FrameId>
    decreases s.len(),
{
    if s.len() == 0 {
        Map::empty()
    } else {
        entries_map(s.drop_last()).insert(s.last().0, s.last().1)
    }
}

/// No key occurs twice among the entries.
pub open spec fn distinct_keys(s: Seq<(FrameKey, FrameId)>) -> bool {
    forall|i: int, j: int| 0 <= i < s.len() && 0 <= j < s.len() && i != j ==> s[i].0 != s[j].0
}

proof fn lemma_entries_map(s: Seq<(FrameKey, FrameId)>)
    requires
        distinct_keys(s),
    ensures
        entries_map(s).dom().finite(),
        entries_map(s).dom().len() == s.len(),
        forall|k: FrameKey| #[trigger]
            entries_map(s).contains_key(k) <==> exists|i: int| 0 <= i < s.len() && s[i].0 == k,
        forall|i: int| 0 <= i < s.len() ==> #[trigger] entries_map(s)[s[i].0] == s[i].1,
    decreases s.len(),
{
    if s.len() > 0 {
        let t = s.drop_last();
        assert(distinct_keys(t));
        lemma_entries_map(t);
        assert(!entries_map(t).contains_key(s.last().0)) by {
            if entries_map(t).contains_key(s.last().0) {
                let i = choose|i: int| 0 <= i < t.len() && t[i].0 == s.last().0;
                assert(s[i].0 == s[s.len() - 1].0);
            }
        }
        assert forall|k: FrameKey| #[trigger]
            entries_map(s).contains_key(k) <==> exists|i: int| 0 <= i < s.len() && s[i].0 == k by {
            if entries_map(s).contains_key(k) && k != s.last().0 {
                let i = choose|i: int| 0 <= i < t.len() && t[i].0 == k;
                assert(s[i].0 == k);
            }
            if exists|i: int| 0 <= i < s.len() && s[i].0 == k {
                let i = choose|i: int| 0 <= i < s.len() && s[i].0 == k;
                if i < s.len() - 1 {
                    assert(t[i].0 == k);
                }
            }
        }
        assert forall|i: int| 0 <= i < s.len() implies #[trigger] entries_map(s)[s[i].0] == s[i].1 by {
            if i < s.len() - 1 {
                assert(t[i] == s[i]);
            }
        }
    }
}

/// Interned frame keys and their ids, kept in insertion order.
pub struct FrameInterner {
    entries: Vec<(FrameKey, FrameId)>,
}

impl View for FrameInterner {
    type V = Map<FrameKey, FrameId>;

    closed spec fn view(&self) -> Map<FrameKey, FrameId> {
        entries_map(self.entries@)
    }
}

impl FrameInterner {
    /// The interner's internal invariant: every key is stored once.
    pub closed spec fn wf(&self) -> bool {
        distinct_keys(self.entries@)
    }

    /// An interner with no keys.
    pub fn new() -> (r: FrameInterner)
        ensures
            r.wf(),
            r@ == Map::<FrameKey, FrameId>::empty(),
    {
        FrameInterner { entries: Vec::new() }
    }

    /// The number of interned keys.
    pub fn len(&self) -> (n: usize)
        requires
            self.wf(),
        ensures
            n == self@.dom().len(),
    {
        proof {
            lemma_entries_map(self.entries@);
        }
        self.entries.len()
    }

    /// The id interned for `key`, if any.
    pub fn get(&self, key: &FrameKey) -> (r: Option<FrameId>)
        requires
            self.wf(),
        ensures
            match r {
                Some(id) => self@.contains_key(*key) && self@[*key] == id,
                None => !self@.contains_key(*key),
            },
    {
        proof {
            lemma_entries_map(self.entries@);
        }
        let mut i: usize = 0;
        while i < self.entries.len()
            invariant
                self.wf(),
                i <= self.entries@.len(),
                forall|j: int| 0 <= j < i ==> self.entries@[j].0 != *key,
            decreases self.entries@.len() - i,
        {
            if self.entries[i].0 == *key {
                proof {
                    lemma_entries_map(self.entries@);
                    let e = self.entries@[i as int];
                    assert(entries_map(self.entries@)[e.0] == e.1);
                    assert(entries_map(self.entries@).contains_key(e.0));
                }
                return Some(self.entries[i].1);
            }
            i = i + 1;
        }
        None
    }

    /// Records `id` for a key not interned yet.
    pub fn insert(&mut self, key: FrameKey, id: FrameId)
        requires
            old(self).wf(),
            !old(self)@.contains_key(key),
        ensures
            final(self).wf(),
            final(self)@ == old(self)@.insert(key, id),
    {
        proof {
            lemma_entries_map(self.entries@);
        }
        let ghost before = self.entries@;
        self.entries.push((key, id));
        proof {
            assert(self.entries@.drop_last() =~= before);
            assert forall|i: int, j: int|
                0 <= i < self.entries@.len() && 0 <= j < self.entries@.len() && i != j implies
                self.entries@[i].0 != self.entries@[j].0 by {
                if i == before.len() {
                    assert(!(exists|m: int| 0 <= m < before.len() && before[m].0 == key));
                    assert(before[j] == self.entries@[j]);
                } else if j == before.len() {
                    assert(!(exists|m: int| 0 <= m < before.len() && before[m].0 == key));
                    assert(before[i] == self.entries@[i]);
                } else {
                    assert(before[i] == self.entries@[i]);
                    assert(before[j] == self.entries@[j]);
                }
            }
        }
    }
}

} // verus!
