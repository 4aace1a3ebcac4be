//! A token-keyed table of timestamp lists, held as a vector of entries with
//! distinct tokens.
use vstd::prelude::*;
use crate::primitives::{GeoHashKey, tokens_equal};
use crate::sorted::{strictly_sorted, _sorted_push, _sorted_merge};

verus! {

/// The view of a table: its entries in order, each token as its bytes.
pub type Entries = Seq<(Seq<u8>, Seq<u64>)>;

pub open spec fn keys_distinct(s: Entries) -> bool {
    forall|i: int, j: int| 0 <= i < j < s.len() ==> s[i].0 != s[j].0
}

pub open spec fn values_sorted(s: Entries) -> bool {
    forall|i: int| 0 <= i < s.len() ==> strictly_sorted(#[trigger] s[i].1)
}

pub open spec fn has_key(s: Entries, k: Seq<u8>) -> bool {
    exists|i: int| 0 <= i < s.len() && s[i].0 == k
}

/// The entries as a map from token to timestamps.
pub open spec fn entries_map(s: Entries) -> Map<Seq<u8>, Seq<u64>> {
    Map::new(
        |k: Seq<u8>| has_key(s, k),
        |k: Seq<u8>| s[choose|i: int| 0 <= i < s.len() && s[i].0 == k].1,
    )
}

/// Sets the value of `k`, in place where `k` is present, else at the end.
pub open spec fn entries_insert(s: Entries, k: Seq<u8>, v: Seq<u64>) -> Entries {
    if has_key(s, k) {
        s.update(choose|i: int| 0 <= i < s.len() && s[i].0 == k, (k, v))
    } else {
        s.push((k, v))
    }
}

pub proof fn lemma_entries_map_at(s: Entries, i: int)
    requires
        keys_distinct(s),
        0 <= i < s.len(),
    ensures
        entries_map(s).contains_key(s[i].0),
        entries_map(s)[s[i].0] == s[i].1,
{
    let k = s[i].0;
    assert(has_key(s, k));
    let j = choose|j: int| 0 <= j < s.len() && s[j].0 == k;
    assert(j == i);
}

pub proof fn lemma_entries_insert(s: Entries, k: Seq<u8>, v: Seq<u64>)
    requires
        keys_distinct(s),
    ensures
        keys_distinct(entries_insert(s, k, v)),
        entries_map(entries_insert(s, k, v)) == entries_map(s).insert(k, v),
        values_sorted(s) && strictly_sorted(v) ==> values_sorted(entries_insert(s, k, v)),
{
    let t = entries_insert(s, k, v);
    if values_sorted(s) && strictly_sorted(v) {
        assert forall|j: int| 0 <= j < t.len() implies strictly_sorted(#[trigger] t[j].1) by {
            if j < s.len() && t[j].0 != k {
                assert(t[j] == s[j]);
            }
        }
    }
    if has_key(s, k) {
        let i = choose|i: int| 0 <= i < s.len() && s[i].0 == k;
        assert(t.len() == s.len());
        assert forall|a: int, b: int| 0 <= a < b < t.len() implies t[a].0 != t[b].0 by {
            if a != i && b != i {
            }
        }
    } else {
        assert forall|a: int, b: int| 0 <= a < b < t.len() implies t[a].0 != t[b].0 by {
            if b == s.len() {
                assert(!(s[a].0 == k));
            }
        }
    }
    let m = entries_map(s).insert(k, v);
    assert forall|key: Seq<u8>| #[trigger] entries_map(t).contains_key(key) <==> m.contains_key(key) by {
        if has_key(t, key) && key != k {
            let j = choose|j: int| 0 <= j < t.len() && t[j].0 == key;
            assert(s[j].0 == key);
        }
        if has_key(s, key) && key != k {
            let j = choose|j: int| 0 <= j < s.len() && s[j].0 == key;
            assert(t[j].0 == key);
        }
        if key == k {
            if has_key(s, k) {
                let i = choose|i: int| 0 <= i < s.len() && s[i].0 == k;
                assert(t[i].0 == k);
            } else {
                assert(t[s.len() as int].0 == k);
            }
        }
    }
    assert forall|key: Seq<u8>| #[trigger] entries_map(t).contains_key(key) implies entries_map(t)[key]
        == m[key] by {
        let j = choose|j: int| 0 <= j < t.len() && t[j].0 == key;
        lemma_entries_map_at(t, j);
        if key != k {
            assert(s[j].0 == key);
            lemma_entries_map_at(s, j);
        }
    }
    assert(entries_map(t) =~= m);
}

/// A table of timestamp lists keyed by token.
pub struct TokenTable {
    pub entries: Vec<(GeoHashKey, Vec<u64>)>,
}

impl View for TokenTable {
    type V = Entries;

    open spec fn view(&self) -> Entries {
        Seq::new(self.entries@.len(), |i: int| (self.entries@[i].0@, self.entries@[i].1@))
    }
}

impl TokenTable {
    /// Tokens are distinct and every list is strictly ascending.
    pub open spec fn wf(&self) -> bool {
        keys_distinct(self@) && values_sorted(self@)
    }

    pub open spec fn to_map(&self) -> Map<Seq<u8>, Seq<u64>> {
        entries_map(self@)
    }

    /// An empty table.
    pub fn new() -> (r: Self)
        ensures
            r@ == Seq::<(Seq<u8>, Seq<u64>)>::empty(),
            r.wf(),
    {
        let r = TokenTable { entries: Vec::new() };
        assert(r@ =~= Seq::<(Seq<u8>, Seq<u64>)>::empty());
        r
    }

    /// The number of entries.
    pub fn len(&self) -> (r: usize)
        ensures
            r == self@.len(),
    {
        self.entries.len()
    }

    /// The position of `k`, if present.
    pub fn find(&self, k: &GeoHashKey) -> (r: Option<usize>)
        ensures
            match r {
                Some(i) => i < self@.len() && self@[i as int].0 == k@,
                None => !has_key(self@, k@),
            },
    {
        let mut i: usize = 0;
        while i < self.entries.len()
            invariant
                i <= self@.len(),
                forall|j: int| 0 <= j < i ==> self@[j].0 != k@,
            decreases self@.len() - i,
        {
            if tokens_equal(&self.entries[i].0, k) {
                return Some(i);
            }
            i = i + 1;
        }
        None
    }

    /// Sets the list of `k`, replacing any list it had.
    pub fn insert(&mut self, k: GeoHashKey, v: Vec<u64>)
        requires
            keys_distinct(old(self)@),
        ensures
            final(self)@ == entries_insert(old(self)@, k@, v@),
            keys_distinct(final(self)@),
            final(self).to_map() == old(self).to_map().insert(k@, v@),
            old(self).wf() && strictly_sorted(v@) ==> final(self).wf(),
    {
        let ghost s = self@;
        proof {
            lemma_entries_insert(s, k@, v@);
        }
        match self.find(&k) {
            Some(i) => {
                self.entries.set(i, (k, v));
                let ghost j = choose|j: int| 0 <= j < s.len() && s[j].0 == k@;
                assert(j == i);
                assert(self@ =~= s.update(i as int, (k@, v@)));
            },
            None => {
                self.entries.push((k, v));
                assert(self@ =~= s.push((k@, v@)));
            },
        }
    }

    /// Adds `ts` to the list of `k`, creating the list where `k` is absent.
    pub fn add_timestamp(&mut self, k: GeoHashKey, ts: u64)
        requires
            old(self).wf(),
        ensures
            final(self).wf(),
            final(self).to_map().dom() == old(self).to_map().dom().insert(k@),
            forall|key: Seq<u8>| key != k@ && #[trigger] old(self).to_map().contains_key(key)
                ==> final(self).to_map()[key] == old(self).to_map()[key],
            final(self).to_map()[k@].to_set() == (if old(self).to_map().contains_key(k@) {
                old(self).to_map()[k@].to_set()
            } else {
                Set::empty()
            }).insert(ts),
    {
        let ghost s = self@;
        match self.find(&k) {
            Some(i) => {
                proof {
                    lemma_entries_map_at(s, i as int);
                }
                let (key, mut list) = self.entries.remove(i);
                _sorted_push(&mut list, ts);
                self.entries.insert(i, (key, list));
                assert(self@ =~= s.update(i as int, (k@, list@)));
                let ghost j = choose|j: int| 0 <= j < s.len() && s[j].0 == k@;
                assert(j == i);
                proof {
                    lemma_entries_insert(s, k@, list@);
                }
            },
            None => {
                let mut list: Vec<u64> = Vec::new();
                list.push(ts);
                assert(list@ =~= seq![ts]);
                assert(list@.to_set() =~= Set::<u64>::empty().insert(ts)) by {
                    assert(list@[0] == ts);
                }
                self.entries.push((k, list));
                assert(self@ =~= s.push((k@, list@)));
                proof {
                    lemma_entries_insert(s, k@, list@);
                }
            },
        }
        assert(values_sorted(self@)) by {
            assert forall|j: int| 0 <= j < self@.len() implies strictly_sorted(#[trigger] self@[j].1) by {
                if j < s.len() && self@[j].0 != k@ {
                    assert(self@[j] == s[j]);
                }
            }
        }
        assert(self.to_map().dom() =~= entries_map(s).dom().insert(k@));
    }

    /// Merges the strictly ascending list `v` into the list of `k`.
    pub fn merge_list(&mut self, k: GeoHashKey, v: &Vec<u64>)
        requires
            old(self).wf(),
            strictly_sorted(v@),
        ensures
            final(self).wf(),
            final(self).to_map().dom() == old(self).to_map().dom().insert(k@),
            forall|key: Seq<u8>| key != k@ && #[trigger] old(self).to_map().contains_key(key)
                ==> final(self).to_map()[key] == old(self).to_map()[key],
            final(self).to_map()[k@].to_set() == (if old(self).to_map().contains_key(k@) {
                old(self).to_map()[k@].to_set()
            } else {
                Set::empty()
            }).union(v@.to_set()),
    {
        let ghost s = self@;
        let merged: Vec<u64>;
        match self.find(&k) {
            Some(i) => {
                proof {
                    lemma_entries_map_at(s, i as int);
                }
                merged = _sorted_merge(&self.entries[i].1, v);
            },
            None => {
                let empty: Vec<u64> = Vec::new();
                merged = _sorted_merge(&empty, v);
                assert(empty@.to_set() =~= Set::<u64>::empty());
            },
        }
        let ghost mv = merged@;
        self.insert(k, merged);
        assert(self.to_map().dom() =~= entries_map(s).dom().insert(k@));
    }
}

} // verus!
