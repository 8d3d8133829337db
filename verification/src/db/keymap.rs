//! A map from keys to values, kept as a list of distinct keys in insertion order.

use vstd::prelude::*;
use crate::dtypes::Key;

verus! {

/// The map that a list of (key, value) pairs stands for: later pairs win.
pub open spec fn pairs_map<V>(s: Seq<(Seq<u8>, V)>) -> Map<Seq<u8>, V>
    decreases s.len(),
{
    if s.len() == 0 {
        Map::empty()
    } else {
        pairs_map(s.drop_last()).insert(s.last().0, s.last().1)
    }
}

/// Whether no key occurs twice in a list of pairs.
pub open spec fn distinct_keys<V>(s: Seq<(Seq<u8>, V)>) -> bool {
    forall|i: int, j: int| 0 <= i < s.len() && 0 <= j < s.len() && i != j ==> #[trigger] s[i].0 != #[trigger] s[j].0
}

/// The keys of a list of pairs, in order.
pub open spec fn pairs_keys<V>(s: Seq<(Seq<u8>, V)>) -> Seq<Seq<u8>> {
    s.map_values(|e: (Seq<u8>, V)| e.0)
}

/// In a list of pairs with distinct keys, each pair's key maps to its value, and keys of no
/// pair are not in the map.
pub proof fn lemma_pairs_map_lookup<V>(s: Seq<(Seq<u8>, V)>)
    requires
        distinct_keys(s),
    ensures
        forall|i: int| 0 <= i < s.len() ==> #[trigger] pairs_map(s).contains_key(s[i].0) && pairs_map(s)[s[i].0] == s[i].1,
        forall|k: Seq<u8>| #[trigger] pairs_map(s).contains_key(k) ==> exists|i: int| 0 <= i < s.len() && s[i].0 == k,
        pairs_map(s).dom().finite(),
        pairs_map(s).dom().len() == s.len(),
    decreases s.len(),
{
    if s.len() > 0 {
        let init = s.drop_last();
        assert(distinct_keys(init)) by {
            assert forall|i: int, j: int| 0 <= i < init.len() && 0 <= j < init.len() && i != j implies #[trigger] init[i].0 != #[trigger] init[j].0 by {
                assert(init[i] == s[i] && init[j] == s[j]);
            }
        }
        lemma_pairs_map_lookup(init);
        let last = s.last();
        assert(!pairs_map(init).contains_key(last.0)) by {
            if pairs_map(init).contains_key(last.0) {
                let i = choose|i: int| 0 <= i < init.len() && init[i].0 == last.0;
                assert(s[i].0 == s[s.len() - 1].0);
            }
        }
        assert forall|i: int| 0 <= i < s.len() implies #[trigger] pairs_map(s).contains_key(s[i].0) && pairs_map(s)[s[i].0] == s[i].1 by {
            if i < s.len() - 1 {
                assert(init[i] == s[i]);
                assert(s[i].0 != s[s.len() - 1].0);
            }
        }
        assert forall|k: Seq<u8>| #[trigger] pairs_map(s).contains_key(k) implies exists|i: int| 0 <= i < s.len() && s[i].0 == k by {
            if k != last.0 {
                let i = choose|i: int| 0 <= i < init.len() && init[i].0 == k;
                assert(s[i] == init[i]);
            } else {
                assert(s[s.len() - 1].0 == k);
            }
        }
    }
}

/// The test that keeps every key but `key`.
pub open spec fn other_than(key: Seq<u8>) -> spec_fn(Seq<u8>) -> bool {
    |k: Seq<u8>| k != key
}

/// A map from keys to values. No key occurs twice; pairs keep the order of insertion.
pub struct KeyMap<V> {
    entries: Vec<(Key, V)>,
}

impl<V: View> KeyMap<V> {
    /// The pairs of the map, as keys' bytes and values' views, in order.
    pub closed spec fn pairs(&self) -> Seq<(Seq<u8>, V::V)> {
        self.entries@.map_values(|e: (Key, V)| (e.0@, e.1@))
    }

    /// Whether no key occurs twice.
    pub closed spec fn wf(&self) -> bool {
        distinct_keys(self.pairs())
    }

    /// The map the pairs stand for.
    pub open spec fn view(&self) -> Map<Seq<u8>, V::V> {
        pairs_map(self.pairs())
    }

    /// The keys of the map, in order.
    pub open spec fn key_seq(&self) -> Seq<Seq<u8>> {
        pairs_keys(self.pairs())
    }

    /// The facts about a well-formed map: its keys are distinct and are its domain, whose size
    /// is the number of pairs.
    pub proof fn lemma_wf(&self)
        requires
            self.wf(),
        ensures
            self.view().dom().finite(),
            self.view().dom().len() == self.pairs().len(),
            self.key_seq().no_duplicates(),
            self.key_seq().to_set() == self.view().dom(),
            self.key_seq().len() == self.pairs().len(),
            forall|i: int| 0 <= i < self.pairs().len() ==> #[trigger] self.view().contains_key(self.pairs()[i].0)
                && self.view()[self.pairs()[i].0] == self.pairs()[i].1,
    {
        lemma_pairs_map_lookup(self.pairs());
        let ks = self.key_seq();
        assert(ks.len() == self.pairs().len());
        assert forall|i: int, j: int| 0 <= i < ks.len() && 0 <= j < ks.len() && i != j implies ks[i] != ks[j] by {
            assert(ks[i] == self.pairs()[i].0 && ks[j] == self.pairs()[j].0);
        }
        assert forall|k: Seq<u8>| ks.to_set().contains(k) <==> self.view().dom().contains(k) by {
            if ks.to_set().contains(k) {
                let i = choose|i: int| 0 <= i < ks.len() && ks[i] == k;
                assert(ks[i] == self.pairs()[i].0);
            }
            if self.view().dom().contains(k) {
                let i = choose|i: int| 0 <= i < self.pairs().len() && self.pairs()[i].0 == k;
                assert(ks[i] == k);
            }
        }
        assert(ks.to_set() =~= self.view().dom());
    }

    /// The empty map.
    pub fn new() -> (m: KeyMap<V>)
        ensures
            m.wf(),
            m.view() == Map::<Seq<u8>, V::V>::empty(),
            m.pairs() == Seq::<(Seq<u8>, V::V)>::empty(),
    {
        let m = KeyMap { entries: Vec::new() };
        assert(m.pairs() =~= Seq::<(Seq<u8>, V::V)>::empty());
        m
    }

    /// The number of keys.
    pub fn len(&self) -> (n: usize)
        requires
            self.wf(),
        ensures
            n == self.view().dom().len(),
            n == self.pairs().len(),
    {
        proof {
            self.lemma_wf();
        }
        self.entries.len()
    }

    /// The number of pairs, whether or not keys repeat.
    pub fn pairs_len(&self) -> (n: usize)
        ensures
            n == self.pairs().len(),
    {
        self.entries.len()
    }

    /// The keys of the map, in order.
    pub fn keys(&self) -> (v: Vec<Key>)
        ensures
            v@.map_values(|k: Key| k@) == self.key_seq(),
    {
        let mut v: Vec<Key> = Vec::new();
        let mut i: usize = 0;
        while i < self.entries.len()
            invariant
                i <= self.entries@.len(),
                self.pairs().len() == self.entries@.len(),
                v@.map_values(|k: Key| k@) == pairs_keys(self.pairs().subrange(0, i as int)),
            decreases self.entries@.len() - i,
        {
            let k = self.entries[i].0.clone();
            let ghost old_v = v@;
            v.push(k);
            assert(v@.map_values(|k: Key| k@) =~= old_v.map_values(|k: Key| k@).push(self.pairs()[i as int].0));
            assert(pairs_keys(self.pairs().subrange(0, i + 1)) =~= pairs_keys(self.pairs().subrange(0, i as int)).push(
                self.pairs()[i as int].0,
            ));
            i = i + 1;
        }
        assert(self.pairs().subrange(0, self.pairs().len() as int) =~= self.pairs());
        v
    }

    /// The pairs of the map, given up in order.
    pub fn into_pairs(self) -> (v: Vec<(Key, V)>)
        ensures
            v@.map_values(|e: (Key, V)| (e.0@, e.1@)) == self.pairs(),
    {
        self.entries
    }

    /// The pair at position `i`.
    pub fn entry(&self, i: usize) -> (e: &(Key, V))
        requires
            i < self.pairs().len(),
        ensures
            (e.0@, e.1@) == self.pairs()[i as int],
    {
        &self.entries[i]
    }

    /// The position of `key`, if it is in the map.
    pub fn position(&self, key: &Key) -> (r: Option<usize>)
        requires
            self.wf(),
        ensures
            r matches Some(i) ==> i < self.pairs().len() && self.pairs()[i as int].0 == key@,
            r is None <==> !self.view().contains_key(key@),
    {
        proof {
            self.lemma_wf();
        }
        let mut i: usize = 0;
        while i < self.entries.len()
            invariant
                i <= self.entries@.len(),
                self.wf(),
                self.pairs().len() == self.entries@.len(),
                forall|j: int| 0 <= j < i ==> self.pairs()[j].0 != key@,
            decreases self.entries@.len() - i,
        {
            if crate::dtypes::bytes_eq(self.entries[i].0.as_bytes(), key.as_bytes()) {
                proof {
                    self.lemma_wf();
                    assert(self.pairs()[i as int].0 == key@);
                    assert(self.view().contains_key(self.pairs()[i as int].0));
                }
                return Some(i);
            }
            i = i + 1;
        }
        proof {
            lemma_pairs_map_lookup(self.pairs());
        }
        None
    }

    /// The value of `key`, if it is in the map.
    pub fn get(&self, key: &Key) -> (r: Option<&V>)
        requires
            self.wf(),
        ensures
            r matches Some(v) ==> self.view().contains_key(key@) && self.view()[key@] == v@,
            r is None <==> !self.view().contains_key(key@),
    {
        proof {
            self.lemma_wf();
        }
        match self.position(key) {
            Some(i) => Some(&self.entries[i].1),
            None => None,
        }
    }

    /// Whether `key` is in the map.
    pub fn contains_key(&self, key: &Key) -> (r: bool)
        requires
            self.wf(),
        ensures
            r == self.view().contains_key(key@),
    {
        self.position(key).is_some()
    }

    /// Maps `key` to `value`: in place where the key is present, at the end where it is new.
    pub fn insert(&mut self, key: Key, value: V)
        requires
            old(self).wf(),
        ensures
            final(self).wf(),
            final(self).view() == old(self).view().insert(key@, value@),
            old(self).view().contains_key(key@) ==> final(self).key_seq() == old(self).key_seq(),
            !old(self).view().contains_key(key@) ==> final(self).key_seq() == old(self).key_seq().push(key@),
    {
        let ghost old_pairs = self.pairs();
        let ghost kv = (key@, value@);
        match self.position(&key) {
            Some(i) => {
                self.entries.set(i, (key, value));
                proof {
                    assert(self.pairs() =~= old_pairs.update(i as int, kv));
                    lemma_update_pair(old_pairs, i as int, kv.1);
                    assert(self.key_seq() =~= old(self).key_seq());
                }
            },
            None => {
                self.entries.push((key, value));
                proof {
                    assert(self.pairs() =~= old_pairs.push(kv));
                    assert(self.pairs().drop_last() =~= old_pairs);
                    lemma_pairs_map_lookup(old_pairs);
                    assert forall|i: int, j: int| 0 <= i < self.pairs().len() && 0 <= j < self.pairs().len() && i != j implies #[trigger] self.pairs()[i].0 != #[trigger] self.pairs()[j].0 by {
                        if i < old_pairs.len() && j < old_pairs.len() {
                        } else if i < old_pairs.len() {
                            assert(old_pairs[i].0 != kv.0);
                        } else {
                            assert(old_pairs[j].0 != kv.0);
                        }
                    }
                    assert(self.key_seq() =~= old(self).key_seq().push(kv.0));
                }
            },
        }
    }

    /// Removes `key`, giving back its value if it was present. The other pairs keep their order.
    pub fn remove(&mut self, key: &Key) -> (r: Option<V>)
        requires
            old(self).wf(),
        ensures
            final(self).wf(),
            final(self).view() == old(self).view().remove(key@),
            r matches Some(v) ==> old(self).view().contains_key(key@) && old(self).view()[key@] == v@,
            r is None <==> !old(self).view().contains_key(key@),
            final(self).key_seq() == old(self).key_seq().filter(other_than(key@)),
    {
        let ghost old_pairs = self.pairs();
        proof {
            self.lemma_wf();
        }
        match self.position(key) {
            Some(i) => {
                let (_k, v) = self.entries.remove(i);
                proof {
                    assert(self.pairs() =~= old_pairs.remove(i as int));
                    lemma_remove_pair(old_pairs, i as int);
                    assert(old_pairs[i as int].1 == v@);
                    lemma_filter_remove(old(self).key_seq(), i as int);
                    assert(self.key_seq() =~= old(self).key_seq().remove(i as int));
                }
                Some(v)
            },
            None => {
                proof {
                    assert(self.view() =~= old(self).view().remove(key@));
                    lemma_filter_absent(old(self).key_seq(), key@);
                }
                None
            },
        }
    }
}

/// Replacing the value of a pair leaves a list with distinct keys distinct, and maps its key
/// to the new value.
pub proof fn lemma_update_pair<V>(s: Seq<(Seq<u8>, V)>, i: int, v: V)
    requires
        distinct_keys(s),
        0 <= i < s.len(),
    ensures
        distinct_keys(s.update(i, (s[i].0, v))),
        pairs_map(s.update(i, (s[i].0, v))) == pairs_map(s).insert(s[i].0, v),
    decreases s.len(),
{
    let t = s.update(i, (s[i].0, v));
    assert forall|a: int, b: int| 0 <= a < t.len() && 0 <= b < t.len() && a != b implies #[trigger] t[a].0 != #[trigger] t[b].0 by {
        assert(t[a].0 == s[a].0 && t[b].0 == s[b].0);
    }
    if i == s.len() - 1 {
        assert(t.drop_last() =~= s.drop_last());
        assert(pairs_map(t) =~= pairs_map(s).insert(s[i].0, v));
    } else {
        let init = s.drop_last();
        assert(distinct_keys(init)) by {
            assert forall|a: int, b: int| 0 <= a < init.len() && 0 <= b < init.len() && a != b implies #[trigger] init[a].0 != #[trigger] init[b].0 by {
                assert(init[a] == s[a] && init[b] == s[b]);
            }
        }
        lemma_update_pair(init, i, v);
        assert(t.drop_last() =~= init.update(i, (init[i].0, v)));
        assert(s[i].0 != s.last().0);
        assert(pairs_map(t) =~= pairs_map(s).insert(s[i].0, v));
    }
}

/// Removing a pair leaves a list with distinct keys distinct, and removes its key from the map.
pub proof fn lemma_remove_pair<V>(s: Seq<(Seq<u8>, V)>, i: int)
    requires
        distinct_keys(s),
        0 <= i < s.len(),
    ensures
        distinct_keys(s.remove(i)),
        pairs_map(s.remove(i)) == pairs_map(s).remove(s[i].0),
    decreases s.len(),
{
    let t = s.remove(i);
    assert forall|a: int, b: int| 0 <= a < t.len() && 0 <= b < t.len() && a != b implies #[trigger] t[a].0 != #[trigger] t[b].0 by {
        let a2 = if a < i { a } else { a + 1 };
        let b2 = if b < i { b } else { b + 1 };
        assert(t[a] == s[a2] && t[b] == s[b2]);
    }
    let init = s.drop_last();
    assert(distinct_keys(init)) by {
        assert forall|a: int, b: int| 0 <= a < init.len() && 0 <= b < init.len() && a != b implies #[trigger] init[a].0 != #[trigger] init[b].0 by {
            assert(init[a] == s[a] && init[b] == s[b]);
        }
    }
    lemma_pairs_map_lookup(init);
    if i == s.len() - 1 {
        assert(t =~= init);
        assert(!pairs_map(init).contains_key(s[i].0)) by {
            if pairs_map(init).contains_key(s[i].0) {
                let j = choose|j: int| 0 <= j < init.len() && init[j].0 == s[i].0;
                assert(s[j].0 == s[i].0);
            }
        }
        assert(pairs_map(t) =~= pairs_map(s).remove(s[i].0));
    } else {
        lemma_remove_pair(init, i);
        assert(t.drop_last() =~= init.remove(i));
        assert(t.last() == s.last());
        assert(s[i].0 != s.last().0);
        assert(pairs_map(t) =~= pairs_map(s).remove(s[i].0));
    }
}

/// Filtering out the key at a position of a list without duplicates removes that position.
pub proof fn lemma_filter_remove(ks: Seq<Seq<u8>>, i: int)
    requires
        ks.no_duplicates(),
        0 <= i < ks.len(),
    ensures
        ks.filter(other_than(ks[i])) == ks.remove(i),
    decreases ks.len(),
{
    reveal(Seq::filter);
    let key = ks[i];
    let f = other_than(key);
    let init = ks.drop_last();
    assert(init.no_duplicates()) by {
        assert forall|a: int, b: int| 0 <= a < init.len() && 0 <= b < init.len() && a != b implies init[a] != init[b] by {
            assert(init[a] == ks[a] && init[b] == ks[b]);
        }
    }
    assert(init.push(ks.last()) =~= ks);
    if i == ks.len() - 1 {
        lemma_filter_absent(init, key);
        assert(!f(ks.last()));
        assert(ks.filter(f) == init.filter(f));
        assert(ks.remove(i) =~= init);
    } else {
        lemma_filter_remove(init, i);
        assert(ks.last() != key);
        assert(f(ks.last()));
        assert(ks.filter(f) == init.filter(f).push(ks.last()));
        assert(ks.remove(i) =~= init.remove(i).push(ks.last()));
    }
}

/// Filtering out a key that does not occur changes nothing.
pub proof fn lemma_filter_absent(ks: Seq<Seq<u8>>, key: Seq<u8>)
    requires
        forall|j: int| 0 <= j < ks.len() ==> ks[j] != key,
    ensures
        ks.filter(other_than(key)) == ks,
    decreases ks.len(),
{
    reveal(Seq::filter);
    let f = other_than(key);
    if ks.len() > 0 {
        let init = ks.drop_last();
        lemma_filter_absent(init, key);
        assert(f(ks.last()));
        assert(ks.filter(f) == init.filter(f).push(ks.last()));
        assert(init.push(ks.last()) =~= ks);
    } else {
        assert(ks.filter(f) =~= ks);
    }
}

} // verus!
