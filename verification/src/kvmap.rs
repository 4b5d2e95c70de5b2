//! Association maps backed by a vector of entries with pairwise-distinct
//! keys.  They play the role of a hash map but expose their entry sequence,
//! which the cache codec and the listing operations rely on.
use vstd::prelude::*;

verus! {

/// Executable equality on map keys, tied to the key's mathematical view.
pub trait MapKey: View + Sized {
    fn key_eq(&self, other: &Self) -> (r: bool)
        ensures
            r == (self@ == other@),
    ;
}

impl MapKey for String {
    fn key_eq(&self, other: &Self) -> (r: bool) {
        self.eq(other)
    }
}

/// An ordered pair of strings used as a compound map key (source/target of an
/// ignored suggestion, or path/title of a cached insertion decision).
pub struct PairKey {
    pub first: String,
    pub second: String,
}

impl View for PairKey {
    type V = (Seq<char>, Seq<char>);

    open spec fn view(&self) -> (Seq<char>, Seq<char>) {
        (self.first@, self.second@)
    }
}

impl MapKey for PairKey {
    fn key_eq(&self, other: &Self) -> (r: bool) {
        self.first.eq(&other.first) && self.second.eq(&other.second)
    }
}

impl Clone for PairKey {
    fn clone(&self) -> (r: Self)
        ensures
            r == *self,
    {
        PairKey { first: self.first.clone(), second: self.second.clone() }
    }
}

/// The map described by an entry sequence: later entries win, though the maps
/// in this crate keep their keys pairwise distinct.
pub open spec fn seq_to_map<KV, V>(s: Seq<(KV, V)>) -> Map<KV, V>
    decreases s.len(),
{
    if s.len() == 0 {
        Map::empty()
    } else {
        seq_to_map(s.drop_last()).insert(s.last().0, s.last().1)
    }
}

pub proof fn lemma_seq_to_map_contains<KV, V>(s: Seq<(KV, V)>, k: KV)
    ensures
        seq_to_map(s).contains_key(k) <==> exists|i: int| 0 <= i < s.len() && s[i].0 == k,
    decreases s.len(),
{
    if s.len() > 0 {
        lemma_seq_to_map_contains(s.drop_last(), k);
        if s.last().0 == k {
            assert(s[s.len() - 1].0 == k);
        } else if seq_to_map(s).contains_key(k) {
            let i = choose|i: int| 0 <= i < s.drop_last().len() && s.drop_last()[i].0 == k;
            assert(s[i].0 == k);
        } else if exists|i: int| 0 <= i < s.len() && s[i].0 == k {
            let i = choose|i: int| 0 <= i < s.len() && s[i].0 == k;
            assert(s.drop_last()[i].0 == k);
        }
    }
}

/// Keys are pairwise distinct in the entry sequence.
pub open spec fn unique_keys<KV, V>(s: Seq<(KV, V)>) -> bool {
    forall|i: int, j: int|
        0 <= i < j < s.len() ==> (#[trigger] s[i]).0 != (#[trigger] s[j]).0
}

pub proof fn lemma_seq_to_map_index<KV, V>(s: Seq<(KV, V)>, i: int)
    requires
        unique_keys(s),
        0 <= i < s.len(),
    ensures
        seq_to_map(s).contains_key(s[i].0),
        seq_to_map(s)[s[i].0] == s[i].1,
    decreases s.len(),
{
    lemma_seq_to_map_contains(s, s[i].0);
    if i < s.len() - 1 {
        assert(s[i].0 != s.last().0);
        assert(s.drop_last()[i] == s[i]);
        lemma_seq_to_map_index(s.drop_last(), i);
    }
}

pub proof fn lemma_seq_to_map_len<KV, V>(s: Seq<(KV, V)>)
    requires
        unique_keys(s),
    ensures
        seq_to_map(s).dom().finite(),
        seq_to_map(s).dom().len() == s.len(),
    decreases s.len(),
{
    if s.len() > 0 {
        lemma_seq_to_map_len(s.drop_last());
        lemma_seq_to_map_contains(s.drop_last(), s.last().0);
        assert(forall|i: int|
            0 <= i < s.drop_last().len() ==> (#[trigger] s.drop_last()[i]).0 != s.last().0);
        assert(!seq_to_map(s.drop_last()).contains_key(s.last().0));
    }
}

proof fn lemma_seq_to_map_remove_at<KV, V>(s: Seq<(KV, V)>, i: int)
    requires
        unique_keys(s),
        0 <= i < s.len(),
    ensures
        seq_to_map(s.remove(i)) == seq_to_map(s).remove(s[i].0),
    decreases s.len(),
{
    lemma_seq_to_map_contains(s.drop_last(), s.last().0);
    if i == s.len() - 1 {
        assert(s.remove(i) =~= s.drop_last());
        assert(!seq_to_map(s.drop_last()).contains_key(s.last().0));
        assert(seq_to_map(s.drop_last()).remove(s.last().0) =~= seq_to_map(s.drop_last()));
    } else {
        lemma_seq_to_map_remove_at(s.drop_last(), i);
        assert(s.remove(i).drop_last() =~= s.drop_last().remove(i));
        assert(s.remove(i).last() == s.last());
        assert(s.drop_last()[i] == s[i]);
        assert(s[i].0 != s.last().0);
        assert(seq_to_map(s).remove(s[i].0) =~= seq_to_map(s.drop_last()).remove(
            s[i].0,
        ).insert(s.last().0, s.last().1));
    }
}

/// A map from keys to values, stored as a vector of entries whose keys are
/// pairwise distinct.
pub struct KeyMap<K, V> {
    entries: Vec<(K, V)>,
}

impl<K: MapKey, V: DeepView> KeyMap<K, V> {
    /// The entry sequence, with each key replaced by its view.
    pub closed spec fn kv(&self) -> Seq<(K::V, V::V)> {
        self.entries@.map_values(|e: (K, V)| (e.0@, e.1.deep_view()))
    }

    pub open spec fn wf(&self) -> bool {
        unique_keys(self.kv())
    }

    pub proof fn lemma_view_index(&self, i: int)
        requires
            self.wf(),
            0 <= i < self.kv().len(),
        ensures
            self@.contains_key(self.kv()[i].0),
            self@[self.kv()[i].0] == self.kv()[i].1,
    {
        lemma_seq_to_map_index(self.kv(), i);
    }

    pub proof fn lemma_view_contains(&self, k: K::V)
        ensures
            self@.contains_key(k) <==> exists|i: int| 0 <= i < self.kv().len()
                && (#[trigger] self.kv()[i]).0 == k,
    {
        lemma_seq_to_map_contains(self.kv(), k);
    }

    pub fn new() -> (r: Self)
        ensures
            r.wf(),
            r@ == Map::<K::V, V::V>::empty(),
            r.kv().len() == 0,
    {
        KeyMap { entries: Vec::new() }
    }

    pub fn num_entries(&self) -> (r: usize)
        ensures
            r == self.kv().len(),
    {
        self.entries.len()
    }

    /// Number of keys in the map.
    pub fn len(&self) -> (r: usize)
        requires
            self.wf(),
        ensures
            r == self@.dom().len(),
    {
        proof {
            lemma_seq_to_map_len(self.kv());
        }
        self.entries.len()
    }

    pub fn key_at(&self, i: usize) -> (r: &K)
        requires
            i < self.kv().len(),
        ensures
            r@ == self.kv()[i as int].0,
    {
        &self.entries[i].0
    }

    pub fn val_at(&self, i: usize) -> (r: &V)
        requires
            i < self.kv().len(),
        ensures
            r.deep_view() == self.kv()[i as int].1,
    {
        &self.entries[i].1
    }

    fn find(&self, k: &K) -> (r: Option<usize>)
        ensures
            match r {
                Some(i) => i < self.kv().len() && self.kv()[i as int].0 == k@,
                None => forall|i: int| 0 <= i < self.kv().len()
                    ==> (#[trigger] self.kv()[i]).0 != k@,
            },
    {
        let n = self.entries.len();
        let mut i: usize = 0;
        while i < n
            invariant
                n == self.kv().len(),
                i <= n,
                forall|j: int| 0 <= j < i ==> (#[trigger] self.kv()[j]).0 != k@,
            decreases n - i,
        {
            if self.entries[i].0.key_eq(k) {
                return Some(i);
            }
            i += 1;
        }
        None
    }

    pub fn contains_key(&self, k: &K) -> (r: bool)
        requires
            self.wf(),
        ensures
            r == self@.contains_key(k@),
    {
        proof {
            lemma_seq_to_map_contains(self.kv(), k@);
        }
        self.find(k).is_some()
    }

    pub fn get(&self, k: &K) -> (r: Option<&V>)
        requires
            self.wf(),
        ensures
            match r {
                Some(v) => self@.contains_key(k@) && v.deep_view() == self@[k@],
                None => !self@.contains_key(k@),
            },
    {
        proof {
            lemma_seq_to_map_contains(self.kv(), k@);
        }
        match self.find(k) {
            Some(i) => {
                proof {
                    lemma_seq_to_map_index(self.kv(), i as int);
                }
                Some(&self.entries[i].1)
            },
            None => None,
        }
    }

    pub fn insert(&mut self, k: K, v: V)
        requires
            old(self).wf(),
        ensures
            final(self).wf(),
            final(self)@ == old(self)@.insert(k@, v.deep_view()),
    {
        self.remove(&k);
        let ghost pre = self.kv();
        proof {
            lemma_seq_to_map_contains(pre, k@);
        }
        self.entries.push((k, v));
        proof {
            assert(self.kv().drop_last() =~= pre);
            assert(self.kv().last() == (k@, v.deep_view()));
            assert forall|i: int, j: int|
                0 <= i < j < self.kv().len() implies (#[trigger] self.kv()[i]).0
                != (#[trigger] self.kv()[j]).0 by {
                if j < self.kv().len() - 1 {
                    assert(pre[i] == self.kv()[i]);
                    assert(pre[j] == self.kv()[j]);
                } else {
                    assert(pre[i] == self.kv()[i]);
                }
            }
            assert(old(self)@.remove(k@).insert(k@, v.deep_view()) =~= old(self)@.insert(
                k@,
                v.deep_view(),
            ));
        }
    }

    /// Removes the entry at position `i` of the entry sequence.
    pub fn remove_at(&mut self, i: usize)
        requires
            old(self).wf(),
            i < old(self).kv().len(),
        ensures
            final(self).wf(),
            final(self)@ == old(self)@.remove(old(self).kv()[i as int].0),
            final(self).kv().len() == old(self).kv().len() - 1,
    {
        let ghost pre = self.kv();
        proof {
            lemma_seq_to_map_remove_at(pre, i as int);
        }
        self.entries.remove(i);
        proof {
            assert(self.kv() =~= pre.remove(i as int));
            assert forall|a: int, b: int|
                0 <= a < b < self.kv().len() implies (#[trigger] self.kv()[a]).0
                != (#[trigger] self.kv()[b]).0 by {
                let a0 = if a < i { a } else { a + 1 };
                let b0 = if b < i { b } else { b + 1 };
                assert(self.kv()[a] == pre[a0]);
                assert(self.kv()[b] == pre[b0]);
            }
        }
    }

    pub fn remove(&mut self, k: &K) -> (r: bool)
        requires
            old(self).wf(),
        ensures
            final(self).wf(),
            final(self)@ == old(self)@.remove(k@),
            r == old(self)@.contains_key(k@),
    {
        proof {
            lemma_seq_to_map_contains(self.kv(), k@);
        }
        match self.find(k) {
            Some(i) => {
                self.remove_at(i);
                true
            },
            None => {
                proof {
                    assert(old(self)@.remove(k@) =~= old(self)@);
                }
                false
            },
        }
    }

    pub fn clear(&mut self)
        ensures
            final(self).wf(),
            final(self)@ == Map::<K::V, V::V>::empty(),
            final(self).kv().len() == 0,
    {
        self.entries = Vec::new();
        proof {
            assert(self.kv() =~= Seq::<(K::V, V::V)>::empty());
        }
    }
}

/// The set of pair keys whose first component differs from `first`.
pub open spec fn keys_with_other_first(first: Seq<char>) -> Set<(Seq<char>, Seq<char>)> {
    Set::new(|k: (Seq<char>, Seq<char>)| k.0 != first)
}

impl<V: DeepView> KeyMap<PairKey, V> {
    fn find_by_first(&self, first: &String) -> (r: Option<usize>)
        ensures
            match r {
                Some(i) => i < self.kv().len() && self.kv()[i as int].0.0 == first@,
                None => forall|i: int| 0 <= i < self.kv().len()
                    ==> (#[trigger] self.kv()[i]).0.0 != first@,
            },
    {
        let n = self.entries.len();
        let mut i: usize = 0;
        while i < n
            invariant
                n == self.kv().len(),
                i <= n,
                forall|j: int| 0 <= j < i ==> (#[trigger] self.kv()[j]).0.0 != first@,
            decreases n - i,
        {
            if self.entries[i].0.first.eq(first) {
                return Some(i);
            }
            i += 1;
        }
        None
    }

    /// Removes every entry whose key has `first` as its first component and
    /// returns how many entries were removed.
    pub fn remove_by_first(&mut self, first: &String) -> (r: usize)
        requires
            old(self).wf(),
        ensures
            final(self).wf(),
            final(self)@ == old(self)@.restrict(keys_with_other_first(first@)),
            r == old(self)@.dom().len() - final(self)@.dom().len(),
    {
        let ghost keep = keys_with_other_first(first@);
        let total = self.entries.len();
        let mut count: usize = 0;
        loop
            invariant
                keep == keys_with_other_first(first@),
                total == old(self).kv().len(),
                old(self).wf(),
                self.wf(),
                count == old(self).kv().len() - self.kv().len(),
                self@.restrict(keep) == old(self)@.restrict(keep),
            decreases self.kv().len(),
        {
            match self.find_by_first(first) {
                Some(i) => {
                    let ghost removed = self.kv()[i as int].0;
                    let ghost before = self@;
                    self.remove_at(i);
                    proof {
                        assert(!keep.contains(removed));
                        assert(self@.restrict(keep) =~= before.restrict(keep));
                    }
                    count += 1;
                },
                None => {
                    proof {
                        assert forall|k: (Seq<char>, Seq<char>)|
                            self@.contains_key(k) implies keep.contains(k) by {
                            self.lemma_view_contains(k);
                        }
                        assert(self@ =~= self@.restrict(keep));
                        lemma_seq_to_map_len(self.kv());
                        lemma_seq_to_map_len(old(self).kv());
                    }
                    return count;
                },
            }
        }
    }
}

impl<K: MapKey, V: DeepView> View for KeyMap<K, V> {
    type V = Map<K::V, <V as DeepView>::V>;

    closed spec fn view(&self) -> Map<K::V, <V as DeepView>::V> {
        seq_to_map(self.kv())
    }
}

} // verus!
