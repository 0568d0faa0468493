use vstd::prelude::*;

verus! {

/// Keys that can be compared in executable code by their view.
pub trait ViewEq: View + Sized {
    fn view_eq(&self, other: &Self) -> (b: bool)
        ensures
            b == (self@ == other@),
    ;

    fn duplicate(&self) -> (r: Self)
        ensures
            r@ == self@,
    ;
}

impl ViewEq for String {
    fn view_eq(&self, other: &Self) -> (b: bool) {
        *self == *other
    }

    fn duplicate(&self) -> (r: Self) {
        self.clone()
    }
}

/// Whether some entry of `s` has a key whose view is `k`.
pub open spec fn has_key<K: View, V>(s: Seq<(K, V)>, k: K::V) -> bool {
    exists|i: int| 0 <= i < s.len() && (#[trigger] s[i]).0@ == k
}

/// The position of the entry of `s` whose key has view `k`.
pub open spec fn key_index<K: View, V>(s: Seq<(K, V)>, k: K::V) -> int {
    choose|i: int| 0 <= i < s.len() && (#[trigger] s[i]).0@ == k
}

/// No two entries of `s` have keys with the same view.
pub open spec fn distinct_keys<K: View, V>(s: Seq<(K, V)>) -> bool {
    forall|i: int, j: int|
        0 <= i < s.len() && 0 <= j < s.len() && i != j ==> (#[trigger] s[i]).0@ != (#[trigger] s[j]).0@
}

/// The map that an association list with distinct keys stands for.
pub open spec fn assoc_map<K: View, V>(s: Seq<(K, V)>) -> Map<K::V, V> {
    Map::new(|k: K::V| has_key(s, k), |k: K::V| s[key_index(s, k)].1)
}

pub proof fn lemma_key_index_unique<K: View, V>(s: Seq<(K, V)>, i: int)
    requires
        distinct_keys(s),
        0 <= i < s.len(),
    ensures
        has_key(s, s[i].0@),
        key_index(s, s[i].0@) == i,
        assoc_map(s).contains_key(s[i].0@),
        assoc_map(s)[s[i].0@] == s[i].1,
{
    assert(has_key(s, s[i].0@));
    let j = key_index(s, s[i].0@);
    assert(s[j].0@ == s[i].0@);
}

/// A finite map kept as a vector of entries with distinct keys.
#[derive(Clone, Debug)]
pub struct AssocList<K, V> {
    entries: Vec<(K, V)>,
}

impl<K: ViewEq, V> AssocList<K, V> {
    pub closed spec fn wf(&self) -> bool {
        distinct_keys(self.entries@)
    }

    pub closed spec fn map(&self) -> Map<K::V, V> {
        assoc_map(self.entries@)
    }

    pub closed spec fn entry_seq(&self) -> Seq<(K, V)> {
        self.entries@
    }

    /// Each key of the map comes from an entry of the list, which holds its value.
    pub proof fn lemma_map_entry(&self, k: K::V)
        requires
            self.wf(),
            self.map().contains_key(k),
        ensures
            0 <= key_index(self.entry_seq(), k) < self.entry_seq().len(),
            self.entry_seq()[key_index(self.entry_seq(), k)].0@ == k,
            self.map()[k] == self.entry_seq()[key_index(self.entry_seq(), k)].1,
    {
    }

    pub fn new() -> (r: Self)
        ensures
            r.wf(),
            r.map() == Map::<K::V, V>::empty(),
    {
        let r = AssocList { entries: Vec::new() };
        assert(r.map() =~= Map::<K::V, V>::empty());
        r
    }

    pub fn find(&self, k: &K) -> (r: Option<usize>)
        requires
            self.wf(),
        ensures
            match r {
                Some(i) => i < self.entry_seq().len() && self.entry_seq()[i as int].0@ == k@,
                None => !self.map().contains_key(k@),
            },
    {
        let mut i: usize = 0;
        while i < self.entries.len()
            invariant
                i <= self.entries@.len(),
                forall|j: int| 0 <= j < i ==> (#[trigger] self.entries@[j]).0@ != k@,
            decreases self.entries@.len() - i,
        {
            if self.entries[i].0.view_eq(k) {
                return Some(i);
            }
            i = i + 1;
        }
        None
    }

    pub fn contains_key(&self, k: &K) -> (b: bool)
        requires
            self.wf(),
        ensures
            b == self.map().contains_key(k@),
    {
        match self.find(k) {
            Some(i) => {
                proof {
                    lemma_key_index_unique(self.entries@, i as int);
                }
                true
            },
            None => false,
        }
    }

    pub fn get(&self, k: &K) -> (r: Option<&V>)
        requires
            self.wf(),
        ensures
            match r {
                Some(v) => self.map().contains_key(k@) && *v == self.map()[k@],
                None => !self.map().contains_key(k@),
            },
    {
        match self.find(k) {
            Some(i) => {
                proof {
                    lemma_key_index_unique(self.entries@, i as int);
                }
                Some(&self.entries[i].1)
            },
            None => None,
        }
    }

    /// Inserts `v` under `k`, keeping the stored key where one with the same view is present.
    pub fn insert(&mut self, k: K, v: V) -> (r: Option<V>)
        requires
            old(self).wf(),
        ensures
            final(self).wf(),
            final(self).map() == old(self).map().insert(k@, v),
            match r {
                Some(o) => old(self).map().contains_key(k@) && o == old(self).map()[k@],
                None => !old(self).map().contains_key(k@),
            },
    {
        let ghost old_entries = self.entries@;
        match self.find(&k) {
            Some(i) => {
                proof {
                    lemma_key_index_unique(old_entries, i as int);
                }
                let (stored, old_v) = self.entries.remove(i);
                self.entries.insert(i, (stored, v));
                proof {
                    let ne = self.entries@;
                    assert(ne =~= old_entries.update(i as int, (old_entries[i as int].0, v)));
                    assert(distinct_keys(ne));
                    assert forall|kk: K::V| #[trigger] assoc_map(ne).contains_key(kk)
                        == old(self).map().insert(k@, v).contains_key(kk) by {
                        if has_key(old_entries, kk) {
                            let j = key_index(old_entries, kk);
                            assert(ne[j].0@ == kk);
                        }
                        if has_key(ne, kk) {
                            let j = key_index(ne, kk);
                            assert(old_entries[j].0@ == kk);
                        }
                    }
                    assert forall|kk: K::V| #[trigger] assoc_map(ne).contains_key(kk)
                        implies assoc_map(ne)[kk] == old(self).map().insert(k@, v)[kk] by {
                        let j = key_index(ne, kk);
                        lemma_key_index_unique(ne, j);
                        if kk != k@ {
                            lemma_key_index_unique(old_entries, j);
                        }
                    }
                    assert(assoc_map(ne) =~= old(self).map().insert(k@, v));
                }
                Some(old_v)
            },
            None => {
                self.entries.push((k, v));
                proof {
                    let ne = self.entries@;
                    let n = old_entries.len() as int;
                    assert(distinct_keys(ne)) by {
                        assert forall|a: int, b: int|
                            0 <= a < ne.len() && 0 <= b < ne.len() && a != b implies
                            (#[trigger] ne[a]).0@ != (#[trigger] ne[b]).0@ by {
                            if a == n {
                                assert(old_entries[b] == ne[b]);
                                assert(has_key(old_entries, ne[b].0@));
                            } else if b == n {
                                assert(old_entries[a] == ne[a]);
                                assert(has_key(old_entries, ne[a].0@));
                            } else {
                                assert(old_entries[a] == ne[a] && old_entries[b] == ne[b]);
                            }
                        }
                    }
                    lemma_key_index_unique(ne, n);
                    assert forall|kk: K::V| #[trigger] assoc_map(ne).contains_key(kk)
                        == old(self).map().insert(k@, v).contains_key(kk) by {
                        if has_key(old_entries, kk) {
                            let j = key_index(old_entries, kk);
                            assert(ne[j].0@ == kk);
                        }
                        if has_key(ne, kk) && kk != k@ {
                            let j = key_index(ne, kk);
                            assert(j < n);
                            assert(old_entries[j].0@ == kk);
                        }
                    }
                    assert forall|kk: K::V| #[trigger] assoc_map(ne).contains_key(kk)
                        implies assoc_map(ne)[kk] == old(self).map().insert(k@, v)[kk] by {
                        let j = key_index(ne, kk);
                        lemma_key_index_unique(ne, j);
                        if kk != k@ {
                            assert(j < n);
                            assert(old_entries[j] == ne[j]);
                            lemma_key_index_unique(old_entries, j);
                        }
                    }
                    assert(assoc_map(ne) =~= old(self).map().insert(k@, v));
                }
                None
            },
        }
    }

    pub fn remove(&mut self, k: &K) -> (r: Option<V>)
        requires
            old(self).wf(),
        ensures
            final(self).wf(),
            final(self).map() == old(self).map().remove(k@),
            match r {
                Some(o) => old(self).map().contains_key(k@) && o == old(self).map()[k@],
                None => !old(self).map().contains_key(k@),
            },
    {
        let ghost old_entries = self.entries@;
        match self.find(k) {
            Some(i) => {
                proof {
                    lemma_key_index_unique(old_entries, i as int);
                }
                let (_stored, old_v) = self.entries.remove(i);
                proof {
                    let ne = self.entries@;
                    let ii = i as int;
                    assert forall|a: int| 0 <= a < ne.len() implies
                        #[trigger] ne[a] == old_entries[if a < ii { a } else { a + 1 }] by {}
                    assert(distinct_keys(ne)) by {
                        assert forall|a: int, b: int|
                            0 <= a < ne.len() && 0 <= b < ne.len() && a != b implies
                            (#[trigger] ne[a]).0@ != (#[trigger] ne[b]).0@ by {
                            let a2 = if a < ii { a } else { a + 1 };
                            let b2 = if b < ii { b } else { b + 1 };
                            assert(ne[a] == old_entries[a2]);
                            assert(ne[b] == old_entries[b2]);
                        }
                    }
                    assert forall|kk: K::V| #[trigger] assoc_map(ne).contains_key(kk)
                        == old(self).map().remove(k@).contains_key(kk) by {
                        if has_key(old_entries, kk) && kk != k@ {
                            let j = key_index(old_entries, kk);
                            assert(j != ii);
                            let j2 = if j < ii { j } else { j - 1 };
                            assert(ne[j2] == old_entries[j]);
                        }
                        if has_key(ne, kk) {
                            let j = key_index(ne, kk);
                            let j2 = if j < ii { j } else { j + 1 };
                            assert(ne[j] == old_entries[j2]);
                            assert(j2 != ii);
                        }
                    }
                    assert forall|kk: K::V| #[trigger] assoc_map(ne).contains_key(kk)
                        implies assoc_map(ne)[kk] == old(self).map().remove(k@)[kk] by {
                        let j = key_index(ne, kk);
                        lemma_key_index_unique(ne, j);
                        let j2 = if j < ii { j } else { j + 1 };
                        assert(ne[j] == old_entries[j2]);
                        lemma_key_index_unique(old_entries, j2);
                    }
                    assert(assoc_map(ne) =~= old(self).map().remove(k@));
                }
                Some(old_v)
            },
            None => {
                assert(old(self).map().remove(k@) =~= old(self).map());
                None
            },
        }
    }
}

} // verus!
