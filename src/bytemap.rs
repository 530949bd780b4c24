use vstd::prelude::*;

use crate::bytes::bytes_eq;

verus! {

/// A finite map keyed by byte strings, kept as a vector of entries with
/// pairwise distinct keys.
#[derive(Debug)]
pub struct ByteMap<V> {
    entries: Vec<(Vec<u8>, V)>,
}

impl<V> ByteMap<V> {
    /// Every key occurs in one entry at most.
    pub closed spec fn wf(&self) -> bool {
        forall|i: int, j: int|
            0 <= i < j < self.entries@.len() ==> #[trigger] self.entries@[i].0@
                != #[trigger] self.entries@[j].0@
    }

    pub closed spec fn has(&self, k: Seq<u8>) -> bool {
        exists|i: int| 0 <= i < self.entries@.len() && #[trigger] self.entries@[i].0@ == k
    }

    pub closed spec fn index_of(&self, k: Seq<u8>) -> int {
        choose|i: int| 0 <= i < self.entries@.len() && #[trigger] self.entries@[i].0@ == k
    }

    /// The mapping from keys to values.
    pub closed spec fn view(&self) -> Map<Seq<u8>, V> {
        Map::new(|k: Seq<u8>| self.has(k), |k: Seq<u8>| self.entries@[self.index_of(k)].1)
    }

    /// The key of the entry at `i`.
    pub closed spec fn key_at_spec(&self, i: int) -> Seq<u8> {
        self.entries@[i].0@
    }

    pub closed spec fn len_spec(&self) -> nat {
        self.entries@.len()
    }

    proof fn lemma_index(&self, i: int)
        requires
            self.wf(),
            0 <= i < self.entries@.len(),
        ensures
            self.view().contains_key(self.entries@[i].0@),
            self.view()[self.entries@[i].0@] == self.entries@[i].1,
    {
        let k = self.entries@[i].0@;
        assert(self.has(k));
        let j = self.index_of(k);
        if i != j {
            if i < j {
                assert(self.entries@[i].0@ != self.entries@[j].0@);
            } else {
                assert(self.entries@[j].0@ != self.entries@[i].0@);
            }
        }
    }

    /// The keys are the keys of the entries, and there are as many entries as keys.
    pub proof fn lemma_keys(&self)
        requires
            self.wf(),
        ensures
            forall|i: int|
                0 <= i < self.len_spec() ==> #[trigger] self.view().contains_key(
                    self.key_at_spec(i),
                ),
            forall|k: Seq<u8>|
                #[trigger] self.view().contains_key(k) ==> exists|i: int|
                    0 <= i < self.len_spec() && self.key_at_spec(i) == k,
    {
        assert forall|i: int| 0 <= i < self.len_spec() implies #[trigger] self.view().contains_key(
            self.key_at_spec(i),
        ) by {
            self.lemma_index(i);
        }
        assert forall|k: Seq<u8>| #[trigger] self.view().contains_key(k) implies exists|i: int|
            0 <= i < self.len_spec() && self.key_at_spec(i) == k by {
            let i = self.index_of(k);
            assert(self.key_at_spec(i) == k);
        }
    }

    /// The part of the map held by the first `n` entries.
    pub open spec fn prefix_view(&self, n: int) -> Map<Seq<u8>, V> {
        Map::new(
            |k: Seq<u8>| exists|j: int| 0 <= j < n && #[trigger] self.key_at_spec(j) == k,
            |k: Seq<u8>| self@[k],
        )
    }

    /// The prefixes of the entries grow one key at a time up to the whole map.
    pub proof fn lemma_prefix_view(&self, n: int)
        requires
            self.wf(),
            0 <= n < self.len_spec(),
        ensures
            self.prefix_view(0) == Map::<Seq<u8>, V>::empty(),
            self.prefix_view(n + 1) == self.prefix_view(n).insert(
                self.key_at_spec(n),
                self@[self.key_at_spec(n)],
            ),
            self.prefix_view(self.len_spec() as int) == self@,
    {
        self.lemma_keys();
        assert(self.prefix_view(0) =~= Map::<Seq<u8>, V>::empty());
        assert(self.prefix_view(n + 1) =~= self.prefix_view(n).insert(
            self.key_at_spec(n),
            self@[self.key_at_spec(n)],
        ));
        assert(self.prefix_view(self.len_spec() as int) =~= self@);
    }

    pub proof fn lemma_empty_prefix(&self)
        ensures
            self.prefix_view(0) == Map::<Seq<u8>, V>::empty(),
    {
        assert(self.prefix_view(0) =~= Map::<Seq<u8>, V>::empty());
    }

    pub proof fn lemma_full_prefix(&self)
        requires
            self.wf(),
        ensures
            self.prefix_view(self.len_spec() as int) == self@,
    {
        self.lemma_keys();
        assert(self.prefix_view(self.len_spec() as int) =~= self@);
    }

    /// The keys of the entries are pairwise distinct.
    pub proof fn lemma_keys_distinct(&self)
        requires
            self.wf(),
        ensures
            forall|i: int, j: int| 0 <= i < j < self.len_spec() ==> #[trigger] self.key_at_spec(i) != #[trigger] self.key_at_spec(j),
    {
    }

    pub fn new() -> (r: Self)
        ensures
            r.wf(),
            r@ == Map::<Seq<u8>, V>::empty(),
    {
        let r = ByteMap { entries: Vec::new() };
        assert(r@ =~= Map::<Seq<u8>, V>::empty());
        r
    }

    /// The number of keys.
    pub fn len(&self) -> (r: usize)
        requires
            self.wf(),
        ensures
            r == self.len_spec(),
            r == self@.dom().len(),
    {
        proof { self.lemma_dom_len(); }
        self.entries.len()
    }

    proof fn lemma_dom_len(&self)
        requires
            self.wf(),
        ensures
            self@.dom().len() == self.len_spec(),
            self@.dom().finite(),
    {
        let n = self.entries@.len();
        lemma_prefix_dom(self.entries@, n);
        assert forall|k: Seq<u8>| #[trigger] self@.dom().contains(k) == seq_keys(self.entries@, n).contains(k) by {
            if seq_keys(self.entries@, n).contains(k) {
                let i = choose|i: int| 0 <= i < n && #[trigger] self.entries@[i].0@ == k;
                assert(self.has(k));
            }
        }
        assert(self@.dom() =~= seq_keys(self.entries@, n));
    }

    /// Finds the entry holding `k`.
    fn find(&self, k: &[u8]) -> (r: Option<usize>)
        requires
            self.wf(),
        ensures
            match r {
                Some(i) => i < self.entries@.len() && self.entries@[i as int].0@ == k@,
                None => !self@.contains_key(k@),
            },
    {
        let mut i: usize = 0;
        while i < self.entries.len()
            invariant
                i <= self.entries@.len(),
                forall|j: int| 0 <= j < i ==> self.entries@[j].0@ != k@,
            decreases self.entries@.len() - i,
        {
            if bytes_eq(self.entries[i].0.as_slice(), k) {
                return Some(i);
            }
            i = i + 1;
        }
        None
    }

    /// The value stored under `k`.
    pub fn get(&self, k: &[u8]) -> (r: Option<&V>)
        requires
            self.wf(),
        ensures
            match r {
                Some(v) => self@.contains_key(k@) && self@[k@] == *v,
                None => !self@.contains_key(k@),
            },
    {
        match self.find(k) {
            Some(i) => {
                proof { self.lemma_index(i as int); }
                Some(&self.entries[i].1)
            },
            None => None,
        }
    }

    /// The key of the `i`-th entry.
    pub fn key_at(&self, i: usize) -> (r: &Vec<u8>)
        requires
            self.wf(),
            i < self.len_spec(),
        ensures
            r@ == self.key_at_spec(i as int),
            self@.contains_key(r@),
    {
        proof { self.lemma_index(i as int); }
        &self.entries[i].0
    }

    /// The value of the `i`-th entry.
    pub fn value_at(&self, i: usize) -> (r: &V)
        requires
            self.wf(),
            i < self.len_spec(),
        ensures
            self@.contains_key(self.key_at_spec(i as int)),
            *r == self@[self.key_at_spec(i as int)],
    {
        proof { self.lemma_index(i as int); }
        &self.entries[i].1
    }

    /// Stores `v` under `k`, replacing what was there.
    pub fn insert(&mut self, k: Vec<u8>, v: V)
        requires
            old(self).wf(),
        ensures
            final(self).wf(),
            final(self)@ == old(self)@.insert(k@, v),
    {
        let ghost old_map = self@;
        let ghost kv = k@;
        match self.find(k.as_slice()) {
            Some(i) => {
                self.entries.set(i, (k, v));
                proof {
                    assert(self.wf()) by {
                        assert forall|a: int, b: int|
                            0 <= a < b < self.entries@.len() implies #[trigger] self.entries@[a].0@
                            != #[trigger] self.entries@[b].0@ by {
                            if a != i && b != i {
                                assert(old(self).entries@[a].0@ != old(self).entries@[b].0@);
                            } else if a == i {
                                assert(old(self).entries@[a].0@ != old(self).entries@[b].0@);
                            } else {
                                assert(old(self).entries@[a].0@ != old(self).entries@[b].0@);
                            }
                        }
                    }
                    assert forall|key: Seq<u8>| #[trigger] self@.contains_key(key) == old_map.insert(kv, v).contains_key(key)
                        && (self@.contains_key(key) ==> self@[key] == old_map.insert(kv, v)[key]) by {
                        if key == kv {
                            self.lemma_index(i as int);
                        } else {
                            if old_map.contains_key(key) {
                                let j = old(self).index_of(key);
                                old(self).lemma_index(j);
                                self.lemma_index(j);
                            }
                            if self@.contains_key(key) {
                                let j = self.index_of(key);
                                self.lemma_index(j);
                                old(self).lemma_index(j);
                            }
                        }
                    }
                    assert(self@ =~= old_map.insert(kv, v));
                }
            },
            None => {
                self.entries.push((k, v));
                proof {
                    let n = self.entries@.len() - 1;
                    assert(self.wf()) by {
                        assert forall|a: int, b: int|
                            0 <= a < b < self.entries@.len() implies #[trigger] self.entries@[a].0@
                            != #[trigger] self.entries@[b].0@ by {
                            if b == n {
                                if old(self).entries@[a].0@ == kv {
                                    old(self).lemma_index(a);
                                }
                            } else {
                                assert(old(self).entries@[a].0@ != old(self).entries@[b].0@);
                            }
                        }
                    }
                    assert forall|key: Seq<u8>| #[trigger] self@.contains_key(key) == old_map.insert(kv, v).contains_key(key)
                        && (self@.contains_key(key) ==> self@[key] == old_map.insert(kv, v)[key]) by {
                        if key == kv {
                            self.lemma_index(n);
                        } else {
                            if old_map.contains_key(key) {
                                let j = old(self).index_of(key);
                                old(self).lemma_index(j);
                                self.lemma_index(j);
                            }
                            if self@.contains_key(key) {
                                let j = self.index_of(key);
                                self.lemma_index(j);
                                old(self).lemma_index(j);
                            }
                        }
                    }
                    assert(self@ =~= old_map.insert(kv, v));
                }
            },
        }
    }

    /// Takes the value stored under `k` out of the map.
    pub fn remove(&mut self, k: &[u8]) -> (r: Option<V>)
        requires
            old(self).wf(),
        ensures
            final(self).wf(),
            final(self)@ == old(self)@.remove(k@),
            match r {
                Some(v) => old(self)@.contains_key(k@) && old(self)@[k@] == v,
                None => !old(self)@.contains_key(k@),
            },
    {
        let ghost old_map = self@;
        match self.find(k) {
            Some(i) => {
                proof { self.lemma_index(i as int); }
                let (_, v) = self.entries.remove(i);
                proof {
                    assert(self.wf()) by {
                        assert forall|a: int, b: int|
                            0 <= a < b < self.entries@.len() implies #[trigger] self.entries@[a].0@
                            != #[trigger] self.entries@[b].0@ by {
                            let oa = if a < i { a } else { a + 1 };
                            let ob = if b < i { b } else { b + 1 };
                            assert(self.entries@[a] == old(self).entries@[oa]);
                            assert(self.entries@[b] == old(self).entries@[ob]);
                            assert(old(self).entries@[oa].0@ != old(self).entries@[ob].0@);
                        }
                    }
                    assert forall|key: Seq<u8>| #[trigger] self@.contains_key(key) == old_map.remove(k@).contains_key(key)
                        && (self@.contains_key(key) ==> self@[key] == old_map.remove(k@)[key]) by {
                        if old_map.contains_key(key) && key != k@ {
                            let j = old(self).index_of(key);
                            old(self).lemma_index(j);
                            assert(j != i);
                            let nj = if j < i { j } else { j - 1 };
                            assert(self.entries@[nj] == old(self).entries@[j]);
                            self.lemma_index(nj);
                        }
                        if self@.contains_key(key) {
                            let j = self.index_of(key);
                            self.lemma_index(j);
                            let oj = if j < i { j } else { j + 1 };
                            assert(self.entries@[j] == old(self).entries@[oj]);
                            old(self).lemma_index(oj);
                            assert(oj != i as int);
                            if key == k@ {
                                assert(old(self).entries@[oj].0@ == old(self).entries@[i as int].0@);
                                if oj < i { assert(old(self).entries@[oj].0@ != old(self).entries@[i as int].0@); }
                                else { assert(old(self).entries@[i as int].0@ != old(self).entries@[oj].0@); }
                            }
                        }
                    }
                    assert(self@ =~= old_map.remove(k@));
                }
                Some(v)
            },
            None => {
                assert(self@ =~= old_map.remove(k@));
                None
            },
        }
    }
}

/// The keys of the first `n` entries.
pub closed spec fn seq_keys<V>(s: Seq<(Vec<u8>, V)>, n: nat) -> Set<Seq<u8>> {
    Set::new(|k: Seq<u8>| exists|i: int| 0 <= i < n && #[trigger] s[i].0@ == k)
}

proof fn lemma_prefix_dom<V>(s: Seq<(Vec<u8>, V)>, n: nat)
    requires
        n <= s.len(),
        forall|i: int, j: int| 0 <= i < j < s.len() ==> #[trigger] s[i].0@ != #[trigger] s[j].0@,
    ensures
        seq_keys(s, n).finite(),
        seq_keys(s, n).len() == n,
    decreases n,
{
    if n == 0 {
        assert(seq_keys(s, n) =~= Set::<Seq<u8>>::empty());
    } else {
        lemma_prefix_dom(s, (n - 1) as nat);
        let k = s[n - 1].0@;
        assert(!seq_keys(s, (n - 1) as nat).contains(k)) by {
            if seq_keys(s, (n - 1) as nat).contains(k) {
                let i = choose|i: int| 0 <= i < n - 1 && #[trigger] s[i].0@ == k;
                assert(s[i].0@ != s[n - 1].0@);
            }
        }
        assert(seq_keys(s, n) =~= seq_keys(s, (n - 1) as nat).insert(k));
    }
}

/// Reading a key back after setting it gives the value set last, and
/// nothing once it was removed.
pub proof fn lemma_set_get_remove<V>(m: Map<Seq<u8>, V>, k: Seq<u8>, v1: V, v2: V)
    ensures
        m.insert(k, v1).contains_key(k) && m.insert(k, v1)[k] == v1,
        m.insert(k, v1).insert(k, v2)[k] == v2,
        !m.insert(k, v1).remove(k).contains_key(k),
{
}

} // verus!
