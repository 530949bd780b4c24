use vstd::prelude::*;

use crate::bytemap::ByteMap;
use crate::bytes::{bytes_lt, bytes_to_vec, lemma_lex_irreflexive, lemma_lex_transitive, lex_lt};
use crate::cid::{cid_set, cids_distinct, contains_cid, copy_cids, union_into, Cid};
use crate::hash::{sha3_256, sha3_256_of};

verus! {

/// The identifiers stored at `k`, or none.
pub open spec fn set_at(m: Map<Seq<u8>, Set<Seq<u8>>>, k: Seq<u8>) -> Set<Seq<u8>> {
    if m.contains_key(k) {
        m[k]
    } else {
        Set::empty()
    }
}

/// Two forests merged: every label of either, with the union of their sets.
pub open spec fn merge_maps(
    a: Map<Seq<u8>, Set<Seq<u8>>>,
    b: Map<Seq<u8>, Set<Seq<u8>>>,
) -> Map<Seq<u8>, Set<Seq<u8>>> {
    Map::new(
        |k: Seq<u8>| a.contains_key(k) || b.contains_key(k),
        |k: Seq<u8>| set_at(a, k).union(set_at(b, k)),
    )
}

/// The index of encrypted blocks: a map from the hash of a label to the set of
/// identifiers of the blocks deposited under it.
pub struct PrivateForest {
    map: ByteMap<Vec<Cid>>,
}

impl PrivateForest {
    pub closed spec fn wf(&self) -> bool {
        &&& self.map.wf()
        &&& forall|k: Seq<u8>| #[trigger] self.map@.contains_key(k) ==> cids_distinct(self.map@[k]@)
    }

    /// Label hashes to sets of block identifiers.
    pub closed spec fn view(&self) -> Map<Seq<u8>, Set<Seq<u8>>> {
        Map::new(|k: Seq<u8>| self.map@.contains_key(k), |k: Seq<u8>| cid_set(self.map@[k]@))
    }

    /// An empty forest.
    pub fn new() -> (r: Self)
        ensures
            r.wf(),
            r@ == Map::<Seq<u8>, Set<Seq<u8>>>::empty(),
    {
        let r = PrivateForest { map: ByteMap::new() };
        assert(r@ =~= Map::<Seq<u8>, Set<Seq<u8>>>::empty());
        r
    }

    /// Adds `cids` to the set stored under the label hash `label_hash`.
    pub fn put_encrypted_by_hash(&mut self, label_hash: &[u8], cids: &[Cid])
        requires
            old(self).wf(),
        ensures
            final(self).wf(),
            final(self)@ == old(self)@.insert(
                label_hash@,
                set_at(old(self)@, label_hash@).union(cid_set(cids@)),
            ),
    {
        let mut acc: Vec<Cid> = match self.map.get(label_hash) {
            Some(existing) => copy_cids(existing.as_slice()),
            None => Vec::new(),
        };
        assert(cid_set(acc@) == set_at(old(self)@, label_hash@)) by {
            if !self.map@.contains_key(label_hash@) {
                assert(cid_set(acc@) =~= Set::<Seq<u8>>::empty());
            }
        }
        union_into(&mut acc, cids);
        let key = bytes_to_vec(label_hash);
        self.map.insert(key, acc);
        assert(self@ =~= old(self)@.insert(
            label_hash@,
            set_at(old(self)@, label_hash@).union(cid_set(cids@)),
        ));
    }

    /// Adds `cids` to the set stored under the SHA3-256 hash of `label`.
    pub fn put_encrypted(&mut self, label: &[u8], cids: &[Cid])
        requires
            old(self).wf(),
        ensures
            final(self).wf(),
            final(self)@ == old(self)@.insert(
                sha3_256_of(label@),
                set_at(old(self)@, sha3_256_of(label@)).union(cid_set(cids@)),
            ),
    {
        let label_hash = sha3_256(label);
        self.put_encrypted_by_hash(label_hash.as_slice(), cids);
    }

    /// The identifiers stored under a label hash.
    pub fn get_encrypted(&self, label_hash: &[u8]) -> (r: Option<&Vec<Cid>>)
        requires
            self.wf(),
        ensures
            match r {
                Some(v) => self@.contains_key(label_hash@) && cid_set(v@) == self@[label_hash@]
                    && cids_distinct(v@),
                None => !self@.contains_key(label_hash@),
            },
    {
        self.map.get(label_hash)
    }

    /// Whether anything is stored under a label hash.
    pub fn has(&self, label_hash: &[u8]) -> (r: bool)
        requires
            self.wf(),
        ensures
            r == self@.contains_key(label_hash@),
    {
        self.map.get(label_hash).is_some()
    }

    /// Takes the set stored under a label hash out of the forest.
    pub fn remove_encrypted(&mut self, label_hash: &[u8]) -> (r: Option<Vec<Cid>>)
        requires
            old(self).wf(),
        ensures
            final(self).wf(),
            final(self)@ == old(self)@.remove(label_hash@),
            match r {
                Some(v) => old(self)@.contains_key(label_hash@) && cid_set(v@) == old(self)@[label_hash@],
                None => !old(self)@.contains_key(label_hash@),
            },
    {
        let r = self.map.remove(label_hash);
        assert(self@ =~= old(self)@.remove(label_hash@));
        r
    }

    /// Adds every set of `other` into this forest.
    fn absorb(&mut self, other: &PrivateForest)
        requires
            old(self).wf(),
            other.wf(),
        ensures
            final(self).wf(),
            final(self)@ == merge_maps(old(self)@, other@),
    {
        let ghost base = self@;
        let n = other.map.len();
        let mut i: usize = 0;
        proof {
            other.map.lemma_empty_prefix();
            assert forall|k: Seq<u8>| #[trigger] base.contains_key(k) implies set_at(base, k).union(Set::<Seq<u8>>::empty()) == base[k] by {
                assert(base[k].union(Set::<Seq<u8>>::empty()) =~= base[k]);
            }
            assert(merge_maps(base, Map::new(|k: Seq<u8>| other.map.prefix_view(0).contains_key(k), |k: Seq<u8>| cid_set(other.map@[k]@))) =~= base);
        }
        while i < n
            invariant
                i <= n == other.map.len_spec(),
                other.wf(),
                self.wf(),
                self@ == merge_maps(
                    base,
                    Map::new(
                        |k: Seq<u8>| other.map.prefix_view(i as int).contains_key(k),
                        |k: Seq<u8>| cid_set(other.map@[k]@),
                    ),
                ),
            decreases n - i,
        {
            let key = other.map.key_at(i);
            let cids = other.map.value_at(i);
            let ghost before = self@;
            self.put_encrypted_by_hash(key.as_slice(), cids.as_slice());
            proof {
                other.map.lemma_prefix_view(i as int);
                let prefix_before = Map::new(
                    |k: Seq<u8>| other.map.prefix_view(i as int).contains_key(k),
                    |k: Seq<u8>| cid_set(other.map@[k]@),
                );
                let prefix_after = Map::new(
                    |k: Seq<u8>| other.map.prefix_view(i + 1).contains_key(k),
                    |k: Seq<u8>| cid_set(other.map@[k]@),
                );
                assert(self@ =~= merge_maps(base, prefix_after)) by {
                    assert forall|k: Seq<u8>| #[trigger] self@.contains_key(k) == merge_maps(base, prefix_after).contains_key(k) by {}
                    assert forall|k: Seq<u8>| self@.contains_key(k) implies #[trigger] self@[k] == merge_maps(base, prefix_after)[k] by {
                        if k == key@ {
                            assert(set_at(before, k) == set_at(base, k).union(set_at(prefix_before, k)));
                            assert(set_at(prefix_after, k) == set_at(prefix_before, k).union(cid_set(cids@)));
                            assert(set_at(base, k).union(set_at(prefix_before, k)).union(cid_set(cids@)) =~= set_at(base, k).union(set_at(prefix_before, k).union(cid_set(cids@))));
                        } else {
                            assert(set_at(prefix_after, k) == set_at(prefix_before, k));
                        }
                    }
                }
            }
            i = i + 1;
        }
        proof {
            other.map.lemma_full_prefix();
            let p = Map::new(
                |k: Seq<u8>| other.map.prefix_view(n as int).contains_key(k),
                |k: Seq<u8>| cid_set(other.map@[k]@),
            );
            assert(p =~= other@);
        }
    }

    /// A copy of this forest.
    pub fn duplicate(&self) -> (r: PrivateForest)
        requires
            self.wf(),
        ensures
            r.wf(),
            r@ == self@,
    {
        let mut r = PrivateForest::new();
        r.absorb(self);
        assert(merge_maps(Map::<Seq<u8>, Set<Seq<u8>>>::empty(), self@) =~= self@) by {
            assert forall|k: Seq<u8>| #[trigger] self@.contains_key(k) implies merge_maps(Map::<Seq<u8>, Set<Seq<u8>>>::empty(), self@)[k] == self@[k] by {
                assert(Set::<Seq<u8>>::empty().union(self@[k]) =~= self@[k]);
            }
        }
        r
    }

    /// The forest holding every label of both, with the union of their sets.
    pub fn merge(&self, other: &PrivateForest) -> (r: PrivateForest)
        requires
            self.wf(),
            other.wf(),
        ensures
            r.wf(),
            r@ == merge_maps(self@, other@),
    {
        let mut r = self.duplicate();
        r.absorb(other);
        r
    }

    /// The lowest identifier of a set, in byte order.
    pub fn resolve_lowest(set: &[Cid]) -> (r: Option<&Cid>)
        ensures
            match r {
                Some(c) => cid_set(set@).contains(c@) && forall|x: Seq<u8>|
                    #[trigger] cid_set(set@).contains(x) ==> !lex_lt(x, c@),
                None => set@.len() == 0,
            },
    {
        if set.len() == 0 {
            return None;
        }
        let mut best: usize = 0;
        let mut i: usize = 1;
        proof { lemma_lex_irreflexive(set@[0]@); }
        while i < set.len()
            invariant
                1 <= i <= set@.len(),
                best < i,
                forall|k: int| 0 <= k < i ==> !lex_lt(#[trigger] set@[k]@, set@[best as int]@),
            decreases set@.len() - i,
        {
            if bytes_lt(set[i].as_bytes(), set[best].as_bytes()) {
                proof {
                    assert forall|k: int| 0 <= k < i + 1 implies !lex_lt(#[trigger] set@[k]@, set@[i as int]@) by {
                        if k == i {
                            lemma_lex_irreflexive(set@[i as int]@);
                        } else if lex_lt(set@[k]@, set@[i as int]@) {
                            lemma_lex_transitive(set@[k]@, set@[i as int]@, set@[best as int]@);
                        }
                    }
                }
                best = i;
            }
            i = i + 1;
        }
        assert(cid_set(set@).contains(set@[best as int]@));
        Some(&set[best])
    }

    /// The one identifier of a set that holds exactly one.
    pub fn resolve_single(set: &[Cid]) -> (r: Option<&Cid>)
        requires
            cids_distinct(set@),
        ensures
            match r {
                Some(c) => cid_set(set@) == set![c@],
                None => forall|c: Seq<u8>| cid_set(set@) != set![c],
            },
    {
        if set.len() == 1 {
            assert(cid_set(set@) =~= set![set@[0]@]);
            Some(&set[0])
        } else {
            proof {
                assert forall|c: Seq<u8>| cid_set(set@) != set![c] by {
                    if set@.len() == 0 {
                        assert(!cid_set(set@).contains(c));
                        assert(set![c].contains(c));
                    } else {
                        assert(set@[0]@ != set@[1]@);
                        assert(cid_set(set@).contains(set@[0]@));
                        assert(cid_set(set@).contains(set@[1]@));
                    }
                }
            }
            None
        }
    }

    /// The first identifier of a set that is also one of `one_of`.
    pub fn resolve_one_of<'a>(set: &'a [Cid], one_of: &[Cid]) -> (r: Option<&'a Cid>)
        ensures
            match r {
                Some(c) => cid_set(set@).contains(c@) && cid_set(one_of@).contains(c@),
                None => cid_set(set@).intersect(cid_set(one_of@)) == Set::<Seq<u8>>::empty(),
            },
    {
        let mut i: usize = 0;
        while i < set.len()
            invariant
                i <= set@.len(),
                forall|k: int| 0 <= k < i ==> !cid_set(one_of@).contains(#[trigger] set@[k]@),
            decreases set@.len() - i,
        {
            if contains_cid(one_of, &set[i]) {
                assert(cid_set(set@).contains(set@[i as int]@));
                return Some(&set[i]);
            }
            i = i + 1;
        }
        assert(cid_set(set@).intersect(cid_set(one_of@)) =~= Set::<Seq<u8>>::empty());
        None
    }
}

/// Merging forests does not depend on their order.
pub proof fn lemma_merge_commutes(a: Map<Seq<u8>, Set<Seq<u8>>>, b: Map<Seq<u8>, Set<Seq<u8>>>)
    ensures
        merge_maps(a, b) == merge_maps(b, a),
{
    assert forall|k: Seq<u8>| #[trigger] merge_maps(a, b).contains_key(k) implies merge_maps(a, b)[k] == merge_maps(b, a)[k] by {
        assert(set_at(a, k).union(set_at(b, k)) =~= set_at(b, k).union(set_at(a, k)));
    }
    assert(merge_maps(a, b) =~= merge_maps(b, a));
}

/// Merging a forest with itself gives the same forest.
pub proof fn lemma_merge_idempotent(a: Map<Seq<u8>, Set<Seq<u8>>>)
    ensures
        merge_maps(a, a) == a,
{
    assert forall|k: Seq<u8>| #[trigger] a.contains_key(k) implies merge_maps(a, a)[k] == a[k] by {
        assert(a[k].union(a[k]) =~= a[k]);
    }
    assert(merge_maps(a, a) =~= a);
}

/// How a label differs between two forests.
#[derive(Debug, Clone, Copy, PartialEq, Eq, Structural)]
pub enum ChangeType {
    /// The label is only in the main forest.
    Add,
    /// The label is only in the other forest.
    Remove,
    /// The label is in both, with different sets.
    Modify,
}

/// One label that differs between two forests, with its sets: `value1` from
/// the main forest (from the other one for `Remove`), `value2` from the other
/// forest for `Modify`.
#[derive(Debug)]
pub struct KeyValueChange {
    pub kind: ChangeType,
    pub key: Vec<u8>,
    pub value1: Option<Vec<Cid>>,
    pub value2: Option<Vec<Cid>>,
}

pub open spec fn opt_set(v: Option<Vec<Cid>>) -> Option<Set<Seq<u8>>> {
    match v {
        Some(x) => Some(cid_set(x@)),
        None => None,
    }
}

/// The label `k` differs between the two forests.
pub open spec fn differs_at(main: Map<Seq<u8>, Set<Seq<u8>>>, other: Map<Seq<u8>, Set<Seq<u8>>>, k: Seq<u8>) -> bool {
    main.contains_key(k) != other.contains_key(k) || (main.contains_key(k) && other.contains_key(k) && main[k] != other[k])
}

/// The change record is right about its label.
pub open spec fn change_correct(c: KeyValueChange, main: Map<Seq<u8>, Set<Seq<u8>>>, other: Map<Seq<u8>, Set<Seq<u8>>>) -> bool {
    let k = c.key@;
    match c.kind {
        ChangeType::Add => main.contains_key(k) && !other.contains_key(k) && opt_set(c.value1) == Some(main[k])
            && c.value2 is None,
        ChangeType::Remove => !main.contains_key(k) && other.contains_key(k) && opt_set(c.value1) == Some(other[k])
            && c.value2 is None,
        ChangeType::Modify => main.contains_key(k) && other.contains_key(k) && main[k] != other[k]
            && opt_set(c.value1) == Some(main[k]) && opt_set(c.value2) == Some(other[k]),
    }
}

pub open spec fn has_change_for(changes: Seq<KeyValueChange>, k: Seq<u8>) -> bool {
    exists|t: int| 0 <= t < changes.len() && #[trigger] changes[t].key@ == k
}

proof fn lemma_has_change_push(changes: Seq<KeyValueChange>, c: KeyValueChange, k: Seq<u8>)
    requires
        has_change_for(changes, k) || c.key@ == k,
    ensures
        has_change_for(changes.push(c), k),
{
    if c.key@ == k {
        assert(changes.push(c)[changes.len() as int].key@ == k);
    } else {
        let t = choose|t: int| 0 <= t < changes.len() && #[trigger] changes[t].key@ == k;
        assert(changes.push(c)[t].key@ == k);
    }
}

/// Whether two lists of CIDs hold the same identifiers.
pub fn same_cid_set(a: &[Cid], b: &[Cid]) -> (r: bool)
    ensures
        r == (cid_set(a@) == cid_set(b@)),
{
    let mut i: usize = 0;
    while i < a.len()
        invariant
            i <= a@.len(),
            forall|t: int| 0 <= t < i ==> cid_set(b@).contains(#[trigger] a@[t]@),
        decreases a@.len() - i,
    {
        if !contains_cid(b, &a[i]) {
            assert(cid_set(a@).contains(a@[i as int]@));
            return false;
        }
        i = i + 1;
    }
    let mut j: usize = 0;
    while j < b.len()
        invariant
            j <= b@.len(),
            forall|t: int| 0 <= t < a@.len() ==> cid_set(b@).contains(#[trigger] a@[t]@),
            forall|t: int| 0 <= t < j ==> cid_set(a@).contains(#[trigger] b@[t]@),
        decreases b@.len() - j,
    {
        if !contains_cid(a, &b[j]) {
            assert(cid_set(b@).contains(b@[j as int]@));
            return false;
        }
        j = j + 1;
    }
    assert(cid_set(a@) =~= cid_set(b@)) by {
        assert forall|x: Seq<u8>| cid_set(a@).contains(x) implies cid_set(b@).contains(x) by {
            let t = choose|t: int| 0 <= t < a@.len() && #[trigger] a@[t]@ == x;
        }
        assert forall|x: Seq<u8>| cid_set(b@).contains(x) implies cid_set(a@).contains(x) by {
            let t = choose|t: int| 0 <= t < b@.len() && #[trigger] b@[t]@ == x;
        }
    }
    true
}

/// The labels on which two forests differ, each once, with their sets.
pub fn kv_diff(main: &PrivateForest, other: &PrivateForest) -> (r: Vec<KeyValueChange>)
    requires
        main.wf(),
        other.wf(),
    ensures
        forall|t: int| 0 <= t < r@.len() ==> change_correct(#[trigger] r@[t], main@, other@),
        forall|t: int, u: int| 0 <= t < u < r@.len() ==> #[trigger] r@[t].key@ != #[trigger] r@[u].key@,
        forall|k: Seq<u8>| #[trigger] differs_at(main@, other@, k) ==> has_change_for(r@, k),
{
    let mut res: Vec<KeyValueChange> = Vec::new();
    let n = main.map.len();
    let mut i: usize = 0;
    proof {
        main.map.lemma_keys_distinct();
        other.map.lemma_keys_distinct();
        main.map.lemma_keys();
        other.map.lemma_keys();
    }
    while i < n
        invariant
            main.wf(),
            other.wf(),
            n == main.map.len_spec(),
            i <= n,
            forall|a: int, b: int| 0 <= a < b < main.map.len_spec() ==> #[trigger] main.map.key_at_spec(a) != #[trigger] main.map.key_at_spec(b),
            forall|t: int| 0 <= t < res@.len() ==> change_correct(#[trigger] res@[t], main@, other@),
            forall|t: int| 0 <= t < res@.len() ==> exists|j: int| 0 <= j < i && main.map.key_at_spec(j) == (#[trigger] res@[t]).key@,
            forall|t: int, u: int| 0 <= t < u < res@.len() ==> #[trigger] res@[t].key@ != #[trigger] res@[u].key@,
            forall|j: int| 0 <= j < i && #[trigger] differs_at(main@, other@, main.map.key_at_spec(j)) ==> has_change_for(res@, main.map.key_at_spec(j)),
        decreases n - i,
    {
        let key = main.map.key_at(i);
        let value = main.map.value_at(i);
        let ghost k = key@;
        let ghost before = res@;
        let change = match other.get_encrypted(key.as_slice()) {
            None => Some(KeyValueChange { kind: ChangeType::Add, key: bytes_to_vec(key.as_slice()), value1: Some(copy_cids(value.as_slice())), value2: None }),
            Some(w) => {
                if same_cid_set(value.as_slice(), w.as_slice()) {
                    None
                } else {
                    Some(KeyValueChange {
                        kind: ChangeType::Modify,
                        key: bytes_to_vec(key.as_slice()),
                        value1: Some(copy_cids(value.as_slice())),
                        value2: Some(copy_cids(w.as_slice())),
                    })
                }
            },
        };
        match change {
            Some(c) => {
                let ghost cg = c;
                res.push(c);
                proof {
                    assert forall|t: int| 0 <= t < res@.len() implies exists|j: int| 0 <= j < i + 1 && main.map.key_at_spec(j) == (#[trigger] res@[t]).key@ by {
                        if t < before.len() {
                            assert(res@[t] == before[t]);
                            let j = choose|j: int| 0 <= j < i && main.map.key_at_spec(j) == before[t].key@;
                        } else {
                            assert(main.map.key_at_spec(i as int) == res@[t].key@);
                        }
                    }
                    assert forall|t: int, u: int| 0 <= t < u < res@.len() implies #[trigger] res@[t].key@ != #[trigger] res@[u].key@ by {
                        if u == before.len() {
                            let j = choose|j: int| 0 <= j < i && main.map.key_at_spec(j) == before[t].key@;
                            assert(res@[t] == before[t]);
                        } else {
                            assert(res@[t] == before[t] && res@[u] == before[u]);
                        }
                    }
                    assert forall|j: int| 0 <= j < i + 1 && #[trigger] differs_at(main@, other@, main.map.key_at_spec(j)) implies has_change_for(res@, main.map.key_at_spec(j)) by {
                        lemma_has_change_push(before, cg, main.map.key_at_spec(j));
                        assert(res@ == before.push(cg));
                    }
                    assert forall|t: int| 0 <= t < res@.len() implies change_correct(#[trigger] res@[t], main@, other@) by {
                        if t < before.len() {
                            assert(res@[t] == before[t]);
                        }
                    }
                }
            },
            None => {},
        }
        i = i + 1;
    }
    let m = other.map.len();
    let mut j: usize = 0;
    while j < m
        invariant
            main.wf(),
            other.wf(),
            m == other.map.len_spec(),
            j <= m,
            forall|a: int, b: int| 0 <= a < b < other.map.len_spec() ==> #[trigger] other.map.key_at_spec(a) != #[trigger] other.map.key_at_spec(b),
            forall|t: int| 0 <= t < res@.len() ==> change_correct(#[trigger] res@[t], main@, other@),
            forall|t: int| 0 <= t < res@.len() ==> main@.contains_key((#[trigger] res@[t]).key@) || exists|x: int| 0 <= x < j && other.map.key_at_spec(x) == res@[t].key@,
            forall|t: int, u: int| 0 <= t < u < res@.len() ==> #[trigger] res@[t].key@ != #[trigger] res@[u].key@,
            forall|x: int| 0 <= x < main.map.len_spec() && #[trigger] differs_at(main@, other@, main.map.key_at_spec(x)) ==> has_change_for(res@, main.map.key_at_spec(x)),
            forall|x: int| 0 <= x < j && #[trigger] differs_at(main@, other@, other.map.key_at_spec(x)) ==> has_change_for(res@, other.map.key_at_spec(x)),
        decreases m - j,
    {
        let key = other.map.key_at(j);
        let value = other.map.value_at(j);
        let ghost before = res@;
        if !main.has(key.as_slice()) {
            let c = KeyValueChange { kind: ChangeType::Remove, key: bytes_to_vec(key.as_slice()), value1: Some(copy_cids(value.as_slice())), value2: None };
            let ghost cg = c;
            res.push(c);
            proof {
                assert(res@ == before.push(cg));
                assert forall|t: int| 0 <= t < res@.len() implies main@.contains_key((#[trigger] res@[t]).key@) || exists|x: int| 0 <= x < j + 1 && other.map.key_at_spec(x) == res@[t].key@ by {
                    if t < before.len() {
                        assert(res@[t] == before[t]);
                    } else {
                        assert(other.map.key_at_spec(j as int) == res@[t].key@);
                    }
                }
                assert forall|t: int, u: int| 0 <= t < u < res@.len() implies #[trigger] res@[t].key@ != #[trigger] res@[u].key@ by {
                    if u == before.len() {
                        assert(res@[t] == before[t]);
                        if !main@.contains_key(before[t].key@) {
                            let x = choose|x: int| 0 <= x < j && other.map.key_at_spec(x) == before[t].key@;
                        }
                    } else {
                        assert(res@[t] == before[t] && res@[u] == before[u]);
                    }
                }
                assert forall|x: int| 0 <= x < main.map.len_spec() && #[trigger] differs_at(main@, other@, main.map.key_at_spec(x)) implies has_change_for(res@, main.map.key_at_spec(x)) by {
                    lemma_has_change_push(before, cg, main.map.key_at_spec(x));
                }
                assert forall|x: int| 0 <= x < j + 1 && #[trigger] differs_at(main@, other@, other.map.key_at_spec(x)) implies has_change_for(res@, other.map.key_at_spec(x)) by {
                    lemma_has_change_push(before, cg, other.map.key_at_spec(x));
                }
                assert forall|t: int| 0 <= t < res@.len() implies change_correct(#[trigger] res@[t], main@, other@) by {
                    if t < before.len() {
                        assert(res@[t] == before[t]);
                    }
                }
            }
        } else {
            proof {
                assert forall|x: int| 0 <= x < j + 1 && #[trigger] differs_at(main@, other@, other.map.key_at_spec(x)) implies has_change_for(res@, other.map.key_at_spec(x)) by {
                    if x == j {
                        main.map.lemma_keys();
                        let y = choose|y: int| 0 <= y < main.map.len_spec() && main.map.key_at_spec(y) == other.map.key_at_spec(x);
                        assert(differs_at(main@, other@, main.map.key_at_spec(y)));
                    }
                }
            }
        }
        j = j + 1;
    }
    proof {
        main.map.lemma_keys();
        other.map.lemma_keys();
        assert forall|k: Seq<u8>| #[trigger] differs_at(main@, other@, k) implies has_change_for(res@, k) by {
            if main.map@.contains_key(k) {
                let x = choose|x: int| 0 <= x < main.map.len_spec() && main.map.key_at_spec(x) == k;
                assert(differs_at(main@, other@, main.map.key_at_spec(x)));
            } else {
                assert(other.map@.contains_key(k));
                let x = choose|x: int| 0 <= x < other.map.len_spec() && other.map.key_at_spec(x) == k;
                assert(differs_at(main@, other@, other.map.key_at_spec(x)));
            }
        }
    }
    res
}

} // verus!
