use vstd::prelude::*;

use crate::bytes::{bytes_eq, bytes_to_vec};
use crate::hash::sha2_256_of;

verus! {

/// The multicodec code of raw bytes.
pub const RAW_CODEC: u8 = 0x55;

/// The multicodec code of DAG-CBOR.
pub const DAG_CBOR_CODEC: u8 = 0x71;

/// The multihash code of SHA2-256.
pub const SHA2_256_CODE: u8 = 0x12;

/// The encoding of a block's content.
#[derive(Debug, Clone, Copy, PartialEq, Eq, Structural)]
pub enum Codec {
    Raw,
    DagCbor,
}

impl Codec {
    pub open spec fn code_spec(self) -> u8 {
        match self {
            Codec::Raw => RAW_CODEC,
            Codec::DagCbor => DAG_CBOR_CODEC,
        }
    }

    pub fn code(self) -> (r: u8)
        ensures
            r == self.code_spec(),
    {
        match self {
            Codec::Raw => RAW_CODEC,
            Codec::DagCbor => DAG_CBOR_CODEC,
        }
    }
}

/// The identifier of a block: a version 1 CID whose multihash is the
/// SHA2-256 digest of the block.
pub open spec fn cid_of(codec: Codec, data: Seq<u8>) -> Seq<u8> {
    seq![1u8, codec.code_spec(), SHA2_256_CODE, 32u8] + sha2_256_of(data)
}

/// A content identifier, held as its binary form.
#[derive(Debug, Clone)]
pub struct Cid {
    bytes: Vec<u8>,
}

impl View for Cid {
    type V = Seq<u8>;

    closed spec fn view(&self) -> Seq<u8> {
        self.bytes@
    }
}

impl Cid {
    /// A CID from its binary form.
    pub fn from_bytes(bytes: Vec<u8>) -> (r: Cid)
        ensures
            r@ == bytes@,
    {
        Cid { bytes }
    }

    /// The binary form.
    pub fn as_bytes(&self) -> (r: &[u8])
        ensures
            r@ == self@,
    {
        self.bytes.as_slice()
    }

    /// A copy of this CID.
    pub fn duplicate(&self) -> (r: Cid)
        ensures
            r@ == self@,
    {
        Cid { bytes: bytes_to_vec(self.bytes.as_slice()) }
    }

    /// Byte equality.
    pub fn same_as(&self, other: &Cid) -> (r: bool)
        ensures
            r == (self@ == other@),
    {
        bytes_eq(self.bytes.as_slice(), other.bytes.as_slice())
    }
}

impl PartialEq for Cid {
    fn eq(&self, other: &Cid) -> (r: bool) {
        bytes_eq(self.bytes.as_slice(), other.bytes.as_slice())
    }
}

impl vstd::std_specs::cmp::PartialEqSpecImpl for Cid {
    open spec fn obeys_eq_spec() -> bool {
        true
    }

    open spec fn eq_spec(&self, other: &Cid) -> bool {
        self@ == other@
    }
}

impl Eq for Cid {
}

/// The identifiers that a list of CIDs holds.
pub open spec fn cid_set(s: Seq<Cid>) -> Set<Seq<u8>> {
    Set::new(|c: Seq<u8>| exists|i: int| 0 <= i < s.len() && #[trigger] s[i]@ == c)
}

/// No identifier occurs twice.
pub open spec fn cids_distinct(s: Seq<Cid>) -> bool {
    forall|i: int, j: int| 0 <= i < j < s.len() ==> #[trigger] s[i]@ != #[trigger] s[j]@
}

pub proof fn lemma_cid_set_push(s: Seq<Cid>, c: Cid)
    ensures
        cid_set(s.push(c)) == cid_set(s).insert(c@),
{
    assert forall|x: Seq<u8>| #[trigger] cid_set(s.push(c)).contains(x) == cid_set(s).insert(c@).contains(x) by {
        if cid_set(s).contains(x) {
            let i = choose|i: int| 0 <= i < s.len() && #[trigger] s[i]@ == x;
            assert(s.push(c)[i]@ == x);
        }
        if x == c@ {
            assert(s.push(c)[s.len() as int]@ == x);
        }
        if cid_set(s.push(c)).contains(x) {
            let i = choose|i: int| 0 <= i < s.len() + 1 && #[trigger] s.push(c)[i]@ == x;
            if i < s.len() {
                assert(s[i]@ == x);
            }
        }
    }
    assert(cid_set(s.push(c)) =~= cid_set(s).insert(c@));
}

/// Whether `c` is among `s`.
pub fn contains_cid(s: &[Cid], c: &Cid) -> (r: bool)
    ensures
        r == cid_set(s@).contains(c@),
{
    let mut i: usize = 0;
    while i < s.len()
        invariant
            i <= s@.len(),
            forall|k: int| 0 <= k < i ==> s@[k]@ != c@,
        decreases s@.len() - i,
    {
        if s[i].same_as(c) {
            assert(s@[i as int]@ == c@);
            return true;
        }
        i = i + 1;
    }
    false
}

/// A copy of a list of CIDs.
pub fn copy_cids(s: &[Cid]) -> (r: Vec<Cid>)
    ensures
        r@.len() == s@.len(),
        forall|i: int| 0 <= i < s@.len() ==> #[trigger] r@[i]@ == s@[i]@,
        cid_set(r@) == cid_set(s@),
        cids_distinct(s@) ==> cids_distinct(r@),
{
    let mut r: Vec<Cid> = Vec::new();
    let mut i: usize = 0;
    while i < s.len()
        invariant
            i <= s@.len(),
            r@.len() == i,
            forall|k: int| 0 <= k < i ==> #[trigger] r@[k]@ == s@[k]@,
        decreases s@.len() - i,
    {
        r.push(s[i].duplicate());
        i = i + 1;
    }
    assert(cid_set(r@) =~= cid_set(s@)) by {
        assert forall|x: Seq<u8>| cid_set(r@).contains(x) implies cid_set(s@).contains(x) by {
            let k = choose|k: int| 0 <= k < r@.len() && #[trigger] r@[k]@ == x;
            assert(s@[k]@ == x);
        }
        assert forall|x: Seq<u8>| cid_set(s@).contains(x) implies cid_set(r@).contains(x) by {
            let k = choose|k: int| 0 <= k < s@.len() && #[trigger] s@[k]@ == x;
            assert(r@[k]@ == x);
        }
    }
    r
}

/// Adds to `acc` each CID of `extra` that it does not hold yet.
pub fn union_into(acc: &mut Vec<Cid>, extra: &[Cid])
    requires
        cids_distinct(old(acc)@),
    ensures
        cids_distinct(final(acc)@),
        cid_set(final(acc)@) == cid_set(old(acc)@).union(cid_set(extra@)),
{
    let ghost start = cid_set(acc@);
    let mut i: usize = 0;
    while i < extra.len()
        invariant
            i <= extra@.len(),
            cids_distinct(acc@),
            cid_set(acc@) == start.union(cid_set(extra@.subrange(0, i as int))),
        decreases extra@.len() - i,
    {
        let ghost before = acc@;
        proof {
            lemma_cid_set_push(extra@.subrange(0, i as int), extra@[i as int]);
            assert(extra@.subrange(0, i + 1) =~= extra@.subrange(0, i as int).push(extra@[i as int]));
        }
        if !contains_cid(acc.as_slice(), &extra[i]) {
            acc.push(extra[i].duplicate());
            proof {
                lemma_cid_set_push(before, acc@[before.len() as int]);
                assert(acc@ =~= before.push(acc@[before.len() as int]));
                assert forall|a: int, b: int| 0 <= a < b < acc@.len() implies #[trigger] acc@[a]@ != #[trigger] acc@[b]@ by {
                    if b == before.len() {
                        assert(before[a]@ != extra@[i as int]@) by {
                            if before[a]@ == extra@[i as int]@ {
                                assert(cid_set(before).contains(extra@[i as int]@));
                            }
                        }
                    } else {
                        assert(before[a]@ != before[b]@);
                    }
                }
            }
        }
        i = i + 1;
        proof {
            assert(cid_set(acc@) =~= start.union(cid_set(extra@.subrange(0, i as int))));
        }
    }
    assert(extra@.subrange(0, extra@.len() as int) =~= extra@);
}

} // verus!
