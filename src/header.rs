use vstd::prelude::*;

use skip_ratchet::Ratchet;

use vstd::arithmetic::power::pow;

use crate::accumulator::{
    accumulate, is_first_prime_candidate, prime_candidate, AccumulatorSetup, Name, NameSegment,
    ACCUMULATOR_BYTES,
};
use crate::biguint::{le_value, probably_prime_of};
use crate::hash::{sha3_256, sha3_256_of};

verus! {

#[verifier::external_type_specification]
#[verifier::external_body]
pub struct ExRatchet(Ratchet);

/// Relies on `skip_ratchet::Ratchet::zero`: a ratchet started from a 32-byte seed.
#[verifier::external_body]
fn ratchet_zero(seed: &[u8]) -> (r: Ratchet)
    requires
        seed@.len() == 32,
{
    let mut bytes = [0u8; 32];
    bytes.copy_from_slice(seed);
    Ratchet::zero(bytes)
}

/// Relies on `skip_ratchet::Ratchet::inc`: moves the ratchet one step forward.
#[verifier::external_body]
fn ratchet_inc(r: &mut Ratchet) {
    r.inc()
}

/// Relies on `skip_ratchet::Ratchet::derive_key`: the 32-byte key of the
/// ratchet's current step.
#[verifier::external_body]
fn ratchet_key(r: &Ratchet) -> (k: Vec<u8>)
    ensures
        k@.len() == 32,
{
    r.derive_key().to_vec()
}

/// `h` is the label hash of the revision of a name under a temporal key: the
/// SHA3-256 hash of the 256-byte form of the name's accumulator with the first
/// prime hashed from the temporal key added. The first prime and the 256-byte
/// form are unique, so at most one `h` satisfies this.
pub open spec fn is_revision_label_hash(name: (nat, Seq<nat>), temporal_key: Seq<u8>, modulus: nat, h: Seq<u8>) -> bool {
    exists|c: u32, a: Seq<u8>|
        is_first_prime_candidate(temporal_key, c) && a.len() == ACCUMULATOR_BYTES && #[trigger] le_value(a)
            == accumulate(name.0, name.1.push(le_value(#[trigger] prime_candidate(temporal_key, c))), modulus)
            && h == sha3_256_of(a)
}

/// The header of a private node: its name, the segment that distinguishes it
/// under its parent, and the ratchet that names its revisions.
pub struct PrivateNodeHeader {
    name: Name,
    inumber: NameSegment,
    ratchet: Ratchet,
    revision: Ghost<nat>,
}

impl PrivateNodeHeader {
    pub closed spec fn wf(&self) -> bool {
        self.name.wf() && self.inumber.wf()
    }

    /// The name: the parent's name with the inumber added.
    pub closed spec fn name_view(&self) -> (nat, Seq<nat>) {
        (self.name.base(), self.name.segment_values())
    }

    /// How many times the ratchet was advanced since the header was made.
    pub closed spec fn revision(&self) -> nat {
        self.revision@
    }

    /// A header below `parent_name`, whose ratchet starts from `ratchet_seed`.
    pub fn new(parent_name: &Name, inumber: NameSegment, ratchet_seed: &[u8]) -> (r: PrivateNodeHeader)
        requires
            parent_name.wf(),
            inumber.wf(),
            ratchet_seed@.len() == 32,
        ensures
            r.wf(),
            r.name_view() == (parent_name.base(), parent_name.segment_values().push(inumber@)),
            r.revision() == 0,
    {
        let mut name = parent_name.duplicate();
        name.push_segment(inumber.duplicate());
        PrivateNodeHeader { name, inumber, ratchet: ratchet_zero(ratchet_seed), revision: Ghost(0) }
    }

    /// Moves to the next revision.
    pub fn advance_ratchet(&mut self)
        ensures
            final(self).wf() == old(self).wf(),
            final(self).name_view() == old(self).name_view(),
            final(self).revision() == old(self).revision() + 1,
    {
        ratchet_inc(&mut self.ratchet);
        self.revision = Ghost(self.revision@ + 1);
    }

    /// The temporal key of the current revision.
    pub fn derive_temporal_key(&self) -> (k: Vec<u8>)
        ensures
            k@.len() == 32,
    {
        ratchet_key(&self.ratchet)
    }

    /// The snapshot key of the current revision: the SHA3-256 hash of its temporal key.
    pub fn derive_snapshot_key(&self) -> (k: Vec<u8>)
        ensures
            exists|t: Seq<u8>| t.len() == 32 && k@ == sha3_256_of(t),
    {
        let temporal = self.derive_temporal_key();
        snapshot_key_of(temporal.as_slice())
    }

    /// The hash under which the revision with temporal key `temporal_key` is
    /// stored: the name with a segment hashed from the key added, hashed with
    /// SHA3-256. None when no counter gives a prime.
    pub fn revision_label_hash_for(&self, temporal_key: &[u8], setup: &AccumulatorSetup) -> (r: Option<Vec<u8>>)
        requires
            self.wf(),
            setup.wf(),
        ensures
            r is None <==> forall|d: u32| !probably_prime_of(#[trigger] prime_candidate(temporal_key@, d)),
            r matches Some(h) ==> is_revision_label_hash(self.name_view(), temporal_key@, setup.modulus_value(), h@),
    {
        let segment = match NameSegment::from_seed(temporal_key) {
            Some(s) => s,
            None => {
                return None;
            },
        };
        let mut label = self.name.as_accumulator(setup);
        let ghost before = label@;
        label.add(&segment, setup);
        let h = sha3_256(label.as_bytes());
        proof {
            let c = choose|c: u32| is_first_prime_candidate(temporal_key@, c) && segment.bytes() == #[trigger] prime_candidate(temporal_key@, c);
            let sv = self.name.segment_values();
            segment.lemma_value();
            label.lemma_value();
            assert(sv.push(segment@).drop_last() =~= sv);
            assert(le_value(label.bytes()) == accumulate(self.name.base(), sv.push(le_value(prime_candidate(temporal_key@, c))), setup.modulus_value()));
            assert(is_revision_label_hash(self.name_view(), temporal_key@, setup.modulus_value(), h@));
        }
        Some(h)
    }

    /// The hash under which the current revision is stored, computed from the
    /// temporal key of the ratchet's current step.
    pub fn get_revision_label_hash(&self, setup: &AccumulatorSetup) -> (r: Option<Vec<u8>>)
        requires
            self.wf(),
            setup.wf(),
        ensures
            exists|t: Seq<u8>| t.len() == 32 && (r is None <==> forall|d: u32| !probably_prime_of(#[trigger] prime_candidate(t, d)))
                && (r matches Some(h) ==> is_revision_label_hash(self.name_view(), t, setup.modulus_value(), h@)),
    {
        let temporal = self.derive_temporal_key();
        self.revision_label_hash_for(temporal.as_slice(), setup)
    }
}

/// The snapshot key that belongs to a temporal key.
pub fn snapshot_key_of(temporal_key: &[u8]) -> (k: Vec<u8>)
    ensures
        k@ == sha3_256_of(temporal_key@),
        k@.len() == 32,
{
    sha3_256(temporal_key)
}

} // verus!
