use vstd::prelude::*;
use vstd::arithmetic::power::{pow, lemma_pow_multiplies, lemma_pow_mod_noop};
use vstd::arithmetic::mul::lemma_mul_is_commutative;

use crate::biguint::{
    le_value, lemma_le_bound, lemma_le_low_byte, lemma_minimal_len, modpow_le, pad_le,
    probably_prime_le, probably_prime_of,
};
use crate::bytes::{bytes_eq, bytes_to_vec};
use crate::hash::{sha3_256, sha3_256_of};

verus! {

/// The length of a serialized accumulator in bytes.
pub const ACCUMULATOR_BYTES: usize = 256;

/// The length of a serialized name segment in bytes.
pub const SEGMENT_BYTES: usize = 32;

/// The RSA-2048 challenge modulus, little-endian.
pub open spec fn rsa_2048_le() -> Seq<u8> {
    seq![
        229, 199, 28, 54, 198, 72, 157, 57, 22, 188, 247, 23, 104, 235, 165, 51,
        231, 36, 200, 84, 80, 249, 48, 204, 188, 102, 40, 23, 21, 86, 245, 49,
        49, 27, 15, 252, 163, 36, 31, 114, 216, 115, 211, 217, 164, 22, 107, 229,
        35, 121, 59, 60, 91, 220, 97, 76, 242, 32, 41, 100, 146, 149, 114, 188,
        50, 173, 189, 37, 149, 144, 44, 135, 101, 173, 149, 106, 172, 16, 159, 96,
        5, 205, 128, 220, 173, 19, 24, 203, 181, 52, 83, 248, 9, 88, 19, 246,
        89, 81, 125, 163, 62, 95, 149, 235, 108, 230, 157, 67, 9, 39, 68, 63,
        55, 77, 214, 137, 175, 121, 196, 2, 252, 102, 108, 210, 239, 218, 232, 247,
        74, 82, 239, 189, 146, 245, 53, 190, 187, 48, 215, 196, 194, 145, 185, 142,
        186, 100, 49, 103, 209, 228, 27, 120, 253, 123, 31, 181, 4, 74, 241, 180,
        53, 159, 3, 128, 60, 163, 14, 212, 146, 133, 94, 207, 199, 9, 235, 70,
        182, 132, 51, 201, 255, 182, 180, 68, 139, 255, 101, 119, 11, 91, 31, 163,
        19, 40, 140, 100, 240, 7, 65, 160, 50, 222, 172, 194, 172, 238, 26, 114,
        189, 17, 0, 101, 209, 147, 47, 199, 158, 24, 161, 30, 142, 219, 240, 127,
        91, 187, 80, 53, 70, 111, 114, 168, 241, 245, 144, 199, 129, 16, 145, 115,
        205, 19, 166, 122, 26, 32, 144, 68, 117, 176, 195, 220, 238, 12, 151, 199,
    ]
}

/// The RSA-2048 challenge modulus as 256 little-endian bytes.
pub fn rsa_2048_modulus_bytes() -> (r: Vec<u8>)
    ensures
        r@ == rsa_2048_le(),
{
    vec![
        229, 199, 28, 54, 198, 72, 157, 57, 22, 188, 247, 23, 104, 235, 165, 51,
        231, 36, 200, 84, 80, 249, 48, 204, 188, 102, 40, 23, 21, 86, 245, 49,
        49, 27, 15, 252, 163, 36, 31, 114, 216, 115, 211, 217, 164, 22, 107, 229,
        35, 121, 59, 60, 91, 220, 97, 76, 242, 32, 41, 100, 146, 149, 114, 188,
        50, 173, 189, 37, 149, 144, 44, 135, 101, 173, 149, 106, 172, 16, 159, 96,
        5, 205, 128, 220, 173, 19, 24, 203, 181, 52, 83, 248, 9, 88, 19, 246,
        89, 81, 125, 163, 62, 95, 149, 235, 108, 230, 157, 67, 9, 39, 68, 63,
        55, 77, 214, 137, 175, 121, 196, 2, 252, 102, 108, 210, 239, 218, 232, 247,
        74, 82, 239, 189, 146, 245, 53, 190, 187, 48, 215, 196, 194, 145, 185, 142,
        186, 100, 49, 103, 209, 228, 27, 120, 253, 123, 31, 181, 4, 74, 241, 180,
        53, 159, 3, 128, 60, 163, 14, 212, 146, 133, 94, 207, 199, 9, 235, 70,
        182, 132, 51, 201, 255, 182, 180, 68, 139, 255, 101, 119, 11, 91, 31, 163,
        19, 40, 140, 100, 240, 7, 65, 160, 50, 222, 172, 194, 172, 238, 26, 114,
        189, 17, 0, 101, 209, 147, 47, 199, 158, 24, 161, 30, 142, 219, 240, 127,
        91, 187, 80, 53, 70, 111, 114, 168, 241, 245, 144, 199, 129, 16, 145, 115,
        205, 19, 166, 122, 26, 32, 144, 68, 117, 176, 195, 220, 238, 12, 151, 199,
    ]
}

/// Whether a little-endian number is not zero.
fn is_nonzero(b: &[u8]) -> (r: bool)
    ensures
        r == (le_value(b@) > 0),
{
    let mut i: usize = 0;
    while i < b.len()
        invariant
            i <= b@.len(),
            forall|k: int| 0 <= k < i ==> b@[k] == 0,
        decreases b@.len() - i,
    {
        if b[i] != 0 {
            proof { lemma_le_nonzero_at(b@, i as int); }
            return true;
        }
        i = i + 1;
    }
    proof { lemma_le_all_zero(b@); }
    false
}

proof fn lemma_le_nonzero_at(b: Seq<u8>, i: int)
    requires
        0 <= i < b.len(),
        b[i] != 0,
    ensures
        le_value(b) > 0,
    decreases b.len(),
{
    if i > 0 {
        lemma_le_nonzero_at(b.drop_first(), i - 1);
    }
}

proof fn lemma_le_all_zero(b: Seq<u8>)
    requires
        forall|k: int| 0 <= k < b.len() ==> b[k] == 0,
    ensures
        le_value(b) == 0,
    decreases b.len(),
{
    if b.len() > 0 {
        lemma_le_all_zero(b.drop_first());
    }
}

/// The shared parameters of name accumulators: an RSA modulus and a generator.
#[derive(Debug, Clone)]
pub struct AccumulatorSetup {
    modulus: Vec<u8>,
    generator: Vec<u8>,
}

impl AccumulatorSetup {
    pub closed spec fn wf(&self) -> bool {
        &&& self.modulus@.len() == ACCUMULATOR_BYTES
        &&& self.generator@.len() == ACCUMULATOR_BYTES
        &&& le_value(self.modulus@) > 0
    }

    /// The modulus as a number.
    pub closed spec fn modulus_value(&self) -> nat {
        le_value(self.modulus@)
    }

    /// The generator as a number.
    pub closed spec fn generator_value(&self) -> nat {
        le_value(self.generator@)
    }

    /// A well-formed setup has a positive modulus.
    pub proof fn lemma_modulus_positive(&self)
        requires
            self.wf(),
        ensures
            self.modulus_value() > 0,
    {
    }

    /// A setup with the given modulus whose generator is `random` squared
    /// modulo the modulus. The modulus must be 256 bytes long and not zero.
    pub fn with_random_generator(modulus: Vec<u8>, random: &[u8]) -> (r: Option<AccumulatorSetup>)
        ensures
            r is Some <==> modulus@.len() == ACCUMULATOR_BYTES && le_value(modulus@) > 0,
            r matches Some(s) ==> {
                &&& s.wf()
                &&& s.modulus_value() == le_value(modulus@)
                &&& s.generator_value() == pow(le_value(random@) as int, 2) % (le_value(modulus@) as int)
            },
    {
        if modulus.len() != ACCUMULATOR_BYTES || !is_nonzero(modulus.as_slice()) {
            return None;
        }
        let mut two: Vec<u8> = Vec::new();
        two.push(2u8);
        proof {
            assert(two@.drop_first().len() == 0);
            assert(le_value(two@.drop_first()) == 0);
            assert(le_value(two@) == 2);
        }
        let mut generator = modpow_le(random, two.as_slice(), modulus.as_slice());
        proof {
            lemma_le_bound(modulus@);
            lemma_minimal_len(generator@, ACCUMULATOR_BYTES as nat);
        }
        pad_le(&mut generator, ACCUMULATOR_BYTES);
        Some(AccumulatorSetup { modulus, generator })
    }

    /// A setup over the RSA-2048 challenge modulus, whose factors nobody
    /// knows, with `random` squared as the generator.
    pub fn from_rsa_2048(random: &[u8]) -> (r: AccumulatorSetup)
        ensures
            r.wf(),
            r.modulus_value() == le_value(rsa_2048_le()),
            r.generator_value() == pow(le_value(random@) as int, 2) % (r.modulus_value() as int),
    {
        let modulus = rsa_2048_modulus_bytes();
        proof { lemma_le_low_byte(modulus@); }
        match Self::with_random_generator(modulus, random) {
            Some(s) => s,
            None => {
                proof { assert(false); }
                AccumulatorSetup { modulus: Vec::new(), generator: Vec::new() }
            },
        }
    }
}

/// An element of the RSA group that commits to the set of segments added to
/// a base, serialized as 256 little-endian bytes.
#[derive(Debug)]
pub struct NameAccumulator {
    state: Vec<u8>,
}

impl View for NameAccumulator {
    type V = nat;

    /// The number the accumulator holds.
    closed spec fn view(&self) -> nat {
        le_value(self.state@)
    }
}

impl NameAccumulator {
    pub closed spec fn wf(&self) -> bool {
        self.state@.len() == ACCUMULATOR_BYTES
    }

    /// The serialized form.
    pub closed spec fn bytes(&self) -> Seq<u8> {
        self.state@
    }

    /// The accumulator is the number its bytes denote.
    pub proof fn lemma_value(&self)
        ensures
            self@ == le_value(self.bytes()),
    {
    }

    /// The accumulator that holds no segment: the generator.
    pub fn empty(setup: &AccumulatorSetup) -> (r: NameAccumulator)
        requires
            setup.wf(),
        ensures
            r.wf(),
            r@ == setup.generator_value(),
    {
        NameAccumulator { state: bytes_to_vec(setup.generator.as_slice()) }
    }

    /// Reads an accumulator from its 256 serialized bytes; other lengths are refused.
    pub fn parse_bytes(bytes: &[u8]) -> (r: Option<NameAccumulator>)
        ensures
            r is Some <==> bytes@.len() == ACCUMULATOR_BYTES,
            r matches Some(a) ==> a.wf() && a.bytes() == bytes@ && a@ == le_value(bytes@),
    {
        if bytes.len() != ACCUMULATOR_BYTES {
            return None;
        }
        Some(NameAccumulator { state: bytes_to_vec(bytes) })
    }

    /// Adds a segment: the state becomes `state ^ segment mod modulus`.
    pub fn add(&mut self, segment: &NameSegment, setup: &AccumulatorSetup)
        requires
            old(self).wf(),
            setup.wf(),
        ensures
            final(self).wf(),
            final(self)@ == pow(old(self)@ as int, segment@) % (setup.modulus_value() as int),
    {
        let mut next = modpow_le(self.state.as_slice(), segment.value.as_slice(), setup.modulus.as_slice());
        proof {
            lemma_le_bound(setup.modulus@);
            lemma_minimal_len(next@, ACCUMULATOR_BYTES as nat);
        }
        pad_le(&mut next, ACCUMULATOR_BYTES);
        self.state = next;
    }

    /// The serialized form: 256 little-endian bytes.
    pub fn as_bytes(&self) -> (r: &[u8])
        requires
            self.wf(),
        ensures
            r@ == self.bytes(),
            r@.len() == ACCUMULATOR_BYTES,
            le_value(r@) == self@,
    {
        self.state.as_slice()
    }

    /// The serialized form, consuming the accumulator.
    pub fn into_bytes(self) -> (r: Vec<u8>)
        requires
            self.wf(),
        ensures
            r@ == self.bytes(),
            le_value(r@) == self@,
    {
        self.state
    }

    /// A copy of this accumulator.
    pub fn duplicate(&self) -> (r: NameAccumulator)
        ensures
            r.bytes() == self.bytes(),
            r@ == self@,
            self.wf() ==> r.wf(),
    {
        NameAccumulator { state: bytes_to_vec(self.state.as_slice()) }
    }

    /// Whether two accumulators hold the same bytes, and so the same number.
    pub fn same_as(&self, other: &NameAccumulator) -> (r: bool)
        ensures
            r == (self.bytes() == other.bytes()),
            r ==> self@ == other@,
    {
        bytes_eq(self.state.as_slice(), other.state.as_slice())
    }
}

/// A segment of a name: a 256-bit prime, serialized as 32 little-endian bytes.
#[derive(Debug)]
pub struct NameSegment {
    value: Vec<u8>,
}

impl View for NameSegment {
    type V = nat;

    closed spec fn view(&self) -> nat {
        le_value(self.value@)
    }
}

/// The four little-endian bytes of a counter.
pub open spec fn u32_le(c: u32) -> Seq<u8> {
    seq![(c & 0xff) as u8, ((c >> 8u32) & 0xff) as u8, ((c >> 16u32) & 0xff) as u8, ((c >> 24u32) & 0xff) as u8]
}

/// The candidate that the hash-to-prime search tries for a counter: the
/// SHA3-256 digest of the seed followed by the counter, with its lowest bit set.
pub open spec fn prime_candidate(seed: Seq<u8>, counter: u32) -> Seq<u8> {
    let h = sha3_256_of(seed + u32_le(counter));
    h.update(0, h[0] | 1u8)
}

/// The segment hashed from a seed is the first candidate that passes the
/// primality test.
pub open spec fn is_first_prime_candidate(seed: Seq<u8>, counter: u32) -> bool {
    &&& probably_prime_of(prime_candidate(seed, counter))
    &&& forall|d: u32| d < counter ==> !probably_prime_of(#[trigger] prime_candidate(seed, d))
}

impl NameSegment {
    pub closed spec fn wf(&self) -> bool {
        self.value@.len() == SEGMENT_BYTES
    }

    /// The serialized form.
    pub closed spec fn bytes(&self) -> Seq<u8> {
        self.value@
    }

    /// The segment is the number its bytes denote.
    pub proof fn lemma_value(&self)
        ensures
            self@ == le_value(self.bytes()),
    {
    }

    /// A segment from the little-endian bytes of a number of at most 32 bytes.
    pub fn from_le_bytes(bytes: &[u8]) -> (r: Option<NameSegment>)
        ensures
            r is Some <==> bytes@.len() <= SEGMENT_BYTES,
            r matches Some(s) ==> s.wf() && s@ == le_value(bytes@),
    {
        if bytes.len() > SEGMENT_BYTES {
            return None;
        }
        let mut value = bytes_to_vec(bytes);
        pad_le(&mut value, SEGMENT_BYTES);
        Some(NameSegment { value })
    }

    /// Hashes a seed to a prime: tries the digests of the seed followed by
    /// a counter, from zero up, and keeps the first that passes the test.
    pub fn from_seed(seed: &[u8]) -> (r: Option<NameSegment>)
        ensures
            match r {
                Some(s) => s.wf() && exists|c: u32|
                    is_first_prime_candidate(seed@, c) && s.bytes() == #[trigger] prime_candidate(seed@, c),
                None => forall|d: u32| !probably_prime_of(#[trigger] prime_candidate(seed@, d)),
            },
    {
        let mut counter: u32 = 0;
        loop
            invariant
                forall|d: u32| d < counter ==> !probably_prime_of(#[trigger] prime_candidate(seed@, d)),
            decreases u32::MAX - counter,
        {
            let candidate = Self::candidate(seed, counter);
            if probably_prime_le(candidate.as_slice()) {
                assert(is_first_prime_candidate(seed@, counter));
                return Some(NameSegment { value: candidate });
            }
            if counter == u32::MAX {
                assert forall|d: u32| !probably_prime_of(#[trigger] prime_candidate(seed@, d)) by {
                    if d < counter {
                    }
                }
                return None;
            }
            counter = counter + 1;
        }
    }

    fn candidate(seed: &[u8], counter: u32) -> (r: Vec<u8>)
        ensures
            r@ == prime_candidate(seed@, counter),
            r@.len() == SEGMENT_BYTES,
    {
        let mut input = bytes_to_vec(seed);
        input.push((counter & 0xff) as u8);
        input.push(((counter >> 8u32) & 0xff) as u8);
        input.push(((counter >> 16u32) & 0xff) as u8);
        input.push(((counter >> 24u32) & 0xff) as u8);
        assert(input@ =~= seed@ + u32_le(counter));
        let mut h = sha3_256(input.as_slice());
        let low = h[0] | 1u8;
        h.set(0, low);
        h
    }

    /// A copy of this segment.
    pub fn duplicate(&self) -> (r: NameSegment)
        ensures
            r.bytes() == self.bytes(),
            r@ == self@,
            self.wf() ==> r.wf(),
    {
        NameSegment { value: bytes_to_vec(self.value.as_slice()) }
    }

    /// The serialized form.
    pub fn as_bytes(&self) -> (r: &[u8])
        ensures
            r@ == self.bytes(),
            le_value(r@) == self@,
    {
        self.value.as_slice()
    }
}

/// The number reached by adding each of `segments` in turn to `base`.
pub open spec fn accumulate(base: nat, segments: Seq<nat>, modulus: nat) -> nat
    decreases segments.len(),
{
    if segments.len() == 0 {
        base
    } else {
        (pow(accumulate(base, segments.drop_last(), modulus) as int, segments.last()) % (modulus as int)) as nat
    }
}

/// A name: a base accumulator and the segments added to it.
#[derive(Debug)]
pub struct Name {
    relative_to: NameAccumulator,
    segments: Vec<NameSegment>,
}

impl Name {
    pub closed spec fn wf(&self) -> bool {
        &&& self.relative_to.wf()
        &&& forall|i: int| 0 <= i < self.segments@.len() ==> #[trigger] self.segments@[i].wf()
    }

    /// The number of the base accumulator.
    pub closed spec fn base(&self) -> nat {
        self.relative_to@
    }

    /// The numbers of the segments, in order.
    pub closed spec fn segment_values(&self) -> Seq<nat> {
        self.segments@.map_values(|s: NameSegment| s@)
    }

    /// The accumulator the name stands for under a modulus.
    pub open spec fn value(&self, modulus: nat) -> nat {
        accumulate(self.base(), self.segment_values(), modulus)
    }

    /// The name of the root: the generator with no segment.
    pub fn empty(setup: &AccumulatorSetup) -> (r: Name)
        requires
            setup.wf(),
        ensures
            r.wf(),
            r.base() == setup.generator_value(),
            r.segment_values() == Seq::<nat>::empty(),
    {
        let r = Name { relative_to: NameAccumulator::empty(setup), segments: Vec::new() };
        assert(r.segment_values() =~= Seq::<nat>::empty());
        r
    }

    /// A name from a base and segments.
    pub fn new(relative_to: NameAccumulator, segments: Vec<NameSegment>) -> (r: Name)
        ensures
            r.base() == relative_to@,
            r.segment_values() == segments@.map_values(|s: NameSegment| s@),
            relative_to.wf() && (forall|i: int| 0 <= i < segments@.len() ==> #[trigger] segments@[i].wf()) ==> r.wf(),
    {
        Name { relative_to, segments }
    }

    /// Whether the name has no segment.
    pub fn is_root(&self) -> (r: bool)
        ensures
            r == (self.segment_values().len() == 0),
    {
        self.segments.len() == 0
    }

    /// Drops the last segment, if any.
    pub fn up(&mut self)
        requires
            old(self).wf(),
        ensures
            final(self).wf(),
            final(self).base() == old(self).base(),
            old(self).segment_values().len() == 0 ==> final(self).segment_values() == old(self).segment_values(),
            old(self).segment_values().len() > 0 ==> final(self).segment_values() == old(self).segment_values().drop_last(),
    {
        if self.segments.len() > 0 {
            self.segments.pop();
            assert(self.segment_values() =~= old(self).segment_values().drop_last());
        }
    }

    /// A copy of this name.
    pub fn duplicate(&self) -> (r: Name)
        requires
            self.wf(),
        ensures
            r.wf(),
            r.base() == self.base(),
            r.segment_values() == self.segment_values(),
    {
        let mut segments: Vec<NameSegment> = Vec::new();
        let mut i: usize = 0;
        while i < self.segments.len()
            invariant
                self.wf(),
                i <= self.segments@.len(),
                segments@.len() == i,
                forall|k: int| 0 <= k < i ==> #[trigger] segments@[k]@ == self.segments@[k]@,
                forall|k: int| 0 <= k < i ==> #[trigger] segments@[k].wf(),
            decreases self.segments@.len() - i,
        {
            segments.push(self.segments[i].duplicate());
            i = i + 1;
        }
        let r = Name { relative_to: self.relative_to.duplicate(), segments };
        assert(r.segment_values() =~= self.segment_values());
        r
    }

    /// The name of the parent, or none for a root.
    pub fn parent(&self) -> (r: Option<Name>)
        requires
            self.wf(),
        ensures
            r is None <==> self.segment_values().len() == 0,
            r matches Some(p) ==> p.wf() && p.base() == self.base()
                && p.segment_values() == self.segment_values().drop_last(),
    {
        if self.segments.len() == 0 {
            None
        } else {
            let mut p = self.duplicate();
            p.up();
            Some(p)
        }
    }

    /// Appends one segment.
    pub fn push_segment(&mut self, segment: NameSegment)
        requires
            old(self).wf(),
            segment.wf(),
        ensures
            final(self).wf(),
            final(self).base() == old(self).base(),
            final(self).segment_values() == old(self).segment_values().push(segment@),
    {
        self.segments.push(segment);
        assert(self.segment_values() =~= old(self).segment_values().push(segment@));
    }

    /// Appends segments in order.
    pub fn add_segments(&mut self, segments: Vec<NameSegment>)
        requires
            old(self).wf(),
            forall|i: int| 0 <= i < segments@.len() ==> #[trigger] segments@[i].wf(),
        ensures
            final(self).wf(),
            final(self).base() == old(self).base(),
            final(self).segment_values() == old(self).segment_values() + segments@.map_values(|s: NameSegment| s@),
    {
        let mut segments = segments;
        let ghost added = segments@.map_values(|s: NameSegment| s@);
        let ghost start = self.segment_values();
        let mut rest: Vec<NameSegment> = Vec::new();
        while segments.len() > 0
            invariant
                forall|i: int| 0 <= i < segments@.len() ==> #[trigger] segments@[i].wf(),
                forall|i: int| 0 <= i < rest@.len() ==> #[trigger] rest@[i].wf(),
                added == segments@.map_values(|s: NameSegment| s@) + rest@.reverse().map_values(|s: NameSegment| s@),
            decreases segments@.len(),
        {
            let s = segments.pop().unwrap();
            rest.push(s);
            assert(added =~= segments@.map_values(|s: NameSegment| s@) + rest@.reverse().map_values(|s: NameSegment| s@));
        }
        while rest.len() > 0
            invariant
                self.wf(),
                self.base() == old(self).base(),
                forall|i: int| 0 <= i < rest@.len() ==> #[trigger] rest@[i].wf(),
                start + added == self.segment_values() + rest@.reverse().map_values(|s: NameSegment| s@),
            decreases rest@.len(),
        {
            let s = rest.pop().unwrap();
            self.push_segment(s);
            assert(start + added =~= self.segment_values() + rest@.reverse().map_values(|s: NameSegment| s@));
        }
        assert(start + added =~= self.segment_values());
    }

    /// The accumulator the name stands for: the base with every segment added in turn.
    pub fn as_accumulator(&self, setup: &AccumulatorSetup) -> (r: NameAccumulator)
        requires
            self.wf(),
            setup.wf(),
        ensures
            r.wf(),
            r@ == self.value(setup.modulus_value()),
    {
        let mut acc = self.relative_to.duplicate();
        let mut i: usize = 0;
        while i < self.segments.len()
            invariant
                self.wf(),
                setup.wf(),
                acc.wf(),
                i <= self.segments@.len(),
                acc@ == accumulate(self.base(), self.segment_values().subrange(0, i as int), setup.modulus_value()),
            decreases self.segments@.len() - i,
        {
            acc.add(&self.segments[i], setup);
            proof {
                let sv = self.segment_values();
                assert(sv.subrange(0, i + 1).drop_last() =~= sv.subrange(0, i as int));
            }
            i = i + 1;
        }
        assert(self.segment_values().subrange(0, self.segments@.len() as int) =~= self.segment_values());
        acc
    }
}

/// From the empty accumulator of a setup, adding two segments gives the same
/// accumulator in either order.
pub proof fn lemma_setup_adds_commute(setup: &AccumulatorSetup, s1: nat, s2: nat)
    requires
        setup.wf(),
    ensures
        ({
            let g = setup.generator_value() as int;
            let m = setup.modulus_value() as int;
            pow(pow(g, s1) % m, s2) % m == pow(pow(g, s2) % m, s1) % m
        }),
{
    setup.lemma_modulus_positive();
    lemma_add_commutes(setup.generator_value(), s1, s2, setup.modulus_value());
}

/// Adding two segments gives the same accumulator in either order.
pub proof fn lemma_add_commutes(base: nat, s1: nat, s2: nat, modulus: nat)
    requires
        modulus > 0,
    ensures
        pow(pow(base as int, s1) % (modulus as int), s2) % (modulus as int)
            == pow(pow(base as int, s2) % (modulus as int), s1) % (modulus as int),
{
    let m = modulus as int;
    lemma_pow_mod_noop(pow(base as int, s1), s2, m);
    lemma_pow_mod_noop(pow(base as int, s2), s1, m);
    lemma_pow_multiplies(base as int, s1, s2);
    lemma_pow_multiplies(base as int, s2, s1);
    lemma_mul_is_commutative(s1 as int, s2 as int);
}

} // verus!
