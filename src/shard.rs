use vstd::prelude::*;

use vstd::arithmetic::power::pow;

use crate::accumulator::{
    is_first_prime_candidate, prime_candidate, AccumulatorSetup, NameAccumulator, NameSegment,
    ACCUMULATOR_BYTES,
};
use crate::biguint::{le_value, probably_prime_of};
use crate::blockstore::{MemoryBlockStore, MAX_BLOCK_SIZE};
use crate::bytes::extend_bytes;
use crate::cid::{cid_of, cid_set, Cid, Codec};
use crate::error::FsError;
use crate::forest::{set_at, PrivateForest};
use crate::bytes::{lemma_lex_irreflexive, lemma_lex_total, lex_lt};
use crate::hash::{sha3_256, sha3_256_of};

verus! {

/// The length of the nonce in front of an encrypted block.
pub const NONCE_SIZE: usize = 12;

/// The length of the authentication tag after an encrypted block.
pub const TAG_SIZE: usize = 16;

/// The most plaintext one shard of a file holds, so that the encrypted shard
/// fits in one block.
pub const MAX_BLOCK_CONTENT_SIZE: usize = MAX_BLOCK_SIZE - NONCE_SIZE - TAG_SIZE;

/// The shards of `content`: pieces of `size` bytes, the last possibly shorter.
pub open spec fn shards(content: Seq<u8>, size: nat) -> Seq<Seq<u8>>
    decreases content.len(),
{
    if size == 0 || content.len() == 0 {
        Seq::empty()
    } else if content.len() <= size {
        seq![content]
    } else {
        seq![content.subrange(0, size as int)] + shards(content.subrange(size as int, content.len() as int), size)
    }
}

/// The pieces put back together.
pub open spec fn join(pieces: Seq<Seq<u8>>) -> Seq<u8>
    decreases pieces.len(),
{
    if pieces.len() == 0 {
        Seq::empty()
    } else {
        pieces[0] + join(pieces.drop_first())
    }
}

/// The number of shards of `len` bytes: `len / size` rounded up.
pub open spec fn block_count_spec(len: nat, size: nat) -> nat {
    if size == 0 {
        0
    } else {
        ((len + size - 1) / (size as int)) as nat
    }
}

proof fn lemma_join_single(x: Seq<u8>)
    ensures
        join(seq![x]) == x,
{
    assert(seq![x].drop_first() =~= Seq::<Seq<u8>>::empty());
    assert(join(seq![x].drop_first()) == Seq::<u8>::empty());
    assert(x + Seq::<u8>::empty() =~= x);
}

proof fn lemma_join_append(a: Seq<Seq<u8>>, b: Seq<Seq<u8>>)
    ensures
        join(a + b) == join(a) + join(b),
    decreases a.len(),
{
    if a.len() == 0 {
        assert(a + b =~= b);
        assert(join(a) + join(b) =~= join(b));
    } else {
        assert((a + b).drop_first() =~= a.drop_first() + b);
        lemma_join_append(a.drop_first(), b);
        assert(join(a + b) =~= a[0] + (join(a.drop_first()) + join(b)));
    }
}

/// Joining the shards of some content gives the content back, and there are
/// `len / size` of them, rounded up.
pub proof fn lemma_shards_round_trip(content: Seq<u8>, size: nat)
    requires
        size > 0,
    ensures
        join(shards(content, size)) == content,
        shards(content, size).len() == block_count_spec(content.len(), size),
        forall|i: int| 0 <= i < shards(content, size).len() ==> 0 < (#[trigger] shards(content, size)[i]).len() <= size,
    decreases content.len(),
{
    let n = content.len();
    if n == 0 {
        assert((size - 1) / (size as int) == 0) by (nonlinear_arith)
            requires size > 0;
    } else if n <= size {
        lemma_join_single(content);
        assert((n + size - 1) / (size as int) == 1) by (nonlinear_arith)
            requires 0 < n <= size;
    } else {
        let rest = content.subrange(size as int, n as int);
        lemma_shards_round_trip(rest, size);
        let head = seq![content.subrange(0, size as int)];
        lemma_join_append(head, shards(rest, size));
        assert(head.drop_first() =~= Seq::<Seq<u8>>::empty());
        lemma_join_single(content.subrange(0, size as int));
        assert(content.subrange(0, size as int) + rest =~= content);
        assert((n + size - 1) / (size as int) == (n - size + size - 1) / (size as int) + 1) by (nonlinear_arith)
            requires n > size, size > 0;
        assert forall|i: int| 0 <= i < shards(content, size).len() implies 0 < (#[trigger] shards(content, size)[i]).len() <= size by {
            if i > 0 {
                assert(shards(content, size)[i] == shards(rest, size)[i - 1]);
            }
        }
    }
}

/// The number of shards of `len` bytes of content.
pub fn block_count(len: usize, size: usize) -> (r: usize)
    requires
        size > 0,
    ensures
        r == block_count_spec(len as nat, size as nat),
{
    let q = len / size;
    let r: usize = len % size;
    proof {
        let l = len as int;
        let z = size as int;
        assert((l + z - 1) / z == l / z + (if l % z != 0 { 1int } else { 0int })) by (nonlinear_arith)
            requires z > 0, l >= 0;
    }
    if r != 0 {
        assert(q < usize::MAX) by (nonlinear_arith)
            requires q == len / size, size > 0, r != 0, len <= usize::MAX, r == len % size;
        q + 1
    } else {
        q
    }
}

/// Cuts content into shards of `size` bytes, the last possibly shorter.
pub fn split_into_shards(content: &[u8], size: usize) -> (r: Vec<Vec<u8>>)
    requires
        size > 0,
    ensures
        r@.map_values(|v: Vec<u8>| v@) == shards(content@, size as nat),
{
    let mut result: Vec<Vec<u8>> = Vec::new();
    let mut start: usize = 0;
    let n = content.len();
    proof {
        assert(content@.subrange(0, n as int) =~= content@);
        assert(result@.map_values(|v: Vec<u8>| v@) + shards(content@, size as nat) =~= shards(content@, size as nat));
    }
    while start < n
        invariant
            size > 0,
            n == content@.len(),
            start <= n,
            result@.map_values(|v: Vec<u8>| v@) + shards(content@.subrange(start as int, n as int), size as nat)
                == shards(content@, size as nat),
        decreases n - start,
    {
        let ghost rest = content@.subrange(start as int, n as int);
        let end = if n - start <= size { n } else { start + size };
        let mut piece: Vec<u8> = Vec::new();
        extend_bytes(&mut piece, &content[start..end]);
        proof {
            if n - start <= size {
                assert(shards(rest, size as nat) == seq![rest]);
                assert(content@.subrange(end as int, n as int) =~= Seq::<u8>::empty());
            } else {
                assert(rest.subrange(0, size as int) =~= content@.subrange(start as int, end as int));
                assert(rest.subrange(size as int, rest.len() as int) =~= content@.subrange(end as int, n as int));
            }
            assert(piece@ =~= content@.subrange(start as int, end as int));
        }
        let ghost before = result@.map_values(|v: Vec<u8>| v@);
        result.push(piece);
        proof {
            assert(result@.map_values(|v: Vec<u8>| v@) =~= before.push(content@.subrange(start as int, end as int)));
            assert(shards(rest, size as nat) =~= seq![content@.subrange(start as int, end as int)]
                + shards(content@.subrange(end as int, n as int), size as nat));
            assert(before.push(content@.subrange(start as int, end as int)) + shards(content@.subrange(end as int, n as int), size as nat)
                =~= before + shards(rest, size as nat));
        }
        start = end;
    }
    assert(content@.subrange(start as int, n as int) =~= Seq::<u8>::empty());
    assert(result@.map_values(|v: Vec<u8>| v@) + Seq::<Seq<u8>>::empty() =~= result@.map_values(|v: Vec<u8>| v@));
    result
}

/// Puts shards back together, starting from shard `from_index`.
pub fn join_shards(pieces: &[Vec<u8>], from_index: usize) -> (r: Vec<u8>)
    ensures
        r@ == join(pieces@.map_values(|v: Vec<u8>| v@).subrange(
            if from_index <= pieces@.len() { from_index as int } else { pieces@.len() as int },
            pieces@.len() as int,
        )),
{
    let ghost all = pieces@.map_values(|v: Vec<u8>| v@);
    let mut r: Vec<u8> = Vec::new();
    let n = pieces.len();
    let mut i = if from_index <= n { from_index } else { n };
    let ghost first = i as int;
    proof {
        assert(all.subrange(first, first) =~= Seq::<Seq<u8>>::empty());
    }
    while i < n
        invariant
            n == pieces@.len(),
            all == pieces@.map_values(|v: Vec<u8>| v@),
            all.len() == n,
            0 <= first <= i <= n,
            r@ == join(all.subrange(first, i as int)),
        decreases n - i,
    {
        extend_bytes(&mut r, pieces[i].as_slice());
        proof {
            lemma_join_append(all.subrange(first, i as int), seq![all[i as int]]);
            assert(all.subrange(first, i + 1) =~= all.subrange(first, i as int) + seq![all[i as int]]);
            lemma_join_single(all[i as int]);
        }
        i = i + 1;
    }
    r
}

} // verus!

verus! {

/// The eight little-endian bytes of a shard index.
pub open spec fn u64_le(i: u64) -> Seq<u8> {
    seq![
        (i & 0xff) as u8,
        ((i >> 8u64) & 0xff) as u8,
        ((i >> 16u64) & 0xff) as u8,
        ((i >> 24u64) & 0xff) as u8,
        ((i >> 32u64) & 0xff) as u8,
        ((i >> 40u64) & 0xff) as u8,
        ((i >> 48u64) & 0xff) as u8,
        ((i >> 56u64) & 0xff) as u8,
    ]
}

/// The seed that names shard `i` under a snapshot key: the key followed by the index.
pub open spec fn shard_seed(key: Seq<u8>, i: u64) -> Seq<u8> {
    key + u64_le(i)
}

/// `result` is `base` with the first prime hashed from `seed` added.
pub open spec fn segment_added(base: nat, seed: Seq<u8>, modulus: nat, result: nat) -> bool {
    exists|c: u32| #[trigger] is_first_prime_candidate(seed, c)
        && result == pow(base as int, le_value(prime_candidate(seed, c))) % (modulus as int)
}

/// No counter gives a prime for `seed`.
pub open spec fn no_prime_for(seed: Seq<u8>) -> bool {
    forall|d: u32| !probably_prime_of(#[trigger] prime_candidate(seed, d))
}

/// Adds to `name` the segment hashed from `seed`.
fn add_seeded_segment(name: &NameAccumulator, seed: &[u8], setup: &AccumulatorSetup) -> (r: Option<NameAccumulator>)
    requires
        name.wf(),
        setup.wf(),
    ensures
        r is None <==> no_prime_for(seed@),
        r matches Some(a) ==> a.wf() && segment_added(name@, seed@, setup.modulus_value(), a@),
{
    let segment = match NameSegment::from_seed(seed) {
        Some(s) => s,
        None => {
            return None;
        },
    };
    let mut label = name.duplicate();
    label.add(&segment, setup);
    proof {
        segment.lemma_value();
        let c = choose|c: u32| is_first_prime_candidate(seed@, c) && segment.bytes() == #[trigger] prime_candidate(seed@, c);
        assert(is_first_prime_candidate(seed@, c));
    }
    Some(label)
}

/// The name of a file revision: the file's name with the segment hashed from
/// the snapshot key added.
pub fn create_revision_name(file_name: &NameAccumulator, key: &[u8], setup: &AccumulatorSetup) -> (r: Option<NameAccumulator>)
    requires
        file_name.wf(),
        setup.wf(),
    ensures
        r is None <==> no_prime_for(key@),
        r matches Some(a) ==> a.wf() && segment_added(file_name@, key@, setup.modulus_value(), a@),
{
    add_seeded_segment(file_name, key, setup)
}

/// The label of shard `index`: the revision name with the segment hashed from
/// the key and the index added.
pub fn create_block_label(key: &[u8], index: u64, revision_name: &NameAccumulator, setup: &AccumulatorSetup) -> (r: Option<NameAccumulator>)
    requires
        revision_name.wf(),
        setup.wf(),
    ensures
        r is None <==> no_prime_for(shard_seed(key@, index)),
        r matches Some(a) ==> a.wf() && segment_added(revision_name@, shard_seed(key@, index), setup.modulus_value(), a@),
{
    let mut seed = crate::bytes::bytes_to_vec(key);
    seed.push((index & 0xff) as u8);
    seed.push(((index >> 8u64) & 0xff) as u8);
    seed.push(((index >> 16u64) & 0xff) as u8);
    seed.push(((index >> 24u64) & 0xff) as u8);
    seed.push(((index >> 32u64) & 0xff) as u8);
    seed.push(((index >> 40u64) & 0xff) as u8);
    seed.push(((index >> 48u64) & 0xff) as u8);
    seed.push(((index >> 56u64) & 0xff) as u8);
    assert(seed@ =~= shard_seed(key@, index));
    add_seeded_segment(revision_name, seed.as_slice(), setup)
}

/// The labels of shards `0..count`, or None when one of them has no prime.
pub fn generate_shard_labels(key: &[u8], count: u64, revision_name: &NameAccumulator, setup: &AccumulatorSetup) -> (r: Option<Vec<NameAccumulator>>)
    requires
        revision_name.wf(),
        setup.wf(),
    ensures
        r is None <==> exists|i: u64| i < count && #[trigger] no_prime_for(shard_seed(key@, i)),
        r matches Some(v) ==> v@.len() == count && forall|i: int| 0 <= i < count ==> (#[trigger] v@[i]).wf()
            && segment_added(revision_name@, shard_seed(key@, i as u64), setup.modulus_value(), v@[i]@),
{
    let mut labels: Vec<NameAccumulator> = Vec::new();
    let mut i: u64 = 0;
    while i < count
        invariant
            revision_name.wf(),
            setup.wf(),
            i <= count,
            labels@.len() == i,
            forall|t: int| 0 <= t < i ==> (#[trigger] labels@[t]).wf()
                && segment_added(revision_name@, shard_seed(key@, t as u64), setup.modulus_value(), labels@[t]@),
            forall|t: u64| t < i ==> !#[trigger] no_prime_for(shard_seed(key@, t)),
        decreases count - i,
    {
        match create_block_label(key, i, revision_name, setup) {
            Some(label) => {
                labels.push(label);
            },
            None => {
                return None;
            },
        }
        i = i + 1;
    }
    Some(labels)
}

/// Cuts `content` into shards and stores shard `i` as a raw block whose
/// identifier goes into the forest under the hash of label `i`. The shard bytes
/// are stored as given. Returns the number of shards.
pub fn put_shards(
    content: &[u8],
    key: &[u8],
    revision_name: &NameAccumulator,
    setup: &AccumulatorSetup,
    forest: &mut PrivateForest,
    store: &mut MemoryBlockStore,
) -> (r: Result<usize, FsError>)
    requires
        revision_name.wf(),
        setup.wf(),
        old(forest).wf(),
        old(store).wf(),
    ensures
        final(forest).wf(),
        final(store).wf(),
        ({
            let parts = shards(content@, MAX_BLOCK_CONTENT_SIZE as nat);
            &&& r is Err <==> exists|i: u64| i < parts.len() && #[trigger] no_prime_for(shard_seed(key@, i))
            &&& r is Err ==> r == Err::<usize, FsError>(FsError::FileShardNotFound)
            &&& r matches Ok(n) ==> {
                &&& n == parts.len()
                &&& n == block_count_spec(content@.len(), MAX_BLOCK_CONTENT_SIZE as nat)
                &&& forall|i: int| 0 <= i < n ==> #[trigger] shard_stored(final(forest)@, final(store)@, revision_name@,
                    key@, i as u64, setup.modulus_value(), parts[i])
                &&& fresh_shards(old(forest)@, revision_name@, key@, n as nat, setup.modulus_value(), parts) ==>
                    forall|i: int| 0 <= i < n ==> #[trigger] shard_in_place(final(forest)@, final(store)@, revision_name@,
                        key@, parts, setup.modulus_value(), i)
            }
        }),
{
    let ghost forest0 = forest@;
    let parts = split_into_shards(content, MAX_BLOCK_CONTENT_SIZE);
    let ghost views = parts@.map_values(|v: Vec<u8>| v@);
    proof {
        lemma_shards_round_trip(content@, MAX_BLOCK_CONTENT_SIZE as nat);
    }
    let n = parts.len();
    let labels = match generate_shard_labels(key, n as u64, revision_name, setup) {
        Some(l) => l,
        None => {
            return Err(FsError::FileShardNotFound);
        },
    };
    let mut i: usize = 0;
    while i < n
        invariant
            n == parts@.len(),
            views == parts@.map_values(|v: Vec<u8>| v@),
            views == shards(content@, MAX_BLOCK_CONTENT_SIZE as nat),
            forall|t: int| 0 <= t < views.len() ==> 0 < (#[trigger] views[t]).len() <= MAX_BLOCK_CONTENT_SIZE,
            labels@.len() == n,
            forall|t: int| 0 <= t < n ==> (#[trigger] labels@[t]).wf()
                && segment_added(revision_name@, shard_seed(key@, t as u64), setup.modulus_value(), labels@[t]@),
            i <= n,
            forest.wf(),
            store.wf(),
            forall|t: int| 0 <= t < i ==> #[trigger] shard_stored(forest@, store@, revision_name@, key@, t as u64,
                setup.modulus_value(), views[t]),
            fresh_shards(forest0, revision_name@, key@, n as nat, setup.modulus_value(), views) ==> {
                &&& forall|t: int| 0 <= t < i ==> #[trigger] shard_in_place(forest@, store@, revision_name@, key@, views,
                    setup.modulus_value(), t)
                &&& forall|t: u64| i <= t < n ==> !forest@.contains_key(#[trigger] shard_hash(revision_name@, key@, t,
                    setup.modulus_value()))
            },
        decreases n - i,
    {
        let shard = crate::bytes::bytes_to_vec(parts[i].as_slice());
        assert(views[i as int] == parts@[i as int]@);
        let ghost shard_view = shard@;
        let ghost store_before = store@;
        let cid = match store.put_block(shard, Codec::Raw) {
            Ok(c) => c,
            Err(_) => {
                proof { assert(false); }
                return Err(FsError::BlockTooLarge);
            },
        };
        let label = &labels[i];
        let mut cids: Vec<Cid> = Vec::new();
        cids.push(cid);
        let ghost forest_before = forest@;
        forest.put_encrypted(label.as_bytes(), cids.as_slice());
        proof {
            let md = setup.modulus_value();
            let seed = shard_seed(key@, i as u64);
            assert(labels@[i as int].wf());
            let c = choose|c: u32| #[trigger] is_first_prime_candidate(seed, c)
                && label@ == pow(revision_name@ as int, le_value(prime_candidate(seed, c))) % (md as int);
            lemma_first_counter_unique(seed, c);
            label.lemma_value();
            lemma_accumulator_bytes(label.bytes());
            assert(sha3_256_of(label.bytes()) == shard_hash(revision_name@, key@, i as u64, md));
            assert(cid_set(cids@) =~= set![cid@]) by {
                assert(cids@[0]@ == cid@);
            }
            if fresh_shards(forest0, revision_name@, key@, n as nat, md, views) {
                let h = shard_hash(revision_name@, key@, i as u64, md);
                assert(!forest_before.contains_key(h));
                assert(set_at(forest_before, h).union(cid_set(cids@)) =~= set![cid@]);
                assert forall|t: int| 0 <= t < i + 1 implies #[trigger] shard_in_place(forest@, store@, revision_name@, key@, views,
                    md, t) by {
                    if t < i {
                        assert(shard_in_place(forest_before, store_before, revision_name@, key@, views, md, t));
                        assert(shard_hash(revision_name@, key@, t as u64, md) != h);
                        assert(cid_of(Codec::Raw, views[t]) != cid_of(Codec::Raw, views[i as int]));
                    }
                }
                assert forall|t: u64| i + 1 <= t < n implies !forest@.contains_key(#[trigger] shard_hash(revision_name@, key@, t, md)) by {
                    assert(shard_hash(revision_name@, key@, i as u64, md) != shard_hash(revision_name@, key@, t, md));
                }
            }
        }
        proof {
            assert(cid_set(cids@).contains(cid@)) by {
                assert(cids@[0]@ == cid@);
            }
            assert forall|t: int| 0 <= t < i + 1 implies #[trigger] shard_stored(forest@, store@, revision_name@, key@, t as u64,
                setup.modulus_value(), views[t]) by {
                if t == i {
                    assert(labels@[t].wf());
                    assert(shard_stored(forest@, store@, revision_name@, key@, t as u64, setup.modulus_value(), views[t])) by {
                        assert(le_value(label.bytes()) == label@) by { label.lemma_value(); }
                    }
                } else {
                    assert(shard_stored(forest_before, store_before, revision_name@, key@, t as u64, setup.modulus_value(), views[t]));
                    lemma_shard_stored_grow(forest_before, forest@, store_before, store@, revision_name@, key@, t as u64,
                        setup.modulus_value(), views[t]);
                }
            }
        }
        i = i + 1;
    }
    proof {
        assert forall|t: u64| t < n implies !#[trigger] no_prime_for(shard_seed(key@, t)) by {
            assert(segment_added(revision_name@, shard_seed(key@, t), setup.modulus_value(), labels@[t as int]@));
            let c = choose|c: u32| #[trigger] is_first_prime_candidate(shard_seed(key@, t), c)
                && labels@[t as int]@ == pow(revision_name@ as int, le_value(prime_candidate(shard_seed(key@, t), c))) % (setup.modulus_value() as int);
            assert(probably_prime_of(prime_candidate(shard_seed(key@, t), c)));
        }
    }
    Ok(n)
}

proof fn lemma_shard_stored_grow(
    f1: Map<Seq<u8>, Set<Seq<u8>>>,
    f2: Map<Seq<u8>, Set<Seq<u8>>>,
    s1: Map<Seq<u8>, Seq<u8>>,
    s2: Map<Seq<u8>, Seq<u8>>,
    revision_name: nat,
    key: Seq<u8>,
    i: u64,
    modulus: nat,
    shard: Seq<u8>,
)
    requires
        shard_stored(f1, s1, revision_name, key, i, modulus, shard),
        forall|k: Seq<u8>| s1.contains_key(k) ==> #[trigger] s2.contains_key(k),
        forall|k: Seq<u8>| f1.contains_key(k) ==> #[trigger] f2.contains_key(k) && f1[k].subset_of(f2[k]),
    ensures
        shard_stored(f2, s2, revision_name, key, i, modulus, shard),
{
    let label = choose|label: Seq<u8>| label.len() == ACCUMULATOR_BYTES
        && #[trigger] segment_added(revision_name, shard_seed(key, i), modulus, le_value(label))
        && f1.contains_key(sha3_256_of(label))
        && f1[sha3_256_of(label)].contains(cid_of(Codec::Raw, shard));
    assert(f2.contains_key(sha3_256_of(label)));
}

/// Shard `i` of a file revision is in the store as a raw block, and its
/// identifier is in the forest under the hash of the shard's label: some
/// 256-byte accumulator that is the revision name with the segment of `i` added.
pub open spec fn shard_stored(
    forest: Map<Seq<u8>, Set<Seq<u8>>>,
    store: Map<Seq<u8>, Seq<u8>>,
    revision_name: nat,
    key: Seq<u8>,
    i: u64,
    modulus: nat,
    shard: Seq<u8>,
) -> bool {
    &&& store.contains_key(cid_of(Codec::Raw, shard))
    &&& exists|label: Seq<u8>| label.len() == ACCUMULATOR_BYTES
        && #[trigger] segment_added(revision_name, shard_seed(key, i), modulus, le_value(label))
        && forest.contains_key(sha3_256_of(label))
        && forest[sha3_256_of(label)].contains(cid_of(Codec::Raw, shard))
}

} // verus!

verus! {

/// The counter whose candidate is the first prime hashed from `seed`.
pub open spec fn first_counter(seed: Seq<u8>) -> u32 {
    choose|c: u32| is_first_prime_candidate(seed, c)
}

/// The first prime counter of a seed is unique.
pub proof fn lemma_first_counter_unique(seed: Seq<u8>, c: u32)
    requires
        is_first_prime_candidate(seed, c),
    ensures
        first_counter(seed) == c,
{
    let f = first_counter(seed);
    assert(is_first_prime_candidate(seed, f));
    if f < c {
        assert(!probably_prime_of(prime_candidate(seed, f)));
    } else if c < f {
        assert(!probably_prime_of(prime_candidate(seed, c)));
    }
}

/// The accumulator value of `base` with the first prime hashed from `seed` added.
pub open spec fn seeded_value(base: nat, seed: Seq<u8>, modulus: nat) -> nat {
    (pow(base as int, le_value(prime_candidate(seed, first_counter(seed)))) % (modulus as int)) as nat
}

/// The 256-byte little-endian form of a number.
pub open spec fn accumulator_bytes(v: nat) -> Seq<u8> {
    choose|a: Seq<u8>| a.len() == ACCUMULATOR_BYTES && le_value(a) == v
}

proof fn lemma_accumulator_bytes(a: Seq<u8>)
    requires
        a.len() == ACCUMULATOR_BYTES,
    ensures
        accumulator_bytes(le_value(a)) == a,
{
    let b = accumulator_bytes(le_value(a));
    assert(b.len() == ACCUMULATOR_BYTES && le_value(b) == le_value(a));
    crate::biguint::lemma_le_injective(a, b);
}

/// The lowest identifier of a set, in byte order.
pub open spec fn lowest(set: Set<Seq<u8>>) -> Seq<u8> {
    choose|c: Seq<u8>| set.contains(c) && forall|x: Seq<u8>| #[trigger] set.contains(x) ==> !lex_lt(x, c)
}

proof fn lemma_lowest_unique(set: Set<Seq<u8>>, c: Seq<u8>)
    requires
        set.contains(c),
        forall|x: Seq<u8>| #[trigger] set.contains(x) ==> !lex_lt(x, c),
    ensures
        lowest(set) == c,
{
    let l = lowest(set);
    assert(set.contains(l) && forall|x: Seq<u8>| #[trigger] set.contains(x) ==> !lex_lt(x, l));
    if l != c {
        lemma_lex_total(l, c);
        assert(!lex_lt(l, c));
        assert(!lex_lt(c, l));
    }
}

/// What a reader finds for shard `i`: the block of the lowest identifier in
/// the forest under the hash of the shard's label, or why there is none.
pub open spec fn shard_at(
    forest: Map<Seq<u8>, Set<Seq<u8>>>,
    store: Map<Seq<u8>, Seq<u8>>,
    revision_name: nat,
    key: Seq<u8>,
    i: u64,
    modulus: nat,
) -> Result<Seq<u8>, FsError> {
    let seed = shard_seed(key, i);
    if no_prime_for(seed) {
        Err(FsError::FileShardNotFound)
    } else {
        let h = sha3_256_of(accumulator_bytes(seeded_value(revision_name, seed, modulus)));
        if !forest.contains_key(h) || forest[h] == Set::<Seq<u8>>::empty() {
            Err(FsError::FileShardNotFound)
        } else if !store.contains_key(lowest(forest[h])) {
            Err(FsError::BlockNotFound)
        } else {
            Ok(store[lowest(forest[h])])
        }
    }
}

/// Shards `i..count` read in order and joined, or the error of the first that fails.
pub open spec fn read_from(
    forest: Map<Seq<u8>, Set<Seq<u8>>>,
    store: Map<Seq<u8>, Seq<u8>>,
    revision_name: nat,
    key: Seq<u8>,
    i: u64,
    count: u64,
    modulus: nat,
) -> Result<Seq<u8>, FsError>
    decreases count - i,
{
    if i >= count {
        Ok(Seq::empty())
    } else {
        match shard_at(forest, store, revision_name, key, i, modulus) {
            Err(e) => Err(e),
            Ok(b) => match read_from(forest, store, revision_name, key, (i + 1) as u64, count, modulus) {
                Ok(rest) => Ok(b + rest),
                Err(e) => Err(e),
            },
        }
    }
}

/// Reads shards `from_index..count` of a file revision and joins them: shard
/// `i` is the block of the lowest identifier in the forest under the hash of
/// its label. Fails at the first shard whose seed has no prime or whose label
/// holds nothing (`FileShardNotFound`), or whose block is missing (`BlockNotFound`).
pub fn read_shards(
    key: &[u8],
    from_index: u64,
    count: u64,
    revision_name: &NameAccumulator,
    setup: &AccumulatorSetup,
    forest: &PrivateForest,
    store: &MemoryBlockStore,
) -> (r: Result<Vec<u8>, FsError>)
    requires
        revision_name.wf(),
        setup.wf(),
        forest.wf(),
        store.wf(),
    ensures
        match read_from(forest@, store@, revision_name@, key@, from_index, count, setup.modulus_value()) {
            Ok(c) => r matches Ok(v) && v@ == c,
            Err(e) => r == Err::<Vec<u8>, FsError>(e),
        },
{
    let mut out: Vec<u8> = Vec::new();
    let mut i: u64 = from_index;
    let ghost total = read_from(forest@, store@, revision_name@, key@, from_index, count, setup.modulus_value());
    proof {
        assert(out@ + Seq::<u8>::empty() =~= out@);
    }
    while i < count
        invariant
            revision_name.wf(),
            setup.wf(),
            forest.wf(),
            store.wf(),
            from_index <= i || count <= i,
            total == read_from(forest@, store@, revision_name@, key@, from_index, count, setup.modulus_value()),
            total == match read_from(forest@, store@, revision_name@, key@, i, count, setup.modulus_value()) {
                Ok(rest) => Ok(out@ + rest),
                Err(e) => Err::<Seq<u8>, FsError>(e),
            },
        decreases count - i,
    {
        let ghost seed = shard_seed(key@, i);
        let ghost n = setup.modulus_value();
        let ghost rest_after = read_from(forest@, store@, revision_name@, key@, (i + 1) as u64, count, n);
        let label = match create_block_label(key, i, revision_name, setup) {
            Some(l) => l,
            None => {
                return Err(FsError::FileShardNotFound);
            },
        };
        proof {
            let c = choose|c: u32| #[trigger] is_first_prime_candidate(seed, c)
                && label@ == pow(revision_name@ as int, le_value(prime_candidate(seed, c))) % (n as int);
            lemma_first_counter_unique(seed, c);
            label.lemma_value();
            assert(label@ == seeded_value(revision_name@, seed, n));
        }
        let hash = sha3_256(label.as_bytes());
        proof {
            lemma_accumulator_bytes(label.bytes());
            assert(hash@ == sha3_256_of(accumulator_bytes(seeded_value(revision_name@, seed, n))));
        }
        let set = match forest.get_encrypted(hash.as_slice()) {
            Some(s) => s,
            None => {
                return Err(FsError::FileShardNotFound);
            },
        };
        let cid = match PrivateForest::resolve_lowest(set.as_slice()) {
            Some(c) => c,
            None => {
                assert(cid_set(set@) =~= Set::<Seq<u8>>::empty());
                return Err(FsError::FileShardNotFound);
            },
        };
        proof {
            lemma_lowest_unique(cid_set(set@), cid@);
            assert(cid_set(set@) != Set::<Seq<u8>>::empty()) by {
                assert(cid_set(set@).contains(cid@));
            }
        }
        let block = match store.get_block(cid) {
            Ok(b) => b,
            Err(_) => {
                return Err(FsError::BlockNotFound);
            },
        };
        let ghost before = out@;
        extend_bytes(&mut out, block.as_slice());
        proof {
            match rest_after {
                Ok(rest) => {
                    assert(before + (block@ + rest) =~= out@ + rest);
                },
                Err(_) => {},
            }
        }
        i = i + 1;
    }
    proof {
        assert(out@ + Seq::<u8>::empty() =~= out@);
    }
    Ok(out)
}

/// The hash of the label of shard `i`.
pub open spec fn shard_hash(revision_name: nat, key: Seq<u8>, i: u64, modulus: nat) -> Seq<u8> {
    sha3_256_of(accumulator_bytes(seeded_value(revision_name, shard_seed(key, i), modulus)))
}

/// The labels of shards `0..n` are new to the forest and pairwise distinct,
/// and the shards' identifiers are pairwise distinct.
pub open spec fn fresh_shards(
    forest: Map<Seq<u8>, Set<Seq<u8>>>,
    revision_name: nat,
    key: Seq<u8>,
    n: nat,
    modulus: nat,
    parts: Seq<Seq<u8>>,
) -> bool {
    &&& forall|i: u64| i < n ==> !forest.contains_key(#[trigger] shard_hash(revision_name, key, i, modulus))
    &&& forall|i: u64, j: u64| i < j < n ==> #[trigger] shard_hash(revision_name, key, i, modulus)
        != #[trigger] shard_hash(revision_name, key, j, modulus)
    &&& forall|i: int, j: int| 0 <= i < j < parts.len() ==> #[trigger] cid_of(Codec::Raw, parts[i])
        != #[trigger] cid_of(Codec::Raw, parts[j])
}

/// Shard `i` is exactly what its label holds, and its block is in the store.
pub open spec fn shard_in_place(
    forest: Map<Seq<u8>, Set<Seq<u8>>>,
    store: Map<Seq<u8>, Seq<u8>>,
    revision_name: nat,
    key: Seq<u8>,
    parts: Seq<Seq<u8>>,
    modulus: nat,
    i: int,
) -> bool {
    let h = shard_hash(revision_name, key, i as u64, modulus);
    let c = cid_of(Codec::Raw, parts[i]);
    &&& forest.contains_key(h)
    &&& forest[h] == set![c]
    &&& store.contains_key(c)
    &&& store[c] == parts[i]
}

proof fn lemma_read_in_place(
    forest: Map<Seq<u8>, Set<Seq<u8>>>,
    store: Map<Seq<u8>, Seq<u8>>,
    revision_name: nat,
    key: Seq<u8>,
    parts: Seq<Seq<u8>>,
    modulus: nat,
    i: u64,
    n: u64,
)
    requires
        i <= n,
        n == parts.len(),
        forall|t: int| 0 <= t < n ==> #[trigger] shard_in_place(forest, store, revision_name, key, parts, modulus, t),
        forall|t: u64| t < n ==> !#[trigger] no_prime_for(shard_seed(key, t)),
    ensures
        read_from(forest, store, revision_name, key, i, n, modulus) == Ok::<Seq<u8>, FsError>(join(parts.subrange(i as int, n as int))),
    decreases n - i,
{
    if i == n {
        assert(parts.subrange(i as int, n as int) =~= Seq::<Seq<u8>>::empty());
    } else {
        assert(shard_in_place(forest, store, revision_name, key, parts, modulus, i as int));
        assert(!no_prime_for(shard_seed(key, i)));
        let c = cid_of(Codec::Raw, parts[i as int]);
        let h = shard_hash(revision_name, key, i, modulus);
        assert forall|x: Seq<u8>| #[trigger] forest[h].contains(x) implies !lex_lt(x, c) by {
            lemma_lex_irreflexive(c);
        }
        lemma_lowest_unique(forest[h], c);
        assert(forest[h] != Set::<Seq<u8>>::empty()) by {
            assert(forest[h].contains(c));
        }
        lemma_read_in_place(forest, store, revision_name, key, parts, modulus, (i + 1) as u64, n);
        assert(parts.subrange(i as int, n as int).drop_first() =~= parts.subrange(i + 1, n as int));
    }
}

/// Shards that are exactly in place read back as the content they were cut from.
pub proof fn lemma_shards_read_back(
    forest: Map<Seq<u8>, Set<Seq<u8>>>,
    store: Map<Seq<u8>, Seq<u8>>,
    revision_name: nat,
    key: Seq<u8>,
    content: Seq<u8>,
    modulus: nat,
    n: u64,
)
    requires
        n == shards(content, MAX_BLOCK_CONTENT_SIZE as nat).len(),
        forall|t: int| 0 <= t < n ==> #[trigger] shard_in_place(forest, store, revision_name, key,
            shards(content, MAX_BLOCK_CONTENT_SIZE as nat), modulus, t),
        forall|t: u64| t < n ==> !#[trigger] no_prime_for(shard_seed(key, t)),
    ensures
        read_from(forest, store, revision_name, key, 0, n, modulus) == Ok::<Seq<u8>, FsError>(content),
{
    let parts = shards(content, MAX_BLOCK_CONTENT_SIZE as nat);
    lemma_read_in_place(forest, store, revision_name, key, parts, modulus, 0, n);
    assert(parts.subrange(0, n as int) =~= parts);
    lemma_shards_round_trip(content, MAX_BLOCK_CONTENT_SIZE as nat);
}

} // verus!
