use vstd::prelude::*;

use crate::bytemap::ByteMap;
use crate::bytes::extend_bytes;
use crate::cid::{cid_of, Cid, Codec};
use crate::error::FsError;
use crate::hash::sha2_256;

verus! {

/// The largest block a store accepts, in bytes.
pub const MAX_BLOCK_SIZE: usize = 262144;

/// An in-memory content-addressed block store.
pub struct MemoryBlockStore {
    blocks: ByteMap<Vec<u8>>,
}

impl MemoryBlockStore {
    pub closed spec fn wf(&self) -> bool {
        self.blocks.wf()
    }

    /// The blocks, by the binary form of their identifier.
    pub closed spec fn view(&self) -> Map<Seq<u8>, Seq<u8>> {
        self.blocks@.map_values(|v: Vec<u8>| v@)
    }

    /// An empty store.
    pub fn new() -> (r: Self)
        ensures
            r.wf(),
            r@ == Map::<Seq<u8>, Seq<u8>>::empty(),
    {
        let r = MemoryBlockStore { blocks: ByteMap::new() };
        assert(r@ =~= Map::<Seq<u8>, Seq<u8>>::empty());
        r
    }

    /// Computes the identifier of a block.
    pub fn block_cid(bytes: &[u8], codec: Codec) -> (r: Cid)
        ensures
            r@ == cid_of(codec, bytes@),
    {
        let mut v: Vec<u8> = Vec::new();
        v.push(1u8);
        v.push(codec.code());
        v.push(crate::cid::SHA2_256_CODE);
        v.push(32u8);
        let digest = sha2_256(bytes);
        extend_bytes(&mut v, digest.as_slice());
        assert(v@ =~= cid_of(codec, bytes@));
        Cid::from_bytes(v)
    }

    /// Stores a block and returns its identifier. A block larger than
    /// `MAX_BLOCK_SIZE` is refused.
    pub fn put_block(&mut self, bytes: Vec<u8>, codec: Codec) -> (r: Result<Cid, FsError>)
        requires
            old(self).wf(),
        ensures
            final(self).wf(),
            bytes@.len() > MAX_BLOCK_SIZE ==> r == Err::<Cid, FsError>(FsError::BlockTooLarge)
                && final(self)@ == old(self)@,
            bytes@.len() <= MAX_BLOCK_SIZE ==> r is Ok && r->Ok_0@ == cid_of(codec, bytes@)
                && final(self)@ == old(self)@.insert(cid_of(codec, bytes@), bytes@),
    {
        if bytes.len() > MAX_BLOCK_SIZE {
            return Err(FsError::BlockTooLarge);
        }
        let cid = Self::block_cid(bytes.as_slice(), codec);
        let key = crate::bytes::bytes_to_vec(cid.as_bytes());
        let ghost b = bytes@;
        self.blocks.insert(key, bytes);
        assert(self@ =~= old(self)@.insert(cid@, b));
        Ok(cid)
    }

    /// The block stored under `cid`.
    pub fn get_block(&self, cid: &Cid) -> (r: Result<&Vec<u8>, FsError>)
        requires
            self.wf(),
        ensures
            match r {
                Ok(b) => self@.contains_key(cid@) && self@[cid@] == b@,
                Err(e) => e == FsError::BlockNotFound && !self@.contains_key(cid@),
            },
    {
        match self.blocks.get(cid.as_bytes()) {
            Some(b) => Ok(b),
            None => Err(FsError::BlockNotFound),
        }
    }
}

} // verus!
