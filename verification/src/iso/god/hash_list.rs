//! Pages of SHA-1 hashes.

use vstd::prelude::*;
use sha1::{Digest, Sha1};
use super::BLOCK_SIZE;

verus! {

/// Bytes in a hash.
pub const HASH_SIZE: usize = 20;

/// Hashes that fit on a page.
pub const MAX_HASHES: usize = 204;

/// The SHA-1 hash of a message.
pub uninterp spec fn sha1_hash(message: Seq<u8>) -> Seq<u8>;

/// Calls `Sha1::digest` of the `sha1` crate: the SHA-1 hash, which has 20 bytes. The length
/// of the message in bits must fit in 64 bits.
#[verifier::external_body]
pub(crate) fn sha1(message: &[u8]) -> (hash: Vec<u8>)
    requires
        message@.len() < 0x2000_0000_0000_0000,
    ensures
        hash@ == sha1_hash(message@),
        hash@.len() == HASH_SIZE,
{
    Sha1::digest(message).to_vec()
}

/// The 20 bytes of the hash of a message.
pub open spec fn hash_of(message: Seq<u8>) -> Seq<u8> {
    Seq::new(HASH_SIZE as nat, |i: int| sha1_hash(message)[i])
}

/// A page that starts with `hashes` and holds zeros from there on.
pub open spec fn page(hashes: Seq<u8>) -> Seq<u8> {
    Seq::new(BLOCK_SIZE as nat, |i: int| if i < hashes.len() { hashes[i] } else { 0u8 })
}

/// Hashes a message of at most a block.
fn hash_block(message: &[u8]) -> (hash: Vec<u8>)
    requires
        message@.len() <= BLOCK_SIZE,
    ensures
        hash@ == hash_of(message@),
{
    let hash = sha1(message);
    assert(hash@ =~= hash_of(message@));
    hash
}

/// A list of hashes that fits on a page.
#[derive(Debug)]
pub struct HashList {
    hashes: Vec<u8>,
}

impl HashList {
    /// The hashes, one behind the other.
    pub closed spec fn view(&self) -> Seq<u8> {
        self.hashes@
    }

    /// The list holds whole hashes and fits on a page.
    pub open spec fn wf(&self) -> bool {
        self@.len() % HASH_SIZE as nat == 0 && self@.len() <= MAX_HASHES * HASH_SIZE
    }

    /// There is room for one more hash.
    pub open spec fn has_room(&self) -> bool {
        self@.len() < MAX_HASHES * HASH_SIZE
    }

    /// An empty list.
    pub fn new() -> (l: HashList)
        ensures
            l@ == Seq::<u8>::empty(),
            l.wf(),
    {
        HashList { hashes: Vec::new() }
    }

    /// The same list once more.
    pub fn copy(&self) -> (l: HashList)
        ensures
            l@ == self@,
    {
        let mut hashes: Vec<u8> = Vec::new();
        hashes.extend_from_slice(self.hashes.as_slice());
        assert(hashes@ =~= self.hashes@);
        HashList { hashes }
    }

    /// Adds a hash.
    pub fn add_hash(&mut self, hash: &[u8])
        requires
            old(self).wf(),
            old(self).has_room(),
            hash@.len() == HASH_SIZE,
        ensures
            final(self).wf(),
            final(self)@ == old(self)@ + hash@,
    {
        self.hashes.extend_from_slice(hash);
        assert(self@ =~= old(self)@ + hash@);
    }

    /// Adds the hash of a block.
    pub fn add_block_hash(&mut self, block: &[u8])
        requires
            old(self).wf(),
            old(self).has_room(),
            block@.len() <= BLOCK_SIZE,
        ensures
            final(self).wf(),
            final(self)@ == old(self)@ + hash_of(block@),
    {
        let hash = hash_block(block);
        self.add_hash(hash.as_slice());
    }

    /// The page that holds the list.
    pub fn bytes(&self) -> (b: Vec<u8>)
        requires
            self.wf(),
        ensures
            b@ == page(self@),
    {
        let mut b: Vec<u8> = Vec::new();
        b.extend_from_slice(self.hashes.as_slice());
        let ghost before = b@;
        b.resize(BLOCK_SIZE as usize, 0);
        assert forall|k: int| 0 <= k < BLOCK_SIZE implies b@[k] == page(self@)[k] by {
            if k < self.hashes@.len() {
                assert(b@[k] == before[k]);
            }
        }
        assert(b@ =~= page(self@));
        b
    }

    /// The hash of the page that holds the list.
    pub fn digest(&self) -> (hash: Vec<u8>)
        requires
            self.wf(),
        ensures
            hash@ == hash_of(page(self@)),
    {
        let b = self.bytes();
        hash_block(b.as_slice())
    }
}

} // verus!
