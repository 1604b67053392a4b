use crate::hashing::digest_of;
use crate::hashing::make_zero_hash;
use crate::hashing::sha256_digest;
use crate::hashing::zero_hash;
use crate::transaction::push_bytes;
use crate::transaction::tx_bytes;
use crate::transaction::Transaction;
use vstd::prelude::*;

verus! {

/// A unit of the chain: an ordered list of transactions together with the
/// header fields that tie it to its predecessor and to its proof of work.
pub struct Block {
    pub index: u32,
    pub timestamp: u128,
    pub hash: crate::hashing::Hash,
    pub previous_block_hash: crate::hashing::Hash,
    pub nonce: u64,
    pub transactions: Vec<Transaction>,
    pub difficulty: u128,
}

/// Canonical bytes of a sequence of transactions: their canonical bytes, in
/// order.
pub open spec fn txs_bytes(txs: Seq<Transaction>) -> Seq<u8>
    decreases txs.len(),
{
    if txs.len() == 0 {
        Seq::<u8>::empty()
    } else {
        txs_bytes(txs.drop_last()) + tx_bytes(txs.last())
    }
}

/// Canonical bytes of a block, were its nonce `nonce`: index, timestamp,
/// previous-block hash, nonce and difficulty in little-endian byte order,
/// with every transaction's canonical bytes between nonce and difficulty.
/// The block's own `hash` field is not part of its preimage.
pub open spec fn block_bytes_at(b: Block, nonce: u64) -> Seq<u8> {
    vstd::bytes::spec_u32_to_le_bytes(b.index) + vstd::bytes::spec_u128_to_le_bytes(b.timestamp)
        + b.previous_block_hash@ + vstd::bytes::spec_u64_to_le_bytes(nonce) + txs_bytes(
        b.transactions@,
    ) + vstd::bytes::spec_u128_to_le_bytes(b.difficulty)
}

/// Canonical bytes of a block at its own nonce.
pub open spec fn block_bytes(b: Block) -> Seq<u8> {
    block_bytes_at(b, b.nonce)
}

/// The numeric value a digest is held against: its last sixteen bytes read
/// as a little-endian 128-bit integer.
pub open spec fn hash_tail_value(h: Seq<u8>) -> u128 {
    vstd::bytes::spec_u128_from_le_bytes(h.subrange(16, 32))
}

/// Whether the block's digest, were its nonce `nonce`, falls strictly below
/// its difficulty ceiling. A larger difficulty admits more digests.
pub open spec fn pow_at(b: Block, nonce: u64) -> bool {
    hash_tail_value(digest_of(block_bytes_at(b, nonce))) < b.difficulty
}

/// Whether the block's digest at its own nonce falls below its difficulty.
pub open spec fn pow_ok(b: Block) -> bool {
    pow_at(b, b.nonce)
}

/// The numeric value of a digest: its last sixteen bytes read as a
/// little-endian 128-bit integer.
pub fn difficulty_bytes_as_u128(v: &crate::hashing::Hash) -> (r: u128)
    requires
        v@.len() == 32,
    ensures
        r == hash_tail_value(v@),
{
    let s = vstd::slice::slice_subrange(v.as_slice(), 16, 32);
    vstd::bytes::u128_from_le_bytes(s)
}

/// Whether a digest satisfies the proof-of-work ceiling: its numeric value
/// is strictly below `difficulty`.
pub fn check_difficulty(hash: &crate::hashing::Hash, difficulty: u128) -> (r: bool)
    requires
        hash@.len() == 32,
    ensures
        r == (difficulty > hash_tail_value(hash@)),
{
    difficulty > difficulty_bytes_as_u128(hash)
}

/// Append the canonical bytes of each transaction of `txs` to `dst`, in order.
fn append_txs_bytes(dst: &mut Vec<u8>, txs: &Vec<Transaction>)
    ensures
        final(dst)@ == old(dst)@ + txs_bytes(txs@),
{
    let mut i: usize = 0;
    while i < txs.len()
        invariant
            i <= txs@.len(),
            dst@ == old(dst)@ + txs_bytes(txs@.take(i as int)),
        decreases txs@.len() - i,
    {
        let tb = txs[i].bytes();
        push_bytes(dst, tb.as_slice());
        proof {
            assert(txs@.take(i + 1).drop_last() =~= txs@.take(i as int));
            assert(dst@ =~= old(dst)@ + txs_bytes(txs@.take(i + 1)));
        }
        i = i + 1;
    }
    proof {
        assert(txs@.take(txs@.len() as int) =~= txs@);
    }
}

impl Block {
    /// Construct a block with a zeroed hash and nonce 0. No validation
    /// happens here; acceptance is the chain's responsibility.
    pub fn new(
        index: u32,
        timestamp: u128,
        previous_block_hash: crate::hashing::Hash,
        transactions: Vec<Transaction>,
        difficulty: u128,
    ) -> (r: Block)
        ensures
            r.index == index,
            r.timestamp == timestamp,
            r.previous_block_hash == previous_block_hash,
            r.transactions == transactions,
            r.difficulty == difficulty,
            r.hash@ == zero_hash(),
            r.nonce == 0,
    {
        Block {
            index,
            timestamp,
            hash: make_zero_hash(),
            previous_block_hash,
            nonce: 0,
            transactions,
            difficulty,
        }
    }

    /// The canonical byte serialization of this block at its current nonce.
    pub fn bytes(&self) -> (r: Vec<u8>)
        ensures
            r@ == block_bytes(*self),
    {
        let mut r: Vec<u8> = Vec::new();
        let ib = vstd::bytes::u32_to_le_bytes(self.index);
        push_bytes(&mut r, ib.as_slice());
        let tb = vstd::bytes::u128_to_le_bytes(self.timestamp);
        push_bytes(&mut r, tb.as_slice());
        push_bytes(&mut r, self.previous_block_hash.as_slice());
        let nb = vstd::bytes::u64_to_le_bytes(self.nonce);
        push_bytes(&mut r, nb.as_slice());
        append_txs_bytes(&mut r, &self.transactions);
        let db = vstd::bytes::u128_to_le_bytes(self.difficulty);
        push_bytes(&mut r, db.as_slice());
        proof {
            assert(r@ =~= block_bytes(*self));
        }
        r
    }

    /// The digest of this block's canonical bytes, derived from the block's
    /// current field values alone; the stored `hash` field plays no part.
    pub fn hash(&self) -> (r: crate::hashing::Hash)
        ensures
            r@ == digest_of(block_bytes(*self)),
            r@.len() == 32,
    {
        let b = self.bytes();
        sha256_digest(&b)
    }

    /// Search nonces from 0 upward and commit the first digest that falls
    /// below the difficulty ceiling into the `hash` field. Every other field
    /// is left as it was. If no nonce below `u64::MAX` satisfies the ceiling,
    /// the search ends with the hash unchanged.
    pub fn mine(&mut self)
        ensures
            final(self).index == old(self).index,
            final(self).timestamp == old(self).timestamp,
            final(self).previous_block_hash == old(self).previous_block_hash,
            final(self).transactions == old(self).transactions,
            final(self).difficulty == old(self).difficulty,
            (exists|n: u64| n < u64::MAX && pow_at(*old(self), n)) ==> {
                &&& pow_at(*old(self), final(self).nonce)
                &&& forall|m: u64| m < final(self).nonce ==> !pow_at(*old(self), m)
                &&& final(self).hash@ == digest_of(block_bytes(*final(self)))
                &&& pow_ok(*final(self))
            },
            !(exists|n: u64| n < u64::MAX && pow_at(*old(self), n)) ==> {
                &&& final(self).hash == old(self).hash
                &&& final(self).nonce == u64::MAX - 1
            },
    {
        let mut n: u64 = 0;
        while n < u64::MAX
            invariant
                self.index == old(self).index,
                self.timestamp == old(self).timestamp,
                self.previous_block_hash == old(self).previous_block_hash,
                self.transactions == old(self).transactions,
                self.difficulty == old(self).difficulty,
                self.hash == old(self).hash,
                forall|m: u64| m < n ==> !pow_at(*old(self), m),
                n > 0 ==> self.nonce == n - 1,
                n == 0 ==> self.nonce == old(self).nonce,
            decreases u64::MAX - n,
        {
            self.nonce = n;
            let h = self.hash();
            if check_difficulty(&h, self.difficulty) {
                proof {
                    assert(pow_at(*old(self), n));
                    assert(exists|k: u64| k < u64::MAX && pow_at(*old(self), k));
                }
                self.hash = h;
                return ;
            }
            n = n + 1;
        }
    }
}

/// The nonce search is deterministic: two blocks with equal fields and equal
/// difficulty admit the same least satisfying nonce, and the digest found at
/// it is the same.
pub proof fn lemma_mine_deterministic(a: Block, b: Block, na: u64, nb: u64)
    requires
        a.index == b.index,
        a.timestamp == b.timestamp,
        a.previous_block_hash@ == b.previous_block_hash@,
        a.transactions == b.transactions,
        a.difficulty == b.difficulty,
        pow_at(a, na),
        forall|m: u64| m < na ==> !pow_at(a, m),
        pow_at(b, nb),
        forall|m: u64| m < nb ==> !pow_at(b, m),
    ensures
        na == nb,
        digest_of(block_bytes_at(a, na)) == digest_of(block_bytes_at(b, nb)),
{
    assert(forall|m: u64| block_bytes_at(a, m) == block_bytes_at(b, m));
    if na < nb {
        assert(!pow_at(b, na));
        assert(false);
    }
    if nb < na {
        assert(!pow_at(a, nb));
        assert(false);
    }
}

} // verus!
