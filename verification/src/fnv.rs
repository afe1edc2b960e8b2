//! A 64-bit hash of the FNV-1a construction: exclusive-or with each byte, then
//! a wrapping multiplication.
//!
//! The multiplier is 2^44 + 0x1b3, which is not the prime of the published
//! 64-bit FNV. Identifiers hashed with it are stored, so it stays. The output
//! depends on the bytes alone: what is hashed today hashes to the same number
//! under any later toolchain.

use vstd::prelude::*;

verus! {

/// The hash of no bytes.
pub const OFFSET_BASIS: u64 = 0xcbf2_9ce4_8422_2325;

/// What the hash is multiplied by for each byte.
pub const MULTIPLIER: u64 = 0x1000_0000_01b3;

/// The hash after one more byte.
pub open spec fn step(hash: u64, byte: u8) -> u64 {
    (hash ^ (byte as u64)).wrapping_mul(MULTIPLIER)
}

/// The hash after more bytes.
pub open spec fn hash_from(hash: u64, bytes: Seq<u8>) -> u64
    decreases bytes.len(),
{
    if bytes.len() == 0 {
        hash
    } else {
        step(hash_from(hash, bytes.drop_last()), bytes.last())
    }
}

/// The hash of a sequence of bytes.
pub open spec fn hash_of(bytes: Seq<u8>) -> u64 {
    hash_from(OFFSET_BASIS, bytes)
}

/// Hashing two sequences one after the other hashes their concatenation.
pub proof fn lemma_hash_concat(hash: u64, a: Seq<u8>, b: Seq<u8>)
    ensures
        hash_from(hash_from(hash, a), b) == hash_from(hash, a + b),
    decreases b.len(),
{
    if b.len() == 0 {
        assert(a + b =~= a);
    } else {
        lemma_hash_concat(hash, a, b.drop_last());
        assert((a + b).drop_last() =~= a + b.drop_last());
        assert((a + b).last() == b.last());
    }
}

/// The hash after more bytes.
pub fn absorb(hash: u64, bytes: &[u8]) -> (r: u64)
    ensures
        r == hash_from(hash, bytes@),
{
    let mut r: u64 = hash;
    let mut i: usize = 0;
    while i < bytes.len()
        invariant
            i <= bytes@.len(),
            r == hash_from(hash, bytes@.take(i as int)),
        decreases bytes@.len() - i,
    {
        assert(bytes@.take(i + 1).drop_last() =~= bytes@.take(i as int));
        r = (r ^ (bytes[i] as u64)).wrapping_mul(MULTIPLIER);
        i = i + 1;
    }
    assert(bytes@.take(bytes@.len() as int) =~= bytes@);
    r
}

// ---------------------------------------------------------------------------
// Laws
// ---------------------------------------------------------------------------

/// One more byte is mixed into the low bits of the hash of those before it, and
/// the result multiplied, as far as it fits 64 bits. The hash of no bytes is
/// where that starts.
pub proof fn law_bytes_are_mixed_in_one_by_one(bytes: Seq<u8>, byte: u8)
    ensures
        hash_of(Seq::<u8>::empty()) == 0xcbf2_9ce4_8422_2325u64,
        hash_of(bytes.push(byte)) as int == ((hash_of(bytes) ^ (byte as u64)) as int
            * 0x1000_0000_01b3) % 0x1_0000_0000_0000_0000,
{
    assert(bytes.push(byte).drop_last() =~= bytes);
}

} // verus!
