//! The bucket hash function.
//!
//! A key's bytes are folded into a 64-bit accumulator with a fixed
//! multiply-and-add recurrence; the bucket index is the hash reduced modulo
//! the bucket count. The function is fixed for the life of a storage file, so
//! a key always lands in the same bucket.

use vstd::prelude::*;

verus! {

/// Initial value of the hash accumulator.
pub const HASH_SEED: u64 = 19780211;

/// Multiplier of the hash recurrence.
pub const HASH_MULT: u64 = 37;

/// One step of the hash recurrence, wrapping at 64 bits.
pub open spec fn hash_step(h: u64, b: u8) -> u64 {
    (((h as int) * (HASH_MULT as int) + (b as int)) % 0x1_0000_0000_0000_0000) as u64
}

/// The hash of a byte sequence: the seed folded through `hash_step`.
pub open spec fn hash_of(s: Seq<u8>) -> u64
    decreases s.len(),
{
    if s.len() == 0 {
        HASH_SEED
    } else {
        hash_step(hash_of(s.drop_last()), s.last())
    }
}

/// The bucket a key belongs to in a table of `n` buckets.
pub open spec fn spec_bucket_of(k: Seq<u8>, n: u64) -> int
    recommends
        n >= 1,
{
    hash_of(k) as int % n as int
}

/// Computes the hash of `key`.
pub fn hash_bytes(key: &Vec<u8>) -> (h: u64)
    ensures
        h == hash_of(key@),
{
    let mut h: u64 = HASH_SEED;
    let mut i: usize = 0;
    while i < key.len()
        invariant
            0 <= i <= key@.len(),
            h == hash_of(key@.take(i as int)),
        decreases key@.len() - i,
    {
        let b = key[i];
        let wide: u128 = (h as u128) * (HASH_MULT as u128) + (b as u128);
        let next: u64 = (wide % 0x1_0000_0000_0000_0000u128) as u64;
        proof {
            assert(key@.take(i + 1).drop_last() =~= key@.take(i as int));
            assert(key@.take(i + 1).last() == key@[i as int]);
            assert(next == hash_step(h, b));
        }
        h = next;
        i = i + 1;
    }
    proof {
        assert(key@.take(key@.len() as int) =~= key@);
    }
    h
}

/// Computes the bucket index of `key` in a table of `n` buckets.
pub fn bucket_of(key: &Vec<u8>, n: u64) -> (b: usize)
    requires
        1 <= n <= usize::MAX,
    ensures
        b as int == spec_bucket_of(key@, n),
        b < n,
{
    (hash_bytes(key) % n) as usize
}

} // verus!
