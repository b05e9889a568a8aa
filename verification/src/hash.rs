//! The 64-bit FNV-1a hash over a key's UTF-8 bytes, and the bucket index it
//! selects under a given bucket count.

use vstd::prelude::*;

verus! {

/// FNV-1a offset basis for the 64-bit variant: the accumulator's start value.
pub const FNV_OFFSET_BASIS: u64 = 14695981039346656037;

/// FNV-1a prime for the 64-bit variant.
pub const FNV_PRIME: u64 = 1099511628211;

/// One FNV-1a folding step: xor the byte in, then multiply by the prime
/// modulo 2^64.
pub open spec fn fnv1a_step(acc: u64, byte: u8) -> u64 {
    vstd::wrapping::u64_specs::wrapping_mul(acc ^ (byte as u64), FNV_PRIME)
}

/// The accumulator after folding every byte of `bytes`, in order, into `acc`.
pub open spec fn fnv1a_from(acc: u64, bytes: Seq<u8>) -> u64
    decreases bytes.len(),
{
    if bytes.len() == 0 {
        acc
    } else {
        fnv1a_from(fnv1a_step(acc, bytes[0]), bytes.drop_first())
    }
}

/// The 64-bit FNV-1a hash of a byte sequence.
pub open spec fn fnv1a(bytes: Seq<u8>) -> u64 {
    fnv1a_from(FNV_OFFSET_BASIS, bytes)
}

/// The bucket a key belongs to: its FNV-1a hash (over the key's UTF-8
/// encoding) reduced modulo the bucket count.
pub open spec fn spec_bucket_index(key: Seq<char>, bucket_count: nat) -> nat
    recommends
        bucket_count >= 1,
{
    fnv1a(vstd::utf8::encode_utf8(key)) as nat % bucket_count
}

/// The full 64-bit FNV-1a hash of a key's UTF-8 bytes, before any modulo.
pub fn fnv1a_hash(key: &str) -> (h: u64)
    ensures
        h == fnv1a(vstd::utf8::encode_utf8(key@)),
{
    let bytes: &[u8] = key.as_bytes();
    let ghost all: Seq<u8> = bytes@;
    let mut h: u64 = FNV_OFFSET_BASIS;
    let mut i: usize = 0;
    proof {
        assert(all.skip(0) =~= all);
    }
    while i < bytes.len()
        invariant
            i <= all.len(),
            bytes@ == all,
            fnv1a_from(h, all.skip(i as int)) == fnv1a(all),
        decreases all.len() - i,
    {
        proof {
            assert(all.skip(i as int).drop_first() =~= all.skip(i + 1));
            assert(all.skip(i as int)[0] == all[i as int]);
        }
        h = (h ^ (bytes[i] as u64)).wrapping_mul(FNV_PRIME);
        i = i + 1;
    }
    proof {
        assert(all.skip(all.len() as int) =~= Seq::<u8>::empty());
    }
    h
}

} // verus!
