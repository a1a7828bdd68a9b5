use vstd::bytes::{spec_u32_to_le_bytes, spec_u64_to_le_bytes, u32_to_le_bytes, u64_to_le_bytes};
use vstd::prelude::*;
use vstd::wrapping::u64_specs;

verus! {

/// A key of a hash collection: the bytes it feeds a hasher, which are those
/// the standard `Hash` of the type writes on a little-endian machine, and
/// equality.
pub trait HashKey: Sized {
    spec fn spec_key_bytes(&self) -> Seq<u8>;

    /// The bytes the key feeds a hasher.
    fn key_bytes(&self) -> (r: Vec<u8>)
        ensures
            r@ == self.spec_key_bytes(),
    ;

    /// Whether two keys are equal.
    fn key_eq(&self, other: &Self) -> (r: bool)
        ensures
            r == (*self == *other),
    ;
}

impl HashKey for u64 {
    open spec fn spec_key_bytes(&self) -> Seq<u8> {
        spec_u64_to_le_bytes(*self)
    }

    fn key_bytes(&self) -> (r: Vec<u8>) {
        u64_to_le_bytes(*self)
    }

    fn key_eq(&self, other: &Self) -> (r: bool) {
        *self == *other
    }
}

impl HashKey for u32 {
    open spec fn spec_key_bytes(&self) -> Seq<u8> {
        spec_u32_to_le_bytes(*self)
    }

    fn key_bytes(&self) -> (r: Vec<u8>) {
        u32_to_le_bytes(*self)
    }

    fn key_eq(&self, other: &Self) -> (r: bool) {
        *self == *other
    }
}

/// Hashing of keys under a seed; the same key and seed always give the same
/// hash.
pub trait KeyHasher {
    spec fn spec_hash(&self, bytes: Seq<u8>, seed: u64) -> u64;

    /// The hash of `key` under `seed`.
    fn hash_with_seed<K: HashKey>(&self, key: &K, seed: u64) -> (r: u64)
        ensures
            r == self.spec_hash(key.spec_key_bytes(), seed),
    ;
}

/// A polynomial rolling hash whose multiplier per byte is drawn from the seed.
#[derive(Debug, Clone, Copy)]
pub struct RollingKeyHasher;

/// `x` rotated left by 7 bits.
pub open spec fn rotl7(x: u64) -> u64 {
    (x << 7u64) | (x >> 57u64)
}

/// One byte fed to the rolling state (hash value, multiplier).
pub open spec fn rolling_step(st: (u64, u64), b: u8) -> (u64, u64) {
    (
        u64_specs::wrapping_add(u64_specs::wrapping_mul(st.0, 31), u64_specs::wrapping_mul(b as u64, st.1)),
        u64_specs::wrapping_mul(rotl7(st.1), 31),
    )
}

/// The rolling state after feeding `bytes`, starting from hash 0 and
/// multiplier `seed`.
pub open spec fn rolling(bytes: Seq<u8>, seed: u64) -> (u64, u64)
    decreases bytes.len(),
{
    if bytes.len() == 0 {
        (0, seed)
    } else {
        rolling_step(rolling(bytes.drop_last(), seed), bytes.last())
    }
}

impl KeyHasher for RollingKeyHasher {
    open spec fn spec_hash(&self, bytes: Seq<u8>, seed: u64) -> u64 {
        rolling(bytes, seed).0
    }

    fn hash_with_seed<K: HashKey>(&self, key: &K, seed: u64) -> (r: u64) {
        let bytes = key.key_bytes();
        let mut val: u64 = 0;
        let mut mul: u64 = seed;
        let mut i: usize = 0;
        proof {
            assert(bytes@.take(0) =~= Seq::<u8>::empty());
        }
        while i < bytes.len()
            invariant
                i <= bytes@.len(),
                (val, mul) == rolling(bytes@.take(i as int), seed),
            decreases bytes@.len() - i,
        {
            let b = bytes[i];
            val = val.wrapping_mul(31).wrapping_add((b as u64).wrapping_mul(mul));
            mul = ((mul << 7u64) | (mul >> 57u64)).wrapping_mul(31);
            proof {
                assert(bytes@.take(i + 1).drop_last() =~= bytes@.take(i as int));
            }
            i = i + 1;
        }
        proof {
            assert(bytes@.take(bytes@.len() as int) =~= bytes@);
        }
        val
    }
}

} // verus!
