//! The hashing scheme of the table and the capabilities a key must offer.
//!
//! Every key is identified by a canonical byte image. Two values denote the
//! same key exactly when their byte images are equal, and the hash of a key
//! is a function of that image and of the table's seed.

use vstd::prelude::*;
use vstd::bytes::{spec_u64_to_le_bytes, spec_u64_from_le_bytes, u64_to_le_bytes,
    lemma_auto_spec_u64_to_from_le_bytes, spec_u32_to_le_bytes, spec_u32_from_le_bytes,
    u32_to_le_bytes, lemma_auto_spec_u32_to_from_le_bytes, spec_u16_to_le_bytes,
    spec_u16_from_le_bytes, u16_to_le_bytes, lemma_auto_spec_u16_to_from_le_bytes};
use vstd::string::StringSliceAdditionalSpecFns;

verus! {

/// Starting state of the hash, combined with the seed.
pub const HASH_BASIS: u64 = 0xcbf2_9ce4_8422_2325;

/// Multiplier applied after each byte is absorbed.
pub const HASH_PRIME: u64 = 0x0000_0100_0000_01b3;

/// The hash state after absorbing one more byte.
pub open spec fn mix(state: u64, byte: u8) -> u64 {
    vstd::wrapping::u64_specs::wrapping_mul(state ^ (byte as u64), HASH_PRIME)
}

/// The hash of a byte image under a seed: the bytes are absorbed front to back.
pub open spec fn hash_bytes(bytes: Seq<u8>, seed: u64) -> u64
    decreases bytes.len(),
{
    if bytes.len() == 0 {
        seed ^ HASH_BASIS
    } else {
        mix(hash_bytes(bytes.drop_last(), seed), bytes.last())
    }
}

/// Hashes a byte slice under a seed.
pub fn hash_slice(bytes: &[u8], seed: u64) -> (h: u64)
    ensures
        h == hash_bytes(bytes@, seed),
{
    let mut state: u64 = seed ^ HASH_BASIS;
    let mut i: usize = 0;
    while i < bytes.len()
        invariant
            i <= bytes@.len(),
            state == hash_bytes(bytes@.take(i as int), seed),
        decreases bytes@.len() - i,
    {
        proof {
            assert(bytes@.take(i + 1).drop_last() =~= bytes@.take(i as int));
        }
        state = (state ^ (bytes[i] as u64)).wrapping_mul(HASH_PRIME);
        i += 1;
    }
    proof {
        assert(bytes@.take(i as int) =~= bytes@);
    }
    state
}

/// Compares two byte slices.
pub fn bytes_equal(a: &[u8], b: &[u8]) -> (same: bool)
    ensures
        same == (a@ == b@),
{
    if a.len() != b.len() {
        return false;
    }
    let mut i: usize = 0;
    while i < a.len()
        invariant
            a@.len() == b@.len(),
            i <= a@.len(),
            a@.take(i as int) == b@.take(i as int),
        decreases a@.len() - i,
    {
        if a[i] != b[i] {
            return false;
        }
        proof {
            assert(a@.take(i + 1) =~= a@.take(i as int).push(a@[i as int]));
            assert(b@.take(i + 1) =~= b@.take(i as int).push(b@[i as int]));
        }
        i += 1;
    }
    proof {
        assert(a@.take(i as int) =~= a@);
        assert(b@.take(i as int) =~= b@);
    }
    true
}

/// A value that can be hashed under the table's scheme.
pub trait PhfHash {
    /// The canonical byte image that identifies the key.
    spec fn key_bytes(&self) -> Seq<u8>;

    /// The hash of the key under `seed`.
    fn phf_hash(&self, seed: u64) -> (h: u64)
        ensures
            h == hash_bytes(self.key_bytes(), seed),
    ;
}

/// A probe that can be compared with stored keys of type `K`.
pub trait PhfEquiv<K: PhfHash>: PhfHash {
    /// Whether the probe and `key` denote the same key.
    fn equiv(&self, key: &K) -> (same: bool)
        ensures
            same == (self.key_bytes() == key.key_bytes()),
    ;
}

impl PhfHash for u64 {
    open spec fn key_bytes(&self) -> Seq<u8> {
        spec_u64_to_le_bytes(*self)
    }

    fn phf_hash(&self, seed: u64) -> (h: u64) {
        let bytes = u64_to_le_bytes(*self);
        hash_slice(bytes.as_slice(), seed)
    }
}

impl PhfEquiv<u64> for u64 {
    fn equiv(&self, key: &u64) -> (same: bool) {
        proof {
            lemma_auto_spec_u64_to_from_le_bytes();
            assert(spec_u64_from_le_bytes(spec_u64_to_le_bytes(*self)) == *self);
            assert(spec_u64_from_le_bytes(spec_u64_to_le_bytes(*key)) == *key);
        }
        *self == *key
    }
}

impl PhfHash for u8 {
    open spec fn key_bytes(&self) -> Seq<u8> {
        seq![*self]
    }

    fn phf_hash(&self, seed: u64) -> (h: u64) {
        let bytes = vec![*self];
        proof {
            assert(bytes@ =~= seq![*self]);
        }
        hash_slice(bytes.as_slice(), seed)
    }
}

impl PhfEquiv<u8> for u8 {
    fn equiv(&self, key: &u8) -> (same: bool) {
        proof {
            assert(seq![*self][0] == *self);
            assert(seq![*key][0] == *key);
        }
        *self == *key
    }
}

impl PhfHash for u16 {
    open spec fn key_bytes(&self) -> Seq<u8> {
        spec_u16_to_le_bytes(*self)
    }

    fn phf_hash(&self, seed: u64) -> (h: u64) {
        let bytes = u16_to_le_bytes(*self);
        hash_slice(bytes.as_slice(), seed)
    }
}

impl PhfEquiv<u16> for u16 {
    fn equiv(&self, key: &u16) -> (same: bool) {
        proof {
            lemma_auto_spec_u16_to_from_le_bytes();
            assert(spec_u16_to_le_bytes(*self).len() == 2);
            assert(spec_u16_to_le_bytes(*key).len() == 2);
            assert(spec_u16_from_le_bytes(spec_u16_to_le_bytes(*self)) == *self);
            assert(spec_u16_from_le_bytes(spec_u16_to_le_bytes(*key)) == *key);
        }
        *self == *key
    }
}

impl PhfHash for u32 {
    open spec fn key_bytes(&self) -> Seq<u8> {
        spec_u32_to_le_bytes(*self)
    }

    fn phf_hash(&self, seed: u64) -> (h: u64) {
        let bytes = u32_to_le_bytes(*self);
        hash_slice(bytes.as_slice(), seed)
    }
}

impl PhfEquiv<u32> for u32 {
    fn equiv(&self, key: &u32) -> (same: bool) {
        proof {
            lemma_auto_spec_u32_to_from_le_bytes();
            assert(spec_u32_to_le_bytes(*self).len() == 4);
            assert(spec_u32_to_le_bytes(*key).len() == 4);
            assert(spec_u32_from_le_bytes(spec_u32_to_le_bytes(*self)) == *self);
            assert(spec_u32_from_le_bytes(spec_u32_to_le_bytes(*key)) == *key);
        }
        *self == *key
    }
}

impl PhfHash for str {
    open spec fn key_bytes(&self) -> Seq<u8> {
        self.spec_bytes()
    }

    fn phf_hash(&self, seed: u64) -> (h: u64) {
        hash_slice(self.as_bytes(), seed)
    }
}

impl<'a> PhfEquiv<&'a str> for str {
    fn equiv(&self, key: &&'a str) -> (same: bool) {
        bytes_equal(self.as_bytes(), key.as_bytes())
    }
}

impl PhfEquiv<String> for str {
    fn equiv(&self, key: &String) -> (same: bool) {
        bytes_equal(self.as_bytes(), key.as_str().as_bytes())
    }
}

impl<'a> PhfHash for &'a str {
    open spec fn key_bytes(&self) -> Seq<u8> {
        (*self).spec_bytes()
    }

    fn phf_hash(&self, seed: u64) -> (h: u64) {
        hash_slice(self.as_bytes(), seed)
    }
}

impl<'a, 'b> PhfEquiv<&'b str> for &'a str {
    fn equiv(&self, key: &&'b str) -> (same: bool) {
        bytes_equal(self.as_bytes(), key.as_bytes())
    }
}

impl PhfHash for String {
    open spec fn key_bytes(&self) -> Seq<u8> {
        vstd::utf8::encode_utf8(self@)
    }

    fn phf_hash(&self, seed: u64) -> (h: u64) {
        hash_slice(self.as_str().as_bytes(), seed)
    }
}

impl PhfEquiv<String> for String {
    fn equiv(&self, key: &String) -> (same: bool) {
        bytes_equal(self.as_str().as_bytes(), key.as_str().as_bytes())
    }
}

impl<'a> PhfEquiv<String> for &'a str {
    fn equiv(&self, key: &String) -> (same: bool) {
        bytes_equal(self.as_bytes(), key.as_str().as_bytes())
    }
}

} // verus!
