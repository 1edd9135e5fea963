//! The hashing capability a key type must supply.
//!
//! The table does not hard-code a hash algorithm. Instead, a key type
//! implements [`HashKey`]: it names a deterministic hash of its abstract
//! value (`hash_spec`), computes that hash executably (`hash_code`), and
//! decides equality of abstract values (`key_eq`). Because the hash is a
//! function of the abstract value alone, equal keys hash identically.

use std::collections::hash_map::DefaultHasher;
use std::hash::Hasher;
use vstd::prelude::*;
use vstd::std_specs::hash::DefaultHasherAdditionalSpecFns;

verus! {

/// A key for the hash table: a type with an abstract value (its view), a
/// deterministic hash of that value, and an equality test on it.
pub trait HashKey: View + Sized {
    /// The hash of a key's abstract value. Deterministic by construction:
    /// two keys with equal views get equal hashes.
    spec fn hash_spec(k: Self::V) -> u64;

    /// Compute the hash of this key.
    fn hash_code(&self) -> (h: u64)
        ensures
            h == Self::hash_spec(self@),
    ;

    /// Decide whether two keys have the same abstract value.
    fn key_eq(&self, other: &Self) -> (r: bool)
        ensures
            r == (self@ == other@),
    ;
}

impl HashKey for u64 {
    /// An integer is its own hash. This keeps bucket placement predictable
    /// and is as consistent with equality as any hash can be.
    open spec fn hash_spec(k: u64) -> u64 {
        k
    }

    fn hash_code(&self) -> (h: u64)
        ensures
            h == Self::hash_spec(self@),
    {
        *self
    }

    fn key_eq(&self, other: &Self) -> (r: bool)
        ensures
            r == (self@ == other@),
    {
        *self == *other
    }
}

impl HashKey for String {
    /// A string hashes as one `DefaultHasher` write of its UTF-8 bytes,
    /// which are a function of its character sequence.
    open spec fn hash_spec(k: Seq<char>) -> u64 {
        DefaultHasher::spec_finish(seq![vstd::utf8::encode_utf8(k)])
    }

    fn hash_code(&self) -> (h: u64)
        ensures
            h == Self::hash_spec(self@),
    {
        let mut hasher = DefaultHasher::new();
        hasher.write(self.as_str().as_bytes());
        hasher.finish()
    }

    fn key_eq(&self, other: &Self) -> (r: bool)
        ensures
            r == (self@ == other@),
    {
        *self == *other
    }
}

} // verus!
