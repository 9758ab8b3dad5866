use std::collections::hash_map::DefaultHasher;
use std::hash::Hasher;
use vstd::bytes::spec_u64_to_le_bytes;
use vstd::bytes::u64_to_le_bytes;
use vstd::prelude::*;
use vstd::std_specs::hash::DefaultHasherAdditionalSpecFns;
use vstd::utf8::encode_utf8;

verus! {

/// What a table key must offer: a hash that is a deterministic function of
/// the key's abstract value, equality that decides abstract equality, and
/// duplication that preserves the abstract value. Every table stores keys by
/// value, so keys are duplicated into the table on insert.
pub trait Key: View + Sized {
    /// The hash, as a function of the key's abstract value alone. Two keys
    /// with the same abstract value therefore always land on the same slot.
    spec fn key_hash(a: Self::V) -> u64;

    /// Hash this key.
    fn hash_key(&self) -> (h: u64)
        ensures
            h == Self::key_hash(self@),
    ;

    /// Decide whether two keys have the same abstract value.
    fn eq_key(&self, other: &Self) -> (b: bool)
        ensures
            b == (self@ == other@),
    ;

    /// Duplicate this key without changing its abstract value.
    fn clone_key(&self) -> (c: Self)
        ensures
            c@ == self@,
    ;
}

/// What a table value must offer: duplication that preserves the abstract
/// value. Reads hand back a copy of the stored value, never a reference.
pub trait Value: View + Sized {
    /// Duplicate this value without changing its abstract value.
    fn clone_value(&self) -> (c: Self)
        ensures
            c@ == self@,
    ;
}

impl Key for String {
    open spec fn key_hash(a: Seq<char>) -> u64 {
        DefaultHasher::spec_finish(seq![encode_utf8(a)])
    }

    fn hash_key(&self) -> u64 {
        let mut hasher = DefaultHasher::new();
        hasher.write(self.as_str().as_bytes());
        hasher.finish()
    }

    fn eq_key(&self, other: &Self) -> bool {
        *self == *other
    }

    fn clone_key(&self) -> Self {
        self.clone()
    }
}

impl Value for String {
    fn clone_value(&self) -> Self {
        self.clone()
    }
}

impl Key for u64 {
    open spec fn key_hash(a: u64) -> u64 {
        DefaultHasher::spec_finish(seq![spec_u64_to_le_bytes(a)])
    }

    fn hash_key(&self) -> u64 {
        let mut hasher = DefaultHasher::new();
        let bytes = u64_to_le_bytes(*self);
        hasher.write(bytes.as_slice());
        hasher.finish()
    }

    fn eq_key(&self, other: &Self) -> bool {
        *self == *other
    }

    fn clone_key(&self) -> Self {
        *self
    }
}

impl Value for u64 {
    fn clone_value(&self) -> Self {
        *self
    }
}

} // verus!
