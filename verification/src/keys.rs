//! Key and value implementations for common plain types, hashing through
//! the `fxhash` crate.

use crate::{Key, Value};
use vstd::prelude::*;

verus! {

/// The 64-bit hash that `fxhash::hash64` assigns to a `u64`.
pub uninterp spec fn fx_hash64_of(k: u64) -> u64;

/// Relies on fxhash::hash64: a deterministic hash whose result is a
/// function of the input value alone.
#[verifier::external_body]
fn fx_hash64(k: &u64) -> (h: u64)
    ensures
        h == fx_hash64_of(*k),
{
    fxhash::hash64(k)
}

impl Key for u64 {
    open spec fn hash_spec(&self) -> u64 {
        fx_hash64_of(*self)
    }

    fn key_hash(&self) -> (h: u64) {
        fx_hash64(self)
    }

    fn key_eq(&self, other: &Self) -> (r: bool) {
        *self == *other
    }

    fn key_clone(&self) -> (r: Self) {
        *self
    }
}

impl Key for char {
    open spec fn hash_spec(&self) -> u64 {
        fx_hash64_of(*self as u64)
    }

    fn key_hash(&self) -> (h: u64) {
        let c: u64 = *self as u64;
        fx_hash64(&c)
    }

    fn key_eq(&self, other: &Self) -> (r: bool) {
        *self == *other
    }

    fn key_clone(&self) -> (r: Self) {
        *self
    }
}

/// A pair key hashed by its first component alone: two pairs that share
/// the first component collide on the full 64-bit hash, which drives the
/// trie to its maximal depth and into list nodes.
impl Key for (u64, u64) {
    open spec fn hash_spec(&self) -> u64 {
        fx_hash64_of(self.0)
    }

    fn key_hash(&self) -> (h: u64) {
        fx_hash64(&self.0)
    }

    fn key_eq(&self, other: &Self) -> (r: bool) {
        self.0 == other.0 && self.1 == other.1
    }

    fn key_clone(&self) -> (r: Self) {
        (self.0, self.1)
    }
}

impl Value for u64 {
    fn val_clone(&self) -> (r: Self) {
        *self
    }
}

impl Value for i32 {
    fn val_clone(&self) -> (r: Self) {
        *self
    }
}

impl Value for char {
    fn val_clone(&self) -> (r: Self) {
        *self
    }
}

} // verus!
