//! What a trie asks of its keys: a stable hash, an equality test and a way
//! to duplicate a key.

use crate::bits::HashVal;
use std::collections::hash_map::DefaultHasher;
use std::hash::{Hash, Hasher};
use vstd::prelude::*;
use vstd::std_specs::hash::DefaultHasherAdditionalSpecFns;

verus! {

/// A key of a trie.
pub trait Key: Sized {
    /// The hash of the key: the same for equal keys, whenever it is asked.
    spec fn hash_spec(&self) -> HashVal;

    /// Computes the hash of the key.
    fn key_hash(&self) -> (h: HashVal)
        ensures
            h == self.hash_spec(),
    ;

    /// Whether two keys are the same key.
    fn key_eq(&self, other: &Self) -> (b: bool)
        ensures
            b == (*self == *other),
    ;

    /// A second copy of the key.
    fn key_clone(&self) -> (c: Self)
        ensures
            c == *self,
    ;
}

/// What a hasher has been fed once `k` is hashed into one that had been fed
/// `before`.
pub uninterp spec fn usize_fed(before: Seq<Seq<u8>>, k: usize) -> Seq<Seq<u8>>;

/// What a hasher has been fed once `k` is hashed into one that had been fed
/// `before`.
pub uninterp spec fn u64_fed(before: Seq<Seq<u8>>, k: u64) -> Seq<Seq<u8>>;

/// `<usize as Hash>::hash` into a `DefaultHasher`: what the hasher has been
/// fed afterwards depends on what it had been fed before and on `k` alone.
#[verifier::external_body]
fn feed_usize(state: &mut DefaultHasher, k: usize)
    ensures
        final(state)@ == usize_fed(old(state)@, k),
{
    k.hash(state)
}

/// `<u64 as Hash>::hash` into a `DefaultHasher`: what the hasher has been
/// fed afterwards depends on what it had been fed before and on `k` alone.
#[verifier::external_body]
fn feed_u64(state: &mut DefaultHasher, k: u64)
    ensures
        final(state)@ == u64_fed(old(state)@, k),
{
    k.hash(state)
}

impl Key for usize {
    open spec fn hash_spec(&self) -> HashVal {
        HashVal(DefaultHasher::spec_finish(usize_fed(Seq::empty(), *self)))
    }

    fn key_hash(&self) -> (h: HashVal) {
        let mut hasher = DefaultHasher::new();
        feed_usize(&mut hasher, *self);
        HashVal(hasher.finish())
    }

    fn key_eq(&self, other: &Self) -> (b: bool) {
        *self == *other
    }

    fn key_clone(&self) -> (c: Self) {
        *self
    }
}

impl Key for u64 {
    open spec fn hash_spec(&self) -> HashVal {
        HashVal(DefaultHasher::spec_finish(u64_fed(Seq::empty(), *self)))
    }

    fn key_hash(&self) -> (h: HashVal) {
        let mut hasher = DefaultHasher::new();
        feed_u64(&mut hasher, *self);
        HashVal(hasher.finish())
    }

    fn key_eq(&self, other: &Self) -> (b: bool) {
        *self == *other
    }

    fn key_clone(&self) -> (c: Self) {
        *self
    }
}

} // verus!
