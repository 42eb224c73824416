//! The hashing capability that a key type must provide.
use std::collections::hash_map::DefaultHasher;
use std::hash::Hasher;
use vstd::prelude::*;
use vstd::bytes::{spec_u64_to_le_bytes, u64_to_le_bytes};
use vstd::std_specs::hash::DefaultHasherAdditionalSpecFns;
use vstd::utf8::encode_utf8;

verus! {

broadcast use vstd::utf8::encode_utf8_decode_utf8;

/// A key that can be stored in the map.
///
/// Keys are identified by their view: two keys are the same key exactly when
/// their views are equal, and the hash is a function of the view alone, so
/// equal keys always land in the same bucket.
pub trait HashKey: View + Sized {
    /// The hash of a key with the given view.
    spec fn spec_hash(k: Self::V) -> u64;

    /// Computes the hash of this key.
    fn hash_code(&self) -> (h: u64)
        ensures
            h == Self::spec_hash(self@),
    ;

    /// Tells whether two keys are the same key.
    fn same_key(&self, other: &Self) -> (r: bool)
        ensures
            r == (self@ == other@),
    ;
}

/// The hash of a string: `DefaultHasher` fed with its UTF-8 bytes.
pub open spec fn str_hash(s: Seq<char>) -> u64 {
    DefaultHasher::spec_finish(seq![encode_utf8(s)])
}

fn str_hash_code(s: &str) -> (h: u64)
    ensures
        h == str_hash(s@),
{
    let mut hasher = DefaultHasher::new();
    hasher.write(s.as_bytes());
    hasher.finish()
}

fn str_same(a: &str, b: &str) -> (r: bool)
    ensures
        r == (a@ == b@),
{
    let x = a.as_bytes();
    let y = b.as_bytes();
    if x.len() != y.len() {
        proof {
            if a@ == b@ {
                assert(x@ == y@);
            }
        }
        return false;
    }
    let mut i: usize = 0;
    while i < x.len()
        invariant
            x@ == encode_utf8(a@),
            y@ == encode_utf8(b@),
            x@.len() == y@.len(),
            i <= x@.len(),
            forall|j: int| 0 <= j < i ==> x@[j] == y@[j],
        decreases x@.len() - i,
    {
        if x[i] != y[i] {
            proof {
                if a@ == b@ {
                    assert(x@ == y@);
                }
            }
            return false;
        }
        i = i + 1;
    }
    assert(x@ =~= y@);
    assert(vstd::utf8::decode_utf8(x@) == a@);
    true
}

impl HashKey for u64 {
    /// `DefaultHasher` fed with the integer's eight little-endian bytes.
    open spec fn spec_hash(k: u64) -> u64 {
        DefaultHasher::spec_finish(seq![spec_u64_to_le_bytes(k)])
    }

    fn hash_code(&self) -> (h: u64) {
        let bytes = u64_to_le_bytes(*self);
        let mut hasher = DefaultHasher::new();
        hasher.write(bytes.as_slice());
        hasher.finish()
    }

    fn same_key(&self, other: &Self) -> (r: bool) {
        *self == *other
    }
}

impl<'a> HashKey for &'a str {
    open spec fn spec_hash(k: Seq<char>) -> u64 {
        str_hash(k)
    }

    fn hash_code(&self) -> (h: u64) {
        str_hash_code(*self)
    }

    fn same_key(&self, other: &Self) -> (r: bool) {
        str_same(*self, *other)
    }
}

impl HashKey for String {
    open spec fn spec_hash(k: Seq<char>) -> u64 {
        str_hash(k)
    }

    fn hash_code(&self) -> (h: u64) {
        str_hash_code(self.as_str())
    }

    fn same_key(&self, other: &Self) -> (r: bool) {
        str_same(self.as_str(), other.as_str())
    }
}

} // verus!
