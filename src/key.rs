//! What the store needs of its keys: a digest and an equality, both
//! functions of the key's view, so that equal keys always hash alike.

use vstd::prelude::*;
use vstd::std_specs::hash::DefaultHasherAdditionalSpecFns;
use vstd::string::StringSliceAdditionalSpecFns;
use vstd::utf8::encode_utf8;
use std::collections::hash_map::DefaultHasher;
use std::hash::Hasher;

verus! {

/// A key that the store can own.
pub trait StoreKey: View + Sized {
    /// The digest of a key, as a function of its view.
    spec fn digest(key: Self::V) -> u64;

    fn key_hash(&self) -> (r: u64)
        ensures
            r == Self::digest(self@),
    ;
}

/// A form in which a key can be looked up before an owned key exists.
pub trait PreKey<K: StoreKey> {
    /// The key this stands for.
    spec fn key_view(&self) -> K::V;

    fn pre_hash(&self) -> (r: u64)
        ensures
            r == K::digest(self.key_view()),
    ;

    /// Whether `key` is the key this stands for.
    fn matches(&self, key: &K) -> (r: bool)
        ensures
            r == (self.key_view() == key@),
    ;
}

/// The digest of a byte string under the standard library's default hasher
/// with its fixed keys, as one write of those bytes.
pub open spec fn bytes_digest(bytes: Seq<u8>) -> u64 {
    DefaultHasher::spec_finish(seq![bytes])
}

fn hash_bytes(bytes: &[u8]) -> (r: u64)
    ensures
        r == bytes_digest(bytes@),
{
    let mut hasher = DefaultHasher::new();
    hasher.write(bytes);
    proof {
        assert(hasher@ =~= seq![bytes@]);
    }
    hasher.finish()
}

impl StoreKey for String {
    open spec fn digest(key: Seq<char>) -> u64 {
        bytes_digest(encode_utf8(key))
    }

    fn key_hash(&self) -> (r: u64) {
        hash_bytes(self.as_str().as_bytes())
    }
}

impl StoreKey for Vec<u8> {
    open spec fn digest(key: Seq<u8>) -> u64 {
        bytes_digest(key)
    }

    fn key_hash(&self) -> (r: u64) {
        hash_bytes(self.as_slice())
    }
}

impl PreKey<String> for String {
    open spec fn key_view(&self) -> Seq<char> {
        self@
    }

    fn pre_hash(&self) -> (r: u64) {
        self.key_hash()
    }

    fn matches(&self, key: &String) -> (r: bool) {
        *self == *key
    }
}

impl<'a> PreKey<String> for &'a str {
    open spec fn key_view(&self) -> Seq<char> {
        (**self)@
    }

    fn pre_hash(&self) -> (r: u64) {
        hash_bytes(self.as_bytes())
    }

    fn matches(&self, key: &String) -> (r: bool) {
        let k: &str = key.as_str();
        str_eq(self, k)
    }
}

impl PreKey<Vec<u8>> for Vec<u8> {
    open spec fn key_view(&self) -> Seq<u8> {
        self@
    }

    fn pre_hash(&self) -> (r: u64) {
        self.key_hash()
    }

    fn matches(&self, key: &Vec<u8>) -> (r: bool) {
        bytes_eq(self.as_slice(), key.as_slice())
    }
}

/// Compares two strings by their bytes.
fn str_eq(a: &str, b: &str) -> (r: bool)
    ensures
        r == (a@ == b@),
{
    let r = bytes_eq(a.as_bytes(), b.as_bytes());
    proof {
        if r {
            vstd::utf8::encode_utf8_decode_utf8(a@);
            vstd::utf8::encode_utf8_decode_utf8(b@);
        }
    }
    r
}

/// Compares two byte strings.
fn bytes_eq(a: &[u8], b: &[u8]) -> (r: bool)
    ensures
        r == (a@ == b@),
{
    if a.len() != b.len() {
        return false;
    }
    let mut i: usize = 0;
    while i < a.len()
        invariant
            a@.len() == b@.len(),
            i <= a@.len(),
            forall|j: int| 0 <= j < i ==> a@[j] == b@[j],
        decreases a@.len() - i,
    {
        if a[i] != b[i] {
            return false;
        }
        i = i + 1;
    }
    proof {
        assert(a@ =~= b@);
    }
    true
}

} // verus!
