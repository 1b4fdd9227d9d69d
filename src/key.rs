use std::collections::hash_map::DefaultHasher;
use std::hash::Hasher;
use vstd::prelude::*;
use vstd::std_specs::hash::DefaultHasherAdditionalSpecFns;
use vstd::string::StringSliceAdditionalSpecFns;
use vstd::utf8::{encode_utf8, encode_utf8_decode_utf8};

verus! {

/// A type whose values can be stored as keys of the table.
///
/// Keys are identified by their view: two keys are the same key exactly
/// when their views are equal, and the hash of a key is a function of its
/// view alone.
pub trait HashKey: View {
    /// The hash of the key whose view is `k`.
    spec fn spec_hash(k: Self::V) -> u64;

    fn hash_key(&self) -> (h: u64)
        ensures
            h == Self::spec_hash(self@),
    ;

    fn same_key(&self, other: &Self) -> (r: bool)
        ensures
            r == (self@ == other@),
    ;
}

/// A type whose values can be used to look up keys of type `K`.
///
/// A query shares the key's view type; it hashes as the key with the same
/// view does and compares equal to a key exactly when their views agree.
pub trait Equivalent<K: HashKey>: View<V = K::V> {
    fn query_hash(&self) -> (h: u64)
        ensures
            h == K::spec_hash(self@),
    ;

    fn equivalent(&self, key: &K) -> (r: bool)
        ensures
            r == (self@ == key@),
    ;
}

/// Hash of the text whose characters are `s`: its UTF-8 bytes fed to a
/// fresh `DefaultHasher`.
pub open spec fn text_hash(s: Seq<char>) -> u64 {
    DefaultHasher::spec_finish(seq![encode_utf8(s)])
}

fn hash_text(s: &str) -> (h: u64)
    ensures
        h == text_hash(s@),
{
    let mut hasher = DefaultHasher::new();
    hasher.write(s.as_bytes());
    let h = hasher.finish();
    assert(hasher@ =~= seq![s.spec_bytes()]);
    h
}

fn same_text(a: &str, b: &str) -> (r: bool)
    ensures
        r == (a@ == b@),
{
    let x = a.as_bytes();
    let y = b.as_bytes();
    proof {
        encode_utf8_decode_utf8(a@);
        encode_utf8_decode_utf8(b@);
    }
    if x.len() != y.len() {
        return false;
    }
    let mut i: usize = 0;
    while i < x.len()
        invariant
            x@ == encode_utf8(a@),
            y@ == encode_utf8(b@),
            x@.len() == y@.len(),
            i <= x@.len(),
            x@.subrange(0, i as int) == y@.subrange(0, i as int),
        decreases x@.len() - i,
    {
        if x[i] != y[i] {
            assert(x@[i as int] != y@[i as int]);
            return false;
        }
        assert(x@.subrange(0, i + 1) =~= x@.subrange(0, i as int).push(x@[i as int]));
        assert(y@.subrange(0, i + 1) =~= y@.subrange(0, i as int).push(y@[i as int]));
        i = i + 1;
    }
    assert(x@ =~= x@.subrange(0, i as int));
    assert(y@ =~= y@.subrange(0, i as int));
    true
}

impl HashKey for String {
    open spec fn spec_hash(k: Seq<char>) -> u64 {
        text_hash(k)
    }

    fn hash_key(&self) -> (h: u64) {
        hash_text(self.as_str())
    }

    fn same_key(&self, other: &String) -> (r: bool) {
        same_text(self.as_str(), other.as_str())
    }
}

impl<'a> HashKey for &'a str {
    open spec fn spec_hash(k: Seq<char>) -> u64 {
        text_hash(k)
    }

    fn hash_key(&self) -> (h: u64) {
        hash_text(self)
    }

    fn same_key(&self, other: &&'a str) -> (r: bool) {
        same_text(self, other)
    }
}

impl Equivalent<String> for String {
    fn query_hash(&self) -> (h: u64) {
        hash_text(self.as_str())
    }

    fn equivalent(&self, key: &String) -> (r: bool) {
        same_text(self.as_str(), key.as_str())
    }
}

impl Equivalent<String> for str {
    fn query_hash(&self) -> (h: u64) {
        hash_text(self)
    }

    fn equivalent(&self, key: &String) -> (r: bool) {
        same_text(self, key.as_str())
    }
}

impl<'a, 'b> Equivalent<&'a str> for &'b str {
    fn query_hash(&self) -> (h: u64) {
        hash_text(self)
    }

    fn equivalent(&self, key: &&'a str) -> (r: bool) {
        same_text(self, key)
    }
}

impl<'a> Equivalent<&'a str> for str {
    fn query_hash(&self) -> (h: u64) {
        hash_text(self)
    }

    fn equivalent(&self, key: &&'a str) -> (r: bool) {
        same_text(self, key)
    }
}

/// The eight bytes of `x`, least significant first.
pub open spec fn le_bytes(x: u64) -> Seq<u8> {
    seq![
        x as u8,
        (x >> 8) as u8,
        (x >> 16) as u8,
        (x >> 24) as u8,
        (x >> 32) as u8,
        (x >> 40) as u8,
        (x >> 48) as u8,
        (x >> 56) as u8,
    ]
}

/// Hash of the integer `x`: its little-endian bytes fed to a fresh
/// `DefaultHasher`.
pub open spec fn int_hash(x: u64) -> u64 {
    DefaultHasher::spec_finish(seq![le_bytes(x)])
}

fn hash_int(x: u64) -> (h: u64)
    ensures
        h == int_hash(x),
{
    let bytes: Vec<u8> = vec![
        x as u8,
        (x >> 8) as u8,
        (x >> 16) as u8,
        (x >> 24) as u8,
        (x >> 32) as u8,
        (x >> 40) as u8,
        (x >> 48) as u8,
        (x >> 56) as u8,
    ];
    assert(bytes@ =~= le_bytes(x));
    let mut hasher = DefaultHasher::new();
    hasher.write(bytes.as_slice());
    let h = hasher.finish();
    assert(hasher@ =~= seq![le_bytes(x)]);
    h
}

impl HashKey for u64 {
    open spec fn spec_hash(k: u64) -> u64 {
        int_hash(k)
    }

    fn hash_key(&self) -> (h: u64) {
        hash_int(*self)
    }

    fn same_key(&self, other: &u64) -> (r: bool) {
        *self == *other
    }
}

impl Equivalent<u64> for u64 {
    fn query_hash(&self) -> (h: u64) {
        hash_int(*self)
    }

    fn equivalent(&self, key: &u64) -> (r: bool) {
        *self == *key
    }
}

} // verus!
