//! Keys: integers and strings, hashed by the default hasher of the standard
//! library.
use crate::lockfree_cchamt::TrieKey;
use std::collections::hash_map::DefaultHasher;
use std::hash::Hasher;
use vstd::prelude::*;
use vstd::std_specs::hash::DefaultHasherAdditionalSpecFns;
use vstd::string::StringSliceAdditionalSpecFns;

verus! {

/// The `n` low bytes of `x`, the lowest first.
pub open spec fn low_bytes(x: u64, n: nat) -> Seq<u8>
    decreases n,
{
    if n == 0 {
        Seq::empty()
    } else {
        low_bytes(x, (n - 1) as nat).push(((x >> ((8 * (n - 1)) as u64)) & 0xff) as u8)
    }
}

/// The hash code that the default hasher of the standard library gives to
/// one write of `bytes`.
pub open spec fn hash_of_bytes(bytes: Seq<u8>) -> u64 {
    DefaultHasher::spec_finish(seq![bytes])
}

/// The hash code of the `n` low bytes of `x`, hashed in one write.
pub fn hash_low_bytes(x: u64, n: u32) -> (h: u64)
    requires
        n <= 8,
    ensures
        h == hash_of_bytes(low_bytes(x, n as nat)),
{
    let mut bytes: Vec<u8> = Vec::new();
    let mut i: u32 = 0;
    while i < n
        invariant
            i <= n,
            n <= 8,
            bytes@ == low_bytes(x, i as nat),
        decreases n - i,
    {
        let b: u8 = ((x >> (8 * i)) & 0xff) as u8;
        bytes.push(b);
        i += 1;
    }
    let mut s = DefaultHasher::new();
    s.write(bytes.as_slice());
    assert(s@ =~= seq![low_bytes(x, n as nat)]);
    s.finish()
}

impl TrieKey for u64 {
    type Id = u64;

    open spec fn id(self) -> u64 {
        self
    }

    open spec fn hash_of(id: u64) -> u64 {
        hash_of_bytes(low_bytes(id, 8))
    }

    /// The hash code of the key.
    fn hash_code(&self) -> (h: u64) {
        hash_low_bytes(*self, 8)
    }

    /// Whether the two keys are the same key.
    fn same(&self, other: &Self) -> (r: bool) {
        *self == *other
    }
}

impl TrieKey for u32 {
    type Id = u32;

    open spec fn id(self) -> u32 {
        self
    }

    open spec fn hash_of(id: u32) -> u64 {
        hash_of_bytes(low_bytes(id as u64, 4))
    }

    /// The hash code of the key.
    fn hash_code(&self) -> (h: u64) {
        hash_low_bytes(*self as u64, 4)
    }

    /// Whether the two keys are the same key.
    fn same(&self, other: &Self) -> (r: bool) {
        *self == *other
    }
}

impl TrieKey for usize {
    type Id = usize;

    open spec fn id(self) -> usize {
        self
    }

    open spec fn hash_of(id: usize) -> u64 {
        hash_of_bytes(low_bytes(id as u64, 8))
    }

    /// The hash code of the key.
    fn hash_code(&self) -> (h: u64) {
        hash_low_bytes(*self as u64, 8)
    }

    /// Whether the two keys are the same key.
    fn same(&self, other: &Self) -> (r: bool) {
        *self == *other
    }
}

/// Whether two byte strings are the same.
pub fn same_bytes(a: &[u8], b: &[u8]) -> (r: bool)
    ensures
        r == (a@ == b@),
{
    if a.len() != b.len() {
        return false;
    }
    let mut i: usize = 0;
    while i < a.len()
        invariant
            i <= a@.len(),
            a@.len() == b@.len(),
            forall|j: int| 0 <= j < i ==> a@[j] == b@[j],
        decreases a@.len() - i,
    {
        if a[i] != b[i] {
            return false;
        }
        i += 1;
    }
    assert(a@ =~= b@);
    true
}

impl<'a> TrieKey for &'a str {
    type Id = Seq<u8>;

    open spec fn id(self) -> Seq<u8> {
        self.spec_bytes()
    }

    open spec fn hash_of(id: Seq<u8>) -> u64 {
        DefaultHasher::spec_finish(seq![id, seq![0xffu8]])
    }

    /// The hash code of the key.
    fn hash_code(&self) -> (h: u64) {
        let mut s = DefaultHasher::new();
        s.write(self.as_bytes());
        let mut end: Vec<u8> = Vec::new();
        end.push(0xff);
        s.write(end.as_slice());
        assert(end@ =~= seq![0xffu8]);
        assert(s@ =~= seq![self.spec_bytes(), seq![0xffu8]]);
        s.finish()
    }

    /// Whether the two keys are the same key.
    fn same(&self, other: &Self) -> (r: bool) {
        same_bytes(self.as_bytes(), other.as_bytes())
    }
}

} // verus!
