//! Finding the entries of a table without reading them all.
//!
//! Every key, a token's text or the bits of a code, has a hash code. An
//! [`Index`] keeps, for each hash code, the positions of the entries whose
//! key has it; a lookup compares the key with those entries only.

use std::collections::HashMap;
use vstd::prelude::*;

verus! {

/// The hash code of nothing.
pub const SEED: u64 = 5381;

/// The hash code of a key that has one more part than a key with the hash
/// code `hash`.
pub open spec fn mixed(hash: u64, part: u64) -> u64 {
    ((hash % 0x1_0000_0000) * 33 + part % 0x1_0000_0000) as u64
}

/// The hash code of a text.
pub open spec fn hash_of(text: Seq<char>) -> u64
    decreases text.len(),
{
    if text.len() == 0 {
        SEED
    } else {
        mixed(hash_of(text.drop_last()), text.last() as u64)
    }
}

/// The hash code of a sequence of bits.
pub open spec fn hash_of_bits(bits: Seq<bool>) -> u64
    decreases bits.len(),
{
    if bits.len() == 0 {
        SEED
    } else {
        mixed(
            hash_of_bits(bits.drop_last()),
            if bits.last() {
                2
            } else {
                1
            },
        )
    }
}

/// Computes [`mixed`].
pub fn mix(hash: u64, part: u64) -> (next: u64)
    ensures
        next == mixed(hash, part),
{
    (hash % 0x1_0000_0000) * 33 + part % 0x1_0000_0000
}

/// The hash code of a text with one more character.
pub fn mix_char(hash: u64, c: char) -> (next: u64)
    ensures
        next == mixed(hash, c as u64),
{
    mix(hash, c as u64)
}

/// The hash code of a sequence of bits with one more bit.
pub fn mix_bit(hash: u64, bit: bool) -> (next: u64)
    ensures
        next == mixed(
            hash,
            if bit {
                2
            } else {
                1
            },
        ),
{
    mix(
        hash,
        if bit {
            2
        } else {
            1
        },
    )
}

/// For each hash code, the positions of the entries whose key has it.
#[derive(Debug, Clone)]
pub struct Index {
    buckets: HashMap<u64, Vec<usize>>,
}

impl Index {
    /// The positions recorded under a hash code.
    pub closed spec fn bucket(&self, hash: u64) -> Seq<usize> {
        if self.buckets@.contains_key(hash) {
            self.buckets@[hash]@
        } else {
            Seq::empty()
        }
    }

    /// The index is that of entries with the given hash codes: under each
    /// hash code stand the positions of the entries that have it, all of
    /// them and no others, in ascending order.
    pub open spec fn indexes(&self, hashes: Seq<u64>) -> bool {
        &&& forall|i: int|
            0 <= i < hashes.len() ==> self.bucket(#[trigger] hashes[i]).contains(i as usize)
        &&& forall|hash: u64, k: int|
            0 <= k < self.bucket(hash).len() ==> (#[trigger] self.bucket(hash)[k]) < hashes.len()
                && hashes[self.bucket(hash)[k] as int] == hash
        &&& forall|hash: u64, k: int, l: int|
            0 <= k < l < self.bucket(hash).len() ==> (#[trigger] self.bucket(hash)[k]) < (
            #[trigger] self.bucket(hash)[l])
    }

    /// The index of no entries.
    pub fn new() -> (index: Self)
        ensures
            index.indexes(Seq::empty()),
            forall|hash: u64| index.bucket(hash) == Seq::<usize>::empty(),
    {
        Index { buckets: HashMap::new() }
    }

    /// Records that one more entry, behind those indexed so far, has the
    /// given hash code.
    pub fn add(&mut self, hash: u64, position: usize, Ghost(hashes): Ghost<Seq<u64>>)
        requires
            old(self).indexes(hashes),
            position == hashes.len(),
        ensures
            final(self).indexes(hashes.push(hash)),
    {
        broadcast use vstd::std_specs::hash::group_hash_axioms;

        let ghost before = *self;
        let mut bucket = match self.buckets.remove(&hash) {
            Some(bucket) => bucket,
            None => Vec::new(),
        };
        assert(bucket@ == before.bucket(hash));
        bucket.push(position);
        self.buckets.insert(hash, bucket);
        proof {
            let after = hashes.push(hash);
            assert(self.bucket(hash) == before.bucket(hash).push(position));
            assert forall|other: u64| other != hash implies self.bucket(other) == before.bucket(
                other,
            ) by {}
            assert forall|i: int| 0 <= i < after.len() implies self.bucket(
                #[trigger] after[i],
            ).contains(i as usize) by {
                if i < hashes.len() {
                    assert(before.bucket(hashes[i]).contains(i as usize));
                    let k = choose|k: int|
                        0 <= k < before.bucket(hashes[i]).len() && before.bucket(hashes[i])[k]
                            == i as usize;
                    assert(self.bucket(after[i])[k] == i as usize);
                } else {
                    assert(self.bucket(hash)[before.bucket(hash).len() as int] == position);
                }
            }
            assert forall|code: u64, k: int| 0 <= k < self.bucket(code).len() implies (
            #[trigger] self.bucket(code)[k]) < after.len() && after[self.bucket(code)[k] as int]
                == code by {
                if code == hash && k < before.bucket(hash).len() {
                    assert(self.bucket(code)[k] == before.bucket(code)[k]);
                } else if code != hash {
                    assert(self.bucket(code)[k] == before.bucket(code)[k]);
                }
            }
            assert forall|code: u64, k: int, l: int|
                0 <= k < l < self.bucket(code).len() implies (#[trigger] self.bucket(code)[k]) < (
            #[trigger] self.bucket(code)[l]) by {
                if code == hash {
                    assert(self.bucket(code)[k] == before.bucket(code)[k]);
                    if l < before.bucket(hash).len() {
                        assert(self.bucket(code)[l] == before.bucket(code)[l]);
                    }
                } else {
                    assert(self.bucket(code)[k] == before.bucket(code)[k]);
                    assert(self.bucket(code)[l] == before.bucket(code)[l]);
                }
            }
        }
    }

    /// The positions recorded under a hash code, if there are any.
    pub fn bucket_of(&self, hash: u64) -> (found: Option<&Vec<usize>>)
        ensures
            match found {
                Some(bucket) => bucket@ == self.bucket(hash),
                None => self.bucket(hash).len() == 0,
            },
    {
        broadcast use vstd::std_specs::hash::group_hash_axioms;

        self.buckets.get(&hash)
    }
}

} // verus!
