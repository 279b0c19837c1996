//! An index from hashes to positions, for looking things up in a list
//! without going through the whole list.

use std::collections::hash_map::DefaultHasher;
use std::collections::HashMap;
use std::hash::Hasher;
use vstd::prelude::*;
use vstd::std_specs::hash::DefaultHasherAdditionalSpecFns;

verus! {

/// The hash of a byte string.
pub open spec fn hash_of_bytes(bytes: Seq<u8>) -> u64 {
    DefaultHasher::spec_finish(seq![bytes])
}

/// The hash of a byte string.
pub fn hash_bytes(bytes: &[u8]) -> (hash: u64)
    ensures
        hash == hash_of_bytes(bytes@),
{
    let mut hasher = DefaultHasher::new();
    hasher.write(bytes);
    assert(hasher@ =~= seq![bytes@]);
    hasher.finish()
}

/// The positions of a list, each under the hash of what stands there.
pub struct Buckets {
    map: HashMap<u64, Vec<usize>>,
}

impl Buckets {
    /// The index is that of a list whose items have these hashes: each
    /// position is found under its hash, and what is found under a hash is a
    /// position with that hash.
    pub closed spec fn holds(&self, hashes: Seq<u64>) -> bool {
        &&& forall|i: int|
            0 <= i < hashes.len() ==> self.map@.contains_key(#[trigger] hashes[i])
                && self.map@[hashes[i]]@.contains(i as usize)
        &&& forall|hash: u64, k: int|
            self.map@.contains_key(hash) && 0 <= k < self.map@[hash]@.len() ==> (
            #[trigger] self.map@[hash]@[k]) < hashes.len() && hashes[self.map@[hash]@[k] as int]
                == hash
    }

    /// The index of the empty list.
    pub fn new() -> (index: Buckets)
        ensures
            index.holds(Seq::empty()),
    {
        Buckets { map: HashMap::new() }
    }

    /// Takes in one more position, behind the ones that the index holds.
    pub fn add(&mut self, hash: u64, at: usize, Ghost(hashes): Ghost<Seq<u64>>)
        requires
            old(self).holds(hashes),
            at == hashes.len(),
        ensures
            final(self).holds(hashes.push(hash)),
    {
        let ghost before = self.map@;
        let mut bucket = match self.map.remove(&hash) {
            Some(bucket) => bucket,
            None => Vec::new(),
        };
        let ghost old_bucket = bucket@;
        bucket.push(at);
        self.map.insert(hash, bucket);
        proof {
            let longer = hashes.push(hash);
            assert forall|i: int| 0 <= i < longer.len() implies self.map@.contains_key(
                #[trigger] longer[i],
            ) && self.map@[longer[i]]@.contains(i as usize) by {
                if i == at {
                    assert(bucket@[old_bucket.len() as int] == at);
                } else if longer[i] == hash {
                    assert(hashes[i] == hash);
                    let k = choose|k: int|
                        0 <= k < before[hash]@.len() && before[hash]@[k] == i as usize;
                    assert(bucket@[k] == i as usize);
                } else {
                    assert(hashes[i] == longer[i]);
                }
            }
            assert forall|h: u64, k: int|
                self.map@.contains_key(h) && 0 <= k < self.map@[h]@.len() implies (
            #[trigger] self.map@[h]@[k]) < longer.len() && longer[self.map@[h]@[k] as int]
                == h by {
                if h != hash || k < old_bucket.len() {
                    assert(before[h]@[k] < hashes.len());
                }
            }
        }
    }

    /// The positions under a hash: every position of the list with that
    /// hash, and no other.
    pub fn positions(&self, hash: u64, Ghost(hashes): Ghost<Seq<u64>>) -> (found: Option<
        &Vec<usize>,
    >)
        requires
            self.holds(hashes),
            hashes.len() <= usize::MAX,
        ensures
            match found {
                Some(bucket) => {
                    &&& forall|k: int|
                        0 <= k < bucket@.len() ==> (#[trigger] bucket@[k]) < hashes.len()
                            && hashes[bucket@[k] as int] == hash
                    &&& forall|i: int|
                        0 <= i < hashes.len() && #[trigger] hashes[i] == hash ==> bucket@.contains(
                            i as usize,
                        )
                },
                None => forall|i: int| 0 <= i < hashes.len() ==> #[trigger] hashes[i] != hash,
            },
    {
        self.map.get(&hash)
    }
}

} // verus!
