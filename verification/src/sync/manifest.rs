//! The file list as a set of paths, with a lookup that does not go through
//! the whole list.

use crate::index::Buckets;
use std::collections::hash_map::DefaultHasher;
use std::hash::Hasher;
use vstd::prelude::*;
use vstd::std_specs::hash::DefaultHasherAdditionalSpecFns;
use vstd::utf8::encode_utf8;

verus! {

/// Whether two paths are the same: the same names in the same order.
pub fn same_path(a: &Vec<String>, b: &Vec<String>) -> (same: bool)
    ensures
        same == (a.deep_view() == b.deep_view()),
{
    if a.len() != b.len() {
        assert(a.deep_view().len() != b.deep_view().len());
        return false;
    }
    let mut at: usize = 0;
    while at < a.len()
        invariant
            at <= a.len(),
            a.len() == b.len(),
            forall|i: int| 0 <= i < at ==> a@[i]@ == b@[i]@,
        decreases a.len() - at,
    {
        if a[at] != b[at] {
            assert(a.deep_view()[at as int] != b.deep_view()[at as int]);
            return false;
        }
        at = at + 1;
    }
    assert(a.deep_view() =~= b.deep_view());
    true
}

/// The names of a path as bytes.
spec fn name_bytes(path: Seq<Seq<char>>) -> Seq<Seq<u8>> {
    Seq::new(path.len(), |i: int| encode_utf8(path[i]))
}

/// The hash of a path: of the UTF-8 bytes of its names, name by name.
spec fn path_hash(path: Seq<Seq<char>>) -> u64 {
    DefaultHasher::spec_finish(name_bytes(path))
}

/// The hashes of the paths, path by path.
spec fn hashes_of(paths: Seq<Vec<String>>) -> Seq<u64> {
    Seq::new(paths.len(), |i: int| path_hash(paths[i].deep_view()))
}

/// The hash of a path.
fn hash_of(path: &Vec<String>) -> (hash: u64)
    ensures
        hash == path_hash(path.deep_view()),
{
    let mut hasher = DefaultHasher::new();
    let mut at: usize = 0;
    while at < path.len()
        invariant
            at <= path.len(),
            hasher@ == name_bytes(path.deep_view()).subrange(0, at as int),
        decreases path.len() - at,
    {
        hasher.write(path[at].as_str().as_bytes());
        at = at + 1;
        assert(hasher@ =~= name_bytes(path.deep_view()).subrange(0, at as int));
    }
    assert(hasher@ =~= name_bytes(path.deep_view()));
    hasher.finish()
}

/// The paths that a torrent declares, as a set.
pub struct Manifest {
    paths: Vec<Vec<String>>,
    index: Buckets,
}

impl View for Manifest {
    type V = Set<Seq<Seq<char>>>;

    /// The set of the paths.
    closed spec fn view(&self) -> Set<Seq<Seq<char>>> {
        self.paths.deep_view().to_set()
    }
}

impl Manifest {
    /// Every path is found in the index under its hash.
    #[verifier::type_invariant]
    spec fn inv(self) -> bool {
        self.index.holds(hashes_of(self.paths@))
    }

    /// The set of `paths`. A path that comes twice is in the set once.
    pub fn new(paths: Vec<Vec<String>>) -> (manifest: Manifest)
        ensures
            manifest@ == paths.deep_view().to_set(),
    {
        let mut index = Buckets::new();
        let mut at: usize = 0;
        assert(hashes_of(paths@).subrange(0, 0) =~= Seq::<u64>::empty());
        while at < paths.len()
            invariant
                at <= paths.len(),
                index.holds(hashes_of(paths@).subrange(0, at as int)),
            decreases paths.len() - at,
        {
            let hash = hash_of(&paths[at]);
            index.add(hash, at, Ghost(hashes_of(paths@).subrange(0, at as int)));
            at = at + 1;
            assert(hashes_of(paths@).subrange(0, at as int) =~= hashes_of(paths@).subrange(
                0,
                at - 1,
            ).push(hash));
        }
        assert(hashes_of(paths@).subrange(0, at as int) =~= hashes_of(paths@));
        Manifest { paths, index }
    }

    /// Whether `path` is one of the paths.
    pub fn contains(&self, path: &Vec<String>) -> (found: bool)
        ensures
            found == self@.contains(path.deep_view()),
    {
        proof {
            use_type_invariant(self);
            lemma_listed(self.paths, path.deep_view());
            assert(self.paths@.len() == self.paths.len());
        }
        let hash = hash_of(path);
        let ghost hashes = hashes_of(self.paths@);
        match self.index.positions(hash, Ghost(hashes)) {
            None => {
                proof {
                    if listed(self.paths@, path.deep_view()) {
                        let i = choose|i: int|
                            0 <= i < self.paths@.len() && (#[trigger] self.paths@[i]).deep_view()
                                == path.deep_view();
                        assert(hashes[i] == hash);
                    }
                }
                false
            },
            Some(bucket) => {
                proof {
                    if listed(self.paths@, path.deep_view()) {
                        let i = choose|i: int|
                            0 <= i < self.paths@.len() && (#[trigger] self.paths@[i]).deep_view()
                                == path.deep_view();
                        assert(hashes[i] == hash);
                        let k = choose|k: int| 0 <= k < bucket@.len() && bucket@[k] == i as usize;
                        assert(self.paths@[bucket@[k] as int].deep_view() == path.deep_view());
                    }
                }
                scan(&self.paths, bucket, path)
            },
        }
    }
}

/// `wanted` is among the paths that `bucket` points to.
spec fn pointed_at(paths: Seq<Vec<String>>, bucket: Seq<usize>, wanted: Seq<Seq<char>>) -> bool {
    exists|k: int|
        0 <= k < bucket.len() && 0 <= (#[trigger] bucket[k]) < paths.len()
            && paths[bucket[k] as int].deep_view() == wanted
}

/// Whether `path` is among the paths that `bucket` points to.
fn scan(paths: &Vec<Vec<String>>, bucket: &Vec<usize>, path: &Vec<String>) -> (found: bool)
    requires
        forall|k: int| 0 <= k < bucket@.len() ==> (#[trigger] bucket@[k]) < paths@.len(),
    ensures
        found == pointed_at(paths@, bucket@, path.deep_view()),
{
    let mut k: usize = 0;
    while k < bucket.len()
        invariant
            k <= bucket.len(),
            forall|j: int| 0 <= j < bucket@.len() ==> (#[trigger] bucket@[j]) < paths@.len(),
            forall|j: int|
                0 <= j < k ==> paths@[(#[trigger] bucket@[j]) as int].deep_view()
                    != path.deep_view(),
        decreases bucket.len() - k,
    {
        let index = bucket[k];
        if same_path(&paths[index], path) {
            return true;
        }
        k = k + 1;
    }
    false
}

/// `wanted` is one of `paths`.
spec fn listed(paths: Seq<Vec<String>>, wanted: Seq<Seq<char>>) -> bool {
    exists|i: int| 0 <= i < paths.len() && (#[trigger] paths[i]).deep_view() == wanted
}

/// To be in the set of the paths is to be one of them.
proof fn lemma_listed(paths: Vec<Vec<String>>, wanted: Seq<Seq<char>>)
    ensures
        paths.deep_view().to_set().contains(wanted) <==> listed(paths@, wanted),
{
    let views = paths.deep_view();
    if views.to_set().contains(wanted) {
        let i = choose|i: int| 0 <= i < views.len() && views[i] == wanted;
        assert(paths@[i].deep_view() == wanted);
    }
    if listed(paths@, wanted) {
        let i = choose|i: int| 0 <= i < paths@.len() && (#[trigger] paths@[i]).deep_view() == wanted;
        assert(views[i] == wanted);
    }
}

} // verus!
