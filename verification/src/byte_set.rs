//! A set of byte strings: buckets of a `HashMap` keyed by each string's
//! `DefaultHasher` digest.

use vstd::prelude::*;
use vstd::slice::slice_to_vec;
use std::collections::HashMap;
use std::collections::hash_map::DefaultHasher;
use std::hash::Hasher;
use vstd::std_specs::hash::DefaultHasherAdditionalSpecFns;

verus! {

broadcast use vstd::std_specs::hash::group_hash_axioms;

/// The bucket of a byte string: the digest `DefaultHasher` gives after
/// one write of the string.
pub open spec fn bucket_of(k: Seq<u8>) -> u64 {
    DefaultHasher::spec_finish(seq![k])
}

/// A set of byte strings with hashed lookup.
pub struct ByteSet {
    buckets: HashMap<u64, Vec<Vec<u8>>>,
    contents: Ghost<Set<Seq<u8>>>,
}

impl View for ByteSet {
    type V = Set<Seq<u8>>;

    closed spec fn view(&self) -> Set<Seq<u8>> {
        self.contents@
    }
}

fn bytes_eq(a: &[u8], b: &[u8]) -> (r: bool)
    ensures
        r == (a@ == b@),
{
    if a.len() != b.len() {
        return false;
    }
    let mut i: usize = 0;
    while i < a.len()
        invariant
            a@.len() == b@.len(),
            i <= a@.len(),
            forall|j: int| 0 <= j < i ==> a@[j] == b@[j],
        decreases a.len() - i,
    {
        if a[i] != b[i] {
            return false;
        }
        i = i + 1;
    }
    assert(a@ =~= b@);
    true
}

fn bucket_has(bucket: &Vec<Vec<u8>>, key: &[u8]) -> (r: bool)
    ensures
        r == exists|i: int| 0 <= i < bucket@.len() && #[trigger] bucket@[i]@ == key@,
{
    let mut i: usize = 0;
    while i < bucket.len()
        invariant
            i <= bucket@.len(),
            forall|j: int| 0 <= j < i ==> #[trigger] bucket@[j]@ != key@,
        decreases bucket.len() - i,
    {
        if bytes_eq(bucket[i].as_slice(), key) {
            return true;
        }
        i = i + 1;
    }
    false
}

impl ByteSet {
    /// Every stored string sits in its own bucket and is in the set, and
    /// every string of the set is stored.
    pub closed spec fn well_formed(&self) -> bool {
        &&& forall|h: u64, i: int| #![trigger self.buckets@[h]@[i]]
            self.buckets@.contains_key(h) && 0 <= i < self.buckets@[h]@.len()
            ==> bucket_of(self.buckets@[h]@[i]@) == h && self.contents@.contains(self.buckets@[h]@[i]@)
        &&& forall|k: Seq<u8>| #[trigger] self.contents@.contains(k) ==> {
            &&& self.buckets@.contains_key(bucket_of(k))
            &&& exists|i: int| 0 <= i < self.buckets@[bucket_of(k)]@.len()
                && #[trigger] self.buckets@[bucket_of(k)]@[i]@ == k
        }
    }

    /// The empty set.
    pub fn new() -> (r: ByteSet)
        ensures
            r.well_formed(),
            r@ == Set::<Seq<u8>>::empty(),
    {
        ByteSet { buckets: HashMap::new(), contents: Ghost(Set::empty()) }
    }

    /// Adds `key`; returns whether it was not in the set before.
    pub fn insert(&mut self, key: &[u8]) -> (fresh: bool)
        requires
            old(self).well_formed(),
        ensures
            final(self).well_formed(),
            final(self)@ == old(self)@.insert(key@),
            fresh == !old(self)@.contains(key@),
    {
        let mut hasher = DefaultHasher::new();
        hasher.write(key);
        let h = hasher.finish();
        assert(hasher@ =~= seq![key@]);
        assert(h == bucket_of(key@));
        let ghost old_map = self.buckets@;
        let ghost old_set = self.contents@;
        match self.buckets.remove(&h) {
            Some(mut bucket) => {
                assert(old_map.contains_key(h) && old_map[h] == bucket);
                if bucket_has(&bucket, key) {
                    self.buckets.insert(h, bucket);
                    proof {
                        assert(self.buckets@ =~= old_map);
                        let i = choose|i: int| 0 <= i < bucket@.len() && #[trigger] bucket@[i]@ == key@;
                        assert(old_map[h]@[i]@ == key@);
                        assert(old_set.contains(key@));
                        assert(old_set.insert(key@) =~= old_set);
                    }
                    false
                } else {
                    let ghost old_bucket = bucket@;
                    bucket.push(slice_to_vec(key));
                    self.buckets.insert(h, bucket);
                    self.contents = Ghost(old_set.insert(key@));
                    proof {
                        assert(!old_set.contains(key@));
                        assert forall|g: u64, i: int| #![trigger self.buckets@[g]@[i]]
                            self.buckets@.contains_key(g) && 0 <= i < self.buckets@[g]@.len()
                            implies bucket_of(self.buckets@[g]@[i]@) == g && self.contents@.contains(self.buckets@[g]@[i]@) by {
                            if g == h && i < old_bucket.len() {
                                assert(self.buckets@[g]@[i] == old_map[h]@[i]);
                            } else if g != h {
                                assert(self.buckets@[g] == old_map[g]);
                            }
                        }
                        assert forall|k: Seq<u8>| #[trigger] self.contents@.contains(k) implies {
                            &&& self.buckets@.contains_key(bucket_of(k))
                            &&& exists|i: int| 0 <= i < self.buckets@[bucket_of(k)]@.len()
                                && #[trigger] self.buckets@[bucket_of(k)]@[i]@ == k
                        } by {
                            if k == key@ {
                                assert(self.buckets@[h]@[old_bucket.len() as int]@ == k);
                            } else {
                                assert(old_set.contains(k));
                                let g = bucket_of(k);
                                let i = choose|i: int| 0 <= i < old_map[g]@.len() && #[trigger] old_map[g]@[i]@ == k;
                                if g == h {
                                    assert(self.buckets@[g]@[i] == old_map[g]@[i]);
                                } else {
                                    assert(self.buckets@[g] == old_map[g]);
                                }
                            }
                        }
                    }
                    true
                }
            }
            None => {
                assert(!old_map.contains_key(h));
                let mut bucket: Vec<Vec<u8>> = Vec::new();
                bucket.push(slice_to_vec(key));
                self.buckets.insert(h, bucket);
                self.contents = Ghost(old_set.insert(key@));
                proof {
                    assert(!old_set.contains(key@));
                    assert forall|g: u64, i: int| #![trigger self.buckets@[g]@[i]]
                        self.buckets@.contains_key(g) && 0 <= i < self.buckets@[g]@.len()
                        implies bucket_of(self.buckets@[g]@[i]@) == g && self.contents@.contains(self.buckets@[g]@[i]@) by {
                        if g != h {
                            assert(self.buckets@[g] == old_map[g]);
                        }
                    }
                    assert forall|k: Seq<u8>| #[trigger] self.contents@.contains(k) implies {
                        &&& self.buckets@.contains_key(bucket_of(k))
                        &&& exists|i: int| 0 <= i < self.buckets@[bucket_of(k)]@.len()
                            && #[trigger] self.buckets@[bucket_of(k)]@[i]@ == k
                    } by {
                        if k == key@ {
                            assert(self.buckets@[h]@[0]@ == k);
                        } else {
                            assert(old_set.contains(k));
                            let g = bucket_of(k);
                            let i = choose|i: int| 0 <= i < old_map[g]@.len() && #[trigger] old_map[g]@[i]@ == k;
                            assert(self.buckets@[g] == old_map[g]);
                        }
                    }
                }
                true
            }
        }
    }
}

} // verus!
