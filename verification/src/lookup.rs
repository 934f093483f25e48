//! Tables that find the positions of byte strings in a list.

use crate::bytes;
use crate::bytes::{bytes_equal, fingerprint};
use crate::split;
use std::collections::HashMap;
use vstd::prelude::*;

verus! {

broadcast use vstd::std_specs::hash::group_hash_axioms;

/// The key at position `i` does not occur after it.
pub open spec fn is_last<K>(keys: Seq<K>, i: int) -> bool {
    &&& 0 <= i < keys.len()
    &&& forall|j: int| i < j < keys.len() ==> #[trigger] keys[j] != keys[i]
}

/// A list of byte strings in which a string is found without a search through
/// the list.
pub struct PositionTable {
    keys: Vec<Vec<u8>>,
    /// The positions of the keys with a given fingerprint.
    buckets: HashMap<u64, Vec<usize>>,
}

impl View for PositionTable {
    type V = Seq<Seq<u8>>;

    closed spec fn view(&self) -> Seq<Seq<u8>> {
        split::byte_views(self.keys@)
    }
}

impl PositionTable {
    /// The buckets list all positions, and nothing else.
    pub closed spec fn wf(&self) -> bool {
        &&& forall|i: int| 0 <= i < self.keys@.len() ==> self.listed(#[trigger] self.keys@[i]@, i)
        &&& forall|f: u64, j: int|
            self.buckets@.contains_key(f) && 0 <= j < self.buckets@[f]@.len()
                ==> (#[trigger] self.buckets@[f]@[j]) < self.keys@.len()
    }

    spec fn listed(&self, k: Seq<u8>, i: int) -> bool {
        let f = bytes::fingerprint_of(k);
        self.buckets@.contains_key(f) && self.buckets@[f]@.contains(i as usize)
    }

    /// Creates a table of no strings.
    pub fn new() -> (r: Self)
        ensures
            r.wf(),
            r@ == Seq::<Seq<u8>>::empty(),
    {
        let r = PositionTable { keys: Vec::new(), buckets: HashMap::new() };
        assert(r@ =~= Seq::<Seq<u8>>::empty());
        r
    }

    /// Appends a string.
    pub fn push(&mut self, k: Vec<u8>)
        requires
            old(self).wf(),
        ensures
            final(self).wf(),
            final(self)@ == old(self)@.push(k@),
    {
        let ghost before = *self;
        let at = self.keys.len();
        let f = fingerprint(k.as_slice());
        let mut bucket = match self.buckets.remove(&f) {
            Some(b) => b,
            None => Vec::new(),
        };
        let ghost bucket0 = bucket@;
        bucket.push(at);
        let ghost bucket1 = bucket@;
        self.buckets.insert(f, bucket);
        self.keys.push(k);
        proof {
            assert(self@ =~= before@.push(k@));
            assert(bucket1[bucket0.len() as int] == at);
            assert forall|i: int| 0 <= i < self.keys@.len() implies self.listed(
                #[trigger] self.keys@[i]@,
                i,
            ) by {
                if i < at {
                    assert(before.listed(before.keys@[i]@, i));
                    let g = bytes::fingerprint_of(self.keys@[i]@);
                    if g == f {
                        let j = bucket0.index_of(i as usize);
                        assert(bucket1[j] == i);
                    }
                }
            }
            assert forall|g: u64, j: int|
                self.buckets@.contains_key(g) && 0 <= j < self.buckets@[g]@.len() implies (
            #[trigger] self.buckets@[g]@[j]) < self.keys@.len() by {
                if g == f {
                    if j < bucket0.len() {
                        assert(before.buckets@[g]@[j] < before.keys@.len());
                    }
                } else {
                    assert(before.buckets@[g]@[j] < before.keys@.len());
                }
            }
        }
    }

    /// Finds the last position of a string.
    pub fn find_last(&self, k: &[u8]) -> (r: Option<usize>)
        requires
            self.wf(),
        ensures
            match r {
                Some(i) => is_last(self@, i as int) && self@[i as int] == k@,
                None => !self@.contains(k@),
            },
    {
        let f = fingerprint(k);
        let mut r: Option<usize> = None;
        if let Some(bucket) = self.buckets.get(&f) {
            let mut j: usize = 0;
            while j < bucket.len()
                invariant
                    self.wf(),
                    f == bytes::fingerprint_of(k@),
                    self.buckets@.contains_key(f),
                    self.buckets@[f] == *bucket,
                    j <= bucket.len(),
                    r matches Some(i) ==> i < self.keys@.len() && self.keys@[i as int]@ == k@,
                    forall|l: int|
                        0 <= l < j && self.keys@[(#[trigger] bucket@[l]) as int]@ == k@ ==> (
                        r matches Some(i) && bucket@[l] <= i),
                decreases bucket.len() - j,
            {
                let at = bucket[j];
                assert(self.buckets@[f]@[j as int] < self.keys@.len());
                if bytes_equal(self.keys[at].as_slice(), k) {
                    match r {
                        Some(i) if at <= i => {},
                        _ => {
                            r = Some(at);
                        },
                    }
                }
                j += 1;
            }
            proof {
                assert forall|i: int| 0 <= i < self@.len() && #[trigger] self@[i] == k@ implies (
                r matches Some(m) && i <= m) by {
                    assert(self.listed(self.keys@[i]@, i));
                    assert(i < self.keys.len());
                    let l = bucket@.index_of(i as usize);
                    assert(bucket@[l] == i);
                }
            }
        } else {
            proof {
                assert forall|i: int| 0 <= i < self@.len() implies #[trigger] self@[i] != k@ by {
                    assert(self.listed(self.keys@[i]@, i));
                }
            }
        }
        r
    }

    /// Tells whether a string is in the list.
    pub fn contains(&self, k: &[u8]) -> (r: bool)
        requires
            self.wf(),
        ensures
            r == self@.contains(k@),
    {
        self.find_last(k).is_some()
    }
}

} // verus!
