//! Sets of file handles.

use super::packidx::FileHandle;
use std::collections::HashSet;
use vstd::prelude::*;

verus! {

broadcast use vstd::std_specs::hash::group_hash_axioms;

/// The two halves of a handle as one number.
spec fn packed(h: FileHandle) -> u64 {
    (h.path * 0x1_0000_0000 + h.object) as u64
}

/// The handle with the given number.
spec fn unpacked(k: u64) -> FileHandle {
    FileHandle { path: (k / 0x1_0000_0000) as u32, object: (k % 0x1_0000_0000) as u32 }
}

proof fn lemma_packed(h: FileHandle, k: u64)
    ensures
        unpacked(packed(h)) == h,
        packed(unpacked(k)) == k,
{
}

fn pack_handle(h: FileHandle) -> (k: u64)
    ensures
        k == packed(h),
{
    (h.path as u64) * 0x1_0000_0000 + (h.object as u64)
}

fn unpack_handle(k: u64) -> (h: FileHandle)
    ensures
        h == unpacked(k),
{
    FileHandle { path: (k / 0x1_0000_0000) as u32, object: (k % 0x1_0000_0000) as u32 }
}

/// A set of file handles.
pub struct FileHandleSet {
    keys: HashSet<u64>,
}

impl View for FileHandleSet {
    type V = Set<FileHandle>;

    closed spec fn view(&self) -> Set<FileHandle> {
        handles_of(self.keys@)
    }
}

/// The handles with the given numbers.
spec fn handles_of(keys: Set<u64>) -> Set<FileHandle> {
    keys.map(|k: u64| unpacked(k))
}

proof fn lemma_unpacked_set(keys: Set<u64>)
    ensures
        forall|h: FileHandle|
            #[trigger] handles_of(keys).contains(h) <==> keys.contains(packed(h)),
        forall|k: u64| handles_of(keys).contains(unpacked(k)) <==> #[trigger] keys.contains(k),
{
    let set = handles_of(keys);
    assert forall|h: FileHandle| #[trigger] set.contains(h) <==> keys.contains(packed(h)) by {
        lemma_packed(h, packed(h));
        if set.contains(h) {
            let k = choose|k: u64| keys.contains(k) && h == unpacked(k);
            lemma_packed(h, k);
        }
    }
    assert forall|k: u64| #[trigger] keys.contains(k) <==> set.contains(unpacked(k)) by {
        lemma_packed(unpacked(k), k);
    }
}

impl FileHandleSet {
    /// Creates an empty set.
    pub fn new() -> (r: Self)
        ensures
            r@ == Set::<FileHandle>::empty(),
    {
        let r = FileHandleSet { keys: HashSet::new() };
        proof {
            lemma_unpacked_set(r.keys@);
            assert(r@ =~= Set::empty());
        }
        r
    }

    /// Collects the handles of a list into a set.
    pub fn from_list(list: &[FileHandle]) -> (r: Self)
        ensures
            r@ == list@.to_set(),
    {
        let mut r = FileHandleSet::new();
        let mut i: usize = 0;
        assert(list@.take(0).to_set() =~= Set::empty());
        while i < list.len()
            invariant
                i <= list.len(),
                r@ == list@.take(i as int).to_set(),
            decreases list.len() - i,
        {
            r.insert(list[i]);
            proof {
                let before = list@.take(i as int);
                let after = list@.take(i + 1);
                assert(after =~= before.push(list@[i as int]));
                assert forall|h: FileHandle| after.to_set().contains(h) <==> before.to_set().insert(
                    list@[i as int],
                ).contains(h) by {
                    if before.contains(h) {
                        let j = before.index_of(h);
                        assert(after[j] == h);
                    }
                    if after.contains(h) {
                        let j = after.index_of(h);
                        if j < i {
                            assert(before[j] == h);
                        }
                    }
                    assert(after[i as int] == list@[i as int]);
                }
                assert(after.to_set() =~= before.to_set().insert(list@[i as int]));
            }
            i += 1;
        }
        assert(list@.take(i as int) =~= list@);
        r
    }

    /// Tells whether the set holds the handle.
    pub fn contains(&self, h: &FileHandle) -> (r: bool)
        ensures
            r == self@.contains(*h),
    {
        proof {
            lemma_unpacked_set(self.keys@);
        }
        let k = pack_handle(*h);
        self.keys.contains(&k)
    }

    /// Adds a handle, and tells whether it was not there before.
    pub fn insert(&mut self, h: FileHandle) -> (r: bool)
        ensures
            r == !old(self)@.contains(h),
            final(self)@ == old(self)@.insert(h),
    {
        proof {
            lemma_unpacked_set(self.keys@);
            lemma_packed(h, packed(h));
        }
        let k = pack_handle(h);
        let r = self.keys.insert(k);
        proof {
            lemma_unpacked_set(self.keys@);
            assert forall|g: FileHandle| self@.contains(g) <==> old(self)@.insert(h).contains(g) by {
                lemma_packed(g, packed(g));
            }
            assert(self@ =~= old(self)@.insert(h));
        }
        r
    }

    /// Removes a handle, and tells whether it was there before.
    pub fn remove(&mut self, h: &FileHandle) -> (r: bool)
        ensures
            r == old(self)@.contains(*h),
            final(self)@ == old(self)@.remove(*h),
    {
        proof {
            lemma_unpacked_set(self.keys@);
            lemma_packed(*h, packed(*h));
        }
        let k = pack_handle(*h);
        let r = self.keys.remove(&k);
        proof {
            lemma_unpacked_set(self.keys@);
            assert forall|g: FileHandle| self@.contains(g) <==> old(self)@.remove(*h).contains(g) by {
                lemma_packed(g, packed(g));
            }
            assert(self@ =~= old(self)@.remove(*h));
        }
        r
    }

    /// The number of handles in the set.
    pub fn len(&self) -> (r: usize)
        ensures
            r == self@.len(),
            self@.finite(),
    {
        proof {
            let f = |k: u64| unpacked(k);
            assert(vstd::relations::injective_on(f, self.keys@)) by {
                assert forall|a: u64, b: u64| #[trigger] f(a) == #[trigger] f(b) implies a == b by {
                    lemma_packed(f(a), a);
                    lemma_packed(f(b), b);
                }
            }
            assert(self.keys@.map(f) =~= self@);
            let walk = vstd::std_specs::iter::IteratorSpec::remaining(
                &vstd::std_specs::hash::spec_hash_keys_iter(&self.keys),
            ).unref();
            assert(walk.to_set() == self.keys@);
            vstd::seq_lib::seq_to_set_is_finite(walk);
            vstd::set_lib::lemma_map_size(self.keys@, self@, f);
        }
        self.keys.len()
    }

    /// Lists the handles of the set, each once, in no particular order.
    pub fn to_list(&self) -> (r: Vec<FileHandle>)
        ensures
            r@.no_duplicates(),
            r@.to_set() == self@,
    {
        let mut r: Vec<FileHandle> = Vec::new();
        let ghost mut listed: Seq<u64> = Seq::empty();
        for k in it: self.keys.iter()
            invariant
                it.seq().unref().to_set() == self.keys@,
                it.seq().no_duplicates(),
                listed =~= it.seq().unref().take(it.index() as int),
                it.index() == it.seq().len() ==> listed == it.seq().unref(),
                r@ =~= listed.map_values(|k: u64| unpacked(k)),
        {
            proof {
                listed = listed.push(*k);
                assert(listed =~= it.seq().unref().take(it.index() + 1));
            }
            r.push(unpack_handle(*k));
        }
        proof {
            lemma_unpacked_set(self.keys@);
            assert(listed.no_duplicates());
            assert forall|i: int, j: int| 0 <= i < r@.len() && 0 <= j < r@.len() && i != j implies r@[i]
                != r@[j] by {
                lemma_packed(r@[i], listed[i]);
                lemma_packed(r@[j], listed[j]);
            }
            assert forall|h: FileHandle| r@.to_set().contains(h) <==> self@.contains(h) by {
                if r@.contains(h) {
                    let i = r@.index_of(h);
                    assert(listed.to_set().contains(listed[i]));
                }
                if self@.contains(h) {
                    lemma_packed(h, packed(h));
                    assert(listed.to_set().contains(packed(h)));
                    let i = listed.index_of(packed(h));
                    assert(r@[i] == h);
                }
            }
            assert(r@.to_set() =~= self@);
        }
        r
    }
}

} // verus!
