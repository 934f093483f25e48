//! Pools that intern byte strings and hand out [`Handle`]s for them.

use crate::bytes;
use crate::bytes::{bytes_equal, fingerprint, ByteString};
use std::collections::HashMap;
use vstd::prelude::*;

verus! {

broadcast use vstd::std_specs::hash::group_hash_axioms;

/// The position of an entry in its pool.
pub type Handle = u32;

/// An `EntryPool` interns sets of values and provides [`Handle`]-based access
/// to them. New values are appended, so that handles stay valid.
pub struct EntryPool<T: ByteString> {
    entries: Vec<T>,
    /// The handles of the entries with a given fingerprint, for lookup.
    buckets: HashMap<u64, Vec<Handle>>,
}

impl<T: ByteString> View for EntryPool<T> {
    type V = Seq<Seq<u8>>;

    /// The interned byte strings, each at the position that is its handle.
    closed spec fn view(&self) -> Seq<Seq<u8>> {
        self.entries@.map_values(|e: T| e.bytes())
    }
}

/// The position of `k` among the entries of a pool, if it was interned.
pub open spec fn handle_of(entries: Seq<Seq<u8>>, k: Seq<u8>) -> Option<Handle> {
    if entries.contains(k) {
        Some(entries.index_of(k) as Handle)
    } else {
        None
    }
}

/// The entries of a pool after `k` has been interned.
pub open spec fn interned(entries: Seq<Seq<u8>>, k: Seq<u8>) -> Seq<Seq<u8>> {
    if entries.contains(k) {
        entries
    } else {
        entries.push(k)
    }
}

/// The entries of a pool after each of `ks` has been interned in order.
pub open spec fn interned_all(entries: Seq<Seq<u8>>, ks: Seq<Seq<u8>>) -> Seq<Seq<u8>>
    decreases ks.len(),
{
    if ks.len() == 0 {
        entries
    } else {
        interned(interned_all(entries, ks.drop_last()), ks.last())
    }
}

impl<T: ByteString> EntryPool<T> {
    /// No value is interned twice, handles fit their type, and the lookup table
    /// lists exactly the entries.
    pub closed spec fn wf(&self) -> bool {
        &&& self@.no_duplicates()
        &&& self.entries@.len() <= u32::MAX + 1
        &&& forall|i: int|
            0 <= i < self.entries@.len() ==> self.listed(#[trigger] self.entries@[i].bytes(), i)
        &&& forall|f: u64, j: int|
            self.buckets@.contains_key(f) && 0 <= j < self.buckets@[f]@.len()
                ==> (#[trigger] self.buckets@[f]@[j]) < self.entries@.len()
    }

    /// The lookup table lists the handle `i` under the fingerprint of `k`.
    spec fn listed(&self, k: Seq<u8>, i: int) -> bool {
        let f = bytes::fingerprint_of(k);
        self.buckets@.contains_key(f) && self.buckets@[f]@.contains(i as u32)
    }

    /// What every well-formed pool keeps: values are distinct, and every
    /// position is a [`Handle`].
    pub proof fn lemma_wf(&self)
        requires
            self.wf(),
        ensures
            self@.no_duplicates(),
            self@.len() <= u32::MAX + 1,
    {
    }

    /// Creates an empty pool.
    pub fn new() -> (r: Self)
        ensures
            r.wf(),
            r@ == Seq::<Seq<u8>>::empty(),
    {
        let r = EntryPool { entries: Vec::new(), buckets: HashMap::new() };
        assert(r@ =~= Seq::<Seq<u8>>::empty());
        r
    }

    /// Returns the handle of the value, or None if absent.
    pub fn get(&self, k: &T) -> (r: Option<Handle>)
        requires
            self.wf(),
        ensures
            r == handle_of(self@, k.bytes()),
    {
        let f = fingerprint(k.as_byte_slice());
        match self.buckets.get(&f) {
            None => {
                proof {
                    if self@.contains(k.bytes()) {
                        let i = self@.index_of(k.bytes());
                        assert(self.entries@[i].bytes() == k.bytes());
                        assert(self.listed(self.entries@[i].bytes(), i));
                    }
                }
                None
            },
            Some(bucket) => {
                let mut j: usize = 0;
                while j < bucket.len()
                    invariant
                        self.wf(),
                        f == bytes::fingerprint_of(k.bytes()),
                        self.buckets@.contains_key(f),
                        self.buckets@[f] == *bucket,
                        j <= bucket.len(),
                        forall|l: int|
                            0 <= l < j ==> self.entries@[(#[trigger] bucket@[l]) as int].bytes()
                                != k.bytes(),
                    decreases bucket.len() - j,
                {
                    let h = bucket[j];
                    assert(self.buckets@[f]@[j as int] < self.entries@.len());
                    if bytes_equal(self.entries[h as usize].as_byte_slice(), k.as_byte_slice()) {
                        proof {
                            assert(self@[h as int] == k.bytes());
                            assert(self@.contains(k.bytes()));
                            let i = self@.index_of(k.bytes());
                            assert(i == h as int);
                        }
                        return Some(h);
                    }
                    j += 1;
                }
                proof {
                    if self@.contains(k.bytes()) {
                        let i = self@.index_of(k.bytes());
                        assert(self.entries@[i].bytes() == k.bytes());
                        assert(self.listed(self.entries@[i].bytes(), i));
                        let l = bucket@.index_of(i as u32);
                        assert(bucket@[l] == i as u32);
                    }
                }
                None
            },
        }
    }

    /// Returns the handle of the value, which is interned if it was not yet.
    pub fn get_or_insert(&mut self, p: &T) -> (r: Handle)
        requires
            old(self).wf(),
            old(self)@.contains(p.bytes()) || old(self)@.len() <= u32::MAX,
        ensures
            final(self).wf(),
            final(self)@ == interned(old(self)@, p.bytes()),
            final(self)@[r as int] == p.bytes(),
            Some(r) == handle_of(final(self)@, p.bytes()),
    {
        if let Some(handle) = self.get(p) {
            return handle;
        }
        let ghost before = *self;
        let handle = self.entries.len() as Handle;
        let f = fingerprint(p.as_byte_slice());
        let mut bucket = match self.buckets.remove(&f) {
            Some(b) => b,
            None => Vec::new(),
        };
        let ghost bucket0 = bucket@;
        bucket.push(handle);
        self.buckets.insert(f, bucket);
        self.entries.push(p.duplicate());
        proof {
            assert(self@ =~= before@.push(p.bytes()));
            assert(self.entries@.drop_last() =~= before.entries@);
            assert forall|i: int| 0 <= i < self.entries@.len() implies self.listed(
                #[trigger] self.entries@[i].bytes(),
                i,
            ) by {
                let g = bytes::fingerprint_of(self.entries@[i].bytes());
                if i < before.entries@.len() {
                    assert(before.listed(before.entries@[i].bytes(), i));
                    if g == f {
                        let l = bucket0.index_of(i as u32);
                        assert(bucket@[l] == i as u32);
                    }
                } else {
                    assert(bucket@[bucket0.len() as int] == handle);
                }
            }
            assert forall|g: u64, j: int|
                self.buckets@.contains_key(g) && 0 <= j < self.buckets@[g]@.len() implies (
            #[trigger] self.buckets@[g]@[j]) < self.entries@.len() by {
                if g == f {
                    if j < bucket0.len() {
                        assert(before.buckets@[f]@[j] < before.entries@.len());
                    }
                } else {
                    assert(before.buckets@[g]@[j] < before.entries@.len());
                }
            }
            assert(self@[handle as int] == p.bytes());
            assert(self@.contains(p.bytes()));
        }
        handle
    }

    /// Looks up the value with the given handle.
    pub fn lookup(&self, h: Handle) -> (r: Option<&T>)
        ensures
            r is Some <==> h < self@.len(),
            r matches Some(v) ==> v.bytes() == self@[h as int],
    {
        if (h as usize) < self.entries.len() {
            Some(&self.entries[h as usize])
        } else {
            None
        }
    }

    /// The interned values, in handle order.
    pub fn iter(&self) -> (r: &Vec<T>)
        ensures
            r@.map_values(|e: T| e.bytes()) == self@,
    {
        &self.entries
    }

    /// Interns a list of values, in order, in a new pool.
    pub fn from_list(list: &[T]) -> (r: Self)
        requires
            list@.len() <= u32::MAX + 1,
        ensures
            r.wf(),
            r@ == interned_all(Seq::empty(), list@.map_values(|e: T| e.bytes())),
    {
        let ghost keys = list@.map_values(|e: T| e.bytes());
        let mut pool = EntryPool::new();
        let mut i: usize = 0;
        assert(keys.take(0) =~= Seq::empty());
        while i < list.len()
            invariant
                list@.len() <= u32::MAX + 1,
                keys == list@.map_values(|e: T| e.bytes()),
                i <= list.len(),
                pool.wf(),
                pool@.len() <= i,
                pool@ == interned_all(Seq::empty(), keys.take(i as int)),
            decreases list.len() - i,
        {
            pool.get_or_insert(&list[i]);
            assert(keys.take(i + 1).drop_last() =~= keys.take(i as int));
            i += 1;
        }
        assert(keys.take(i as int) =~= keys);
        pool
    }
}

/// A value is found again under the handle that it was given, and the handle of
/// a looked-up value is the one that it was looked up by.
pub proof fn law_pool_handles_invert(entries: Seq<Seq<u8>>, h: Handle, k: Seq<u8>)
    requires
        entries.no_duplicates(),
        entries.len() <= u32::MAX + 1,
    ensures
        handle_of(entries, k) matches Some(g) ==> g < entries.len() && entries[g as int] == k,
        h < entries.len() ==> handle_of(entries, entries[h as int]) == Some(h),
{
    if h < entries.len() {
        assert(entries.contains(entries[h as int]));
    }
}

/// Interning never changes the handles given out before, keeps values distinct,
/// and changes nothing where the value is interned already.
pub proof fn law_interning_keeps_handles(entries: Seq<Seq<u8>>, k: Seq<u8>, other: Seq<u8>)
    requires
        entries.no_duplicates(),
    ensures
        interned(entries, k).no_duplicates(),
        interned(entries, k).contains(k),
        entries.is_prefix_of(interned(entries, k)),
        entries.contains(other) ==> handle_of(interned(entries, k), other) == handle_of(
            entries,
            other,
        ),
        interned(interned(entries, k), k) == interned(entries, k),
{
    let after = interned(entries, k);
    if !entries.contains(k) {
        assert(after[entries.len() as int] == k);
    }
    if entries.contains(other) {
        let i = entries.index_of(other);
        assert(after[i] == other);
        assert(after.contains(other));
        let j = after.index_of(other);
        assert(after[j] == other);
        assert(i == j);
    }
}

/// A pool rebuilt from the list of its entries is the same pool.
pub proof fn law_pool_list_round_trip(entries: Seq<Seq<u8>>)
    requires
        entries.no_duplicates(),
    ensures
        interned_all(Seq::empty(), entries) == entries,
    decreases entries.len(),
{
    if entries.len() > 0 {
        let init = entries.drop_last();
        assert(init.no_duplicates());
        law_pool_list_round_trip(init);
        assert(!init.contains(entries.last()));
        assert(init.push(entries.last()) =~= entries);
    } else {
        assert(entries =~= Seq::empty());
    }
}

/// Interning a list gives distinct values, each of the list.
pub proof fn lemma_interned_all(entries: Seq<Seq<u8>>, ks: Seq<Seq<u8>>)
    requires
        entries.no_duplicates(),
    ensures
        interned_all(entries, ks).no_duplicates(),
        interned_all(entries, ks).len() <= entries.len() + ks.len(),
        entries.is_prefix_of(interned_all(entries, ks)),
    decreases ks.len(),
{
    if ks.len() > 0 {
        lemma_interned_all(entries, ks.drop_last());
        law_interning_keeps_handles(interned_all(entries, ks.drop_last()), ks.last(), ks.last());
    }
}

/// A pool made from a list holds what the list holds, each once.
pub proof fn law_pool_holds_the_list(list: Seq<Seq<u8>>)
    ensures
        interned_all(Seq::empty(), list).no_duplicates(),
        forall|k: Seq<u8>| #[trigger]
            interned_all(Seq::empty(), list).contains(k) <==> list.contains(k),
    decreases list.len(),
{
    let now = interned_all(Seq::empty(), list);
    if list.len() > 0 {
        let init = list.drop_last();
        let before = interned_all(Seq::empty(), init);
        law_pool_holds_the_list(init);
        law_interning_keeps_handles(before, list.last(), list.last());
        assert forall|k: Seq<u8>| #[trigger] now.contains(k) <==> list.contains(k) by {
            assert(before.contains(k) <==> init.contains(k));
            if now.contains(k) {
                let i = now.index_of(k);
                if i < before.len() {
                    assert(before[i] == k);
                    assert(list[init.index_of(k)] == k);
                } else {
                    assert(list[list.len() - 1] == k);
                }
            }
            if list.contains(k) {
                let i = list.index_of(k);
                if i < init.len() {
                    assert(init[i] == k);
                    assert(now[before.index_of(k)] == k);
                }
            }
        }
    } else {
        assert forall|k: Seq<u8>| #[trigger] now.contains(k) <==> list.contains(k) by {
            assert(!list.contains(k));
        }
    }
}

} // verus!
