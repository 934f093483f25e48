//! A pool of paths.

use crate::entrypool;
use crate::entrypool::EntryPool;
use crate::split;
use vstd::prelude::*;
use vstd::slice::slice_to_vec;

verus! {

/// The position of a path in its pool.
pub type PathHandle = u32;

/// PathPool interns path strings.
pub struct PathPool {
    pool: EntryPool<Vec<u8>>,
}

impl View for PathPool {
    type V = Seq<Seq<u8>>;

    /// The interned paths, each at the position that is its handle.
    closed spec fn view(&self) -> Seq<Seq<u8>> {
        self.pool@
    }
}

impl PathPool {
    /// The pool is well-formed.
    pub closed spec fn wf(&self) -> bool {
        self.pool.wf()
    }

    /// Creates an empty pool.
    pub fn new() -> (r: Self)
        ensures
            r.wf(),
            r@ == Seq::<Seq<u8>>::empty(),
    {
        PathPool { pool: EntryPool::new() }
    }

    /// get returns the intern'd PathHandle.
    pub fn get(&self, p: &[u8]) -> (r: Option<PathHandle>)
        requires
            self.wf(),
        ensures
            r == entrypool::handle_of(self@, p@),
    {
        let k = slice_to_vec(p);
        self.pool.get(&k)
    }

    /// get_or_insert returns the intern'd PathHandle for the given string, or
    /// inserts it if not present.
    pub fn get_or_insert(&mut self, p: &[u8]) -> (r: PathHandle)
        requires
            old(self).wf(),
            old(self)@.contains(p@) || old(self)@.len() <= u32::MAX,
        ensures
            final(self).wf(),
            final(self)@ == entrypool::interned(old(self)@, p@),
            final(self)@[r as int] == p@,
            Some(r) == entrypool::handle_of(final(self)@, p@),
    {
        let k = slice_to_vec(p);
        self.pool.get_or_insert(&k)
    }

    /// lookup the string for the given PathHandle.
    pub fn lookup(&self, h: PathHandle) -> (r: Option<&Vec<u8>>)
        ensures
            match r {
                Some(p) => h < self@.len() && p@ == self@[h as int],
                None => h >= self@.len(),
            },
    {
        self.pool.lookup(h)
    }

    /// Interns a list of paths, in order, in a new pool.
    pub fn from_list(list: &[Vec<u8>]) -> (r: Self)
        requires
            list@.len() <= u32::MAX + 1,
        ensures
            r.wf(),
            r@ == entrypool::interned_all(Seq::empty(), split::byte_views(list@)),
    {
        let pool = EntryPool::from_list(list);
        assert(list@.map_values(|e: Vec<u8>| crate::bytes::ByteString::bytes(&e))
            =~= split::byte_views(list@));
        PathPool { pool }
    }

    /// The interned paths, in handle order.
    pub fn to_list(&self) -> (r: &Vec<Vec<u8>>)
        ensures
            split::byte_views(r@) == self@,
    {
        let r = self.pool.iter();
        assert(r@.map_values(|e: Vec<u8>| crate::bytes::ByteString::bytes(&e))
            =~= split::byte_views(r@));
        r
    }
}

impl Default for PathPool {
    fn default() -> (r: Self)
        ensures
            r.wf(),
            r@ == Seq::<Seq<u8>>::empty(),
    {
        PathPool::new()
    }
}

} // verus!
