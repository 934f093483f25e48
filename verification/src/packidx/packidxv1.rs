//! The first version of the pack index.

use super::error::PackError;
use super::encoding::IndexParts;
use super::handleset::FileHandleSet;
use super::model;
use super::model::IndexView;
use super::packidx;
use super::packidx::{
    ChangeSet, ChangeView, FileEntry, FileEntryView, FileHandle, FileMetadata,
    ObjectMetadata, Snapshot,
};
use crate::bytes;
use crate::bytes::{bytes_less, ByteString};
use crate::digest::{sha1, ObjectChecksum};
use crate::entrypool;
use crate::entrypool::{EntryPool, Handle};
use crate::repo::algo;
use crate::repo::algo::{partition_by_u64, total_of};
use crate::sort;
use crate::sort::sort_positions;
use crate::text::text_equal;
use std::collections::BTreeMap;
use std::ops::ControlFlow;
use vstd::prelude::*;

verus! {

broadcast use vstd::std_specs::btree::group_btree_axioms;

/// Contains the metadata needed to extract files from a pack file.
pub struct PackIndexV1 {
    snapshot_tags: Vec<String>,
    snapshot_deltas: Vec<ChangeSet<FileHandle>>,
    path_pool: EntryPool<Vec<u8>>,
    object_pool: EntryPool<ObjectChecksum>,
    object_metadata: BTreeMap<Handle, ObjectMetadata>,
    /// When snapshots are pushed, maintain the current state of the filesystem.
    /// Not stored on disk.
    current: FileHandleSet,
}

/// The texts of a list of strings.
pub open spec fn text_views(list: Seq<String>) -> Seq<Seq<char>> {
    list.map_values(|s: String| s@)
}

/// What a list of change sets says.
pub open spec fn change_views(list: Seq<ChangeSet<FileHandle>>) -> Seq<ChangeView<FileHandle>> {
    list.map_values(|c: ChangeSet<FileHandle>| c@)
}

impl View for PackIndexV1 {
    type V = IndexView;

    closed spec fn view(&self) -> IndexView {
        IndexView {
            tags: text_views(self.snapshot_tags@),
            deltas: change_views(self.snapshot_deltas@),
            paths: self.path_pool@,
            objects: self.object_pool@,
            metadata: self.object_metadata@,
            current: self.current@,
        }
    }
}

impl Default for PackIndexV1 {
    fn default() -> (r: Self)
        ensures
            r.wf(),
            r@ == model::empty_index(),
    {
        PackIndexV1::new()
    }
}

impl PackIndexV1 {
    /// The pools of the index are well formed.
    pub closed spec fn wf(&self) -> bool {
        self.path_pool.wf() && self.object_pool.wf()
    }

    /// What every well-formed index keeps.
    pub proof fn lemma_wf(&self)
        requires
            self.wf(),
        ensures
            model::pools_valid(self@),
    {
        self.path_pool.lemma_wf();
        self.object_pool.lemma_wf();
    }

    /// Creates an empty index.
    pub fn new() -> (r: Self)
        ensures
            r.wf(),
            r@ == model::empty_index(),
    {
        let r = PackIndexV1 {
            snapshot_tags: Vec::new(),
            snapshot_deltas: Vec::new(),
            path_pool: EntryPool::new(),
            object_pool: EntryPool::new(),
            object_metadata: BTreeMap::new(),
            current: FileHandleSet::new(),
        };
        assert(r@.tags =~= Seq::empty());
        assert(r@.deltas =~= Seq::empty());
        r
    }

    /// Expands the file handle into a file entry.
    pub fn handle_to_entry(&self, handle: &FileHandle) -> (r: Result<FileEntry, PackError>)
        requires
            model::is_described(self@, *handle),
        ensures
            match r {
                Ok(e) => model::handle_fault(self@, *handle) is None && e@ == model::entry_of(
                    self@,
                    *handle,
                ),
                Err(e) => model::handle_fault(self@, *handle) == Some(e),
            },
    {
        let path = match self.path_pool.lookup(handle.path) {
            Some(p) => p.duplicate(),
            None => {
                return Err(PackError::PathNotFound(handle.path));
            },
        };
        let checksum = match self.object_pool.lookup(handle.object) {
            Some(c) => *c,
            None => {
                return Err(PackError::ObjectNotFound);
            },
        };
        let metadata = *self.object_metadata.get(&handle.object).unwrap();
        Ok(FileEntry { path, checksum, metadata, file_metadata: FileMetadata { mode: 0 } })
    }

    /// Stores the file entry into the pack index and returns a handle to it.
    pub fn entry_to_handle(&mut self, entry: &FileEntry) -> (r: Result<FileHandle, PackError>)
        requires
            old(self).wf(),
            model::has_room(old(self)@, seq![entry@]),
        ensures
            final(self).wf(),
            final(self)@ == model::with_entry(old(self)@, entry@),
            r == Ok::<FileHandle, PackError>(model::handle_of_entry(final(self)@, entry@)),
    {
        let ghost before = self@;
        proof {
            assert(seq![entry@].drop_last() =~= Seq::empty());
            reveal_with_fuel(model::with_entries, 2);
            assert(model::with_entries(before, seq![entry@]) == model::with_entry(before, entry@));
        }
        let object = self.object_pool.get_or_insert(&entry.checksum);
        self.object_metadata.insert(object, entry.metadata);
        let path = self.path_pool.get_or_insert(&entry.path);
        assert(self@ =~= model::with_entry(before, entry@));
        Ok(FileHandle { path, object })
    }

    /// Dereferences all file handles.
    pub fn entries_from_handles(&self, handles: &[FileHandle]) -> (r: Result<
        Vec<FileEntry>,
        PackError,
    >)
        requires
            model::handles_described(self@, handles@),
        ensures
            match r {
                Ok(v) => model::fault_from(self@, handles@, 0) is None && packidx::entry_views(v@)
                    == model::entries_of(self@, handles@),
                Err(e) => model::fault_from(self@, handles@, 0) == Some(e),
            },
    {
        let mut r: Vec<FileEntry> = Vec::new();
        let mut i: usize = 0;
        while i < handles.len()
            invariant
                i <= handles.len(),
                model::handles_described(self@, handles@),
                model::fault_from(self@, handles@, 0) == model::fault_from(
                    self@,
                    handles@,
                    i as int,
                ),
                packidx::entry_views(r@) =~= model::entries_of(self@, handles@.take(i as int)),
            decreases handles.len() - i,
        {
            match self.handle_to_entry(&handles[i]) {
                Ok(e) => {
                    r.push(e);
                    proof {
                        let now = handles@.take(i + 1);
                        assert(now =~= handles@.take(i as int).push(handles@[i as int]));
                        assert(model::entries_of(self@, now) =~= model::entries_of(
                            self@,
                            handles@.take(i as int),
                        ).push(e@));
                    }
                },
                Err(e) => {
                    return Err(e);
                },
            }
            i += 1;
        }
        assert(handles@.take(i as int) =~= handles@);
        Ok(r)
    }

    /// Returns all snapshots tags stored in the pack.
    pub fn snapshot_tags(&self) -> (r: &Vec<String>)
        ensures
            text_views(r@) == self@.tags,
    {
        &self.snapshot_tags
    }

    /// The number of snapshots: of tags that have a list of changes.
    pub fn snapshot_count(&self) -> (r: usize)
        ensures
            r == model::listed(self@),
    {
        if self.snapshot_tags.len() <= self.snapshot_deltas.len() {
            self.snapshot_tags.len()
        } else {
            self.snapshot_deltas.len()
        }
    }

    /// Check for the presence of a snapshot.
    pub fn has_snapshot(&self, needle: &str) -> (r: bool)
        ensures
            r == self@.tags.contains(needle@),
    {
        let mut i: usize = 0;
        while i < self.snapshot_tags.len()
            invariant
                i <= self.snapshot_tags.len(),
                forall|j: int| 0 <= j < i ==> self@.tags[j] != needle@,
            decreases self.snapshot_tags.len() - i,
        {
            assert(self@.tags[i as int] == self.snapshot_tags@[i as int]@);
            if text_equal(self.snapshot_tags[i].as_str(), needle) {
                return true;
            }
            i += 1;
        }
        false
    }

    /// Tells whether [`Self::resolve_snapshot`] can be used for the tag: the
    /// lists of changes fit one another.
    pub fn is_resolvable(&self, needle: &str) -> (r: bool)
        ensures
            r == model::resolvable(self@, needle@),
    {
        let mut current = FileHandleSet::new();
        let mut i: usize = 0;
        while i < self.snapshot_tags.len() && i < self.snapshot_deltas.len()
            invariant
                i <= model::listed(self@),
                current@ == model::content_after(self@.deltas, i as int),
                model::clean_upto(self@.deltas, i as int),
                model::snapshot_position(self@, needle@) == model::position_of(
                    self@.tags,
                    needle@,
                    i as int,
                    model::listed(self@),
                ),
            decreases self.snapshot_tags.len() - i,
        {
            proof {
                assert(self@.tags[i as int] == self.snapshot_tags@[i as int]@);
                assert(self@.deltas[i as int] == self.snapshot_deltas@[i as int]@);
                lemma_position_range(self@.tags, needle@, i as int, model::listed(self@));
            }
            if !Self::delta_is_clean(&current, &self.snapshot_deltas[i]) {
                assert(!packidx::applies_cleanly(
                    model::content_after(self@.deltas, i as int),
                    self@.deltas[i as int],
                ));
                return false;
            }
            Snapshot::apply_changes(&mut current, &self.snapshot_deltas[i]);
            if text_equal(self.snapshot_tags[i].as_str(), needle) {
                return true;
            }
            i += 1;
        }
        true
    }

    /// Tells whether a change can be made to a set of files.
    fn delta_is_clean(set: &FileHandleSet, delta: &ChangeSet<FileHandle>) -> (r: bool)
        ensures
            r == packidx::applies_cleanly(set@, delta@),
    {
        let removed = FileHandleSet::from_list(delta.removed.as_slice());
        let added = FileHandleSet::from_list(delta.added.as_slice());
        proof {
            delta.removed@.lemma_cardinality_of_set();
            delta.added@.lemma_cardinality_of_set();
            if removed@.len() == delta.removed@.len() {
                delta.removed@.lemma_no_dup_set_cardinality();
            }
            if added@.len() == delta.added@.len() {
                delta.added@.lemma_no_dup_set_cardinality();
            }
            if delta.removed@.no_duplicates() {
                delta.removed@.unique_seq_to_set();
            }
            if delta.added@.no_duplicates() {
                delta.added@.unique_seq_to_set();
            }
        }
        if removed.len() != delta.removed.len() || added.len() != delta.added.len() {
            return false;
        }
        let mut i: usize = 0;
        while i < delta.removed.len()
            invariant
                i <= delta.removed.len(),
                forall|j: int| 0 <= j < i ==> set@.contains(#[trigger] delta.removed@[j]),
            decreases delta.removed.len() - i,
        {
            if !set.contains(&delta.removed[i]) {
                assert(delta.removed@.to_set().contains(delta.removed@[i as int]));
                return false;
            }
            i += 1;
        }
        let mut j: usize = 0;
        while j < delta.added.len()
            invariant
                j <= delta.added.len(),
                removed@ == delta.removed@.to_set(),
                forall|k: int|
                    0 <= k < j ==> !set@.difference(removed@).contains(#[trigger] delta.added@[k]),
            decreases delta.added.len() - j,
        {
            if set.contains(&delta.added[j]) && !removed.contains(&delta.added[j]) {
                assert(delta.added@.to_set().contains(delta.added@[j as int]));
                return false;
            }
            j += 1;
        }
        true
    }

    /// Tells whether each object of the pool is described.
    pub fn describes_objects(&self) -> (r: bool)
        requires
            self.wf(),
        ensures
            r == model::objects_described(self@),
    {
        proof {
            self.lemma_wf();
        }
        let n = self.object_pool.iter().len();
        let mut i: usize = 0;
        while i < n
            invariant
                i <= n,
                n == self@.objects.len(),
                n <= u32::MAX + 1,
                forall|h: Handle| h < i ==> #[trigger] self@.metadata.contains_key(h),
            decreases n - i,
        {
            if self.object_metadata.get(&(i as Handle)).is_none() {
                assert(!self@.metadata.contains_key(i as Handle));
                return false;
            }
            i += 1;
        }
        true
    }

    /// Tells whether the objects of the files are described, as far as the
    /// handles are without fault.
    fn describes_handles(&self, handles: &[FileHandle]) -> (r: bool)
        ensures
            r == model::handles_described(self@, handles@),
    {
        let mut i: usize = 0;
        while i < handles.len()
            invariant
                i <= handles.len(),
                forall|j: int| 0 <= j < i ==> model::is_described(self@, #[trigger] handles@[j]),
            decreases handles.len() - i,
        {
            let h = handles[i];
            if self.path_pool.lookup(h.path).is_some() && self.object_pool.lookup(h.object).is_some()
                && self.object_metadata.get(&h.object).is_none() {
                assert(!model::is_described(self@, handles@[i as int]));
                return false;
            }
            i += 1;
        }
        true
    }

    /// Tells whether the objects of the files of all snapshots are described,
    /// and the changes between the snapshots fit one another. This holds of
    /// every index that was made by pushing snapshots, but not of every index
    /// file.
    pub fn is_walkable(&self) -> (r: bool)
        ensures
            r == (model::deltas_described(self@) && model::clean_upto(
                self@.deltas,
                model::listed(self@),
            )),
    {
        let mut current = FileHandleSet::new();
        let mut i: usize = 0;
        while i < self.snapshot_tags.len() && i < self.snapshot_deltas.len()
            invariant
                i <= model::listed(self@),
                current@ == model::content_after(self@.deltas, i as int),
                model::clean_upto(self@.deltas, i as int),
                forall|j: int|
                    0 <= j < i ==> model::delta_described(self@, #[trigger] self@.deltas[j]),
            decreases self.snapshot_tags.len() - i,
        {
            let delta = &self.snapshot_deltas[i];
            assert(self@.deltas[i as int] == delta@);
            if !self.describes_handles(delta.added.as_slice()) || !self.describes_handles(
                delta.removed.as_slice(),
            ) {
                assert(!model::delta_described(self@, self@.deltas[i as int]));
                return false;
            }
            if !Self::delta_is_clean(&current, delta) {
                assert(!packidx::applies_cleanly(
                    model::content_after(self@.deltas, i as int),
                    self@.deltas[i as int],
                ));
                return false;
            }
            Snapshot::apply_changes(&mut current, delta);
            i += 1;
        }
        true
    }

    /// The numbers of paths and of objects.
    pub fn pool_sizes(&self) -> (r: (usize, usize))
        ensures
            r.0 == self@.paths.len(),
            r.1 == self@.objects.len(),
    {
        (self.path_pool.iter().len(), self.object_pool.iter().len())
    }

    /// Map the snapshot tag to the list of files store in the snapshot. The
    /// files are listed in no particular order.
    pub fn resolve_snapshot(&self, needle: &str) -> (r: Option<Vec<FileHandle>>)
        requires
            model::resolvable(self@, needle@),
        ensures
            match r {
                Some(v) => v@.no_duplicates() && model::snapshot_files(self@, needle@) == Some(
                    v@.to_set(),
                ),
                None => model::snapshot_files(self@, needle@) is None,
            },
    {
        let mut current = FileHandleSet::new();
        let mut i: usize = 0;
        while i < self.snapshot_tags.len() && i < self.snapshot_deltas.len()
            invariant
                model::resolvable(self@, needle@),
                i <= model::listed(self@),
                current@ == model::content_after(self@.deltas, i as int),
                model::snapshot_position(self@, needle@) == model::position_of(
                    self@.tags,
                    needle@,
                    i as int,
                    model::listed(self@),
                ),
            decreases self.snapshot_tags.len() - i,
        {
            proof {
                assert(self@.tags[i as int] == self.snapshot_tags@[i as int]@);
                assert(self@.deltas[i as int] == self.snapshot_deltas@[i as int]@);
                lemma_position_range(self@.tags, needle@, i as int, model::listed(self@));
                assert(packidx::applies_cleanly(
                    model::content_after(self@.deltas, i as int),
                    self@.deltas[i as int],
                ));
            }
            Snapshot::apply_changes(&mut current, &self.snapshot_deltas[i]);
            if text_equal(self.snapshot_tags[i].as_str(), needle) {
                return Some(current.to_list());
            }
            i += 1;
        }
        None
    }

    /// Create and add a new snapshot compatible with the loose index format.
    /// The list of [`FileEntry`] is the files to record in the snapshot.
    pub fn push_snapshot(&mut self, tag: String, input: Vec<FileEntry>) -> (r: Result<
        (),
        PackError,
    >)
        requires
            old(self).wf(),
            old(self)@.tags.contains(tag@) || model::has_room(old(self)@, packidx::entry_views(input@)),
        ensures
            final(self).wf(),
            match r {
                Ok(_) => !old(self)@.tags.contains(tag@) && exists|delta: ChangeView<FileHandle>|
                    #[trigger] packidx::is_change(
                        delta,
                        old(self)@.current,
                        final(self)@.current,
                    ) && final(self)@ == model::with_snapshot(
                        old(self)@,
                        tag@,
                        packidx::entry_views(input@),
                        delta,
                    ),
                Err(e) => {
                    &&& old(self)@.tags.contains(tag@)
                    &&& final(self)@ == old(self)@
                    &&& e matches PackError::SnapshotAlreadyExists(p, t)
                    &&& p@ == "<unknown>"@
                    &&& t@ == tag@
                },
            },
    {
        if self.has_snapshot(tag.as_str()) {
            return Err(PackError::SnapshotAlreadyExists("<unknown>".to_owned(), tag));
        }
        let ghost before = self@;
        let ghost es = packidx::entry_views(input@);
        let mut files = FileHandleSet::new();
        let mut i: usize = 0;
        proof {
            self.lemma_wf();
            assert(es.take(0) =~= Seq::empty());
            assert(es.take(0).map_values(
                |e: FileEntryView| model::handle_of_entry(before, e),
            ).to_set() =~= Set::<FileHandle>::empty());
        }
        while i < input.len()
            invariant
                i <= input.len(),
                es == packidx::entry_views(input@),
                model::pools_valid(before),
                model::has_room(before, es),
                self.wf(),
                self@ == model::with_entries(before, es.take(i as int)),
                files@ == model::handles_of_entries(self@, es.take(i as int)),
            decreases input.len() - i,
        {
            let ghost now = self@;
            let ghost done = es.take(i as int);
            proof {
                assert(es[i as int] == input@[i as int]@);
                assert(es.take(i + 1).drop_last() =~= done);
                assert(es.take(i + 1).last() == es[i as int]);
                model::lemma_room_of_prefix(before, es, i + 1);
                assert(seq![es[i as int]].drop_last() =~= Seq::empty());
                reveal_with_fuel(model::with_entries, 2);
                assert(model::with_entries(now, seq![es[i as int]]) == model::with_entry(
                    now,
                    es[i as int],
                ));
            }
            match self.entry_to_handle(&input[i]) {
                Ok(h) => {
                    files.insert(h);
                },
                Err(e) => {
                    assert(false);
                    return Err(e);
                },
            }
            proof {
                lemma_handles_step(before, es, i as int);
            }
            i += 1;
        }
        assert(es.take(i as int) =~= es);
        let ghost stored = self@;
        // Compute delta against last pushed snapshot.
        let delta = Snapshot::get_changes(&mut self.current, &files);
        self.current = files;
        self.snapshot_tags.push(tag);
        self.snapshot_deltas.push(delta);
        proof {
            model::lemma_with_entries(before, es);
            assert(self@.tags =~= before.tags.push(tag@));
            assert(self@.deltas =~= before.deltas.push(delta@));
            assert(self@ =~= model::with_snapshot(before, tag@, es, delta@));
            assert(packidx::is_change(delta@, before.current, self@.current));
        }
        Ok(())
    }
}

/// The list pairs the keys of the map, in increasing order, with their values.
pub open spec fn lists_map(list: Seq<(Handle, ObjectMetadata)>, m: Map<Handle, ObjectMetadata>) -> bool {
    &&& forall|i: int, j: int| 0 <= i < j < list.len() ==> (#[trigger] list[i]).0 < (#[trigger] list[j]).0
    &&& forall|i: int|
        0 <= i < list.len() ==> m.contains_key((#[trigger] list[i]).0) && m[list[i].0] == list[i].1
    &&& forall|k: Handle| #[trigger] m.contains_key(k) ==> list.contains((k, m[k]))
}

proof fn lemma_increasing(s: Seq<Handle>, i: int, j: int)
    requires
        vstd::std_specs::btree::increasing_seq(s),
        0 <= i < j < s.len(),
    ensures
        s[i] < s[j],
{
    assert(vstd::std_specs::cmp::OrdSpec::cmp_spec(&s[i], &s[j]) is Less);
}

/// Lists a map in the order of its keys.
fn list_map(m: &BTreeMap<Handle, ObjectMetadata>) -> (r: Vec<(Handle, ObjectMetadata)>)
    ensures
        lists_map(r@, m@),
{
    let mut r: Vec<(Handle, ObjectMetadata)> = Vec::new();
    let ghost mut walk: Seq<(&Handle, &ObjectMetadata)> = Seq::empty();
    for kv in it: m.iter()
        invariant
            it.seq() == vstd::std_specs::iter::IteratorSpec::remaining(
                &vstd::std_specs::btree::spec_btree_map_iter(m),
            ),
            vstd::std_specs::btree::increasing_seq(
                it.seq().map_values(|kv: (&Handle, &ObjectMetadata)| *kv.0),
            ),
            it.index() == it.seq().len() ==> walk == it.seq(),
            walk =~= it.seq().take(it.index() as int),
            r@ =~= walk.map_values(|kv: (&Handle, &ObjectMetadata)| (*kv.0, *kv.1)),
    {
        proof {
            walk = walk.push(kv);
            assert(walk =~= it.seq().take(it.index() + 1));
        }
        r.push((*kv.0, *kv.1));
    }
    proof {
        let keys = walk.map_values(|kv: (&Handle, &ObjectMetadata)| *kv.0);
        assert(vstd::std_specs::btree::increasing_seq(keys));
        assert forall|i: int, j: int| 0 <= i < j < r@.len() implies (#[trigger] r@[i]).0 < (
        #[trigger] r@[j]).0 by {
            assert(keys[i] == r@[i].0);
            assert(keys[j] == r@[j].0);
            lemma_increasing(keys, i, j);
        }
        assert forall|i: int| 0 <= i < r@.len() implies m@.contains_key((#[trigger] r@[i]).0)
            && m@[r@[i].0] == r@[i].1 by {
            assert(m@.contains_key(*walk[i].0));
        }
        assert forall|k: Handle| #[trigger] m@.contains_key(k) implies r@.contains((k, m@[k])) by {
            assert(walk.contains((&k, &m@[k])));
            let i = walk.index_of((&k, &m@[k]));
            assert(r@[i] == (k, m@[k]));
        }
    }
    r
}

impl PackIndexV1 {
    /// The sizes of all objects in the pack.
    fn object_sizes(&self) -> (sizes: Vec<u64>)
        ensures
            algo::sum_of(sizes@) == model::total_size(self@.metadata),
    {
        let list = list_map(&self.object_metadata);
        let mut sizes: Vec<u64> = Vec::new();
        let ghost handles = list@.map_values(|x: (Handle, ObjectMetadata)| x.0);
        let mut i: usize = 0;
        while i < list.len()
            invariant
                i <= list.len(),
                lists_map(list@, self@.metadata),
                handles == list@.map_values(|x: (Handle, ObjectMetadata)| x.0),
                sizes@ =~= model::sizes_of(self@.metadata, handles).take(i as int),
            decreases list.len() - i,
        {
            assert(self@.metadata[list@[i as int].0] == list@[i as int].1);
            sizes.push(list[i].1.size);
            i += 1;
        }
        proof {
            lemma_listed_handles(list@, self@.metadata);
            model::lemma_sizes_add_up(self@.metadata, handles);
            assert(sizes@ =~= model::sizes_of(self@.metadata, handles));
        }
        sizes
    }

    /// The total size of objects in the pack
    pub fn object_size_total(&self) -> (r: u64)
        requires
            model::total_size(self@.metadata) <= u64::MAX,
        ensures
            r == model::total_size(self@.metadata),
    {
        total_of(self.object_sizes().as_slice())
    }

    /// The total size of all objects in the pack, if it fits.
    pub fn checked_object_size_total(&self) -> (r: Option<u64>)
        ensures
            match r {
                Some(n) => n == model::total_size(self@.metadata),
                None => model::total_size(self@.metadata) > u64::MAX,
            },
    {
        let sizes = self.object_sizes();
        let mut total: u64 = 0;
        let mut i: usize = 0;
        assert(sizes@.take(0) =~= Seq::empty());
        while i < sizes.len()
            invariant
                i <= sizes.len(),
                algo::sum_of(sizes@) == model::total_size(self@.metadata),
                total == algo::sum_of(sizes@.take(i as int)),
            decreases sizes.len() - i,
        {
            proof {
                assert(sizes@.take(i + 1).drop_last() =~= sizes@.take(i as int));
                algo::lemma_sum_of_prefix(sizes@, i + 1);
            }
            match total.checked_add(sizes[i]) {
                Some(sum) => {
                    total = sum;
                },
                None => {
                    return None;
                },
            }
            i += 1;
        }
        assert(sizes@.take(i as int) =~= sizes@);
        Some(total)
    }

    /// The checksums of all objects in the pack, in handle order.
    pub fn object_checksums(&self) -> (r: &Vec<ObjectChecksum>)
        ensures
            r@.map_values(|c: ObjectChecksum| c@) == self@.objects,
    {
        let r = self.object_pool.iter();
        assert(r@.map_values(|c: ObjectChecksum| c@) =~= r@.map_values(
            |c: ObjectChecksum| c.bytes(),
        ));
        r
    }

    /// The metadata stored for the object
    pub fn object_metadata(&self, checksum: &ObjectChecksum) -> (r: &ObjectMetadata)
        requires
            self.wf(),
            self@.objects.contains(checksum@),
            self@.metadata.contains_key(entrypool::handle_of(self@.objects, checksum@)->0),
        ensures
            *r == self@.metadata[entrypool::handle_of(self@.objects, checksum@)->0],
    {
        let handle = self.object_pool.get(checksum).unwrap();
        self.object_metadata.get(&handle).unwrap()
    }

    /// Returns the checksum referenced by the handle.
    pub fn handle_to_checksum(&self, h: Handle) -> (r: &ObjectChecksum)
        requires
            h < self@.objects.len(),
        ensures
            r@ == self@.objects[h as int],
    {
        self.object_pool.lookup(h).unwrap()
    }

    /// Partitions the objects into the specified number of partitions while
    /// maintaining the relative order of the objects and minimising the
    /// total object size in partitions.
    pub fn objects_partitioned_by_size<'l>(
        &self,
        partitions: u32,
        handles: &'l [Handle],
    ) -> (r: Vec<&'l [Handle]>)
        requires
            forall|i: int|
                0 <= i < handles@.len() ==> self@.metadata.contains_key(#[trigger] handles@[i]),
            algo::sum_of(model::sizes_of(self@.metadata, handles@)) <= u64::MAX,
            handles@.len() > 0 ==> algo::partition_limit(partitions, handles@.len()) > 0,
        ensures
            algo::are_ranges_of(
                r@,
                handles@,
                algo::partition_ranges(model::sizes_of(self@.metadata, handles@), partitions),
            ),
    {
        let metadata = &self.object_metadata;
        let size_of = |handle: &Handle| -> (size: u64)
            requires
                metadata@.contains_key(*handle),
            ensures
                size == metadata@[*handle].size,
            { metadata.get(handle).unwrap().size };
        let ghost sizes = model::sizes_of(self@.metadata, handles@);
        proof {
            assert forall|values: Seq<u64>| #[trigger]
                algo::measures(size_of, handles@, values) implies values == sizes by {
                assert(values =~= sizes);
            }
        }
        partition_by_u64(handles, partitions, size_of)
    }

    /// Reorders the objects for maximum compressability and computes the object
    /// offsets.
    pub fn compute_object_offsets_and_ordering(self) -> (r: (Self, Vec<Handle>))
        requires
            self.wf(),
            model::total_size(self@.metadata) <= u64::MAX,
        ensures
            r.0.wf(),
            model::is_ordering(r.1@, self@.metadata),
            r.0@ == (IndexView { metadata: model::placed(self@.metadata, r.1@), ..self@ }),
    {
        let ghost m = self@.metadata;
        // Heuristic for good compression: Sort objects by size. This happens to
        // put similar objects next to each other. Ties in size are broken
        // according to the order objects were added to the object pool.
        let list = list_map(&self.object_metadata);
        let handles = order_by_size(&list, Ghost(m));
        // Update object metadata to reference new offsets.
        let mut metadata: BTreeMap<Handle, ObjectMetadata> = BTreeMap::new();
        let mut offset: u64 = 0;
        let mut i: usize = 0;
        let ghost sizes = model::sizes_of(m, handles@);
        proof {
            model::lemma_sizes_add_up(m, handles@);
        }
        while i < handles.len()
            invariant
                i <= handles.len(),
                self@.metadata == m,
                model::is_ordering(handles@, m),
                sizes == model::sizes_of(m, handles@),
                algo::sum_of(sizes) <= u64::MAX,
                offset == model::offset_at(m, handles@, i as int),
                metadata@ =~= model::placed(m, handles@).restrict(
                    handles@.take(i as int).to_set(),
                ),
            decreases handles.len() - i,
        {
            let h = handles[i];
            assert(handles@.to_set().contains(h));
            assert(m.contains_key(h));
            let size = self.object_metadata.get(&h).unwrap().size;
            metadata.insert(h, ObjectMetadata { offset, size });
            proof {
                packidx::lemma_take_to_set(handles@, i as int);
                assert(handles@.index_of(h) == i);
                algo::lemma_range_sum_within(sizes, 0, i + 1);
            }
            offset += size;
            i += 1;
        }
        proof {
            assert(handles@.take(i as int) =~= handles@);
            assert(metadata@ =~= model::placed(m, handles@));
        }
        let r = PackIndexV1 {
            snapshot_tags: self.snapshot_tags,
            snapshot_deltas: self.snapshot_deltas,
            path_pool: self.path_pool,
            object_pool: self.object_pool,
            object_metadata: metadata,
            current: self.current,
        };
        (r, handles)
    }
}

/// The closure accepts every tag with every list of files.
pub open spec fn takes_snapshots<F, S>(f: F) -> bool where
    F: Fn(&str, &Vec<FileEntry>) -> ControlFlow<S>,
 {
    forall|tag: &str, es: &Vec<FileEntry>| call_requires(f, (tag, es))
}

/// The closure was called with the snapshot at position `i` and returned `flow`.
pub open spec fn visited<F, S>(f: F, v: IndexView, i: int, flow: ControlFlow<S>) -> bool where
    F: Fn(&str, &Vec<FileEntry>) -> ControlFlow<S>,
 {
    exists|tag: &str, es: &Vec<FileEntry>|
        tag@ == v.tags[i] && model::lists_files(
            packidx::entry_views(es@),
            v,
            model::content_after(v.deltas, i + 1),
        ) && #[trigger] call_ensures(f, (tag, es), flow)
}

/// The closure was called with the snapshots before position `n`, and asked to
/// go on each time.
pub open spec fn visited_all<F, S>(f: F, v: IndexView, n: int) -> bool where
    F: Fn(&str, &Vec<FileEntry>) -> ControlFlow<S>,
 {
    forall|i: int|
        0 <= i < n ==> model::delta_fault(v, #[trigger] v.deltas[i]) is None && visited(
            f,
            v,
            i,
            ControlFlow::<S>::Continue(()),
        )
}

/// The closure accepts every tag with every count.
pub open spec fn takes_counts<F, S>(f: F) -> bool where F: Fn(&str, u64) -> ControlFlow<S> {
    forall|tag: &str, n: u64| call_requires(f, (tag, n))
}

/// The closure was called with the file count at position `i` and returned `flow`.
pub open spec fn counted<F, S>(f: F, v: IndexView, i: int, flow: ControlFlow<S>) -> bool where
    F: Fn(&str, u64) -> ControlFlow<S>,
 {
    exists|tag: &str|
        tag@ == v.tags[i] && #[trigger] call_ensures(
            f,
            (tag, model::file_count_after(v.deltas, i + 1) as i64 as u64),
            flow,
        )
}

/// The closure was called with the file counts before position `n`, and asked
/// to go on each time.
pub open spec fn counted_all<F, S>(f: F, v: IndexView, n: int) -> bool where
    F: Fn(&str, u64) -> ControlFlow<S>,
 {
    forall|i: int|
        0 <= i < n ==> #[trigger] counted(f, v, i, ControlFlow::<S>::Continue(()))
}

/// The counts of the files can be computed in 64 bits.
pub open spec fn counts_fit(v: IndexView) -> bool {
    forall|i: int|
        0 <= i < model::listed(v) ==> {
            let d = #[trigger] v.deltas[i];
            &&& d.added.len() <= i64::MAX
            &&& d.removed.len() <= i64::MAX
            &&& model::file_count_after(v.deltas, i) + d.added.len() <= i64::MAX
            &&& model::file_count_after(v.deltas, i + 1) >= i64::MIN
        }
}

impl PackIndexV1 {
    /// Steps from the files before the snapshot at position `i` to those of
    /// the snapshot, and lists these.
    pub fn snapshot_step(&self, files: &mut FileHandleSet, i: usize) -> (r: Result<
        Vec<FileEntry>,
        PackError,
    >)
        requires
            self.wf(),
            i < model::listed(self@),
            model::delta_described(self@, self@.deltas[i as int]),
            model::clean_upto(self@.deltas, i + 1),
            old(files)@ == model::content_after(self@.deltas, i as int),
            model::faultless(self@, old(files)@),
            model::files_described(self@, old(files)@),
        ensures
            match r {
                Ok(es) => {
                    &&& model::delta_fault(self@, self@.deltas[i as int]) is None
                    &&& final(files)@ == model::content_after(self@.deltas, i + 1)
                    &&& model::faultless(self@, final(files)@)
                    &&& model::files_described(self@, final(files)@)
                    &&& model::lists_files(packidx::entry_views(es@), self@, final(files)@)
                },
                Err(e) => model::delta_fault(self@, self@.deltas[i as int]) == Some(e),
            },
    {
        let delta = &self.snapshot_deltas[i];
        assert(self@.deltas[i as int] == delta@);
        if let Err(e) = self.entries_from_handles(delta.added.as_slice()) {
            return Err(e);
        }
        if let Err(e) = self.entries_from_handles(delta.removed.as_slice()) {
            return Err(e);
        }
        proof {
            assert(packidx::applies_cleanly(
                model::content_after(self@.deltas, i as int),
                self@.deltas[i as int],
            ));
            model::lemma_no_fault(self@, delta.added@, 0);
        }
        Snapshot::apply_changes(files, delta);
        assert(model::faultless(self@, files@)) by {
            assert forall|h: FileHandle| #[trigger] files@.contains(h) implies model::handle_fault(
                self@,
                h,
            ) is None by {
                if delta.added@.to_set().contains(h) {
                    let k = delta.added@.index_of(h);
                    assert(delta.added@[k] == h);
                }
            }
        }
        assert(model::files_described(self@, files@)) by {
            assert forall|h: FileHandle| #[trigger] files@.contains(h) implies model::is_described(
                self@,
                h,
            ) by {
                if delta.added@.to_set().contains(h) {
                    let k = delta.added@.index_of(h);
                    assert(delta.added@[k] == h);
                }
            }
        }
        let handles = files.to_list();
        proof {
            assert forall|k: int| 0 <= k < handles@.len() implies model::handle_fault(
                self@,
                #[trigger] handles@[k],
            ) is None && model::is_described(self@, handles@[k]) by {
                assert(handles@.to_set().contains(handles@[k]));
            }
            model::lemma_no_fault(self@, handles@, 0);
            self.lemma_wf();
            model::lemma_lists_files(self@, handles@);
        }
        self.entries_from_handles(handles.as_slice())
    }

    /// Call the closure F with materialized file entries for each snapshot.
    pub fn for_each_snapshot<F, S>(&self, f: F) -> (r: Result<Option<S>, PackError>) where
        F: Fn(&str, &Vec<FileEntry>) -> ControlFlow<S>,

        requires
            self.wf(),
            model::deltas_described(self@),
            model::clean_upto(self@.deltas, model::listed(self@)),
            takes_snapshots(f),
        ensures
            match r {
                Ok(None) => visited_all::<F, S>(f, self@, model::listed(self@)),
                Ok(Some(s)) => exists|n: int|
                    0 <= n < model::listed(self@) && visited_all::<F, S>(f, self@, n)
                        && model::delta_fault(self@, #[trigger] self@.deltas[n]) is None && visited(
                        f,
                        self@,
                        n,
                        ControlFlow::Break(s),
                    ),
                Err(e) => exists|n: int|
                    0 <= n < model::listed(self@) && visited_all::<F, S>(f, self@, n)
                        && model::delta_fault(self@, #[trigger] self@.deltas[n]) == Some(e),
            },
    {
        let mut files = FileHandleSet::new();
        let mut i: usize = 0;
        while i < self.snapshot_tags.len() && i < self.snapshot_deltas.len()
            invariant
                self.wf(),
                model::deltas_described(self@),
                model::clean_upto(self@.deltas, model::listed(self@)),
                takes_snapshots(f),
                i <= model::listed(self@),
                files@ == model::content_after(self@.deltas, i as int),
                model::faultless(self@, files@),
                model::files_described(self@, files@),
                visited_all::<F, S>(f, self@, i as int),
            decreases self.snapshot_tags.len() - i,
        {
            assert(self@.tags[i as int] == self.snapshot_tags@[i as int]@);
            let ghost d = self@.deltas[i as int];
            let entries = match self.snapshot_step(&mut files, i) {
                Ok(es) => es,
                Err(e) => {
                    return Err(e);
                },
            };
            let flow = f(self.snapshot_tags[i].as_str(), &entries);
            assert(visited(f, self@, i as int, flow));
            match flow {
                ControlFlow::Break(output) => {
                    return Ok(Some(output));
                },
                ControlFlow::Continue(unit) => {
                    assert(unit == ());
                },
            }
            i += 1;
        }
        Ok(None)
    }

    /// Call the closure F with the file count for each snapshot.
    pub fn for_each_snapshot_file_count<F, S>(&self, f: F) -> (r: Result<
        Option<S>,
        PackError,
    >) where F: Fn(&str, u64) -> ControlFlow<S>
        requires
            counts_fit(self@),
            takes_counts(f),
        ensures
            match r {
                Ok(None) => counted_all::<F, S>(f, self@, model::listed(self@)),
                Ok(Some(s)) => exists|n: int|
                    #![trigger self@.deltas[n]]
                    0 <= n < model::listed(self@) && counted_all::<F, S>(f, self@, n) && counted(
                        f,
                        self@,
                        n,
                        ControlFlow::Break(s),
                    ),
                Err(_) => false,
            },
    {
        let mut file_count: i64 = 0;
        let mut i: usize = 0;
        while i < self.snapshot_tags.len() && i < self.snapshot_deltas.len()
            invariant
                counts_fit(self@),
                takes_counts(f),
                i <= model::listed(self@),
                file_count == model::file_count_after(self@.deltas, i as int),
                counted_all::<F, S>(f, self@, i as int),
            decreases self.snapshot_tags.len() - i,
        {
            assert(self@.tags[i as int] == self.snapshot_tags@[i as int]@);
            assert(self@.deltas[i as int] == self.snapshot_deltas@[i as int]@);
            assert(i < model::listed(self@));
            file_count = file_count + self.snapshot_deltas[i].added.len() as i64;
            file_count = file_count - self.snapshot_deltas[i].removed.len() as i64;
            let count = #[verifier::truncate] (file_count as u64);
            let flow = f(self.snapshot_tags[i].as_str(), count);
            assert(counted(f, self@, i as int, flow));
            match flow {
                ControlFlow::Break(output) => {
                    assert(counted(f, self@, i as int, ControlFlow::Break(output)));
                    return Ok(Some(output));
                },
                ControlFlow::Continue(unit) => {
                    assert(unit == ());
                },
            }
            i += 1;
        }
        Ok(None)
    }

    /// The number of files in each snapshot, by position.
    pub fn snapshot_file_counts(&self) -> (r: Vec<u64>)
        requires
            counts_fit(self@),
        ensures
            r@.len() == model::listed(self@),
            forall|i: int|
                0 <= i < r@.len() && model::file_count_after(self@.deltas, i + 1) >= 0 ==> (
                #[trigger] r@[i]) == model::file_count_after(self@.deltas, i + 1),
    {
        let mut r: Vec<u64> = Vec::new();
        let mut file_count: i64 = 0;
        let mut i: usize = 0;
        while i < self.snapshot_tags.len() && i < self.snapshot_deltas.len()
            invariant
                counts_fit(self@),
                i <= model::listed(self@),
                file_count == model::file_count_after(self@.deltas, i as int),
                r@.len() == i,
                forall|j: int|
                    0 <= j < r@.len() && model::file_count_after(self@.deltas, j + 1) >= 0 ==> (
                    #[trigger] r@[j]) == model::file_count_after(self@.deltas, j + 1),
            decreases self.snapshot_tags.len() - i,
        {
            assert(self@.deltas[i as int] == self.snapshot_deltas@[i as int]@);
            assert(i < model::listed(self@));
            file_count = file_count + self.snapshot_deltas[i].added.len() as i64;
            file_count = file_count - self.snapshot_deltas[i].removed.len() as i64;
            r.push(#[verifier::truncate] (file_count as u64));
            i += 1;
        }
        r
    }

    /// Computes the checksum of the contents of the snapshot. There is none
    /// where there is no such snapshot, or where one of its files is missing
    /// from the pools.
    pub fn compute_snapshot_checksum(&self, snapshot: &str) -> (r: Option<ObjectChecksum>)
        requires
            self.wf(),
            model::resolvable(self@, snapshot@),
            model::snapshot_files(self@, snapshot@) matches Some(files) ==> model::files_described(
                self@,
                files,
            ),
            model::snapshot_files(self@, snapshot@) matches Some(files) ==> model::listing_bytes(
                model::listing_of(model::pairs_of(self@, files)),
            ).len() < 0x2000_0000_0000_0000,
        ensures
            match r {
                Some(c) => {
                    &&& model::snapshot_files(self@, snapshot@) matches Some(files)
                    &&& model::faultless(self@, files)
                    &&& c@ == model::files_digest(model::pairs_of(self@, files))
                },
                None => model::snapshot_files(self@, snapshot@) matches Some(files)
                    ==> !model::faultless(self@, files),
            },
    {
        let handles = match self.resolve_snapshot(snapshot) {
            Some(h) => h,
            None => {
                return None;
            },
        };
        let ghost files = handles@.to_set();
        proof {
            self.lemma_wf();
            model::lemma_no_fault(self@, handles@, 0);
            assert forall|k: int| 0 <= k < handles@.len() implies model::is_described(
                self@,
                #[trigger] handles@[k],
            ) by {
                assert(files.contains(handles@[k]));
            }
        }
        // Map FileHandle to FileEntry, which contains path and checksum
        let entries = match self.entries_from_handles(handles.as_slice()) {
            Ok(es) => es,
            Err(_) => {
                proof {
                    let k = choose|k: int|
                        0 <= k < handles@.len() && model::handle_fault(
                            self@,
                            #[trigger] handles@[k],
                        ) is Some;
                    assert(files.contains(handles@[k]));
                }
                return None;
            },
        };
        proof {
            assert(model::faultless(self@, files)) by {
                assert forall|h: FileHandle| #[trigger] files.contains(h) implies model::handle_fault(
                    self@,
                    h,
                ) is None by {
                    let k = handles@.index_of(h);
                    assert(handles@[k] == h);
                }
            }
        }
        let data = sorted_listing(&entries, Ghost(self@), Ghost(handles@));
        Some(sha1(data.as_slice()))
    }
}

/// Sorts the files by checksum and path, and joins their paths and checksums.
fn sorted_listing(
    entries: &Vec<FileEntry>,
    Ghost(v): Ghost<IndexView>,
    Ghost(handles): Ghost<Seq<FileHandle>>,
) -> (r: Vec<u8>)
    requires
        model::pools_valid(v),
        handles.no_duplicates(),
        model::faultless(v, handles.to_set()),
        packidx::entry_views(entries@) == model::entries_of(v, handles),
    ensures
        r@ == model::listing_bytes(model::listing_of(model::pairs_of(v, handles.to_set()))),
{
    let ghost pairs = Seq::new(entries@.len(), |i: int| (entries@[i].path@, entries@[i].checksum@));
    let ghost lt = |a: int, b: int| model::pair_less(pairs[a], pairs[b]);
    let less = |a: usize, b: usize| -> (r: bool)
        requires
            a < entries@.len(),
            b < entries@.len(),
        ensures
            r == model::pair_less(
                (entries@[a as int].path@, entries@[a as int].checksum@),
                (entries@[b as int].path@, entries@[b as int].checksum@),
            ),
        {
            let x = entries[a].checksum.as_slice();
            let y = entries[b].checksum.as_slice();
            proof {
                if !bytes::lex_less(x@, y@) && !bytes::lex_less(y@, x@) {
                    bytes::lemma_lex_total(x@, y@);
                }
                bytes::lemma_lex_irreflexive(x@);
            }
            bytes_less(x, y) || (!bytes_less(y, x) && bytes_less(
                entries[a].path.as_slice(),
                entries[b].path.as_slice(),
            ))
        };
    proof {
        lemma_pair_order(pairs);
    }
    let p = sort_positions(entries.len(), &less, Ghost(lt));
    let ghost sorted = Seq::new(p@.len(), |i: int| pairs[p@[i] as int]);
    let mut r: Vec<u8> = Vec::new();
    let mut i: usize = 0;
    assert(sorted.take(0) =~= Seq::empty());
    while i < p.len()
        invariant
            i <= p.len(),
            sort::is_sorting(lt, p@, entries@.len() as int),
            pairs == Seq::new(entries@.len(), |i: int| (entries@[i].path@, entries@[i].checksum@)),
            sorted == Seq::new(p@.len(), |i: int| pairs[p@[i] as int]),
            r@ == model::listing_bytes(sorted.take(i as int)),
        decreases p.len() - i,
    {
        let e = &entries[p[i]];
        r.extend_from_slice(e.path.as_slice());
        r.extend_from_slice(e.checksum.as_slice());
        proof {
            assert(sorted.take(i + 1).drop_last() =~= sorted.take(i as int));
            assert(sorted[i as int] == (e.path@, e.checksum@));
            assert(r@ =~= model::listing_bytes(sorted.take(i + 1)));
        }
        i += 1;
    }
    proof {
        assert(sorted.take(i as int) =~= sorted);
        let set = model::pairs_of(v, handles.to_set());
        lemma_sorted_is_listing(entries@, v, handles, p@, sorted);
        assert(model::is_listing(model::listing_of(set), set));
        model::lemma_listing_unique(sorted, model::listing_of(set), set);
    }
    r
}

proof fn lemma_pair_order(pairs: Seq<(Seq<u8>, Seq<u8>)>)
    ensures
        sort::is_weak_order(
            |a: int, b: int| model::pair_less(pairs[a], pairs[b]),
            pairs.len() as int,
        ),
{
    let lt = |a: int, b: int| model::pair_less(pairs[a], pairs[b]);
    assert forall|a: int, b: int|
        #![trigger lt(a, b)]
        0 <= a < pairs.len() && 0 <= b < pairs.len() && lt(a, b) implies !lt(b, a) by {
        model::lemma_pair_asymmetric(pairs[a], pairs[b]);
    }
    assert forall|a: int, b: int, c: int|
        #![trigger lt(a, b), lt(b, c)]
        0 <= a < pairs.len() && 0 <= b < pairs.len() && 0 <= c < pairs.len() && !lt(a, b) && !lt(
            b,
            c,
        ) implies !lt(a, c) by {
        model::lemma_pair_negatively_transitive(pairs[a], pairs[b], pairs[c]);
    }
}

proof fn lemma_sorted_is_listing(
    entries: Seq<FileEntry>,
    v: IndexView,
    handles: Seq<FileHandle>,
    p: Seq<usize>,
    sorted: Seq<(Seq<u8>, Seq<u8>)>,
)
    requires
        entries.len() <= usize::MAX,
        model::pools_valid(v),
        handles.no_duplicates(),
        model::faultless(v, handles.to_set()),
        packidx::entry_views(entries) == model::entries_of(v, handles),
        ({
            let pairs = Seq::new(entries.len(), |i: int| (entries[i].path@, entries[i].checksum@));
            &&& sort::is_sorting(
                |a: int, b: int| model::pair_less(pairs[a], pairs[b]),
                p,
                entries.len() as int,
            )
            &&& sorted == Seq::new(p.len(), |i: int| pairs[p[i] as int])
        }),
    ensures
        model::is_listing(sorted, model::pairs_of(v, handles.to_set())),
{
    let pairs = Seq::new(entries.len(), |i: int| (entries[i].path@, entries[i].checksum@));
    let lt = |a: int, b: int| model::pair_less(pairs[a], pairs[b]);
    let files = handles.to_set();
    let f = |h: FileHandle| (v.paths[h.path as int], v.objects[h.object as int]);
    assert(packidx::entry_views(entries).len() == entries.len());
    assert(model::entries_of(v, handles).len() == handles.len());
    assert forall|k: int| 0 <= k < entries.len() implies pairs[k] == f(handles[k]) by {
        assert(packidx::entry_views(entries)[k] == model::entries_of(v, handles)[k]);
    }
    assert forall|i: int, j: int| 0 <= i < j < sorted.len() implies model::pair_less(
        #[trigger] sorted[i],
        #[trigger] sorted[j],
    ) by {
        let a = p[i] as int;
        let b = p[j] as int;
        assert(sort::comes_before(lt, a, b));
        if !lt(a, b) {
            assert(!lt(b, a));
            model::lemma_pair_total(pairs[a], pairs[b]);
            assert(files.contains(handles[a]));
            assert(files.contains(handles[b]));
            model::lemma_entries_differ(v, handles[a], handles[b]);
        }
    }
    assert forall|x: (Seq<u8>, Seq<u8>)| sorted.to_set().contains(x) <==> files.map(f).contains(
        x,
    ) by {
        if sorted.contains(x) {
            let i = sorted.index_of(x);
            assert(files.contains(handles[p[i] as int]));
            assert(f(handles[p[i] as int]) == x);
        }
        if files.map(f).contains(x) {
            let h = choose|h: FileHandle| files.contains(h) && f(h) == x;
            let k = handles.index_of(h);
            sort::lemma_sorting_lists_all(p, entries.len() as int, k as usize);
            let i = p.index_of(k as usize);
            assert(sorted[i] == x);
        }
    }
    assert(sorted.to_set() =~= files.map(f));
    assert(files.map(f) =~= model::pairs_of(v, files));
}

/// A listed map has its values in handle order.
proof fn lemma_listed_values(
    list: Seq<(Handle, ObjectMetadata)>,
    m: Map<Handle, ObjectMetadata>,
    n: int,
    c: int,
)
    requires
        lists_map(list, m),
        0 <= n <= 0x1_0000_0000,
        0 <= c <= list.len(),
        forall|i: int| 0 <= i < c ==> (#[trigger] list[i]).0 < n,
        forall|i: int| c <= i < list.len() ==> (#[trigger] list[i]).0 >= n,
    ensures
        model::values_below(m, n) == list.take(c).map_values(|x: (Handle, ObjectMetadata)| x.1),
    decreases n,
{
    if n <= 0 {
        if c > 0 {
            assert(list[0].0 < 0);
        }
        assert(list.take(c).map_values(|x: (Handle, ObjectMetadata)| x.1) =~= Seq::empty());
    } else {
        let k = (n - 1) as Handle;
        if m.contains_key(k) {
            let i = list.index_of((k, m[k]));
            assert(list[i].0 == k);
            assert(i < c);
            if i < c - 1 {
                assert(list[i].0 < list[c - 1].0);
            }
            assert forall|j: int| 0 <= j < c - 1 implies (#[trigger] list[j]).0 < n - 1 by {
                assert(list[j].0 < list[i].0);
            }
            lemma_listed_values(list, m, n - 1, c - 1);
            assert(list.take(c).map_values(|x: (Handle, ObjectMetadata)| x.1) =~= list.take(
                c - 1,
            ).map_values(|x: (Handle, ObjectMetadata)| x.1).push(m[k]));
        } else {
            assert forall|j: int| 0 <= j < c implies (#[trigger] list[j]).0 < n - 1 by {
                assert(m.contains_key(list[j].0));
            }
            lemma_listed_values(list, m, n - 1, c);
        }
    }
}

/// The two halves of each handle of a list.
fn pairs_from_handles(list: &[FileHandle]) -> (r: Vec<(u32, u32)>)
    ensures
        r@ == model::handle_pairs(list@),
{
    let mut r: Vec<(u32, u32)> = Vec::new();
    let mut i: usize = 0;
    while i < list.len()
        invariant
            i <= list.len(),
            r@ =~= model::handle_pairs(list@.take(i as int)),
        decreases list.len() - i,
    {
        r.push((list[i].path, list[i].object));
        i += 1;
    }
    assert(list@.take(i as int) =~= list@);
    r
}

/// The handles with the given halves.
fn handles_from_pairs(list: &[(u32, u32)]) -> (r: Vec<FileHandle>)
    ensures
        r@ == model::pair_handles(list@),
{
    let mut r: Vec<FileHandle> = Vec::new();
    let mut i: usize = 0;
    while i < list.len()
        invariant
            i <= list.len(),
            r@ =~= model::pair_handles(list@.take(i as int)),
        decreases list.len() - i,
    {
        r.push(FileHandle { path: list[i].0, object: list[i].1 });
        i += 1;
    }
    assert(list@.take(i as int) =~= list@);
    r
}

impl PackIndexV1 {
    /// The values that are stored for the index.
    pub fn to_parts(&self) -> (r: IndexParts)
        ensures
            r@ == model::parts_of(self@),
    {
        let mut tags: Vec<String> = Vec::new();
        let mut i: usize = 0;
        while i < self.snapshot_tags.len()
            invariant
                i <= self.snapshot_tags.len(),
                text_views(tags@) =~= self@.tags.take(i as int),
            decreases self.snapshot_tags.len() - i,
        {
            assert(self@.tags[i as int] == self.snapshot_tags@[i as int]@);
            let ghost before = text_views(tags@);
            let tag = self.snapshot_tags[i].clone();
            tags.push(tag);
            assert(text_views(tags@) =~= before.push(tag@));
            i += 1;
        }
        let mut deltas: Vec<(Vec<(u32, u32)>, Vec<(u32, u32)>)> = Vec::new();
        let mut j: usize = 0;
        while j < self.snapshot_deltas.len()
            invariant
                j <= self.snapshot_deltas.len(),
                deltas@.len() == j,
                forall|k: int|
                    0 <= k < j ==> (#[trigger] deltas@[k]).0@ == model::handle_pairs(
                        self@.deltas[k].added,
                    ) && deltas@[k].1@ == model::handle_pairs(self@.deltas[k].removed),
            decreases self.snapshot_deltas.len() - j,
        {
            let d = &self.snapshot_deltas[j];
            assert(self@.deltas[j as int] == d@);
            deltas.push(
                (
                    pairs_from_handles(d.added.as_slice()),
                    pairs_from_handles(d.removed.as_slice()),
                ),
            );
            j += 1;
        }
        let stored = self.path_pool.iter();
        let mut paths: Vec<Vec<(String, Vec<u8>)>> = Vec::new();
        let mut k: usize = 0;
        while k < stored.len()
            invariant
                k <= stored.len(),
                stored@.map_values(|e: Vec<u8>| e.bytes()) == self@.paths,
                paths@.len() == k,
                forall|l: int|
                    0 <= l < k ==> (#[trigger] paths@[l])@.len() == 1 && paths@[l]@[0].0@
                        == model::platform() && paths@[l]@[0].1@ == self@.paths[l],
            decreases stored.len() - k,
        {
            assert(self@.paths[k as int] == stored@[k as int].bytes());
            let mut names: Vec<(String, Vec<u8>)> = Vec::new();
            names.push(("Unix".to_owned(), stored[k].duplicate()));
            paths.push(names);
            k += 1;
        }
        let list = list_map(&self.object_metadata);
        let mut metadata: Vec<(u64, u64)> = Vec::new();
        let mut l: usize = 0;
        while l < list.len()
            invariant
                l <= list.len(),
                metadata@.len() == l,
                forall|q: int|
                    0 <= q < l ==> #[trigger] metadata@[q] == (list@[q].1.offset, list@[q].1.size),
            decreases list.len() - l,
        {
            metadata.push((list[l].1.offset, list[l].1.size));
            l += 1;
        }
        let mut objects: Vec<[u8; 20]> = Vec::new();
        let pool = self.object_pool.iter();
        let mut o: usize = 0;
        while o < pool.len()
            invariant
                o <= pool.len(),
                objects@ =~= pool@.take(o as int),
            decreases pool.len() - o,
        {
            objects.push(pool[o]);
            o += 1;
        }
        let r = IndexParts { tags, deltas, paths, objects, metadata };
        proof {
            let v = self@;
            let want = model::parts_of(v);
            assert(r@.tags =~= want.tags);
            assert(r@.deltas =~= want.deltas);
            assert forall|i: int| 0 <= i < v.paths.len() implies r@.paths[i] == want.paths[i] by {
                assert(r@.paths[i] =~= seq![(model::platform(), v.paths[i])]);
            }
            assert(r@.paths =~= want.paths);
            assert(r@.objects =~= want.objects);
            lemma_listed_values(list@, v.metadata, 0x1_0000_0000, list@.len() as int);
            assert(list@.take(list@.len() as int) =~= list@);
            assert(r@.metadata =~= want.metadata);
        }
        r
    }

    /// The index with the given stored values. There is none where a path is
    /// not that of this platform.
    pub fn from_parts(parts: IndexParts) -> (r: Option<Self>)
        requires
            parts.paths@.len() <= u32::MAX,
            parts.objects@.len() <= u32::MAX,
            parts.metadata@.len() <= u32::MAX,
        ensures
            r is Some <==> model::paths_named(parts@),
            r matches Some(index) ==> index.wf() && index@ == model::view_of_parts(parts@),
    {
        let ghost given = parts@;
        let mut paths: Vec<Vec<u8>> = Vec::new();
        let mut k: usize = 0;
        while k < parts.paths.len()
            invariant
                given == parts@,
                k <= parts.paths.len(),
                paths@.len() == k,
                forall|l: int|
                    0 <= l < k ==> (#[trigger] given.paths[l]).len() == 1 && given.paths[l][0].0
                        == model::platform() && given.paths[l][0].1 == paths@[l]@,
            decreases parts.paths.len() - k,
        {
            let names = &parts.paths[k];
            proof {
                assert(given.paths[k as int] == names@.map_values(
                    |e: (String, Vec<u8>)| (e.0@, e.1@),
                ));
            }
            if names.len() != 1 {
                return None;
            }
            assert(given.paths[k as int][0] == (names@[0].0@, names@[0].1@));
            if !text_equal(names[0].0.as_str(), "Unix") {
                return None;
            }
            paths.push(names[0].1.duplicate());
            k += 1;
        }
        let mut deltas: Vec<ChangeSet<FileHandle>> = Vec::new();
        let mut j: usize = 0;
        while j < parts.deltas.len()
            invariant
                given == parts@,
                j <= parts.deltas.len(),
                deltas@.len() == j,
                forall|l: int|
                    0 <= l < j ==> (#[trigger] deltas@[l]).added@ == model::pair_handles(
                        given.deltas[l].0,
                    ) && deltas@[l].removed@ == model::pair_handles(given.deltas[l].1),
            decreases parts.deltas.len() - j,
        {
            let d = &parts.deltas[j];
            assert(given.deltas[j as int] == (d.0@, d.1@));
            deltas.push(
                ChangeSet {
                    added: handles_from_pairs(d.0.as_slice()),
                    removed: handles_from_pairs(d.1.as_slice()),
                },
            );
            j += 1;
        }
        let mut object_metadata: BTreeMap<Handle, ObjectMetadata> = BTreeMap::new();
        let mut i: usize = 0;
        while i < parts.metadata.len()
            invariant
                given == parts@,
                parts.metadata@.len() <= u32::MAX,
                i <= parts.metadata.len(),
                object_metadata@ =~= Map::new(
                    |h: Handle| h < i,
                    |h: Handle|
                        ObjectMetadata {
                            offset: given.metadata[h as int].0,
                            size: given.metadata[h as int].1,
                        },
                ),
            decreases parts.metadata.len() - i,
        {
            let md = parts.metadata[i];
            object_metadata.insert(i as Handle, ObjectMetadata { offset: md.0, size: md.1 });
            i += 1;
        }
        let path_pool = EntryPool::from_list(paths.as_slice());
        let object_pool = EntryPool::from_list(parts.objects.as_slice());
        let r = PackIndexV1 {
            snapshot_tags: parts.tags,
            snapshot_deltas: deltas,
            path_pool,
            object_pool,
            object_metadata,
            current: FileHandleSet::new(),
        };
        proof {
            let want = model::view_of_parts(given);
            assert(paths@.map_values(|e: Vec<u8>| e.bytes()) =~= given.paths.map_values(
                |e: Seq<(Seq<char>, Seq<u8>)>| e[0].1,
            ));
            assert(parts.objects@.map_values(|e: [u8; 20]| e.bytes()) =~= given.objects);
            assert(r@.tags =~= want.tags);
            assert(r@.deltas =~= want.deltas);
            assert(r@.metadata =~= want.metadata);
            assert(r@ =~= want);
        }
        Some(r)
    }
}

/// Lists the handles by the size of their objects, and then by handle.
fn order_by_size(
    list: &Vec<(Handle, ObjectMetadata)>,
    Ghost(m): Ghost<Map<Handle, ObjectMetadata>>,
) -> (r: Vec<Handle>)
    requires
        lists_map(list@, m),
    ensures
        model::is_ordering(r@, m),
{
    let less = |a: usize, b: usize| -> (r: bool)
        requires
            a < list@.len(),
            b < list@.len(),
        ensures
            r == (list@[a as int].1.size < list@[b as int].1.size || (list@[a as int].1.size
                == list@[b as int].1.size && list@[a as int].0 < list@[b as int].0)),
        {
            list[a].1.size < list[b].1.size || (list[a].1.size == list[b].1.size && list[a].0
                < list[b].0)
        };
    let ghost lt = |a: int, b: int|
        list@[a].1.size < list@[b].1.size || (list@[a].1.size == list@[b].1.size && list@[a].0
            < list@[b].0);
    let p = sort_positions(list.len(), &less, Ghost(lt));
    let mut r: Vec<Handle> = Vec::new();
    let mut i: usize = 0;
    while i < p.len()
        invariant
            i <= p.len(),
            sort::is_sorting(lt, p@, list@.len() as int),
            r@.len() == i,
            forall|k: int| 0 <= k < i ==> #[trigger] r@[k] == list@[p@[k] as int].0,
        decreases p.len() - i,
    {
        r.push(list[p[i]].0);
        i += 1;
    }
    proof {
        assert forall|k: int, l: int| 0 <= k < l < r@.len() implies m[#[trigger] r@[k]].size < m[
        #[trigger] r@[l]].size || (m[r@[k]].size == m[r@[l]].size && r@[k] < r@[l]) by {
            assert(sort::comes_before(lt, p@[k] as int, p@[l] as int));
            assert(m[list@[p@[k] as int].0] == list@[p@[k] as int].1);
            assert(m[list@[p@[l] as int].0] == list@[p@[l] as int].1);
        }
        assert(r@.no_duplicates()) by {
            assert forall|k: int, l: int| 0 <= k < r@.len() && 0 <= l < r@.len() && k != l implies r@[k]
                != r@[l] by {
                assert(p@[k] != p@[l]);
            }
        }
        assert forall|h: Handle| r@.to_set().contains(h) <==> m.dom().contains(h) by {
            if r@.contains(h) {
                let k = r@.index_of(h);
                assert(m.contains_key(list@[p@[k] as int].0));
            }
            if m.contains_key(h) {
                let j = list@.index_of((h, m[h]));
                sort::lemma_sorting_lists_all(p@, list@.len() as int, j as usize);
                let k = p@.index_of(j as usize);
                assert(r@[k] == h);
            }
        }
        assert(r@.to_set() =~= m.dom());
    }
    r
}

/// The listed keys are the keys of the map.
proof fn lemma_listed_handles(list: Seq<(Handle, ObjectMetadata)>, m: Map<Handle, ObjectMetadata>)
    requires
        lists_map(list, m),
    ensures
        list.map_values(|x: (Handle, ObjectMetadata)| x.0).no_duplicates(),
        list.map_values(|x: (Handle, ObjectMetadata)| x.0).to_set() == m.dom(),
{
    let handles = list.map_values(|x: (Handle, ObjectMetadata)| x.0);
    assert forall|k: int, l: int| 0 <= k < handles.len() && 0 <= l < handles.len() && k != l implies handles[k]
        != handles[l] by {
        if k < l {
            assert(list[k].0 < list[l].0);
        } else {
            assert(list[l].0 < list[k].0);
        }
    }
    assert forall|h: Handle| handles.to_set().contains(h) <==> m.dom().contains(h) by {
        if handles.contains(h) {
            let k = handles.index_of(h);
            assert(m.contains_key(list[k].0));
        }
        if m.contains_key(h) {
            let k = list.index_of((h, m[h]));
            assert(handles[k] == h);
        }
    }
    assert(handles.to_set() =~= m.dom());
}

proof fn lemma_position_range(tags: Seq<Seq<char>>, tag: Seq<char>, from: int, n: int)
    requires
        from <= n,
    ensures
        match model::position_of(tags, tag, from, n) {
            Some(i) => from <= i < n && tags[i] == tag,
            None => true,
        },
    decreases n - from,
{
    if from < n {
        lemma_position_range(tags, tag, from + 1, n);
    }
}

/// One more stored file is one more handle, and the handles of the files stored
/// before stay.
proof fn lemma_handles_step(v: IndexView, es: Seq<FileEntryView>, i: int)
    requires
        model::pools_valid(v),
        0 <= i < es.len(),
    ensures
        ({
            let a = model::with_entries(v, es.take(i));
            let b = model::with_entries(v, es.take(i + 1));
            model::handles_of_entries(b, es.take(i + 1)) == model::handles_of_entries(
                a,
                es.take(i),
            ).insert(model::handle_of_entry(b, es[i]))
        }),
{
    let a = model::with_entries(v, es.take(i));
    let b = model::with_entries(v, es.take(i + 1));
    let done = es.take(i);
    assert(es.take(i + 1).drop_last() =~= done);
    assert(es.take(i + 1).last() == es[i]);
    model::lemma_with_entries(v, done);
    model::lemma_with_entries(v, es.take(i + 1));
    entrypool::law_interning_keeps_handles(a.paths, es[i].path, es[i].path);
    entrypool::law_interning_keeps_handles(a.objects, es[i].checksum, es[i].checksum);
    let before = done.map_values(|e: FileEntryView| model::handle_of_entry(a, e));
    let after = es.take(i + 1).map_values(|e: FileEntryView| model::handle_of_entry(b, e));
    assert forall|j: int| 0 <= j < i implies before[j] == after[j] by {
        assert(done[j] == es[j]);
        model::lemma_handle_in_prefix(a.paths, b.paths, es[j].path);
        model::lemma_handle_in_prefix(a.objects, b.objects, es[j].checksum);
    }
    assert(after.take(i) =~= before);
    assert(after.take(i + 1) =~= after);
    packidx::lemma_take_to_set(after, i);
}

} // verus!
