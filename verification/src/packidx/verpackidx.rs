//! Pack indexes of all versions.

use super::encoding;
use super::error::PackError;
use super::file;
use super::model;
use super::model::IndexView;
use super::packidx;
use super::packidx::ChangeView;
use super::packidx::{FileEntry, FileHandle, ObjectMetadata};
use super::packidxv1;
use super::packidxv1::PackIndexV1;
use crate::digest::ObjectChecksum;
use crate::entrypool;
use crate::entrypool::Handle;
use crate::repo::algo;
use std::ops::ControlFlow;
use vstd::prelude::*;

verus! {

/// What a pack index of any version offers.
pub trait PackIndex: Sized {
    /// What the index holds.
    spec fn index(&self) -> IndexView;

    /// The index is well-formed.
    spec fn is_valid(&self) -> bool;

    /// Creates an empty index.
    fn new() -> (r: Self)
        ensures
            r.is_valid(),
            r.index() == model::empty_index(),
    ;

    /// The total size of objects in the pack
    fn object_size_total(&self) -> (r: u64)
        requires
            model::total_size(self.index().metadata) <= u64::MAX,
        ensures
            r == model::total_size(self.index().metadata),
    ;

    /// The checksums of all objects in the pack, in handle order.
    fn object_checksums(&self) -> (r: &Vec<ObjectChecksum>)
        ensures
            r@.map_values(|c: ObjectChecksum| c@) == self.index().objects,
    ;

    /// The metadata stored for the object
    fn object_metadata(&self, checksum: &ObjectChecksum) -> (r: &ObjectMetadata)
        requires
            self.is_valid(),
            self.index().objects.contains(checksum@),
            self.index().metadata.contains_key(entrypool::handle_of(self.index().objects, checksum@)->0),
        ensures
            *r == self.index().metadata[entrypool::handle_of(self.index().objects, checksum@)->0],
    ;

    /// Partitions the objects into the specified number of partitions while
    /// maintaining the relative order of the objects and minimising the
    /// total object size in partitions.
    fn objects_partitioned_by_size<'l>(
        &self,
        partitions: u32,
        handles: &'l [Handle],
    ) -> (r: Vec<&'l [Handle]>)
        requires
            forall|i: int|
                0 <= i < handles@.len() ==> self.index().metadata.contains_key(#[trigger] handles@[i]),
            algo::sum_of(model::sizes_of(self.index().metadata, handles@)) <= u64::MAX,
            handles@.len() > 0 ==> algo::partition_limit(partitions, handles@.len()) > 0,
        ensures
            algo::are_ranges_of(
                r@,
                handles@,
                algo::partition_ranges(model::sizes_of(self.index().metadata, handles@), partitions),
            ),
    ;

    /// Reorders the objects for maximum compressability and computes the object
    /// offsets.
    fn compute_object_offsets_and_ordering(self) -> (r: (Self, Vec<Handle>))
        requires
            self.is_valid(),
            model::total_size(self.index().metadata) <= u64::MAX,
        ensures
            r.0.is_valid(),
            model::is_ordering(r.1@, self.index().metadata),
            r.0.index() == (IndexView { metadata: model::placed(self.index().metadata, r.1@), ..self.index() }),
    ;

    /// Returns the checksum referenced by the handle.
    fn handle_to_checksum(&self, h: Handle) -> (r: &ObjectChecksum)
        requires
            h < self.index().objects.len(),
        ensures
            r@ == self.index().objects[h as int],
    ;

    /// Expands the file handle into a file entry.
    fn handle_to_entry(&self, handle: &FileHandle) -> (r: Result<FileEntry, PackError>)
        requires
            model::is_described(self.index(), *handle),
        ensures
            match r {
                Ok(e) => model::handle_fault(self.index(), *handle) is None && e@ == model::entry_of(
                    self.index(),
                    *handle,
                ),
                Err(e) => model::handle_fault(self.index(), *handle) == Some(e),
            },
    ;

    /// Stores the file entry into the pack index and returns a handle to it.
    fn entry_to_handle(&mut self, entry: &FileEntry) -> (r: Result<FileHandle, PackError>)
        requires
            old(self).is_valid(),
            model::has_room(old(self).index(), seq![entry@]),
        ensures
            final(self).is_valid(),
            final(self).index() == model::with_entry(old(self).index(), entry@),
            r == Ok::<FileHandle, PackError>(model::handle_of_entry(final(self).index(), entry@)),
    ;

    /// Returns all snapshots tags stored in the pack.
    fn snapshot_tags(&self) -> (r: &Vec<String>)
        ensures
            packidxv1::text_views(r@) == self.index().tags,
    ;

    /// Check for the presence of a snapshot.
    fn has_snapshot(&self, needle: &str) -> (r: bool)
        ensures
            r == self.index().tags.contains(needle@),
    ;

    /// Map the snapshot tag to the list of files store in the snapshot. The
    /// files are listed in no particular order.
    fn resolve_snapshot(&self, needle: &str) -> (r: Option<Vec<FileHandle>>)
        requires
            model::resolvable(self.index(), needle@),
        ensures
            match r {
                Some(v) => v@.no_duplicates() && model::snapshot_files(self.index(), needle@) == Some(
                    v@.to_set(),
                ),
                None => model::snapshot_files(self.index(), needle@) is None,
            },
    ;

    /// Dereferences all file handles.
    fn entries_from_handles(&self, handles: &[FileHandle]) -> (r: Result<
        Vec<FileEntry>,
        PackError,
    >)
        requires
            model::handles_described(self.index(), handles@),
        ensures
            match r {
                Ok(v) => model::fault_from(self.index(), handles@, 0) is None && packidx::entry_views(v@)
                    == model::entries_of(self.index(), handles@),
                Err(e) => model::fault_from(self.index(), handles@, 0) == Some(e),
            },
    ;

    /// Create and add a new snapshot compatible with the loose index format.
    /// The list of [`FileEntry`] is the files to record in the snapshot.
    fn push_snapshot(&mut self, tag: String, input: Vec<FileEntry>) -> (r: Result<
        (),
        PackError,
    >)
        requires
            old(self).is_valid(),
            old(self).index().tags.contains(tag@) || model::has_room(old(self).index(), packidx::entry_views(input@)),
        ensures
            final(self).is_valid(),
            match r {
                Ok(_) => !old(self).index().tags.contains(tag@) && exists|delta: ChangeView<FileHandle>|
                    #[trigger] packidx::is_change(
                        delta,
                        old(self).index().current,
                        final(self).index().current,
                    ) && final(self).index() == model::with_snapshot(
                        old(self).index(),
                        tag@,
                        packidx::entry_views(input@),
                        delta,
                    ),
                Err(e) => {
                    &&& old(self).index().tags.contains(tag@)
                    &&& final(self).index() == old(self).index()
                    &&& e matches PackError::SnapshotAlreadyExists(p, t)
                    &&& p@ == "<unknown>"@
                    &&& t@ == tag@
                },
            },
    ;

    /// Call the closure F with materialized file entries for each snapshot.
    fn for_each_snapshot<F, S>(&self, f: F) -> (r: Result<Option<S>, PackError>) where
        F: Fn(&str, &Vec<FileEntry>) -> ControlFlow<S>,

        requires
            self.is_valid(),
            model::deltas_described(self.index()),
            model::clean_upto(self.index().deltas, model::listed(self.index())),
            packidxv1::takes_snapshots(f),
        ensures
            match r {
                Ok(None) => packidxv1::visited_all::<F, S>(f, self.index(), model::listed(self.index())),
                Ok(Some(s)) => exists|n: int|
                    0 <= n < model::listed(self.index()) && packidxv1::visited_all::<F, S>(f, self.index(), n)
                        && model::delta_fault(self.index(), #[trigger] self.index().deltas[n]) is None && packidxv1::visited(
                        f,
                        self.index(),
                        n,
                        ControlFlow::Break(s),
                    ),
                Err(e) => exists|n: int|
                    0 <= n < model::listed(self.index()) && packidxv1::visited_all::<F, S>(f, self.index(), n)
                        && model::delta_fault(self.index(), #[trigger] self.index().deltas[n]) == Some(e),
            },
    ;

    /// Call the closure F with the file count for each snapshot.
    fn for_each_snapshot_file_count<F, S>(&self, f: F) -> (r: Result<
        Option<S>,
        PackError,
    >) where F: Fn(&str, u64) -> ControlFlow<S>
        requires
            packidxv1::counts_fit(self.index()),
            packidxv1::takes_counts(f),
        ensures
            match r {
                Ok(None) => packidxv1::counted_all::<F, S>(f, self.index(), model::listed(self.index())),
                Ok(Some(s)) => exists|n: int|
                    #![trigger self.index().deltas[n]]
                    0 <= n < model::listed(self.index()) && packidxv1::counted_all::<F, S>(f, self.index(), n) && packidxv1::counted(
                        f,
                        self.index(),
                        n,
                        ControlFlow::Break(s),
                    ),
                Err(_) => false,
            },
    ;

    /// Computes the checksum of the contents of the snapshot. There is none
    /// where there is no such snapshot, or where one of its files is missing
    /// from the pools.
    fn compute_snapshot_checksum(&self, snapshot: &str) -> (r: Option<ObjectChecksum>)
        requires
            self.is_valid(),
            model::resolvable(self.index(), snapshot@),
            model::snapshot_files(self.index(), snapshot@) matches Some(files)
                ==> model::files_described(self.index(), files),
            model::snapshot_files(self.index(), snapshot@) matches Some(files) ==> model::listing_bytes(
                model::listing_of(model::pairs_of(self.index(), files)),
            ).len() < 0x2000_0000_0000_0000,
        ensures
            match r {
                Some(c) => {
                    &&& model::snapshot_files(self.index(), snapshot@) matches Some(files)
                    &&& model::faultless(self.index(), files)
                    &&& c@ == model::files_digest(model::pairs_of(self.index(), files))
                },
                None => model::snapshot_files(self.index(), snapshot@) matches Some(files)
                    ==> !model::faultless(self.index(), files),
            },
    ;

    /// Reads an index from the bytes of a file.
    fn parse(file: &[u8]) -> (r: Result<Self, PackError>)
        ensures
            match r {
                Ok(index) => {
                    &&& index.is_valid()
                    &&& file::index_of_file(file@) == Some(index.index())
                    &&& file::tags_of_file(file@) == Some(index.index().tags)
                },
                Err(PackError::DeserializeError(_)) => file::has_good_header(file@) && file::index_of_file(
                    file@,
                ) is None,
                Err(e) => file::is_header_error(file@, e),
            },
    ;

    /// Reads only the list of snapshots from the bytes of an index file.
    fn parse_only_snapshots(file: &[u8]) -> (r: Result<Vec<String>, PackError>)
        ensures
            match r {
                Ok(tags) => file::tags_of_file(file@) == Some(packidxv1::text_views(tags@)),
                Err(PackError::DeserializeError(_)) => file::has_good_header(file@) && file::tags_of_file(
                    file@,
                ) is None,
                Err(e) => file::is_header_error(file@, e),
            },
    ;

    /// The bytes of the file in which the index is stored.
    fn to_file(&self) -> (r: Result<Vec<u8>, PackError>)
        ensures
            encoding::parts_fit(model::parts_of(self.index())) ==> r is Ok,
            match r {
                Ok(file) => {
                    &&& file@ == file::magic() + file::version() + encoding::encoded_index(
                        model::parts_of(self.index()),
                    )
                    &&& encoding::parts_fit(model::parts_of(self.index())) && model::all_described(self.index())
                        && model::pools_valid(self.index()) ==> file::index_of_file(file@) == Some(
                        (model::IndexView { current: Set::empty(), ..self.index() }),
                    )
                },
                Err(e) => e is SerializeError,
            },
    ;
}

impl PackIndex for PackIndexV1 {
    open spec fn index(&self) -> IndexView {
        self@
    }

    open spec fn is_valid(&self) -> bool {
        self.wf()
    }

    fn new() -> (r: Self)
    {
        PackIndexV1::new()
    }

    fn object_size_total(&self) -> (r: u64)
    {
        PackIndexV1::object_size_total(self)
    }

    fn object_checksums(&self) -> (r: &Vec<ObjectChecksum>)
    {
        PackIndexV1::object_checksums(self)
    }

    fn object_metadata(&self, checksum: &ObjectChecksum) -> (r: &ObjectMetadata)
    {
        PackIndexV1::object_metadata(self, checksum)
    }

    fn objects_partitioned_by_size<'l>(
        &self,
        partitions: u32,
        handles: &'l [Handle],
    ) -> (r: Vec<&'l [Handle]>)
    {
        PackIndexV1::objects_partitioned_by_size(self, partitions, handles)
    }

    fn compute_object_offsets_and_ordering(self) -> (r: (Self, Vec<Handle>))
    {
        PackIndexV1::compute_object_offsets_and_ordering(self)
    }

    fn handle_to_checksum(&self, h: Handle) -> (r: &ObjectChecksum)
    {
        PackIndexV1::handle_to_checksum(self, h)
    }

    fn handle_to_entry(&self, handle: &FileHandle) -> (r: Result<FileEntry, PackError>)
    {
        PackIndexV1::handle_to_entry(self, handle)
    }

    fn entry_to_handle(&mut self, entry: &FileEntry) -> (r: Result<FileHandle, PackError>)
    {
        PackIndexV1::entry_to_handle(self, entry)
    }

    fn snapshot_tags(&self) -> (r: &Vec<String>)
    {
        PackIndexV1::snapshot_tags(self)
    }

    fn has_snapshot(&self, needle: &str) -> (r: bool)
    {
        PackIndexV1::has_snapshot(self, needle)
    }

    fn resolve_snapshot(&self, needle: &str) -> (r: Option<Vec<FileHandle>>)
    {
        PackIndexV1::resolve_snapshot(self, needle)
    }

    fn entries_from_handles(&self, handles: &[FileHandle]) -> (r: Result<
        Vec<FileEntry>,
        PackError,
    >)
    {
        PackIndexV1::entries_from_handles(self, handles)
    }

    fn push_snapshot(&mut self, tag: String, input: Vec<FileEntry>) -> (r: Result<
        (),
        PackError,
    >)
    {
        let ghost before = self.index();
        let ghost entries = packidx::entry_views(input@);
        let r = PackIndexV1::push_snapshot(self, tag, input);
        proof {
            if r is Ok {
                let delta = choose|delta: ChangeView<FileHandle>| #[trigger]
                    packidx::is_change(delta, before.current, self.index().current)
                        && self.index() == model::with_snapshot(before, tag@, entries, delta);
                assert(packidx::is_change(delta, old(self).index().current, self.index().current));
            }
        }
        r
    }

    fn for_each_snapshot<F, S>(&self, f: F) -> (r: Result<Option<S>, PackError>) where
        F: Fn(&str, &Vec<FileEntry>) -> ControlFlow<S>,
    {
        PackIndexV1::for_each_snapshot(self, f)
    }

    fn for_each_snapshot_file_count<F, S>(&self, f: F) -> (r: Result<
        Option<S>,
        PackError,
    >) where F: Fn(&str, u64) -> ControlFlow<S>
    {
        PackIndexV1::for_each_snapshot_file_count(self, f)
    }

    fn compute_snapshot_checksum(&self, snapshot: &str) -> (r: Option<ObjectChecksum>)
    {
        PackIndexV1::compute_snapshot_checksum(self, snapshot)
    }

    fn parse(file: &[u8]) -> (r: Result<Self, PackError>)
    {
        PackIndexV1::parse(file)
    }

    fn parse_only_snapshots(file: &[u8]) -> (r: Result<Vec<String>, PackError>)
    {
        PackIndexV1::parse_only_snapshots(file)
    }

    fn to_file(&self) -> (r: Result<Vec<u8>, PackError>)
    {
        PackIndexV1::to_file(self)
    }
}

/// A pack index of one of the supported versions.
pub enum VerPackIndex {
    V1(PackIndexV1),
}

impl PackIndex for VerPackIndex {
    open spec fn index(&self) -> IndexView {
        match self {
            VerPackIndex::V1(p) => p@,
        }
    }

    open spec fn is_valid(&self) -> bool {
        match self {
            VerPackIndex::V1(p) => p.wf(),
        }
    }

    fn new() -> (r: Self)
    {
        // Use the highest supported pack index version.
        VerPackIndex::V1(PackIndexV1::new())
    }

    fn object_size_total(&self) -> (r: u64)
    {
        match self {
            VerPackIndex::V1(p) => p.object_size_total(),
        }
    }

    fn object_checksums(&self) -> (r: &Vec<ObjectChecksum>)
    {
        match self {
            VerPackIndex::V1(p) => p.object_checksums(),
        }
    }

    fn object_metadata(&self, checksum: &ObjectChecksum) -> (r: &ObjectMetadata)
    {
        match self {
            VerPackIndex::V1(p) => p.object_metadata(checksum),
        }
    }

    fn objects_partitioned_by_size<'l>(
        &self,
        partitions: u32,
        handles: &'l [Handle],
    ) -> (r: Vec<&'l [Handle]>)
    {
        match self {
            VerPackIndex::V1(p) => p.objects_partitioned_by_size(partitions, handles),
        }
    }

    fn compute_object_offsets_and_ordering(self) -> (r: (Self, Vec<Handle>))
    {
        match self {
            VerPackIndex::V1(p) => {
                let (p1, ordering) = p.compute_object_offsets_and_ordering();
                (VerPackIndex::V1(p1), ordering)
            },
        }
    }

    fn handle_to_checksum(&self, h: Handle) -> (r: &ObjectChecksum)
    {
        match self {
            VerPackIndex::V1(p) => p.handle_to_checksum(h),
        }
    }

    fn handle_to_entry(&self, handle: &FileHandle) -> (r: Result<FileEntry, PackError>)
    {
        match self {
            VerPackIndex::V1(p) => p.handle_to_entry(handle),
        }
    }

    fn entry_to_handle(&mut self, entry: &FileEntry) -> (r: Result<FileHandle, PackError>)
    {
        match self {
            VerPackIndex::V1(p) => p.entry_to_handle(entry),
        }
    }

    fn snapshot_tags(&self) -> (r: &Vec<String>)
    {
        match self {
            VerPackIndex::V1(p) => p.snapshot_tags(),
        }
    }

    fn has_snapshot(&self, needle: &str) -> (r: bool)
    {
        match self {
            VerPackIndex::V1(p) => p.has_snapshot(needle),
        }
    }

    fn resolve_snapshot(&self, needle: &str) -> (r: Option<Vec<FileHandle>>)
    {
        match self {
            VerPackIndex::V1(p) => p.resolve_snapshot(needle),
        }
    }

    fn entries_from_handles(&self, handles: &[FileHandle]) -> (r: Result<
        Vec<FileEntry>,
        PackError,
    >)
    {
        match self {
            VerPackIndex::V1(p) => p.entries_from_handles(handles),
        }
    }

    fn push_snapshot(&mut self, tag: String, input: Vec<FileEntry>) -> (r: Result<
        (),
        PackError,
    >)
    {
        let ghost before = self.index();
        let ghost entries = packidx::entry_views(input@);
        let r = match self {
            VerPackIndex::V1(p) => p.push_snapshot(tag, input),
        };
        proof {
            if r is Ok {
                let delta = choose|delta: ChangeView<FileHandle>| #[trigger]
                    packidx::is_change(delta, before.current, self.index().current)
                        && self.index() == model::with_snapshot(before, tag@, entries, delta);
                assert(packidx::is_change(delta, old(self).index().current, self.index().current));
            }
        }
        r
    }

    fn for_each_snapshot<F, S>(&self, f: F) -> (r: Result<Option<S>, PackError>) where
        F: Fn(&str, &Vec<FileEntry>) -> ControlFlow<S>,
    {
        match self {
            VerPackIndex::V1(p) => p.for_each_snapshot(f),
        }
    }

    fn for_each_snapshot_file_count<F, S>(&self, f: F) -> (r: Result<
        Option<S>,
        PackError,
    >) where F: Fn(&str, u64) -> ControlFlow<S>
    {
        match self {
            VerPackIndex::V1(p) => p.for_each_snapshot_file_count(f),
        }
    }

    fn compute_snapshot_checksum(&self, snapshot: &str) -> (r: Option<ObjectChecksum>)
    {
        match self {
            VerPackIndex::V1(p) => p.compute_snapshot_checksum(snapshot),
        }
    }

    fn parse(file: &[u8]) -> (r: Result<Self, PackError>)
    {
        match PackIndexV1::parse(file) {
            Ok(p) => Ok(VerPackIndex::V1(p)),
            Err(e) => Err(e),
        }
    }

    fn parse_only_snapshots(file: &[u8]) -> (r: Result<Vec<String>, PackError>)
    {
        PackIndexV1::parse_only_snapshots(file)
    }

    fn to_file(&self) -> (r: Result<Vec<u8>, PackError>)
    {
        match self {
            VerPackIndex::V1(p) => p.to_file(),
        }
    }
}

} // verus!
