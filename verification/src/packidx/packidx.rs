//! The types of which pack indexes are made.

use super::handleset::FileHandleSet;
use crate::digest::ObjectChecksum;
use crate::entrypool::Handle;
use vstd::prelude::*;
use vstd::slice::slice_to_vec;

verus! {

/// The offset used for [`ObjectMetadata::offset`], when the object is loose (not
/// in a pack file).
pub const LOOSE_OBJECT_OFFSET: u64 = 0xffff_ffff_ffff_ffff;

/// A [`FileHandle`] identifies a file stored in a pack. It contains two
/// handles: a path, which can be used to get the path of the file from the
/// pool of paths, and an object, which can be used to get the corresponding
/// [`ObjectChecksum`] and [`ObjectMetadata`].
///
/// [`FileHandle`] is the representation that gets written to disk.
#[derive(Clone, Copy, Debug, PartialEq, Eq, Structural, Hash)]
pub struct FileHandle {
    /// The position of the path in the pool of paths.
    pub path: Handle,
    /// The position of the object in the pool of objects.
    pub object: Handle,
}

impl FileHandle {
    /// Creates a handle from its parts.
    pub fn new(path: Handle, object: Handle) -> (r: Self)
        ensures
            r == (FileHandle { path, object }),
    {
        FileHandle { path, object }
    }
}

/// A set of changes that can be applied to a set of items to get another set.
#[derive(Clone, Debug)]
pub struct ChangeSet<T> {
    pub added: Vec<T>,
    pub removed: Vec<T>,
}

impl<T> ChangeSet<T> {
    /// Creates a change set from its two lists.
    pub fn new(added: Vec<T>, removed: Vec<T>) -> (r: Self)
        ensures
            r.added == added,
            r.removed == removed,
    {
        ChangeSet { added, removed }
    }

    /// Creates a change set that adds the given items and removes none.
    pub fn from_added(added: Vec<T>) -> (r: Self)
        ensures
            r.added == added,
            r.removed@ == Seq::<T>::empty(),
    {
        ChangeSet { added, removed: Vec::new() }
    }

    /// The items to add.
    pub fn added(&self) -> (r: &[T])
        ensures
            r@ == self.added@,
    {
        self.added.as_slice()
    }

    /// The items to remove.
    pub fn removed(&self) -> (r: &[T])
        ensures
            r@ == self.removed@,
    {
        self.removed.as_slice()
    }

    /// Maps the added items, and then the removed ones. The first failure of
    /// `f` is returned.
    pub fn map<F, U, E>(&self, f: F) -> (r: Result<ChangeSet<U>, E>) where
        F: Fn(&Vec<T>) -> Result<Vec<U>, E>,

        requires
            call_requires(f, (&self.added,)),
            call_requires(f, (&self.removed,)),
        ensures
            match r {
                Ok(c) => call_ensures(f, (&self.added,), Ok(c.added)) && call_ensures(
                    f,
                    (&self.removed,),
                    Ok(c.removed),
                ),
                Err(e) => {
                    ||| call_ensures(f, (&self.added,), Err(e))
                    ||| exists|a: Vec<U>|
                        #[trigger] call_ensures(f, (&self.added,), Ok(a)) && call_ensures(
                            f,
                            (&self.removed,),
                            Err(e),
                        )
                },
            },
    {
        let added = match f(&self.added) {
            Ok(v) => v,
            Err(e) => {
                return Err(e);
            },
        };
        match f(&self.removed) {
            Ok(removed) => Ok(ChangeSet { added, removed }),
            Err(e) => {
                assert(call_ensures(f, (&self.added,), Ok(added)));
                Err(e)
            },
        }
    }
}

/// What a change set says.
#[verifier::ext_equal]
pub struct ChangeView<T> {
    pub added: Seq<T>,
    pub removed: Seq<T>,
}

impl<T> View for ChangeSet<T> {
    type V = ChangeView<T>;

    open spec fn view(&self) -> ChangeView<T> {
        ChangeView { added: self.added@, removed: self.removed@ }
    }
}

/// The change can be made to the set: what it removes is there, what it adds is
/// not there once that has been removed, and neither list repeats an item.
pub open spec fn applies_cleanly(set: Set<FileHandle>, c: ChangeView<FileHandle>) -> bool {
    &&& c.removed.no_duplicates()
    &&& c.removed.to_set().subset_of(set)
    &&& c.added.no_duplicates()
    &&& c.added.to_set().disjoint(set.difference(c.removed.to_set()))
}

/// The set after the change.
pub open spec fn applied(set: Set<FileHandle>, c: ChangeView<FileHandle>) -> Set<FileHandle> {
    set.difference(c.removed.to_set()).union(c.added.to_set())
}

/// The change from one set to another.
pub open spec fn is_change(
    c: ChangeView<FileHandle>,
    from: Set<FileHandle>,
    to: Set<FileHandle>,
) -> bool {
    &&& c.added.no_duplicates()
    &&& c.added.to_set() == to.difference(from)
    &&& c.removed.no_duplicates()
    &&& c.removed.to_set() == from.difference(to)
}

/// Applying the change from one set to another gives the other set.
pub proof fn law_change_leads_to_target(
    c: ChangeView<FileHandle>,
    from: Set<FileHandle>,
    to: Set<FileHandle>,
)
    requires
        is_change(c, from, to),
    ensures
        applies_cleanly(from, c),
        applied(from, c) == to,
{
    assert(applied(from, c) =~= to);
}

/// A change can be undone: with its two lists exchanged it leads back.
pub proof fn law_change_is_undone(set: Set<FileHandle>, c: ChangeView<FileHandle>)
    requires
        applies_cleanly(set, c),
        c.added.to_set().disjoint(c.removed.to_set()),
    ensures
        applies_cleanly(applied(set, c), (ChangeView { added: c.removed, removed: c.added })),
        applied(applied(set, c), (ChangeView { added: c.removed, removed: c.added })) == set,
{
    let back = ChangeView { added: c.removed, removed: c.added };
    assert(applied(applied(set, c), back) =~= set);
}

/// A snapshot is identified by a string tag and specifies a list of files.
///
/// The list of files can be a complete list or a list diff.
#[derive(Clone, Debug)]
pub struct Snapshot {
    pub tag: String,
    pub list: ChangeSet<FileHandle>,
}

impl Snapshot {
    /// Creates a snapshot from its tag and its files.
    pub fn new(tag: &str, list: ChangeSet<FileHandle>) -> (r: Self)
        ensures
            r.tag@ == tag@,
            r.list == list,
    {
        Snapshot { tag: tag.to_owned(), list }
    }

    /// The number of files that the snapshot adds.
    pub fn n_added(&self) -> (r: usize)
        ensures
            r == self.list.added@.len(),
    {
        self.list.added.len()
    }

    /// The tag of the snapshot.
    pub fn tag(&self) -> (r: &str)
        ensures
            r@ == self.tag@,
    {
        self.tag.as_str()
    }

    /// Makes a change to a set of files.
    pub fn apply_changes(set: &mut FileHandleSet, changes: &ChangeSet<FileHandle>)
        requires
            applies_cleanly(old(set)@, changes@),
        ensures
            final(set)@ == applied(old(set)@, changes@),
    {
        let ghost start = set@;
        let mut i: usize = 0;
        while i < changes.removed.len()
            invariant
                i <= changes.removed@.len(),
                set@ == start.difference(changes.removed@.take(i as int).to_set()),
            decreases changes.removed.len() - i,
        {
            set.remove(&changes.removed[i]);
            proof {
                lemma_take_to_set(changes.removed@, i as int);
                assert(set@ =~= start.difference(changes.removed@.take(i + 1).to_set()));
            }
            i += 1;
        }
        assert(changes.removed@.take(i as int) =~= changes.removed@);
        let ghost middle = set@;
        let mut j: usize = 0;
        assert(set@ =~= middle.union(changes.added@.take(0).to_set()));
        while j < changes.added.len()
            invariant
                j <= changes.added@.len(),
                set@ == middle.union(changes.added@.take(j as int).to_set()),
            decreases changes.added.len() - j,
        {
            set.insert(changes.added[j]);
            proof {
                lemma_take_to_set(changes.added@, j as int);
                assert(set@ =~= middle.union(changes.added@.take(j + 1).to_set()));
            }
            j += 1;
        }
        assert(changes.added@.take(j as int) =~= changes.added@);
    }

    /// Computes the change from the files in `set` to those in `next`, and
    /// makes it to `set`.
    pub fn get_changes(set: &mut FileHandleSet, next: &FileHandleSet) -> (r: ChangeSet<FileHandle>)
        ensures
            is_change(r@, old(set)@, next@),
            final(set)@ == next@,
    {
        // Files in the previous snapshot, but not in the one after it.
        let removed = Self::missing_from(set, next);
        // Files in the new snapshot, but not in the one preceding it.
        let added = Self::missing_from(next, set);
        let r = ChangeSet { added, removed };
        proof {
            law_change_leads_to_target(r@, set@, next@);
        }
        Self::apply_changes(set, &r);
        r
    }

    /// Lists the handles of `a` that are not in `b`.
    fn missing_from(a: &FileHandleSet, b: &FileHandleSet) -> (r: Vec<FileHandle>)
        ensures
            r@.no_duplicates(),
            r@.to_set() == a@.difference(b@),
    {
        let all = a.to_list();
        let mut r: Vec<FileHandle> = Vec::new();
        let mut i: usize = 0;
        while i < all.len()
            invariant
                i <= all@.len(),
                all@.no_duplicates(),
                r@.no_duplicates(),
                r@.to_set() == all@.take(i as int).to_set().difference(b@),
            decreases all.len() - i,
        {
            let ghost before = r@;
            let h = all[i];
            proof {
                lemma_take_to_set(all@, i as int);
                if all@.take(i as int).to_set().contains(h) {
                    let j = all@.take(i as int).index_of(h);
                    assert(all@[j] == all@[i as int]);
                }
                assert(!before.to_set().contains(h));
            }
            if !b.contains(&h) {
                r.push(h);
                proof {
                    assert(before.take(before.len() as int) =~= before);
                    assert(r@.take(r@.len() as int) =~= r@);
                    assert(r@.take(before.len() as int) =~= before);
                    lemma_take_to_set(r@, before.len() as int);
                }
            }
            assert(r@.to_set() =~= all@.take(i + 1).to_set().difference(b@));
            i += 1;
        }
        assert(all@.take(i as int) =~= all@);
        r
    }
}

/// One more item of a list is one more item of its set.
pub proof fn lemma_take_to_set<T>(s: Seq<T>, i: int)
    requires
        0 <= i < s.len(),
    ensures
        s.take(i + 1).to_set() == s.take(i).to_set().insert(s[i]),
        s.take(0).to_set() == Set::<T>::empty(),
{
    let before = s.take(i);
    let after = s.take(i + 1);
    assert forall|h: T| after.to_set().contains(h) <==> before.to_set().insert(s[i]).contains(h) by {
        if before.contains(h) {
            let j = before.index_of(h);
            assert(after[j] == h);
        }
        if after.contains(h) {
            let j = after.index_of(h);
            if j < i {
                assert(before[j] == h);
            }
        }
        assert(after[i] == s[i]);
    }
    assert(after.to_set() =~= before.to_set().insert(s[i]));
    assert(s.take(0).to_set() =~= Set::empty());
}

/// Where the content of an object is in a pack, and how long it is.
#[derive(Clone, Copy, Debug, PartialEq, Eq, Structural, PartialOrd, Ord, Hash)]
pub struct ObjectMetadata {
    pub offset: u64,
    pub size: u64,
}

/// What is known of a file besides its content.
#[derive(Clone, Copy, Debug, PartialEq, Eq, Structural, Hash)]
pub struct FileMetadata {
    /// The permission bits of the file.
    pub mode: u32,
}

impl Default for FileMetadata {
    fn default() -> (r: Self)
        ensures
            r == (FileMetadata { mode: 0 }),
    {
        FileMetadata { mode: 0 }
    }
}

/// A [`FileEntry`] can be used to identify a specific file in a pack.
///
/// This is a practical representation to have at runtime, but has a higher
/// memory cost, compared to [`FileHandle`], which contains handles to the path
/// and to the object. Paths are byte strings.
#[derive(Debug, PartialEq, Eq, Hash)]
pub struct FileEntry {
    pub path: Vec<u8>,
    pub checksum: ObjectChecksum,
    pub metadata: ObjectMetadata,
    pub file_metadata: FileMetadata,
}

/// What a [`FileEntry`] says.
#[verifier::ext_equal]
pub struct FileEntryView {
    pub path: Seq<u8>,
    pub checksum: Seq<u8>,
    pub metadata: ObjectMetadata,
    pub file_metadata: FileMetadata,
}

impl View for FileEntry {
    type V = FileEntryView;

    open spec fn view(&self) -> FileEntryView {
        FileEntryView {
            path: self.path@,
            checksum: self.checksum@,
            metadata: self.metadata,
            file_metadata: self.file_metadata,
        }
    }
}

impl FileEntry {
    /// Creates an entry for a file of which nothing but the content is known.
    pub fn new(path: Vec<u8>, checksum: ObjectChecksum, metadata: ObjectMetadata) -> (r: Self)
        ensures
            r.path == path,
            r.checksum == checksum,
            r.metadata == metadata,
            r.file_metadata == (FileMetadata { mode: 0 }),
    {
        FileEntry { path, checksum, metadata, file_metadata: FileMetadata { mode: 0 } }
    }

    /// Creates an entry for a file with the given metadata.
    pub fn with_file_metadata(
        path: Vec<u8>,
        checksum: ObjectChecksum,
        metadata: ObjectMetadata,
        file_metadata: FileMetadata,
    ) -> (r: Self)
        ensures
            r.path == path,
            r.checksum == checksum,
            r.metadata == metadata,
            r.file_metadata == file_metadata,
    {
        FileEntry { path, checksum, metadata, file_metadata }
    }
}

impl Clone for FileEntry {
    fn clone(&self) -> (r: Self)
        ensures
            r@ == self@,
    {
        FileEntry {
            path: slice_to_vec(self.path.as_slice()),
            checksum: self.checksum,
            metadata: self.metadata,
            file_metadata: self.file_metadata,
        }
    }
}

/// What a list of entries says.
pub open spec fn entry_views(entries: Seq<FileEntry>) -> Seq<FileEntryView> {
    entries.map_values(|e: FileEntry| e@)
}

} // verus!
