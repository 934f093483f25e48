//! Storing of snapshots as loose objects, and reading them back.

use super::constants::PACKS_DIR;
use super::error::Error;
use super::id::{PackId, SnapshotId};
use super::remote;
use super::remote::{RemoteIndex, RemotePack};
use super::repository;
use super::repository::Repository;
use crate::batch::compute_checksums;
use crate::bytes::{bytes_equal, ByteString};
use crate::digest;
use crate::digest::{sha1, ObjectChecksum};
use crate::ioerror::IoError;
use crate::packidx::encoding;
use crate::packidx::file;
use crate::packidx::laws;
use crate::packidx::model;
use crate::packidx::model::IndexView;
use crate::packidx::packidx;
use crate::packidx::packidx::{ChangeView, FileEntryView};
use crate::packidx::{
    FileEntry, FileHandle, FileMetadata, ObjectMetadata, PackError, PackIndexV1,
    LOOSE_OBJECT_OFFSET,
};
use crate::paths;
use crate::paths::{components, file_stem, join, join_components, starts_with};
use crate::select;
use crate::split;
use crate::text;
use crate::text::{find_last, from_char_range, text_bytes, to_chars};
use vstd::prelude::*;
use vstd::string::StringExecFns;

verus! {

/// A file that is stored.
#[derive(Debug)]
pub struct StoredFile {
    /// The path relative to the root of the repository.
    pub path: Vec<u8>,
    pub content: Vec<u8>,
    pub mode: u32,
}

/// The entry for a file that is stored as a loose object.
pub open spec fn loose_entry(f: StoredFile) -> FileEntryView {
    FileEntryView {
        path: f.path@,
        checksum: digest::sha1_of(f.content@),
        metadata: ObjectMetadata { offset: LOOSE_OBJECT_OFFSET, size: f.content@.len() as u64 },
        file_metadata: FileMetadata { mode: f.mode },
    }
}

/// The entries for files that are stored as loose objects.
pub open spec fn loose_entries(files: Seq<StoredFile>) -> Seq<FileEntryView> {
    files.map_values(|f: StoredFile| loose_entry(f))
}

/// A new index to which one snapshot of the given entries was pushed.
pub open spec fn is_index_of(v: IndexView, tag: Seq<char>, es: Seq<FileEntryView>) -> bool {
    exists|delta: ChangeView<FileHandle>| #[trigger]
        packidx::is_change(delta, Set::empty(), v.current) && v == model::with_snapshot(
            model::empty_index(),
            tag,
            es,
            delta,
        )
}

/// A snapshot that is ready to be written.
pub struct StoredSnapshot {
    /// The checksums of the contents of the files, which name the objects.
    pub objects: Vec<ObjectChecksum>,
    /// The index of the loose pack that holds nothing but the snapshot.
    pub index: PackIndexV1,
    /// The path of the index.
    pub index_path: Vec<u8>,
    /// The content of the index file.
    pub index_file: Vec<u8>,
}

/// Each entry adds at most one path and one object.
pub proof fn lemma_has_room(v: IndexView, es: Seq<FileEntryView>)
    ensures
        model::with_entries(v, es).paths.len() <= v.paths.len() + es.len(),
        model::with_entries(v, es).objects.len() <= v.objects.len() + es.len(),
    decreases es.len(),
{
    if es.len() > 0 {
        lemma_has_room(v, es.drop_last());
    }
}

impl Repository {
    /// Creates a snapshot of the files: computes their checksums, and makes the
    /// index of a loose pack for it.
    pub fn create_snapshot(&self, snapshot: &SnapshotId, files: &[StoredFile]) -> (r: Result<
        StoredSnapshot,
        Error,
    >)
        requires
            files@.len() <= u32::MAX,
            forall|i: int|
                0 <= i < files@.len() ==> (#[trigger] files@[i]).content@.len()
                    < 0x2000_0000_0000_0000,
        ensures
            match r {
                Ok(s) => {
                    &&& s.objects@.len() == files@.len()
                    &&& forall|i: int|
                        0 <= i < files@.len() ==> (#[trigger] s.objects@[i])@ == digest::sha1_of(
                            files@[i].content@,
                        )
                    &&& s.index.wf()
                    &&& is_index_of(s.index@, snapshot@.tag, loose_entries(files@))
                    &&& s.index_path@ == repository::loose_index_path_of(
                        self@.data_dir,
                        snapshot@.tag,
                    )
                    &&& s.index_file@ == file::magic() + file::version()
                        + encoding::encoded_index(model::parts_of(s.index@))
                },
                Err(e) => {
                    &&& e matches Error::PackError(p) && p is SerializeError
                    &&& exists|v: IndexView| #[trigger]
                        is_index_of(v, snapshot@.tag, loose_entries(files@))
                            && !encoding::parts_fit(model::parts_of(v))
                },
            },
    {
        let ghost all = loose_entries(files@);
        let mut objects: Vec<ObjectChecksum> = Vec::new();
        let mut entries: Vec<FileEntry> = Vec::new();
        let mut i: usize = 0;
        while i < files.len()
            invariant
                i <= files.len(),
                all == loose_entries(files@),
                forall|i: int|
                    0 <= i < files@.len() ==> (#[trigger] files@[i]).content@.len()
                        < 0x2000_0000_0000_0000,
                objects@.len() == i,
                forall|j: int|
                    0 <= j < i ==> (#[trigger] objects@[j])@ == digest::sha1_of(files@[j].content@),
                packidx::entry_views(entries@) == all.take(i as int),
            decreases files.len() - i,
        {
            let ghost before = packidx::entry_views(entries@);
            let checksum = sha1(files[i].content.as_slice());
            let entry = FileEntry::with_file_metadata(
                files[i].path.duplicate(),
                checksum,
                ObjectMetadata { offset: LOOSE_OBJECT_OFFSET, size: files[i].content.len() as u64 },
                FileMetadata { mode: files[i].mode },
            );
            objects.push(checksum);
            entries.push(entry);
            proof {
                assert(entry@ =~= loose_entry(files@[i as int]));
                assert(packidx::entry_views(entries@) =~= before.push(entry@));
                assert(all.take(i + 1) =~= all.take(i as int).push(all[i as int]));
            }
            i += 1;
        }
        assert(all.take(i as int) =~= all);
        let mut index = PackIndexV1::new();
        proof {
            lemma_has_room(index@, all);
        }
        match index.push_snapshot(snapshot.tag().to_owned(), entries) {
            Ok(_) => {},
            Err(e) => {
                assert(false);
                return Err(Error::PackError(e));
            },
        }
        assert(is_index_of(index@, snapshot@.tag, all));
        match index.to_file() {
            Ok(index_file) => Ok(
                StoredSnapshot {
                    objects,
                    index,
                    index_path: self.loose_index_path(snapshot.tag()),
                    index_file,
                },
            ),
            Err(e) => Err(Error::PackError(e)),
        }
    }

    /// The path to write an object to, if it is not there yet. Object writes are
    /// atomic, so if an object with the same checksum already exists, there is
    /// no need to do anything.
    pub fn write_loose_object(&self, checksum: &ObjectChecksum, exists: bool) -> (r: Option<
        Vec<u8>,
    >)
        ensures
            match r {
                Some(path) => !exists && path@ == repository::loose_object_path_of(
                    self@.data_dir,
                    checksum@,
                ),
                None => exists,
            },
    {
        if exists {
            None
        } else {
            Some(self.loose_object_path(checksum))
        }
    }
}

/// A snapshot that was stored is found again in its index, with exactly the
/// files that were stored.
pub proof fn law_stored_snapshot_is_found(v: IndexView, tag: Seq<char>, es: Seq<FileEntryView>)
    requires
        is_index_of(v, tag, es),
        es.len() <= u32::MAX,
    ensures
        laws::is_consistent(v),
        model::resolvable(v, tag),
        model::snapshot_files(v, tag) == Some(v.current),
        model::pairs_of(v, v.current) == es.map_values(
            |e: FileEntryView| (e.path, e.checksum),
        ).to_set(),
{
    let delta = choose|delta: ChangeView<FileHandle>| #[trigger]
        packidx::is_change(delta, Set::empty(), v.current) && v == model::with_snapshot(
            model::empty_index(),
            tag,
            es,
            delta,
        );
    lemma_has_room(model::empty_index(), es);
    laws::law_new_index_is_consistent();
    laws::law_pushed_snapshot_is_found(model::empty_index(), tag, es, delta);
}

/// A file as it was listed by the user, and its canonical absolute path.
#[derive(Debug)]
pub struct ListedFile {
    pub path: Vec<u8>,
    pub canonical: Result<Vec<u8>, IoError>,
}

/// The path without as many components as the directory has.
pub open spec fn stripped(path: Seq<u8>, dir: Seq<u8>) -> Seq<u8> {
    let parts = paths::components_of(path);
    let n = paths::components_of(dir).len() as int;
    paths::path_of(
        if n <= parts.len() {
            parts.skip(n)
        } else {
            Seq::empty()
        },
    )
}

/// Where a file is in a directory is where its listed path leads from there:
/// the listed path has the components that follow those of the directory, and
/// joined to the directory it gives the components of the file back.
pub proof fn law_listed_path_leads_back(canonical: Seq<u8>, repo_dir: Seq<u8>, names: Seq<Seq<u8>>)
    requires
        paths::components_of(repo_dir).len() > 0,
        paths::components_of(canonical) == paths::components_of(repo_dir) + names,
    ensures
        paths::components_of(stripped(canonical, repo_dir)) == names,
        paths::components_of(paths::join_of(repo_dir, stripped(canonical, repo_dir)))
            == paths::components_of(canonical),
{
    let n = paths::components_of(repo_dir).len() as int;
    let parts = paths::components_of(canonical);
    assert forall|k: int| 0 <= k < names.len() implies paths::is_name(#[trigger] names[k]) by {
        assert(parts[n + k] == names[k]);
        paths::lemma_components_are_names(canonical, n + k);
    }
    assert(parts.skip(n) =~= names);
    paths::law_join_adds_components(repo_dir, names);
}

/// Removes as many components from a path as the directory has.
fn strip(path: &[u8], dir: &[u8]) -> (r: Vec<u8>)
    ensures
        r@ == stripped(path@, dir@),
{
    let parts = components(path);
    let top = components(dir);
    let n = top.len();
    assert(split::byte_views(top@).len() == n);
    assert(split::byte_views(parts@).len() == parts@.len());
    if n <= parts.len() {
        let ghost views = split::byte_views(parts@);
        assert(views.subrange(n as int, views.len() as int) =~= views.skip(n as int));
        join_components(parts.as_slice(), n, parts.len())
    } else {
        let none: Vec<u8> = Vec::new();
        assert(none@ =~= paths::path_of(Seq::empty()));
        none
    }
}

/// The file is kept: it is given by a relative path, and is not in the data
/// directory of the repository.
pub open spec fn is_kept(f: ListedFile, repo_dir: Seq<u8>, data_dir: Seq<u8>) -> bool {
    &&& !paths::is_absolute(f.path@)
    &&& f.canonical is Ok
    &&& paths::is_within(data_dir, repo_dir) ==> !paths::is_within(
        stripped(f.canonical->Ok_0@, repo_dir),
        stripped(data_dir, repo_dir),
    )
}

/// The file makes the listing fail: its canonical path is not known, and the
/// data directory of the repository is elsewhere.
pub open spec fn fails_list(f: ListedFile, repo_dir: Seq<u8>, data_dir: Seq<u8>) -> bool {
    !paths::is_absolute(f.path@) && f.canonical is Err && !paths::is_within(data_dir, repo_dir)
}

/// The paths of the files that are kept among the first `n`.
pub open spec fn kept_paths(
    files: Seq<ListedFile>,
    repo_dir: Seq<u8>,
    data_dir: Seq<u8>,
    n: int,
) -> Seq<Seq<u8>>
    decreases n,
{
    if n <= 0 {
        Seq::empty()
    } else {
        let before = kept_paths(files, repo_dir, data_dir, n - 1);
        let f = files[n - 1];
        if is_kept(f, repo_dir, data_dir) {
            before.push(stripped(f.canonical->Ok_0@, repo_dir))
        } else {
            before
        }
    }
}

/// Tells whether a path is within a directory.
fn is_path_within(path: &[u8], dir: &[u8]) -> (r: bool)
    ensures
        r == paths::is_within(path@, dir@),
{
    starts_with(components(path).as_slice(), components(dir).as_slice())
}

/// Cleans the list of file paths relative to the repository root,
/// and skips any paths pointing into the repository data directory.
pub fn clean_file_list(repo_dir: &[u8], data_dir: &[u8], files: Vec<ListedFile>) -> (r: Result<
    Vec<Vec<u8>>,
    IoError,
>)
    ensures
        match r {
            Ok(paths) => {
                &&& forall|i: int|
                    0 <= i < files@.len() ==> !fails_list(
                        #[trigger] files@[i],
                        repo_dir@,
                        data_dir@,
                    )
                &&& split::byte_views(paths@) == kept_paths(
                    files@,
                    repo_dir@,
                    data_dir@,
                    files@.len() as int,
                )
            },
            Err(e) => exists|i: int|
                {
                    &&& 0 <= i < files@.len()
                    &&& fails_list(#[trigger] files@[i], repo_dir@, data_dir@)
                    &&& files@[i].canonical == Err::<Vec<u8>, IoError>(e)
                    &&& forall|j: int|
                        0 <= j < i ==> !fails_list(#[trigger] files@[j], repo_dir@, data_dir@)
                },
        },
{
    let data_dir_is_subdir = is_path_within(data_dir, repo_dir);
    let stripped_data_dir = strip(data_dir, repo_dir);
    let ghost all = files@;
    let mut r: Vec<Vec<u8>> = Vec::new();
    assert(split::byte_views(r@) =~= Seq::empty());
    let ghost mut done: int = 0;
    for f in it: files
        invariant
            it.seq() == all,
            done == it.index(),
            data_dir_is_subdir == paths::is_within(data_dir@, repo_dir@),
            stripped_data_dir@ == stripped(data_dir@, repo_dir@),
            forall|j: int|
                0 <= j < done ==> !fails_list(#[trigger] all[j], repo_dir@, data_dir@),
            split::byte_views(r@) == kept_paths(all, repo_dir@, data_dir@, done),
    {
        let ghost before = split::byte_views(r@);
        assert(f == all[done]);
        let is_relative = !(f.path.len() > 0 && f.path[0] == 47);
        if is_relative {
            match f.canonical {
                Ok(canonical) => {
                    let path = strip(canonical.as_slice(), repo_dir);
                    if !data_dir_is_subdir || !is_path_within(
                        path.as_slice(),
                        stripped_data_dir.as_slice(),
                    ) {
                        r.push(path);
                        assert(split::byte_views(r@) =~= before.push(path@));
                    }
                },
                Err(e) => {
                    if !data_dir_is_subdir {
                        assert(fails_list(all[done], repo_dir@, data_dir@));
                        return Err(e);
                    }
                },
            }
        }
        proof {
            done = done + 1;
        }
    }
    Ok(r)
}

/// The files that are stored are those that were listed by a relative path and
/// are not in the data directory of the repository, each once, in the order in
/// which they were listed. The path that is stored for each leads from the
/// repository to the file.
pub proof fn law_listed_files_are_stored(
    files: Seq<ListedFile>,
    repo_dir: Seq<u8>,
    data_dir: Seq<u8>,
    n: int,
) -> (at: Seq<int>)
    requires
        0 <= n <= files.len(),
        paths::components_of(repo_dir).len() > 0,
        paths::components_of(repo_dir).is_prefix_of(paths::components_of(data_dir)),
        forall|i: int|
            0 <= i < files.len() && (#[trigger] files[i]).canonical is Ok ==> paths::components_of(
                repo_dir,
            ).is_prefix_of(paths::components_of(files[i].canonical->Ok_0@)),
    ensures
        select::is_selected(
            kept_paths(files, repo_dir, data_dir, n),
            files,
            n,
            |f: ListedFile|
                !(f.path@.len() > 0 && f.path@[0] == 47) && f.canonical is Ok
                    && !paths::components_of(data_dir).is_prefix_of(
                    paths::components_of(f.canonical->Ok_0@),
                ),
            |f: ListedFile| stripped(f.canonical->Ok_0@, repo_dir),
            at,
        ),
        forall|k: int|
            0 <= k < at.len() ==> paths::components_of(
                paths::join_of(repo_dir, #[trigger] kept_paths(files, repo_dir, data_dir, n)[k]),
            ) == paths::components_of(files[at[k]].canonical->Ok_0@),
    decreases n,
{
    let wanted = |f: ListedFile|
        !(f.path@.len() > 0 && f.path@[0] == 47) && f.canonical is Ok && !paths::components_of(
            data_dir,
        ).is_prefix_of(paths::components_of(f.canonical->Ok_0@));
    let value = |f: ListedFile| stripped(f.canonical->Ok_0@, repo_dir);
    let top = paths::components_of(repo_dir);
    let data = paths::components_of(data_dir);
    if n == 0 {
        select::lemma_none_selected(files, wanted, value);
        Seq::empty()
    } else {
        let at = law_listed_files_are_stored(files, repo_dir, data_dir, n - 1);
        let before = kept_paths(files, repo_dir, data_dir, n - 1);
        let f = files[n - 1];
        if f.canonical is Ok {
            let c = f.canonical->Ok_0@;
            let all = paths::components_of(c);
            let names = all.skip(top.len() as int);
            let below = data.skip(top.len() as int);
            assert(top + names =~= all);
            assert(top + below =~= data);
            law_listed_path_leads_back(c, repo_dir, names);
            law_listed_path_leads_back(data_dir, repo_dir, below);
            assert(data.is_prefix_of(all) <==> below.is_prefix_of(names)) by {
                if data.is_prefix_of(all) {
                    assert(below =~= names.take(below.len() as int));
                }
                if below.is_prefix_of(names) {
                    assert(data =~= all.take(data.len() as int));
                }
            }
            assert(wanted(f) <==> is_kept(f, repo_dir, data_dir));
        }
        if wanted(f) {
            select::lemma_select_next(before, files, n - 1, wanted, value, at);
            at.push(n - 1)
        } else {
            assert(!is_kept(f, repo_dir, data_dir));
            select::lemma_pass_over(before, files, n - 1, wanted, value, at);
            at
        }
    }
}

/// A loose object that is copied to a file of the working directory.
#[derive(Debug)]
pub struct CopyTask {
    pub object_path: Vec<u8>,
    pub dest_path: Vec<u8>,
    pub mode: u32,
}

impl Repository {
    /// Plans to copy the loose objects of the entries to files below a
    /// directory.
    pub fn copy_loose_entries(&self, entries: &[FileEntry], path: &[u8]) -> (r: Vec<CopyTask>)
        ensures
            r@.len() == entries@.len(),
            forall|i: int|
                0 <= i < r@.len() ==> {
                    &&& (#[trigger] r@[i]).object_path@ == repository::loose_object_path_of(
                        self@.data_dir,
                        entries@[i].checksum@,
                    )
                    &&& r@[i].dest_path@ == paths::join_of(path@, entries@[i].path@)
                    &&& r@[i].mode == entries@[i].file_metadata.mode
                },
    {
        let mut r: Vec<CopyTask> = Vec::new();
        let mut i: usize = 0;
        while i < entries.len()
            invariant
                i <= entries.len(),
                r@.len() == i,
                forall|j: int|
                    0 <= j < i ==> {
                        &&& (#[trigger] r@[j]).object_path@ == repository::loose_object_path_of(
                            self@.data_dir,
                            entries@[j].checksum@,
                        )
                        &&& r@[j].dest_path@ == paths::join_of(path@, entries@[j].path@)
                        &&& r@[j].mode == entries@[j].file_metadata.mode
                    },
            decreases entries.len() - i,
        {
            r.push(
                CopyTask {
                    object_path: self.loose_object_path(&entries[i].checksum),
                    dest_path: join(path, entries[i].path.as_slice()),
                    mode: entries[i].file_metadata.mode,
                },
            );
            i += 1;
        }
        r
    }

    /// Verifies the checksums of files that were copied, given their contents.
    pub fn verify_copies(&self, entries: &[FileEntry], contents: &[Vec<u8>]) -> (r: Result<
        (),
        Error,
    >)
        requires
            contents@.len() == entries@.len(),
            forall|i: int|
                0 <= i < contents@.len() ==> (#[trigger] contents@[i])@.len()
                    < 0x2000_0000_0000_0000,
        ensures
            match r {
                Ok(_) => forall|i: int|
                    0 <= i < entries@.len() ==> (#[trigger] entries@[i]).checksum@
                        == digest::sha1_of(contents@[i]@),
                Err(e) => exists|i: int|
                    {
                        &&& 0 <= i < entries@.len()
                        &&& (#[trigger] entries@[i]).checksum@ != digest::sha1_of(contents@[i]@)
                        &&& forall|j: int|
                            0 <= j < i ==> (#[trigger] entries@[j]).checksum@ == digest::sha1_of(
                                contents@[j]@,
                            )
                        &&& e matches Error::PackError(PackError::ChecksumMismatch(a, b)) && a@
                            == entries@[i].checksum@ && b@ == digest::sha1_of(contents@[i]@)
                    },
            },
    {
        let checksums = compute_checksums(contents);
        let mut i: usize = 0;
        while i < entries.len()
            invariant
                i <= entries.len(),
                checksums@.len() == entries@.len(),
                forall|j: int|
                    0 <= j < checksums@.len() ==> (#[trigger] checksums@[j])@ == digest::sha1_of(
                        contents@[j]@,
                    ),
                forall|j: int|
                    0 <= j < i ==> (#[trigger] entries@[j]).checksum@ == digest::sha1_of(
                        contents@[j]@,
                    ),
            decreases entries.len() - i,
        {
            let expected = entries[i].checksum;
            let actual = checksums[i];
            if !bytes_equal(expected.as_slice(), actual.as_slice()) {
                assert(entries@[i as int].checksum@ != digest::sha1_of(contents@[i as int]@));
                return Err(Error::PackError(PackError::ChecksumMismatch(expected, actual)));
            }
            i += 1;
        }
        Ok(())
    }
}

/// What follows the last slash of the name of a pack.
pub open spec fn short_name(pack: Seq<char>) -> Seq<char> {
    match text::last_position(pack, '/') {
        Some(i) => pack.skip(i + 1),
        None => pack,
    }
}

/// The remote offers a pack with the given file name.
pub open spec fn offers(r: remote::RemoteView, file_name: Seq<char>) -> bool {
    exists|i: int|
        0 <= i < r.packs.len() && remote::file_name_in((#[trigger] r.packs[i]).url) == file_name
}

/// The name of a remote.
pub open spec fn remote_stem(r: remote::RemoteView) -> Option<Seq<u8>> {
    match r.path {
        Some(p) => paths::file_stem_of(p),
        None => None,
    }
}

/// The remote was loaded from a file, and all its packs have file names.
pub open spec fn is_loaded(r: remote::RemoteView) -> bool {
    &&& remote_stem(r) is Some
    &&& forall|i: int| 0 <= i < r.packs.len() ==> (#[trigger] r.packs[i]).url.contains('/')
}

/// A pack that a remote offers, and where it goes.
pub struct RemoteTarget<'a> {
    /// The position of the remote.
    pub remote: usize,
    pub pack: &'a RemotePack,
    pub path: Vec<u8>,
}

impl Repository {
    /// Finds the first remote that offers a pack, and the path that the pack is
    /// fetched to.
    pub fn update_remote_pack<'a>(&self, remotes: &'a [RemoteIndex], pack: &PackId) -> (r: Result<
        RemoteTarget<'a>,
        Error,
    >)
        requires
            forall|i: int| 0 <= i < remotes@.len() ==> is_loaded((#[trigger] remotes@[i])@),
        ensures
            ({
                let name = short_name(pack@);
                let file_name = name + ".pack"@;
                match r {
                    Ok(t) => {
                        &&& t.remote < remotes@.len()
                        &&& forall|j: int|
                            0 <= j < t.remote ==> !offers((#[trigger] remotes@[j])@, file_name)
                        &&& exists|i: int|
                            0 <= i < remotes@[t.remote as int]@.packs.len()
                                && #[trigger] remotes@[t.remote as int]@.packs[i] == t.pack@
                                && remote::file_name_in(t.pack@.url) == file_name && forall|j: int|
                                0 <= j < i ==> remote::file_name_in(
                                    (#[trigger] remotes@[t.remote as int]@.packs[j]).url,
                                ) != file_name
                        &&& t.path@ == repository::below(
                            repository::below(
                                repository::below(self@.data_dir, PACKS_DIR@),
                                text::lossy_text(remote_stem(remotes@[t.remote as int]@)->0),
                            ),
                            file_name,
                        )
                    },
                    Err(e) => {
                        &&& forall|j: int|
                            0 <= j < remotes@.len() ==> !offers((#[trigger] remotes@[j])@, file_name)
                        &&& e matches Error::PackNotFound(p) && p@ == name
                    },
                }
            }),
    {
        let chars = to_chars(pack.as_str());
        let name = match find_last(chars.as_slice(), '/') {
            Some(i) => {
                assert(i < chars.len());
                let name = from_char_range(chars.as_slice(), i + 1, chars.len());
                assert(name@ =~= pack@.skip(i + 1));
                name
            },
            None => pack.as_str().to_owned(),
        };
        assert(name@ == short_name(pack@));
        let ghost file_name = name@ + ".pack"@;
        let mut i: usize = 0;
        while i < remotes.len()
            invariant
                i <= remotes.len(),
                name@ == short_name(pack@),
                file_name == name@ + ".pack"@,
                forall|i: int| 0 <= i < remotes@.len() ==> is_loaded((#[trigger] remotes@[i])@),
                forall|j: int| 0 <= j < i ==> !offers((#[trigger] remotes@[j])@, file_name),
            decreases remotes.len() - i,
        {
            let remote = &remotes[i];
            if let Some(remote_pack) = remote.find_pack(name.as_str()) {
                let dir = match remote.name() {
                    Some(remote_name) => join(
                        self.packs_dir().as_slice(),
                        text_bytes(remote_name.as_str()).as_slice(),
                    ),
                    None => {
                        assert(false);
                        self.packs_dir()
                    },
                };
                let mut pack_file_name = name.clone();
                pack_file_name.append(".pack");
                let path = join(dir.as_slice(), text_bytes(pack_file_name.as_str()).as_slice());
                return Ok(RemoteTarget { remote: i, pack: remote_pack, path });
            }
            i += 1;
        }
        Err(Error::PackNotFound(name))
    }

    /// The directory for the pack indexes of a remote.
    pub fn remote_packs_dir(&self, remote: &RemoteIndex) -> (r: Vec<u8>)
        requires
            remote_stem(remote@) is Some,
        ensures
            r@ == paths::join_of(
                repository::below(self@.data_dir, PACKS_DIR@),
                remote_stem(remote@)->0,
            ),
    {
        let stem = match remote.path() {
            Some(p) => file_stem(p),
            None => None,
        };
        match stem {
            Some(stem) => join(self.packs_dir().as_slice(), stem.as_slice()),
            None => {
                assert(false);
                self.packs_dir()
            },
        }
    }
}

/// The short name of a pack is its name without the directories before it.
pub proof fn law_short_name_is_last_part(dirs: Seq<char>, name: Seq<char>)
    requires
        !name.contains('/'),
    ensures
        short_name(name) == name,
        short_name(dirs.push('/') + name) == name,
{
    text::lemma_last_position(name, '/');
    let pack = dirs.push('/') + name;
    let n = dirs.len() as int;
    text::lemma_last_position(pack, '/');
    assert(pack[n] == '/');
    assert(pack.contains('/'));
    let i = text::last_position(pack, '/')->0;
    if i > n {
        assert(name[i - n - 1] == '/');
        assert(name.contains('/'));
    }
    assert(pack.skip(n + 1) =~= name);
}

/// The entry of a stored file has its path, the checksum of its content, its size
/// and its mode.
pub proof fn law_stored_entry_describes_its_file(files: Seq<StoredFile>, i: int)
    requires
        0 <= i < files.len(),
        files[i].content@.len() <= u64::MAX,
    ensures
        loose_entries(files).len() == files.len(),
        loose_entries(files)[i].path == files[i].path@,
        loose_entries(files)[i].checksum == digest::sha1_of(files[i].content@),
        loose_entries(files)[i].metadata.size == files[i].content@.len(),
        loose_entries(files)[i].file_metadata.mode == files[i].mode,
{
}

} // verus!
