//! Packs made from a directory tree: each of its directories at a given depth is
//! a snapshot.

use crate::batch;
use crate::bytes;
use crate::bytes::ByteString;
use crate::cli::rows::sort_lines;
use crate::compression;
use crate::digest;
use crate::digest::ObjectChecksum;
use crate::entrypool;
use crate::lookup::PositionTable;
use crate::ioerror::IoError;
use crate::packidx::laws;
use crate::packidx::model;
use crate::packidx::packidx;
use crate::packidx::packidx::{ChangeView, FileEntryView};
use crate::packidx::packidxv1;
use crate::packidx::{
    FileEntry, FileHandle, FileMetadata, ObjectMetadata, PackError, PackIndexV1,
};
use crate::paths;
use crate::paths::{
    components, is_parts_less, join, join_components, normalize, parent, starts_with,
};
use crate::repo::algo;
use crate::repo::checkout;
use crate::repo::checkout::snapshot_entries;
use crate::repo::extract;
use crate::repo::extract::{extract_files, FrameExtraction};
use crate::repo::laws as repo_laws;
use crate::repo::merge;
use crate::repo::search;
use crate::repo::store;
use crate::select;
use crate::sort;
use crate::sort::sort_positions;
use crate::split;
use crate::text;
use crate::text::{decode_text, text_bytes, text_equal};
use vstd::prelude::*;
use vstd::slice::slice_to_vec;
use vstd::string::StringExecFns;

verus! {

/// A file or a symbolic link that was found in the tree.
#[derive(Debug)]
pub struct WalkedFile {
    pub path: Vec<u8>,
    /// What the link points to, if it is one.
    pub target: Option<Vec<u8>>,
    /// The size of the file, or of the file that the link leads to.
    pub size: u64,
}

/// A file, and the links to it.
#[derive(Debug)]
pub struct LinkedFile {
    pub original: Vec<u8>,
    pub size: u64,
    pub symlinks: Vec<Vec<u8>>,
}

/// What a [`LinkedFile`] says.
#[verifier::ext_equal]
pub struct LinkedView {
    pub original: Seq<u8>,
    pub size: u64,
    pub symlinks: Seq<Seq<u8>>,
}

impl View for LinkedFile {
    type V = LinkedView;

    open spec fn view(&self) -> LinkedView {
        LinkedView {
            original: self.original@,
            size: self.size,
            symlinks: split::byte_views(self.symlinks@),
        }
    }
}

/// What linked files say.
pub open spec fn linked_views(list: Seq<LinkedFile>) -> Seq<LinkedView> {
    list.map_values(|f: LinkedFile| f@)
}

/// Files by their paths in normal form.
#[verifier::ext_equal]
pub struct FileTable {
    pub keys: Seq<Seq<u8>>,
    pub files: Seq<LinkedView>,
}

/// The path that a file is found under: its own, or the one that the link
/// points to.
pub open spec fn key_of(f: WalkedFile) -> Seq<u8> {
    paths::normalized(
        match f.target {
            Some(target) => target@,
            None => f.path@,
        },
    )
}

/// What is recorded for the first time a file is found.
pub open spec fn recorded(f: WalkedFile) -> LinkedView {
    match f.target {
        Some(target) => LinkedView {
            original: paths::join_of(paths::parent_of(f.path@)->0, target@),
            size: f.size,
            symlinks: seq![f.path@],
        },
        None => LinkedView { original: f.path@, size: f.size, symlinks: Seq::empty() },
    }
}

/// What is recorded if the file was found before: a link is added to it, and a
/// file takes its place.
pub open spec fn recorded_again(before: LinkedView, f: WalkedFile) -> LinkedView {
    match f.target {
        Some(_) => LinkedView { symlinks: before.symlinks.push(f.path@), ..before },
        None => recorded(f),
    }
}

/// The table after another file was found.
pub open spec fn with_file(t: FileTable, f: WalkedFile) -> FileTable {
    let k = key_of(f);
    if t.keys.contains(k) {
        let i = t.keys.index_of(k);
        FileTable { keys: t.keys, files: t.files.update(i, recorded_again(t.files[i], f)) }
    } else {
        FileTable { keys: t.keys.push(k), files: t.files.push(recorded(f)) }
    }
}

/// The table after files were found in order.
pub open spec fn table_of(files: Seq<WalkedFile>) -> FileTable
    decreases files.len(),
{
    if files.len() == 0 {
        FileTable { keys: Seq::empty(), files: Seq::empty() }
    } else {
        with_file(table_of(files.drop_last()), files.last())
    }
}

proof fn lemma_table(files: Seq<WalkedFile>)
    ensures
        table_of(files).keys.no_duplicates(),
        table_of(files).keys.len() == table_of(files).files.len(),
    decreases files.len(),
{
    if files.len() > 0 {
        lemma_table(files.drop_last());
    }
}

/// Resolves the symbolic links among files, which are given in order: links with
/// the same target are links to one file.
pub fn walk_follow_symlinks(files: &[WalkedFile]) -> (r: Vec<LinkedFile>)
    requires
        forall|i: int|
            0 <= i < files@.len() && (#[trigger] files@[i]).target is Some ==> paths::parent_of(
                files@[i].path@,
            ) is Some,
    ensures
        linked_views(r@) == table_of(files@).files,
{
    let mut table = PositionTable::new();
    let mut r: Vec<LinkedFile> = Vec::new();
    let mut i: usize = 0;
    assert(files@.take(0) =~= Seq::empty());
    assert(linked_views(r@) =~= table_of(files@.take(0)).files);
    while i < files.len()
        invariant
            i <= files.len(),
            forall|i: int|
                0 <= i < files@.len() && (#[trigger] files@[i]).target is Some
                    ==> paths::parent_of(files@[i].path@) is Some,
            table.wf(),
            table@ == table_of(files@.take(i as int)).keys,
            linked_views(r@) == table_of(files@.take(i as int)).files,
        decreases files.len() - i,
    {
        let file = &files[i];
        let ghost before = table_of(files@.take(i as int));
        let ghost after = with_file(before, *file);
        proof {
            lemma_table(files@.take(i as int));
            assert(files@.take(i + 1).drop_last() =~= files@.take(i as int));
            assert(files@.take(i + 1).last() == *file);
            assert(files@[i as int] == *file);
        }
        let key = match &file.target {
            Some(target) => normalize(target.as_slice()),
            None => normalize(file.path.as_slice()),
        };
        let found = table.find_last(key.as_slice());
        proof {
            if let Some(k) = found {
                assert(before.keys[k as int] == key@);
                assert(before.keys.index_of(key@) == k);
            }
        }
        match &file.target {
            Some(target) => {
                match found {
                    Some(k) => {
                        let ghost was = r@[k as int]@;
                        r[k].symlinks.push(file.path.duplicate());
                        proof {
                            assert(r@[k as int]@ =~= recorded_again(was, *file));
                            assert(linked_views(r@) =~= after.files);
                        }
                    },
                    None => {
                        let dir = match parent(file.path.as_slice()) {
                            Some(dir) => dir,
                            None => {
                                assert(false);
                                Vec::new()
                            },
                        };
                        let mut symlinks: Vec<Vec<u8>> = Vec::new();
                        symlinks.push(file.path.duplicate());
                        let linked = LinkedFile {
                            original: join(dir.as_slice(), target.as_slice()),
                            size: file.size,
                            symlinks,
                        };
                        r.push(linked);
                        table.push(key);
                        proof {
                            assert(linked@ =~= recorded(*file));
                            assert(linked_views(r@) =~= after.files);
                        }
                    },
                }
            },
            None => {
                let linked = LinkedFile {
                    original: file.path.duplicate(),
                    size: file.size,
                    symlinks: Vec::new(),
                };
                assert(linked@ =~= recorded(*file));
                match found {
                    Some(k) => {
                        r.set(k, linked);
                        assert(linked_views(r@) =~= after.files);
                    },
                    None => {
                        r.push(linked);
                        table.push(key);
                        assert(linked_views(r@) =~= after.files);
                    },
                }
            },
        }
        i += 1;
    }
    assert(files@.take(i as int) =~= files@);
    r
}

/// The order of paths by their components, by positions.
pub open spec fn path_order(list: Seq<Seq<u8>>) -> spec_fn(int, int) -> bool {
    |a: int, b: int| paths::parts_less(paths::components_of(list[a]), paths::components_of(list[b]))
}

/// The paths of files that were found.
pub open spec fn walked_paths(files: Seq<WalkedFile>) -> Seq<Seq<u8>> {
    files.map_values(|f: WalkedFile| f.path@)
}

proof fn lemma_path_order(list: Seq<Seq<u8>>)
    ensures
        sort::is_weak_order(path_order(list), list.len() as int),
{
    let lt = path_order(list);
    let n = list.len() as int;
    let key = |i: int| paths::components_of(list[i]);
    assert forall|a: int, b: int| #![trigger lt(a, b)] 0 <= a < n && 0 <= b < n && lt(
        a,
        b,
    ) implies !lt(b, a) by {
        paths::lemma_parts_order(key(a), key(b), key(a));
    }
    assert forall|a: int, b: int, c: int|
        #![trigger lt(a, b), lt(b, c)]
        0 <= a < n && 0 <= b < n && 0 <= c < n && !lt(a, b) && !lt(b, c) implies !lt(a, c) by {
        paths::lemma_parts_order(key(a), key(b), key(c));
    }
}

/// Sorts the positions of files by their paths.
pub fn sort_entries(files: &[WalkedFile]) -> (p: Vec<usize>)
    ensures
        p@ == sort::sorting_of(path_order(walked_paths(files@)), files@.len() as int),
        sort::is_sorting(path_order(walked_paths(files@)), p@, files@.len() as int),
{
    let ghost list = walked_paths(files@);
    let mut keys: Vec<Vec<Vec<u8>>> = Vec::new();
    let mut i: usize = 0;
    while i < files.len()
        invariant
            i <= files.len(),
            keys@.len() == i,
            forall|k: int|
                0 <= k < i ==> split::byte_views((#[trigger] keys@[k])@) == paths::components_of(
                    files@[k].path@,
                ),
        decreases files.len() - i,
    {
        keys.push(components(files[i].path.as_slice()));
        i += 1;
    }
    let less = |a: usize, b: usize| -> (r: bool)
        requires
            a < keys@.len(),
            b < keys@.len(),
        ensures
            r == paths::parts_less(
                split::byte_views(keys@[a as int]@),
                split::byte_views(keys@[b as int]@),
            ),
        { is_parts_less(keys[a].as_slice(), keys[b].as_slice()) };
    let ghost lt = path_order(list);
    let ghost n = files@.len() as int;
    proof {
        lemma_path_order(list);
    }
    let p = sort_positions(files.len(), &less, Ghost(lt));
    proof {
        sort::lemma_sorting_exists(lt, n);
        sort::lemma_sorting_unique(lt, p@, sort::sorting_of(lt, n), n);
    }
    p
}

/// The order of files by size, by positions.
pub open spec fn size_order(files: Seq<LinkedView>) -> spec_fn(int, int) -> bool {
    |a: int, b: int| files[a].size < files[b].size
}

/// Files in the order of their sizes. Files of the same size keep their order.
pub open spec fn by_size(files: Seq<LinkedView>) -> Seq<LinkedView> {
    let p = sort::sorting_of(size_order(files), files.len() as int);
    Seq::new(files.len(), |i: int| files[p[i] as int])
}

/// The sizes of files.
pub open spec fn sizes_of(files: Seq<LinkedView>) -> Seq<u64> {
    files.map_values(|f: LinkedView| f.size)
}

/// An object of the pack: a file, and where its content is.
#[derive(Debug)]
pub struct PlacedFile {
    pub file: LinkedFile,
    pub offset: u64,
}

/// The objects are the files in the order of their sizes, one after the other.
pub open spec fn are_placed(objects: Seq<PlacedFile>, files: Seq<LinkedView>) -> bool {
    let sorted = by_size(files);
    &&& objects.len() == files.len()
    &&& forall|i: int|
        0 <= i < objects.len() ==> (#[trigger] objects[i]).file@ == sorted[i] && objects[i].offset
            == algo::sum_of(sizes_of(sorted).take(i))
}

/// Copies a list of paths.
fn copy_paths(list: &[Vec<u8>]) -> (r: Vec<Vec<u8>>)
    ensures
        split::byte_views(r@) == split::byte_views(list@),
{
    let mut r: Vec<Vec<u8>> = Vec::new();
    let mut i: usize = 0;
    while i < list.len()
        invariant
            i <= list.len(),
            split::byte_views(r@) == split::byte_views(list@).take(i as int),
        decreases list.len() - i,
    {
        let ghost before = split::byte_views(r@);
        let path = list[i].duplicate();
        r.push(path);
        proof {
            let all = split::byte_views(list@);
            assert(all[i as int] == path@);
            assert(split::byte_views(r@) =~= before.push(path@));
            assert(all.take(i + 1) =~= all.take(i as int).push(all[i as int]));
        }
        i += 1;
    }
    assert(split::byte_views(r@) =~= split::byte_views(list@));
    r
}

/// Sorts files by size, and lays their contents out one after the other.
/// Sorting by size seems to work better than by name.
pub fn place_objects(files: &[LinkedFile]) -> (r: Vec<PlacedFile>)
    requires
        algo::sum_of(sizes_of(by_size(linked_views(files@)))) <= u64::MAX,
    ensures
        are_placed(r@, linked_views(files@)),
{
    let ghost views = linked_views(files@);
    let ghost lt = size_order(views);
    let ghost n = files@.len() as int;
    let less = |a: usize, b: usize| -> (r: bool)
        requires
            a < files@.len(),
            b < files@.len(),
        ensures
            r == (files@[a as int].size < files@[b as int].size),
        { files[a].size < files[b].size };
    assert(sort::is_weak_order(lt, n));
    let p = sort_positions(files.len(), &less, Ghost(lt));
    proof {
        sort::lemma_sorting_exists(lt, n);
        sort::lemma_sorting_unique(lt, p@, sort::sorting_of(lt, n), n);
    }
    let ghost sorted = by_size(views);
    let ghost sizes = sizes_of(sorted);
    let mut r: Vec<PlacedFile> = Vec::new();
    let mut offset: u64 = 0;
    let mut i: usize = 0;
    assert(sizes.take(0) =~= Seq::empty());
    while i < p.len()
        invariant
            i <= p.len(),
            views == linked_views(files@),
            p@.len() == files@.len(),
            p@ == sort::sorting_of(size_order(views), files@.len() as int),
            sort::is_sorting(size_order(views), p@, files@.len() as int),
            sorted == by_size(views),
            sizes == sizes_of(sorted),
            algo::sum_of(sizes) <= u64::MAX,
            offset == algo::sum_of(sizes.take(i as int)),
            r@.len() == i,
            forall|k: int|
                0 <= k < i ==> (#[trigger] r@[k]).file@ == sorted[k] && r@[k].offset
                    == algo::sum_of(sizes.take(k)),
        decreases p.len() - i,
    {
        let f = &files[p[i]];
        let file = LinkedFile {
            original: f.original.duplicate(),
            size: f.size,
            symlinks: copy_paths(f.symlinks.as_slice()),
        };
        proof {
            assert(views[p@[i as int] as int] == f@);
            assert(file@ =~= f@);
            assert(sorted[i as int] == f@);
            assert(sizes.take(i + 1).drop_last() =~= sizes.take(i as int));
            algo::lemma_sum_of_prefix(sizes, i + 1);
        }
        r.push(PlacedFile { file, offset });
        offset = offset + f.size;
        i += 1;
    }
    r
}

/// Why a path cannot be packed.
#[derive(Clone, Copy, Debug, PartialEq, Eq, Structural)]
pub enum PathError {
    /// The path is not below the directory, or the name of its snapshot is not
    /// text.
    InvalidPath,
}

/// A file, and the snapshot that it is in.
#[verifier::ext_equal]
pub struct TaggedFile {
    pub tag: Seq<char>,
    pub entry: FileEntryView,
}

/// The names of directories, one after the other, as text.
pub open spec fn joined_text(parts: Seq<Seq<u8>>) -> Option<Seq<char>>
    decreases parts.len(),
{
    if parts.len() == 0 {
        Some(Seq::empty())
    } else {
        match (joined_text(parts.drop_last()), text::text_of(parts.last())) {
            (Some(a), Some(b)) => Some(a + b),
            _ => None,
        }
    }
}

/// Where the part of a path within its snapshot starts.
pub open spec fn split_depth(parts: Seq<Seq<u8>>, depth: u32) -> int {
    if depth <= parts.len() {
        depth as int
    } else {
        parts.len() as int
    }
}

/// The file of a snapshot that a path stands for: the first `depth` directory
/// names below the input directory are the tag, and the others are the path.
pub open spec fn tagged_file(
    input_dir: Seq<u8>,
    depth: u32,
    path: Seq<u8>,
    checksum: Seq<u8>,
    metadata: ObjectMetadata,
) -> Option<TaggedFile> {
    let parts = paths::components_of(path);
    let top = paths::components_of(input_dir);
    if !top.is_prefix_of(parts) {
        None
    } else {
        let rel = parts.skip(top.len() as int);
        let n = split_depth(rel, depth);
        match joined_text(rel.take(n)) {
            Some(tag) => Some(
                TaggedFile {
                    tag,
                    entry: FileEntryView {
                        path: paths::path_of(rel.skip(n)),
                        checksum,
                        metadata,
                        file_metadata: FileMetadata { mode: 0 },
                    },
                },
            ),
            None => None,
        }
    }
}

/// The file that the link at position `j` of an object stands for.
pub open spec fn file_at(
    input_dir: Seq<u8>,
    depth: u32,
    object: PlacedFile,
    checksum: Seq<u8>,
    j: int,
) -> Option<TaggedFile> {
    tagged_file(
        input_dir,
        depth,
        object.file.symlinks@[j]@,
        checksum,
        ObjectMetadata { offset: object.offset, size: object.file.size },
    )
}

/// The files that the first `n` links of an object stand for.
pub open spec fn files_of_object(
    input_dir: Seq<u8>,
    depth: u32,
    object: PlacedFile,
    checksum: Seq<u8>,
    n: int,
) -> Seq<TaggedFile> {
    Seq::new(n as nat, |j: int| file_at(input_dir, depth, object, checksum, j)->0)
}

/// The files that the links of the first `n` objects stand for.
pub open spec fn files_of_objects(
    input_dir: Seq<u8>,
    depth: u32,
    objects: Seq<PlacedFile>,
    checksums: Seq<ObjectChecksum>,
    n: int,
) -> Seq<TaggedFile>
    decreases n,
{
    if n <= 0 {
        Seq::empty()
    } else {
        files_of_objects(input_dir, depth, objects, checksums, n - 1) + files_of_object(
            input_dir,
            depth,
            objects[n - 1],
            checksums[n - 1]@,
            objects[n - 1].file.symlinks@.len() as int,
        )
    }
}

/// All links of an object stand for files.
pub open spec fn is_packable(
    input_dir: Seq<u8>,
    depth: u32,
    object: PlacedFile,
    checksum: Seq<u8>,
) -> bool {
    forall|j: int|
        0 <= j < object.file.symlinks@.len() ==> #[trigger] file_at(
            input_dir,
            depth,
            object,
            checksum,
            j,
        ) is Some
}

/// Joins the names of directories as text.
fn join_text(parts: &[Vec<u8>], from: usize, to: usize) -> (r: Option<String>)
    requires
        from <= to <= parts@.len(),
    ensures
        match r {
            Some(s) => joined_text(split::byte_views(parts@).subrange(from as int, to as int))
                == Some(s@),
            None => joined_text(
                split::byte_views(parts@).subrange(from as int, to as int),
            ) is None,
        },
{
    let ghost views = split::byte_views(parts@);
    let mut r = String::new();
    let mut i: usize = from;
    assert(views.subrange(from as int, from as int) =~= Seq::empty());
    assert(r@ =~= Seq::empty());
    while i < to
        invariant
            from <= i <= to <= parts@.len(),
            views == split::byte_views(parts@),
            joined_text(views.subrange(from as int, i as int)) == Some(r@),
        decreases to - i,
    {
        proof {
            let now = views.subrange(from as int, i + 1);
            assert(now.drop_last() =~= views.subrange(from as int, i as int));
            assert(now.last() == parts@[i as int]@);
        }
        match decode_text(slice_to_vec(parts[i].as_slice())) {
            Some(s) => {
                r.append(s.as_str());
            },
            None => {
                proof {
                    lemma_not_text(views.subrange(from as int, to as int), i + 1 - from);
                    assert(views.subrange(from as int, to as int).take(i + 1 - from)
                        =~= views.subrange(from as int, i + 1));
                }
                return None;
            },
        }
        i += 1;
    }
    Some(r)
}

/// Names of which the first ones are not text are not text.
proof fn lemma_not_text(parts: Seq<Seq<u8>>, n: int)
    requires
        0 <= n <= parts.len(),
    ensures
        joined_text(parts.take(n)) is None ==> joined_text(parts) is None,
    decreases parts.len(),
{
    if n < parts.len() {
        lemma_not_text(parts.drop_last(), n);
        assert(parts.drop_last().take(n) =~= parts.take(n));
    } else {
        assert(parts.take(n) =~= parts);
    }
}

/// Files with the tags of their snapshots, in the order in which they were
/// found.
struct TaggedList {
    tags: Vec<String>,
    entries: Vec<FileEntry>,
}

impl TaggedList {
    spec fn files(&self) -> Seq<TaggedFile> {
        Seq::new(
            self.tags@.len(),
            |i: int| TaggedFile { tag: self.tags@[i]@, entry: self.entries@[i]@ },
        )
    }

    spec fn wf(&self) -> bool {
        self.tags@.len() == self.entries@.len()
    }
}

/// Finds the file of a snapshot that a path stands for.
fn tag_file(
    top: &[Vec<u8>],
    depth: u32,
    path: &[u8],
    checksum: ObjectChecksum,
    metadata: ObjectMetadata,
    Ghost(input_dir): Ghost<Seq<u8>>,
) -> (r: Option<(String, FileEntry)>)
    requires
        split::byte_views(top@) == paths::components_of(input_dir),
    ensures
        match r {
            Some((tag, entry)) => tagged_file(input_dir, depth, path@, checksum@, metadata) == Some(
                TaggedFile { tag: tag@, entry: entry@ },
            ),
            None => tagged_file(input_dir, depth, path@, checksum@, metadata) is None,
        },
{
    let parts = components(path);
    let ghost views = split::byte_views(parts@);
    if !starts_with(parts.as_slice(), top) {
        return None;
    }
    assert(split::byte_views(top@).len() == top@.len());
    assert(views.len() == parts@.len());
    let start = top.len();
    let ghost rel = views.skip(start as int);
    let left = parts.len() - start;
    let n: usize = if (depth as u64) <= (left as u64) {
        depth as usize
    } else {
        left
    };
    proof {
        assert(n == split_depth(rel, depth));
        assert(views.subrange(start as int, start + n) =~= rel.take(n as int));
        assert(views.subrange(start + n, parts@.len() as int) =~= rel.skip(n as int));
    }
    match join_text(parts.as_slice(), start, start + n) {
        Some(tag) => {
            let path = join_components(parts.as_slice(), start + n, parts.len());
            let entry = FileEntry::new(path, checksum, metadata);
            assert(entry@ =~= FileEntryView {
                path: paths::path_of(rel.skip(n as int)),
                checksum: checksum@,
                metadata,
                file_metadata: FileMetadata { mode: 0 },
            });
            Some((tag, entry))
        },
        None => None,
    }
}

/// Lists the files that the links of objects stand for.
fn tag_files(
    input_dir: &[u8],
    depth: u32,
    objects: &[PlacedFile],
    checksums: &[ObjectChecksum],
) -> (r: Option<TaggedList>)
    requires
        checksums@.len() == objects@.len(),
    ensures
        match r {
            Some(list) => {
                &&& list.wf()
                &&& forall|i: int|
                    0 <= i < objects@.len() ==> is_packable(
                        input_dir@,
                        depth,
                        #[trigger] objects@[i],
                        checksums@[i]@,
                    )
                &&& list.files() == files_of_objects(
                    input_dir@,
                    depth,
                    objects@,
                    checksums@,
                    objects@.len() as int,
                )
            },
            None => exists|i: int|
                0 <= i < objects@.len() && !is_packable(
                    input_dir@,
                    depth,
                    #[trigger] objects@[i],
                    checksums@[i]@,
                ),
        },
{
    let top = components(input_dir);
    let mut list = TaggedList { tags: Vec::new(), entries: Vec::new() };
    let mut i: usize = 0;
    assert(list.files() =~= Seq::empty());
    while i < objects.len()
        invariant
            i <= objects.len(),
            checksums@.len() == objects@.len(),
            split::byte_views(top@) == paths::components_of(input_dir@),
            list.wf(),
            forall|k: int|
                0 <= k < i ==> is_packable(
                    input_dir@,
                    depth,
                    #[trigger] objects@[k],
                    checksums@[k]@,
                ),
            list.files() == files_of_objects(input_dir@, depth, objects@, checksums@, i as int),
        decreases objects.len() - i,
    {
        let object = &objects[i];
        let checksum = checksums[i];
        let ghost before = list.files();
        let mut j: usize = 0;
        assert(before + files_of_object(input_dir@, depth, *object, checksum@, 0) =~= before);
        while j < object.file.symlinks.len()
            invariant
                j <= object.file.symlinks.len(),
                i < objects@.len(),
                checksums@.len() == objects@.len(),
                *object == objects@[i as int],
                checksum == checksums@[i as int],
                split::byte_views(top@) == paths::components_of(input_dir@),
                list.wf(),
                forall|k: int|
                    0 <= k < j ==> #[trigger] file_at(
                        input_dir@,
                        depth,
                        *object,
                        checksum@,
                        k,
                    ) is Some,
                list.files() == before + files_of_object(
                    input_dir@,
                    depth,
                    *object,
                    checksum@,
                    j as int,
                ),
            decreases object.file.symlinks.len() - j,
        {
            let ghost now = list.files();
            let found = tag_file(
                top.as_slice(),
                depth,
                object.file.symlinks[j].as_slice(),
                checksum,
                ObjectMetadata { offset: object.offset, size: object.file.size },
                Ghost(input_dir@),
            );
            match found {
                Some((tag, entry)) => {
                    let ghost f = TaggedFile { tag: tag@, entry: entry@ };
                    list.tags.push(tag);
                    list.entries.push(entry);
                    proof {
                        assert(file_at(input_dir@, depth, *object, checksum@, j as int) == Some(f));
                        assert(list.files() =~= now.push(f));
                        assert(files_of_object(input_dir@, depth, *object, checksum@, j + 1)
                            =~= files_of_object(
                            input_dir@,
                            depth,
                            *object,
                            checksum@,
                            j as int,
                        ).push(f));
                        assert(list.files() =~= before + files_of_object(
                            input_dir@,
                            depth,
                            *object,
                            checksum@,
                            j + 1,
                        ));
                    }
                },
                None => {
                    proof {
                        assert(file_at(input_dir@, depth, *object, checksum@, j as int) is None);
                        assert(!is_packable(
                            input_dir@,
                            depth,
                            objects@[i as int],
                            checksums@[i as int]@,
                        ));
                    }
                    return None;
                },
            }
            j += 1;
        }
        i += 1;
    }
    Some(list)
}

/// A snapshot: its tag and its files.
#[derive(Debug)]
pub struct TaggedSnapshot {
    pub tag: String,
    pub entries: Vec<FileEntry>,
}

/// The files with a tag, in order.
pub open spec fn files_with_tag(files: Seq<TaggedFile>, tag: Seq<char>, n: int) -> Seq<FileEntryView>
    decreases n,
{
    if n <= 0 {
        Seq::empty()
    } else {
        let before = files_with_tag(files, tag, n - 1);
        if files[n - 1].tag == tag {
            before.push(files[n - 1].entry)
        } else {
            before
        }
    }
}

/// The snapshots are those of the files, in the order of their tags.
pub open spec fn are_snapshots_of(list: Seq<TaggedSnapshot>, files: Seq<TaggedFile>) -> bool {
    &&& forall|i: int, j: int|
        0 <= i < j < list.len() ==> bytes::lex_less(
            text::bytes_of((#[trigger] list[i]).tag@),
            text::bytes_of((#[trigger] list[j]).tag@),
        )
    &&& forall|k: int|
        0 <= k < list.len() ==> is_snapshot_of(#[trigger] list[k], files, list[k].tag@)
    &&& forall|t: Seq<char>| #[trigger] has_file(files, t) <==> has_snapshot(list, t)
}

/// One of the files has the tag.
pub open spec fn has_file(files: Seq<TaggedFile>, tag: Seq<char>) -> bool {
    exists|i: int| 0 <= i < files.len() && (#[trigger] files[i]).tag == tag
}

/// One of the snapshots has the tag.
pub open spec fn has_snapshot(list: Seq<TaggedSnapshot>, tag: Seq<char>) -> bool {
    exists|k: int| 0 <= k < list.len() && (#[trigger] list[k]).tag@ == tag
}

/// The snapshot has the files with the tag.
pub open spec fn is_snapshot_of(s: TaggedSnapshot, files: Seq<TaggedFile>, tag: Seq<char>) -> bool {
    s.tag@ == tag && packidx::entry_views(s.entries@) == files_with_tag(
        files,
        tag,
        files.len() as int,
    )
}

/// Sorts tags, and keeps each once.
fn distinct_tags(tags: &[String]) -> (r: Vec<String>)
    ensures
        packidxv1::text_views(r@).to_set() == packidxv1::text_views(tags@).to_set(),
        forall|i: int, j: int|
            0 <= i < j < r@.len() ==> bytes::lex_less(
                text::bytes_of(#[trigger] packidxv1::text_views(r@)[i]),
                text::bytes_of(#[trigger] packidxv1::text_views(r@)[j]),
            ),
{
    let ghost names = packidxv1::text_views(tags@);
    let sorted = sort_lines(tags);
    let ghost lines = packidxv1::text_views(sorted@);
    proof {
        assert(names.len() == tags.len());
        search::lemma_sorted_names(names);
    }
    let mut r: Vec<String> = Vec::new();
    let mut i: usize = 0;
    assert(packidxv1::text_views(r@).to_set() =~= lines.take(0).to_set());
    while i < sorted.len()
        invariant
            i <= sorted.len(),
            lines == packidxv1::text_views(sorted@),
            forall|a: int, b: int|
                0 <= a < b < lines.len() ==> !bytes::lex_less(
                    text::bytes_of(#[trigger] lines[b]),
                    text::bytes_of(#[trigger] lines[a]),
                ),
            forall|a: int, b: int|
                0 <= a < b < r@.len() ==> bytes::lex_less(
                    text::bytes_of(#[trigger] packidxv1::text_views(r@)[a]),
                    text::bytes_of(#[trigger] packidxv1::text_views(r@)[b]),
                ),
            r@.len() == 0 <==> i == 0,
            r@.len() > 0 ==> packidxv1::text_views(r@).last() == lines[i - 1],
            packidxv1::text_views(r@).to_set() == lines.take(i as int).to_set(),
        decreases sorted.len() - i,
    {
        let ghost before = packidxv1::text_views(r@);
        let ghost tag = lines[i as int];
        assert(tag == sorted@[i as int]@);
        proof {
            packidx::lemma_take_to_set(lines, i as int);
        }
        let is_new = i == 0 || !text_equal(sorted[i].as_str(), sorted[i - 1].as_str());
        if is_new {
            r.push(sorted[i].clone());
            proof {
                let now = packidxv1::text_views(r@);
                assert(now =~= before.push(tag));
                lemma_push_to_set(before, tag);
                if before.len() > 0 {
                    let x = text::bytes_of(before.last());
                    let y = text::bytes_of(tag);
                    assert(lines[i - 1] == before.last());
                    if !bytes::lex_less(x, y) {
                        bytes::lemma_lex_total(x, y);
                        text::lemma_text_bytes(tag);
                        text::lemma_text_bytes(before.last());
                    }
                    assert forall|a: int, b: int| 0 <= a < b < now.len() implies bytes::lex_less(
                        text::bytes_of(#[trigger] now[a]),
                        text::bytes_of(#[trigger] now[b]),
                    ) by {
                        assert(now[a] == before[a]);
                        if b == before.len() {
                            if a < before.len() - 1 {
                                assert(bytes::lex_less(
                                    text::bytes_of(before[a]),
                                    text::bytes_of(before[before.len() - 1]),
                                ));
                                bytes::lemma_lex_transitive(text::bytes_of(before[a]), x, y);
                            }
                        } else {
                            assert(now[b] == before[b]);
                        }
                    }
                }
            }
        } else {
            proof {
                assert(before[before.len() - 1] == tag);
                assert(before.to_set().contains(tag));
                assert(before.to_set().insert(tag) =~= before.to_set());
            }
        }
        i += 1;
    }
    assert(lines.take(i as int) =~= lines);
    r
}

proof fn lemma_push_to_set(list: Seq<Seq<char>>, x: Seq<char>)
    ensures
        list.push(x).to_set() == list.to_set().insert(x),
{
    let now = list.push(x);
    assert forall|t: Seq<char>| now.to_set().contains(t) <==> list.to_set().insert(x).contains(t) by {
        if list.contains(t) {
            assert(now[list.index_of(t)] == t);
        }
        if now.contains(t) && t != x {
            assert(list[now.index_of(t)] == t);
        }
        assert(now[list.len() as int] == x);
    }
    assert(now.to_set() =~= list.to_set().insert(x));
}

/// Collects the files with a tag.
fn collect_with_tag(list: &TaggedList, tag: &str) -> (r: Vec<FileEntry>)
    requires
        list.wf(),
    ensures
        packidx::entry_views(r@) == files_with_tag(
            list.files(),
            tag@,
            list.files().len() as int,
        ),
{
    let ghost files = list.files();
    let mut r: Vec<FileEntry> = Vec::new();
    let mut i: usize = 0;
    assert(packidx::entry_views(r@) =~= Seq::empty());
    while i < list.tags.len()
        invariant
            i <= list.tags.len(),
            list.wf(),
            files == list.files(),
            packidx::entry_views(r@) == files_with_tag(files, tag@, i as int),
        decreases list.tags.len() - i,
    {
        let ghost before = packidx::entry_views(r@);
        if text_equal(list.tags[i].as_str(), tag) {
            let e = list.entries[i].clone();
            r.push(e);
            assert(packidx::entry_views(r@) =~= before.push(e@));
        }
        i += 1;
    }
    r
}

/// Creates a list of snapshots from the given files and options, sorted by tag.
pub fn create_snapshots_from_paths(
    input_dir: &[u8],
    path_depth: u32,
    objects: &[PlacedFile],
    checksums: &[ObjectChecksum],
) -> (r: Result<Vec<TaggedSnapshot>, PathError>)
    requires
        checksums@.len() == objects@.len(),
    ensures
        match r {
            Ok(list) => {
                &&& forall|i: int|
                    0 <= i < objects@.len() ==> is_packable(
                        input_dir@,
                        path_depth,
                        #[trigger] objects@[i],
                        checksums@[i]@,
                    )
                &&& are_snapshots_of(
                    list@,
                    files_of_objects(
                        input_dir@,
                        path_depth,
                        objects@,
                        checksums@,
                        objects@.len() as int,
                    ),
                )
            },
            Err(_) => exists|i: int|
                0 <= i < objects@.len() && !is_packable(
                    input_dir@,
                    path_depth,
                    #[trigger] objects@[i],
                    checksums@[i]@,
                ),
        },
{
    let list = match tag_files(input_dir, path_depth, objects, checksums) {
        Some(list) => list,
        None => {
            return Err(PathError::InvalidPath);
        },
    };
    let ghost files = list.files();
    let tags = distinct_tags(list.tags.as_slice());
    let ghost names = packidxv1::text_views(tags@);
    let mut r: Vec<TaggedSnapshot> = Vec::new();
    let mut i: usize = 0;
    while i < tags.len()
        invariant
            i <= tags.len(),
            list.wf(),
            files == list.files(),
            r@.len() == i,
            forall|k: int| 0 <= k < i ==> is_snapshot_of(#[trigger] r@[k], files, tags@[k]@),
        decreases tags.len() - i,
    {
        let entries = collect_with_tag(&list, tags[i].as_str());
        let snapshot = TaggedSnapshot { tag: tags[i].clone(), entries };
        r.push(snapshot);
        assert(is_snapshot_of(snapshot, files, tags@[i as int]@));
        i += 1;
    }
    proof {
        assert forall|a: int, b: int| 0 <= a < b < r@.len() implies bytes::lex_less(
            text::bytes_of((#[trigger] r@[a]).tag@),
            text::bytes_of((#[trigger] r@[b]).tag@),
        ) by {
            assert(is_snapshot_of(r@[a], files, names[a]));
            assert(is_snapshot_of(r@[b], files, names[b]));
        }
        assert forall|t: Seq<char>| #[trigger] has_file(files, t) <==> has_snapshot(r@, t) by {
            let all = packidxv1::text_views(list.tags@);
            assert(names.to_set().contains(t) <==> all.to_set().contains(t));
            if has_file(files, t) {
                let x = choose|x: int| 0 <= x < files.len() && (#[trigger] files[x]).tag == t;
                assert(all[x] == t);
                assert(all.contains(t));
                let k = names.index_of(t);
                assert(is_snapshot_of(r@[k], files, names[k]));
            }
            if has_snapshot(r@, t) {
                let k = choose|k: int| 0 <= k < r@.len() && (#[trigger] r@[k]).tag@ == t;
                assert(is_snapshot_of(r@[k], files, tags@[k]@));
                assert(names[k] == t);
                assert(names.contains(t));
                let x = all.index_of(t);
                assert(files[x].tag == t);
            }
        }
    }
    Ok(r)
}

/// The number of files in the first `n` snapshots.
pub open spec fn file_count(list: Seq<TaggedSnapshot>, n: int) -> nat
    decreases n,
{
    if n <= 0 {
        0
    } else {
        file_count(list, n - 1) + list[n - 1].entries@.len()
    }
}

/// A snapshot: its tag, and the paths and checksums of its files.
pub open spec fn tagged_files_of(s: TaggedSnapshot) -> laws::TaggedFiles {
    laws::TaggedFiles {
        tag: s.tag@,
        files: packidx::entry_views(s.entries@).map_values(
            |e: FileEntryView| (e.path, e.checksum),
        ).to_set(),
    }
}

/// The snapshots of a list.
pub open spec fn all_tagged_files(list: Seq<TaggedSnapshot>) -> Seq<laws::TaggedFiles> {
    list.map_values(|s: TaggedSnapshot| tagged_files_of(s))
}

/// One of the entries is for an object with the given checksum and place.
pub open spec fn has_object(s: TaggedSnapshot, checksum: Seq<u8>, m: ObjectMetadata) -> bool {
    exists|a: int|
        0 <= a < s.entries@.len() && packidx::entry_views(s.entries@)[a].checksum == checksum
            && (#[trigger] packidx::entry_views(s.entries@)[a]).metadata == m
}

/// An entry of the first `n` snapshots is for an object with the given checksum
/// and place.
pub open spec fn is_object_in(
    list: Seq<TaggedSnapshot>,
    n: int,
    checksum: Seq<u8>,
    m: ObjectMetadata,
) -> bool {
    exists|k: int| 0 <= k < n && has_object(#[trigger] list[k], checksum, m)
}

/// Every object is described as in an entry of the first `n` snapshots.
pub open spec fn is_described_by(v: model::IndexView, list: Seq<TaggedSnapshot>, n: int) -> bool {
    forall|c: Seq<u8>| #[trigger]
        v.objects.contains(c) ==> is_object_in(list, n, c, merge::object_data(v, c))
}

/// Objects stay described when a snapshot is pushed.
proof fn lemma_described(
    w: model::IndexView,
    x: model::IndexView,
    list: Seq<TaggedSnapshot>,
    n: int,
)
    requires
        0 <= n < list.len(),
        model::pools_valid(w),
        is_described_by(w, list, n),
        x == model::with_entries(w, packidx::entry_views(list[n].entries@)),
        x.objects.len() <= u32::MAX + 1,
    ensures
        is_described_by(x, list, n + 1),
{
    let es = packidx::entry_views(list[n].entries@);
    assert forall|c: Seq<u8>| #[trigger] x.objects.contains(c) implies is_object_in(
        list,
        n + 1,
        c,
        merge::object_data(x, c),
    ) by {
        let m = merge::object_data(x, c);
        merge::lemma_added_data(w, es, c);
        if w.objects.contains(c) && merge::object_data(w, c) == m {
            assert(is_object_in(list, n, c, m));
            let k = choose|k: int| 0 <= k < n && has_object(#[trigger] list[k], c, m);
            assert(has_object(list[k], c, m));
        } else {
            let a = choose|a: int|
                0 <= a < es.len() && (#[trigger] es[a]).checksum == c && es[a].metadata == m;
            assert(has_object(list[n], c, m));
        }
    }
}

proof fn lemma_file_count_grows(list: Seq<TaggedSnapshot>, n: int, m: int)
    requires
        0 <= n <= m <= list.len(),
    ensures
        file_count(list, n) <= file_count(list, m),
    decreases m - n,
{
    if n < m {
        lemma_file_count_grows(list, n, m - 1);
    }
}

/// Makes the index of a pack with the given snapshots, whose tags differ.
pub fn create_index(list: Vec<TaggedSnapshot>) -> (r: PackIndexV1)
    requires
        forall|i: int, j: int|
            0 <= i < j < list@.len() ==> (#[trigger] list@[i]).tag@ != (#[trigger] list@[j]).tag@,
        file_count(list@, list@.len() as int) <= u32::MAX,
    ensures
        r.wf(),
        laws::holds_snapshots(r@, all_tagged_files(list@)),
        is_described_by(r@, list@, list@.len() as int),
{
    let ghost all = all_tagged_files(list@);
    let ghost given = list@;
    let mut index = PackIndexV1::new();
    proof {
        laws::law_new_index_is_consistent();
        assert(laws::tags_of(all.take(0)) =~= index@.tags);
    }
    let ghost mut done: int = 0;
    for snapshot in it: list
        invariant
            it.seq() == given,
            done == it.index(),
            all == all_tagged_files(given),
            forall|i: int, j: int|
                0 <= i < j < given.len() ==> (#[trigger] given[i]).tag@ != (
                #[trigger] given[j]).tag@,
            file_count(given, given.len() as int) <= u32::MAX,
            index.wf(),
            index@.paths.len() <= file_count(given, done),
            index@.objects.len() <= file_count(given, done),
            laws::holds_snapshots(index@, all.take(done)),
            is_described_by(index@, given, done),
    {
        let ghost w = index@;
        let ghost es = packidx::entry_views(snapshot.entries@);
        let ghost s = tagged_files_of(snapshot);
        let ghost tag = snapshot.tag@;
        proof {
            index.lemma_wf();
            assert(snapshot == given[done]);
            store::lemma_has_room(w, es);
            lemma_file_count_grows(given, done + 1, given.len() as int);
            if w.tags.contains(tag) {
                let j = w.tags.index_of(tag);
                assert(all.take(done)[j].tag == tag);
                assert(given[j].tag@ == given[done].tag@);
            }
        }
        match index.push_snapshot(snapshot.tag, snapshot.entries) {
            Ok(_) => {
                proof {
                    let x = index@;
                    let delta = choose|delta: ChangeView<FileHandle>| #[trigger]
                        packidx::is_change(delta, w.current, x.current) && x
                            == model::with_snapshot(w, tag, es, delta);
                    laws::lemma_push_holds(w, all.take(done), s, es, delta);
                    assert(all[done] == s);
                    assert(all.take(done + 1) =~= all.take(done).push(s));
                    let y = model::with_entries(w, es);
                    index.lemma_wf();
                    assert(x.objects == y.objects && x.metadata == y.metadata);
                    lemma_described(w, y, given, done);
                    assert forall|c: Seq<u8>| #[trigger] x.objects.contains(c) implies is_object_in(
                        given,
                        done + 1,
                        c,
                        merge::object_data(x, c),
                    ) by {
                        assert(y.objects.contains(c));
                    }
                }
            },
            Err(_) => {
                assert(false);
            },
        }
        proof {
            done = done + 1;
        }
    }
    assert(all.take(done) =~= all);
    index
}

/// Unpacks the snapshot with the given tag from a pack that is one stream, and
/// verifies the checksums of its files.
pub fn unpack_snapshot(pack: &[u8], index: &PackIndexV1, snapshot_tag: &str) -> (r: Result<
    FrameExtraction,
    PackError,
>)
    requires
        checkout::is_known(index@, snapshot_tag@),
        forall|es: Seq<FileEntryView>| #[trigger]
            checkout::lists_snapshot(es, index@, snapshot_tag@) ==> extract::ends_fit(es, true),
    ensures
        r is Ok <==> checkout::is_sound(index@, snapshot_tag@),
        match r {
            Ok(x) => exists|es: Seq<FileEntryView>, failure: Option<IoError>|
                #![trigger extract::is_extraction(x, failure, pack@, es, true)]
                checkout::lists_snapshot(es, index@, snapshot_tag@) && extract::is_extraction(
                    x,
                    failure,
                    pack@,
                    es,
                    true,
                ) && (x.result is Ok ==> extract::is_extracted(x, pack@, es, true)),
            Err(e) => checkout::is_fault(e, index@, snapshot_tag@),
        },
{
    match snapshot_entries(index, snapshot_tag) {
        Ok(entries) => {
            assert(checkout::lists_snapshot(
                packidx::entry_views(entries@),
                index@,
                snapshot_tag@,
            ));
            Ok(extract_files(pack, entries.as_slice(), true))
        },
        Err(e) => Err(e),
    }
}

/// The path that a file of a snapshot is unpacked to.
pub fn unpack_path(output_dir: &[u8], snapshot_tag: &str, path: &[u8]) -> (r: Vec<u8>)
    ensures
        r@ == paths::join_of(
            paths::join_of(output_dir@, text::bytes_of(snapshot_tag@)),
            path@,
        ),
{
    let dir = join(output_dir, text_bytes(snapshot_tag).as_slice());
    join(dir.as_slice(), path)
}

/// The sizes of objects.
pub open spec fn placed_sizes(objects: Seq<PlacedFile>) -> Seq<u64> {
    objects.map_values(|o: PlacedFile| o.file.size)
}

/// The entry is for the object at position `i`.
spec fn is_for(
    e: FileEntryView,
    objects: Seq<PlacedFile>,
    checksums: Seq<ObjectChecksum>,
    i: int,
) -> bool {
    &&& 0 <= i < objects.len()
    &&& e.checksum == checksums[i]@
    &&& e.metadata == (ObjectMetadata { offset: objects[i].offset, size: objects[i].file.size })
}

/// Each file is for an object.
proof fn lemma_file_is_for(
    input_dir: Seq<u8>,
    depth: u32,
    objects: Seq<PlacedFile>,
    checksums: Seq<ObjectChecksum>,
    n: int,
    x: int,
) -> (i: int)
    requires
        0 <= n <= objects.len(),
        forall|i: int|
            0 <= i < objects.len() ==> is_packable(
                input_dir,
                depth,
                #[trigger] objects[i],
                checksums[i]@,
            ),
        0 <= x < files_of_objects(input_dir, depth, objects, checksums, n).len(),
    ensures
        is_for(files_of_objects(input_dir, depth, objects, checksums, n)[x].entry, objects, checksums, i),
    decreases n,
{
    let before = files_of_objects(input_dir, depth, objects, checksums, n - 1);
    if x < before.len() {
        lemma_file_is_for(input_dir, depth, objects, checksums, n - 1, x)
    } else {
        let j = x - before.len();
        assert(is_packable(input_dir, depth, objects[n - 1], checksums[n - 1]@));
        assert(file_at(input_dir, depth, objects[n - 1], checksums[n - 1]@, j) is Some);
        n - 1
    }
}

/// The files with a tag are among the files.
proof fn lemma_with_tag(files: Seq<TaggedFile>, tag: Seq<char>, n: int, a: int) -> (x: int)
    requires
        0 <= n <= files.len(),
        0 <= a < files_with_tag(files, tag, n).len(),
    ensures
        0 <= x < files.len(),
        files_with_tag(files, tag, n)[a] == files[x].entry,
    decreases n,
{
    let before = files_with_tag(files, tag, n - 1);
    if a < before.len() {
        lemma_with_tag(files, tag, n - 1, a)
    } else {
        n - 1
    }
}

/// A directory that was packed is unpacked: the files of each of its snapshots
/// are extracted from the pack and verified, and each gets the content of the
/// object that it was.
pub proof fn law_packed_directory_is_unpacked(
    input_dir: Seq<u8>,
    depth: u32,
    files: Seq<LinkedView>,
    objects: Seq<PlacedFile>,
    checksums: Seq<ObjectChecksum>,
    contents: Seq<Seq<u8>>,
    list: Seq<TaggedSnapshot>,
    v: model::IndexView,
    packed: Seq<u8>,
    tag: Seq<char>,
    es: Seq<FileEntryView>,
)
    requires
        are_placed(objects, files),
        algo::sum_of(sizes_of(by_size(files))) <= u64::MAX,
        checksums.len() == objects.len(),
        contents.len() == objects.len(),
        forall|i: int|
            0 <= i < contents.len() ==> (#[trigger] contents[i]).len() == objects[i].file.size
                && checksums[i]@ == digest::sha1_of(contents[i]),
        forall|i: int|
            0 <= i < objects.len() ==> is_packable(
                input_dir,
                depth,
                #[trigger] objects[i],
                checksums[i]@,
            ),
        are_snapshots_of(
            list,
            files_of_objects(input_dir, depth, objects, checksums, objects.len() as int),
        ),
        model::pools_valid(v),
        is_described_by(v, list, list.len() as int),
        compression::holds_data(packed, batch::joined(contents)),
        checkout::is_known(v, tag),
        checkout::is_sound(v, tag),
        checkout::lists_snapshot(es, v, tag),
        es.len() <= usize::MAX,
    ensures
        repo_laws::is_stream_extracted(packed, contents, placed_sizes(objects), es, true),
{
    let sizes = placed_sizes(objects);
    let sorted = by_size(files);
    let all = files_of_objects(input_dir, depth, objects, checksums, objects.len() as int);
    assert(sizes =~= sizes_of(sorted)) by {
        assert forall|i: int| 0 <= i < objects.len() implies sizes[i] == sizes_of(sorted)[i] by {
            assert(objects[i].file@ == sorted[i]);
        }
    }
    assert forall|i: int| 0 <= i < sizes.len() implies (#[trigger] sizes[i]) == contents[i].len() by {
        assert(contents[i].len() == objects[i].file.size);
    }
    let handles = choose|handles: Seq<FileHandle>| #[trigger]
        checkout::lists_handles(handles, v, tag) && es == model::entries_of(v, handles);
    assert forall|b: int| 0 <= b < es.len() implies repo_laws::is_placed(
        #[trigger] es[b],
        contents,
        sizes,
    ) by {
        let h = handles[b];
        let c = v.objects[h.object as int];
        assert(handles.to_set().contains(h));
        assert(model::handle_fault(v, h) is None);
        assert(es[b] == model::entry_of(v, h));
        assert(v.objects.contains(c));
        entrypool::law_pool_handles_invert(v.objects, h.object, c);
        let m = merge::object_data(v, c);
        assert(es[b].metadata == m);
        assert(is_object_in(list, list.len() as int, c, m));
        let k = choose|k: int|
            0 <= k < list.len() && has_object(#[trigger] list[k], c, m);
        let entries = packidx::entry_views(list[k].entries@);
        let a = choose|a: int|
            0 <= a < list[k].entries@.len() && packidx::entry_views(list[k].entries@)[a].checksum
                == c && (#[trigger] packidx::entry_views(list[k].entries@)[a]).metadata == m;
        assert(is_snapshot_of(list[k], all, list[k].tag@));
        let x = lemma_with_tag(all, list[k].tag@, all.len() as int, a);
        let i = lemma_file_is_for(
            input_dir,
            depth,
            objects,
            checksums,
            objects.len() as int,
            x,
        );
        assert(objects[i].offset == algo::sum_of(sizes_of(sorted).take(i)));
        algo::lemma_sum_is_range_sum(sizes.take(i));
        algo::lemma_range_sum_same(sizes.take(i), sizes, 0, i);
        assert(contents[i].len() == objects[i].file.size);
        assert(repo_laws::is_entry_of(es[b], contents, sizes, i));
    }
    repo_laws::law_compressed_files_are_extracted(packed, contents, sizes, es, true);
}

/// A file is listed once for each place that walked files lead to, and a place is
/// listed if and only if some file leads there.
pub proof fn law_every_place_is_listed_once(files: Seq<WalkedFile>, k: Seq<u8>)
    ensures
        table_of(files).files.len() == table_of(files).keys.len(),
        table_of(files).keys.no_duplicates(),
        table_of(files).keys.contains(k) <==> exists|i: int|
            0 <= i < files.len() && key_of(#[trigger] files[i]) == k,
    decreases files.len(),
{
    lemma_table(files);
    if files.len() > 0 {
        let init = files.drop_last();
        let n = init.len() as int;
        law_every_place_is_listed_once(init, k);
        let before = table_of(init).keys;
        let now = table_of(files).keys;
        if now.contains(k) {
            let x = now.index_of(k);
            if x < before.len() {
                assert(before[x] == k);
                let i = choose|i: int| 0 <= i < init.len() && key_of(#[trigger] init[i]) == k;
                assert(key_of(files[i]) == k);
            } else {
                assert(key_of(files[n]) == k);
            }
        }
        if exists|i: int| 0 <= i < files.len() && key_of(#[trigger] files[i]) == k {
            let i = choose|i: int| 0 <= i < files.len() && key_of(#[trigger] files[i]) == k;
            if i < n {
                assert(key_of(init[i]) == k);
                assert(now[before.index_of(k)] == k);
            } else if !before.contains(k) {
                assert(now[before.len() as int] == k);
            }
        }
    }
}

/// A link is added to the links of the file that it leads to. A file that is no
/// link stands for itself, with its own path and size. All other files stay.
pub proof fn law_walked_file_is_recorded(files: Seq<WalkedFile>, f: WalkedFile) -> (x: int)
    ensures
        ({
            let before = table_of(files);
            let now = table_of(files.push(f));
            &&& 0 <= x < now.files.len()
            &&& now.keys[x] == key_of(f)
            &&& f.target is Some ==> now.files[x].symlinks.len() > 0 && now.files[x].symlinks.last()
                == f.path@
            &&& f.target is Some && x < before.files.len() ==> now.files[x].symlinks.drop_last()
                == before.files[x].symlinks && now.files[x].original == before.files[x].original
                && now.files[x].size == before.files[x].size
            &&& f.target is None ==> now.files[x].original == f.path@ && now.files[x].size == f.size
            &&& forall|y: int|
                0 <= y < before.files.len() && y != x ==> #[trigger] now.files[y]
                    == before.files[y]
        }),
{
    lemma_table(files);
    let all = files.push(f);
    assert(all.drop_last() =~= files);
    let t = table_of(files);
    let k = key_of(f);
    let now = table_of(all);
    if t.keys.contains(k) {
        let x = t.keys.index_of(k);
        if f.target is Some {
            assert(now.files[x].symlinks.drop_last() =~= t.files[x].symlinks);
        }
        x
    } else {
        t.keys.len() as int
    }
}

/// Objects are placed from the smallest to the largest, each once, one right
/// behind the other.
pub proof fn law_objects_are_placed_by_size(objects: Seq<PlacedFile>, files: Seq<LinkedView>) -> (p:
    Seq<usize>)
    requires
        are_placed(objects, files),
        files.len() <= usize::MAX,
    ensures
        objects.len() == files.len(),
        p.len() == files.len(),
        p.no_duplicates(),
        forall|i: int|
            0 <= i < p.len() ==> (#[trigger] p[i]) < files.len() && objects[i].file@
                == files[p[i] as int],
        objects.len() > 0 ==> objects[0].offset == 0,
        forall|i: int, j: int|
            0 <= i && j == i + 1 && j < objects.len() ==> (#[trigger] objects[j]).offset == (
            #[trigger] objects[i]).offset + objects[i].file.size && objects[i].file.size
                <= objects[j].file.size,
{
    let n = files.len() as int;
    let lt = size_order(files);
    assert(sort::is_weak_order(lt, n));
    sort::lemma_sorting_exists(lt, n);
    let p = sort::sorting_of(lt, n);
    let sorted = by_size(files);
    let sizes = sizes_of(sorted);
    assert(sizes.take(0) =~= Seq::empty());
    assert forall|i: int, j: int| 0 <= i && j == i + 1 && j < objects.len() implies (
    #[trigger] objects[j]).offset == (#[trigger] objects[i]).offset + objects[i].file.size
        && objects[i].file.size <= objects[j].file.size by {
        assert(objects[i].file@ == sorted[i] && objects[j].file@ == sorted[j]);
        assert(sizes.take(j).drop_last() =~= sizes.take(i));
        assert(sizes.take(j).last() == objects[i].file.size);
        assert(sort::comes_before(lt, p[i] as int, p[j] as int));
    }
    p
}

/// Texts are joined in order, and the joined text is known if and only if each of
/// them is.
pub proof fn law_every_part_is_in_joined_text(parts: Seq<Seq<u8>>, last: Seq<u8>)
    ensures
        joined_text(Seq::empty()) == Some(Seq::<char>::empty()),
        joined_text(parts.push(last)) is Some <==> joined_text(parts) is Some && text::text_of(
            last,
        ) is Some,
        joined_text(parts.push(last)) matches Some(t) ==> t == joined_text(parts)->0
            + text::text_of(last)->0,
{
    assert(parts.push(last).drop_last() =~= parts);
}

/// A file below the directory gets the first components below it as its tag, as
/// many as asked for, and the others as its path. It keeps its checksum, and where
/// its object is.
pub proof fn law_file_is_split_into_tag_and_path(
    input_dir: Seq<u8>,
    names: Seq<Seq<u8>>,
    depth: u32,
    checksum: Seq<u8>,
    metadata: ObjectMetadata,
)
    requires
        depth <= names.len(),
        forall|i: int| 0 <= i < names.len() ==> paths::is_name(#[trigger] names[i]),
    ensures
        ({
            let path = paths::join_of(input_dir, paths::path_of(names));
            let f = tagged_file(input_dir, depth, path, checksum, metadata);
            &&& f is Some <==> joined_text(names.take(depth as int)) is Some
            &&& f is Some ==> {
                &&& f->0.tag == joined_text(names.take(depth as int))->0
                &&& paths::components_of(f->0.entry.path) == names.skip(depth as int)
                &&& f->0.entry.checksum == checksum
                &&& f->0.entry.metadata == metadata
            }
        }),
{
    paths::law_join_adds_components(input_dir, names);
    let top = paths::components_of(input_dir);
    let parts = top + names;
    assert(parts.subrange(0, top.len() as int) =~= top);
    assert(parts.skip(top.len() as int) =~= names);
    let rest = names.skip(depth as int);
    assert forall|i: int| 0 <= i < rest.len() implies paths::is_name(#[trigger] rest[i]) by {
        assert(rest[i] == names[depth + i]);
    }
    paths::law_join_adds_components(input_dir, rest);
}

/// The entries of a snapshot are those of the files with its tag, in order.
pub proof fn law_snapshot_gets_files_with_its_tag(
    files: Seq<TaggedFile>,
    tag: Seq<char>,
    n: int,
) -> (at: Seq<int>)
    requires
        0 <= n <= files.len(),
    ensures
        select::is_selected(
            files_with_tag(files, tag, n),
            files,
            n,
            |f: TaggedFile| f.tag == tag,
            |f: TaggedFile| f.entry,
            at,
        ),
    decreases n,
{
    let wanted = |f: TaggedFile| f.tag == tag;
    let value = |f: TaggedFile| f.entry;
    if n == 0 {
        select::lemma_none_selected(files, wanted, value);
        Seq::empty()
    } else {
        let at = law_snapshot_gets_files_with_its_tag(files, tag, n - 1);
        let before = files_with_tag(files, tag, n - 1);
        if wanted(files[n - 1]) {
            select::lemma_select_next(before, files, n - 1, wanted, value, at);
            at.push(n - 1)
        } else {
            select::lemma_pass_over(before, files, n - 1, wanted, value, at);
            at
        }
    }
}

/// Every link of every object is one of the files.
pub proof fn law_every_link_is_a_file(
    input_dir: Seq<u8>,
    depth: u32,
    objects: Seq<PlacedFile>,
    checksums: Seq<ObjectChecksum>,
    n: int,
    k: int,
    j: int,
)
    requires
        0 <= k < n <= objects.len(),
        0 <= j < objects[k].file.symlinks@.len(),
    ensures
        files_of_objects(input_dir, depth, objects, checksums, n).contains(
            tagged_file(
                input_dir,
                depth,
                objects[k].file.symlinks@[j]@,
                checksums[k]@,
                ObjectMetadata { offset: objects[k].offset, size: objects[k].file.size },
            )->0,
        ),
    decreases n,
{
    let f = file_at(input_dir, depth, objects[k], checksums[k]@, j)->0;
    let before = files_of_objects(input_dir, depth, objects, checksums, n - 1);
    let now = files_of_objects(input_dir, depth, objects, checksums, n);
    if k < n - 1 {
        law_every_link_is_a_file(input_dir, depth, objects, checksums, n - 1, k, j);
        assert(now[before.index_of(f)] == f);
    } else {
        assert(now[before.len() + j] == f);
    }
}

} // verus!
