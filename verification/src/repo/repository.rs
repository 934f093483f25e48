//! A repository: where its files are, and what is written to them.

use super::constants::{
    HEAD_FILE, LOOSE_DIR, PACKS_DIR, PACK_EXTENSION, PACK_INDEX_EXTENSION, REMOTES_DIR,
    REMOTE_INDEX_EXTENSION, TEMP_DIR,
};
use super::error::Error;
use super::fs;
use super::fs::{get_last_modified, Timestamp};
use super::id;
use super::id::{IdError, PackId, SnapshotId};
use super::id::SnapshotIdView;
use crate::digest;
use crate::digest::{hex_decode, hex_encode, ObjectChecksum};
use crate::ioerror::{IoError, IoErrorKind};
use crate::paths;
use crate::paths::{components, join, with_extension};
use crate::text;
use crate::text::{decode_lossy, decode_text, from_char_range, text_bytes, to_chars};
use vstd::prelude::*;
use vstd::string::StringExecFns;

verus! {

/// What is known of the file that guards a repository.
#[derive(Debug)]
pub enum MutexFile {
    /// The file is locked.
    Locked,
    /// The file could not be created or locked.
    Unavailable(IoError),
}

/// Contains methods for interfacing with repositories.
#[derive(Debug)]
pub struct Repository {
    /// The working directory for this [`Repository`].
    path: Vec<u8>,
    /// The path for the repository.
    data_dir: Vec<u8>,
    /// Whether the repository can be modified.
    writable: bool,
}

/// What a [`Repository`] says.
#[verifier::ext_equal]
pub struct RepositoryView {
    pub path: Seq<u8>,
    pub data_dir: Seq<u8>,
    pub writable: bool,
}

impl View for Repository {
    type V = RepositoryView;

    closed spec fn view(&self) -> RepositoryView {
        RepositoryView { path: self.path@, data_dir: self.data_dir@, writable: self.writable }
    }
}

/// A path below a directory, given as text.
pub open spec fn below(dir: Seq<u8>, name: Seq<char>) -> Seq<u8> {
    paths::join_of(dir, text::bytes_of(name))
}

/// Joins a path below a directory, given as text, to it.
fn join_text(dir: &[u8], name: &str) -> (r: Vec<u8>)
    ensures
        r@ == below(dir@, name@),
{
    join(dir, text_bytes(name).as_slice())
}

/// The path of a file of a pack.
pub open spec fn pack_file_of(data_dir: Seq<u8>, pack: Seq<char>, extension: Seq<char>) -> Seq<u8> {
    paths::with_extension_of(below(below(data_dir, PACKS_DIR@), pack), text::bytes_of(extension))
}

/// The path of the index of the loose pack for the snapshot with the given tag.
pub open spec fn loose_index_path_of(data_dir: Seq<u8>, tag: Seq<char>) -> Seq<u8> {
    paths::with_extension_of(
        below(below(below(data_dir, PACKS_DIR@), LOOSE_DIR@), tag),
        text::bytes_of(PACK_INDEX_EXTENSION@),
    )
}

/// The path of a loose object: the first two bytes of the checksum name
/// directories, and the others name the file.
pub open spec fn loose_object_path_of(data_dir: Seq<u8>, checksum: Seq<u8>) -> Seq<u8> {
    let hex = digest::hex_of(checksum);
    below(
        below(below(below(data_dir, LOOSE_DIR@), hex.take(2)), hex.subrange(2, 4)),
        hex.skip(4),
    )
}

/// The bytes that the last components of a path give in hexadecimal form.
pub open spec fn unhex_component(parts: Seq<Seq<u8>>, from_end: int) -> Option<Seq<u8>> {
    match text::text_of(parts[parts.len() - from_end]) {
        Some(s) => digest::unhex(s),
        None => None,
    }
}

/// The checksum that the path of a loose object stands for.
pub open spec fn loose_checksum_of(path: Seq<u8>) -> Option<Seq<u8>> {
    let parts = paths::components_of(path);
    if parts.len() < 3 {
        None
    } else {
        match (unhex_component(parts, 3), unhex_component(parts, 2), unhex_component(parts, 1)) {
            (Some(a), Some(b), Some(c)) => if a.len() + b.len() + c.len() == 20 {
                Some(a + b + c)
            } else {
                None
            },
            _ => None,
        }
    }
}

/// Decodes a component of a path in hexadecimal form.
fn decode_component(part: &Vec<u8>) -> (r: Option<Vec<u8>>)
    ensures
        r is Some <==> (text::text_of(part@) matches Some(s) && digest::unhex(s) is Some),
        r matches Some(v) ==> (text::text_of(part@) matches Some(s) && digest::unhex(s) == Some(
            v@,
        )),
{
    match decode_text(vstd::slice::slice_to_vec(part.as_slice())) {
        Some(s) => hex_decode(s.as_str()),
        None => None,
    }
}

/// The snapshot that the file with the current one names.
pub open spec fn head_of(content: Seq<u8>) -> Option<SnapshotIdView> {
    match text::text_of(content) {
        Some(s) => id::parsed_id(s),
        None => None,
    }
}

/// The file that names the current snapshot.
#[derive(Debug)]
pub struct HeadFile {
    pub content: Vec<u8>,
    pub created: Option<Timestamp>,
    pub modified: Option<Timestamp>,
}

/// The pack has a name in the directory of loose packs.
pub open spec fn has_loose_name(pack: Seq<char>) -> bool {
    (LOOSE_DIR@ + "/"@).is_prefix_of(pack)
}

/// Tells whether the pack has a name in the directory of loose packs.
pub fn is_loose_name(pack: &PackId) -> (r: bool)
    ensures
        r == has_loose_name(pack@),
{
    let name = to_chars(pack.as_str());
    let mut prefix_text = LOOSE_DIR.to_owned();
    prefix_text.append("/");
    let prefix = to_chars(prefix_text.as_str());
    if name.len() < prefix.len() {
        return false;
    }
    let mut i: usize = 0;
    while i < prefix.len()
        invariant
            name@ == pack@,
            prefix@ == LOOSE_DIR@ + "/"@,
            i <= prefix.len() <= name.len(),
            forall|j: int| 0 <= j < i ==> name@[j] == prefix@[j],
        decreases prefix.len() - i,
    {
        if name[i] != prefix[i] {
            proof {
                if prefix@.is_prefix_of(name@) {
                    assert(name@.subrange(0, prefix@.len() as int)[i as int] == prefix@[i as int]);
                }
            }
            return false;
        }
        i += 1;
    }
    assert(name@.subrange(0, prefix@.len() as int) =~= prefix@);
    true
}

impl Repository {
    /// Opens a repository, given what is on disk: whether the directory is
    /// there, and what came of locking the mutex file. Where the file system
    /// does not permit that, the repository is read-only.
    ///
    /// # Arguments
    ///
    /// * `path` - The working directory for this [`Repository`].
    /// * `data_dir` - The path to the repository.
    pub fn open_with_data_dir(
        path: Vec<u8>,
        data_dir: Vec<u8>,
        data_dir_exists: bool,
        mutex: MutexFile,
    ) -> (r: Result<Self, Error>)
        ensures
            match r {
                Ok(repo) => {
                    &&& data_dir_exists
                    &&& repo@.path == path@
                    &&& repo@.data_dir == data_dir@
                    &&& match mutex {
                        MutexFile::Locked => repo@.writable,
                        MutexFile::Unavailable(e) => !repo@.writable && (e.kind
                            == IoErrorKind::PermissionDenied || e.kind
                            == IoErrorKind::ReadOnlyFilesystem),
                    }
                },
                Err(Error::RepositoryNotFound) => !data_dir_exists,
                Err(Error::IOError(e)) => data_dir_exists && mutex == MutexFile::Unavailable(e)
                    && e.kind != IoErrorKind::PermissionDenied && e.kind
                    != IoErrorKind::ReadOnlyFilesystem,
                Err(_) => false,
            },
    {
        if !data_dir_exists {
            return Err(Error::RepositoryNotFound);
        }
        match mutex {
            MutexFile::Locked => Ok(Repository { path, data_dir, writable: true }),
            MutexFile::Unavailable(e) => if e.kind == IoErrorKind::PermissionDenied || e.kind
                == IoErrorKind::ReadOnlyFilesystem {
                Ok(Repository { path, data_dir, writable: false })
            } else {
                Err(Error::IOError(e))
            },
        }
    }

    /// The base path of the repository.
    pub fn path(&self) -> (r: &[u8])
        ensures
            r@ == self@.path,
    {
        self.path.as_slice()
    }

    /// The name of the directory containing the repository data.
    pub fn data_dir(&self) -> (r: &[u8])
        ensures
            r@ == self@.data_dir,
    {
        self.data_dir.as_slice()
    }

    /// The directory for temporary files.
    pub fn temp_dir(&self) -> (r: Vec<u8>)
        ensures
            r@ == below(self@.data_dir, TEMP_DIR@),
    {
        join_text(self.data_dir(), TEMP_DIR)
    }

    /// The directory with packs and their indexes.
    pub fn packs_dir(&self) -> (r: Vec<u8>)
        ensures
            r@ == below(self@.data_dir, PACKS_DIR@),
    {
        join_text(self.data_dir(), PACKS_DIR)
    }

    /// The directory with the loose objects.
    pub fn loose_dir(&self) -> (r: Vec<u8>)
        ensures
            r@ == below(self@.data_dir, LOOSE_DIR@),
    {
        join_text(self.data_dir(), LOOSE_DIR)
    }

    /// The directory with the indexes of remotes.
    pub fn remotes_dir(&self) -> (r: Vec<u8>)
        ensures
            r@ == below(self@.data_dir, REMOTES_DIR@),
    {
        join_text(self.data_dir(), REMOTES_DIR)
    }

    /// The path of the index of the remote with the given name.
    pub fn remote_index_path(&self, name: &str) -> (r: Vec<u8>)
        ensures
            r@ == paths::with_extension_of(
                below(below(self@.data_dir, REMOTES_DIR@), name@),
                text::bytes_of(REMOTE_INDEX_EXTENSION@),
            ),
    {
        with_extension(
            join_text(self.remotes_dir().as_slice(), name).as_slice(),
            text_bytes(REMOTE_INDEX_EXTENSION).as_slice(),
        )
    }

    /// The path of the file that names the current snapshot.
    pub fn head_path(&self) -> (r: Vec<u8>)
        ensures
            r@ == below(self@.data_dir, HEAD_FILE@),
    {
        join_text(self.data_dir(), HEAD_FILE)
    }

    /// The path of the file of a pack.
    pub fn get_pack_path(&self, pack_id: &PackId) -> (r: Vec<u8>)
        ensures
            r@ == pack_file_of(self@.data_dir, pack_id@, PACK_EXTENSION@),
    {
        with_extension(
            join_text(self.packs_dir().as_slice(), pack_id.as_str()).as_slice(),
            text_bytes(PACK_EXTENSION).as_slice(),
        )
    }

    /// The path of the index of a pack.
    pub fn get_pack_index_path(&self, pack_id: &PackId) -> (r: Vec<u8>)
        ensures
            r@ == pack_file_of(self@.data_dir, pack_id@, PACK_INDEX_EXTENSION@),
    {
        with_extension(
            join_text(self.packs_dir().as_slice(), pack_id.as_str()).as_slice(),
            text_bytes(PACK_INDEX_EXTENSION).as_slice(),
        )
    }

    /// The path of the index of the loose pack for the snapshot with the given
    /// tag.
    pub fn loose_index_path(&self, tag: &str) -> (r: Vec<u8>)
        ensures
            r@ == loose_index_path_of(self@.data_dir, tag@),
    {
        let dir = join_text(self.packs_dir().as_slice(), LOOSE_DIR);
        with_extension(
            join_text(dir.as_slice(), tag).as_slice(),
            text_bytes(PACK_INDEX_EXTENSION).as_slice(),
        )
    }

    /// The path of the loose object with the given checksum.
    pub fn loose_object_path(&self, checksum: &ObjectChecksum) -> (r: Vec<u8>)
        ensures
            r@ == loose_object_path_of(self@.data_dir, checksum@),
    {
        let hex = to_chars(hex_encode(checksum.as_slice()).as_str());
        let a = from_char_range(hex.as_slice(), 0, 2);
        let b = from_char_range(hex.as_slice(), 2, 4);
        let c = from_char_range(hex.as_slice(), 4, hex.len());
        assert(a@ =~= hex@.take(2));
        assert(c@ =~= hex@.skip(4));
        let p = join_text(self.loose_dir().as_slice(), a.as_str());
        let p = join_text(p.as_slice(), b.as_str());
        join_text(p.as_slice(), c.as_str())
    }

    /// The checksum of the loose object with the given path.
    pub fn loose_object_checksum(&self, path: &[u8]) -> (r: Result<ObjectChecksum, Error>)
        ensures
            match r {
                Ok(c) => loose_checksum_of(path@) == Some(c@),
                Err(e) => loose_checksum_of(path@) is None && (e matches Error::BadLooseObject(t)
                    && t@ == text::lossy_text(path@)),
            },
    {
        let parts = components(path);
        let ghost views = paths::components_of(path@);
        let n = parts.len();
        if n < 3 {
            return Err(Error::BadLooseObject(decode_lossy(path)));
        }
        assert(views[n - 3] == parts@[n - 3]@);
        assert(views[n - 2] == parts@[n - 2]@);
        assert(views[n - 1] == parts@[n - 1]@);
        let a = decode_component(&parts[n - 3]);
        let b = decode_component(&parts[n - 2]);
        let c = decode_component(&parts[n - 1]);
        match (a, b, c) {
            (Some(a), Some(b), Some(c)) => {
                if a.len() > 20 || b.len() > 20 || c.len() > 20 || a.len() + b.len() + c.len() != 20 {
                    return Err(Error::BadLooseObject(decode_lossy(path)));
                }
                let mut all = a;
                let ghost before = all@;
                all.extend_from_slice(b.as_slice());
                all.extend_from_slice(c.as_slice());
                assert(all@ =~= before + b@ + c@);
                // Copy into array
                let mut result: ObjectChecksum = [0;20];
                let mut i: usize = 0;
                while i < 20
                    invariant
                        i <= 20,
                        all@.len() == 20,
                        forall|j: int| 0 <= j < i ==> result@[j] == all@[j],
                    decreases 20 - i,
                {
                    result[i] = all[i];
                    i += 1;
                }
                assert(result@ =~= all@);
                Ok(result)
            },
            _ => Err(Error::BadLooseObject(decode_lossy(path))),
        }
    }

    /// Reads the state of HEAD, given the file, if there is one. If the times of
    /// the file cannot be determined, there is no time.
    pub fn read_head(&self, file: Option<HeadFile>) -> (r: Result<
        (Option<SnapshotId>, Option<Timestamp>),
        Error,
    >)
        ensures
            match (file, r) {
                (None, Ok((head, time))) => head is None && time is None,
                (Some(f), Ok((head, time))) => {
                    &&& head matches Some(id) && head_of(f.content@) == Some(id@)
                    &&& time == fs::most_recent(f.created, f.modified)
                },
                (Some(f), Err(e)) => head_of(f.content@) is None && e == Error::CorruptHead,
                (None, Err(_)) => false,
            },
    {
        match file {
            None => Ok((None, None)),
            Some(f) => {
                let time = get_last_modified(f.created, f.modified);
                match decode_text(f.content) {
                    Some(s) => match SnapshotId::from_str(s.as_str()) {
                        Ok(id) => Ok((Some(id), time)),
                        Err(_) => Err(Error::CorruptHead),
                    },
                    None => Err(Error::CorruptHead),
                }
            },
        }
    }

    /// The content of the file for the new HEAD snapshot id, or nothing if the
    /// repository is read-only.
    pub fn update_head(&self, snapshot_id: &SnapshotId) -> (r: Option<Vec<u8>>)
        ensures
            match r {
                Some(content) => self@.writable && content@ == text::bytes_of(
                    id::canonical(snapshot_id@).push('\n'),
                ),
                None => !self@.writable,
            },
    {
        if !self.writable {
            // Readonly, do not update HEAD.
            return None;
        }
        let mut s = snapshot_id.to_text();
        s.push('\n');
        Some(text_bytes(s.as_str()))
    }

    /// Tells whether there is a pack with the given name, given whether its
    /// index exists.
    pub fn is_pack(&self, pack_id: &str, index_exists: bool) -> (r: Result<Option<PackId>, IdError>)
        ensures
            match r {
                Ok(Some(p)) => index_exists && id::is_id(pack_id@) && p@ == pack_id@,
                Ok(None) => !index_exists,
                Err(e) => index_exists && !id::is_id(pack_id@) && (e matches IdError::InvalidPack(
                    t,
                ) && t@ == pack_id@),
            },
    {
        if !index_exists {
            return Ok(None);
        }
        match PackId::from_str(pack_id) {
            Ok(p) => Ok(Some(p)),
            Err(e) => Err(e),
        }
    }

    /// The pack is loose if its index is in the loose packs directory.
    pub fn is_pack_loose(&self, pack_id: &PackId, index_exists: bool) -> (r: bool)
        ensures
            r == (has_loose_name(pack_id@) && index_exists),
    {
        is_loose_name(pack_id) && index_exists
    }
}

/// The current snapshot is the one that it was updated to.
pub proof fn law_head_round_trip(id: SnapshotIdView)
    requires
        id.pack.len() > 0,
        id::is_id(id.pack),
        id.tag.len() > 0,
        id::is_id(id.tag),
    ensures
        head_of(text::bytes_of(id::canonical(id).push('\n'))) == Some(id),
{
    id::law_canonical_form_round_trip(id, seq!['\n']);
    assert(id::canonical(id) + seq!['\n'] =~= id::canonical(id).push('\n'));
    text::lemma_text_bytes(id::canonical(id).push('\n'));
}

proof fn lemma_hex_name(s: Seq<char>)
    requires
        s.len() > 0,
        forall|i: int| 0 <= i < s.len() ==> digest::hex_value(#[trigger] s[i]) is Some,
    ensures
        paths::is_name(text::bytes_of(s)),
{
    assert(vstd::utf8::is_ascii_chars(s)) by {
        assert forall|i: int| 0 <= i < s.len() implies '\0' <= #[trigger] s[i] <= '\u{7f}' by {
            assert(digest::hex_value(s[i]) is Some);
        }
    }
    vstd::utf8::is_ascii_chars_encode_utf8(s);
    let b = text::bytes_of(s);
    assert forall|i: int| 0 <= i < b.len() implies b[i] != paths::slash() && b[i] != 46 by {
        assert(digest::hex_value(s[i]) is Some);
        assert(s[i] as u8 == b[i]);
    }
    assert(b[0] != 46);
}

/// The last components of a path that names were joined to.
proof fn lemma_three_names(top: Seq<u8>, a: Seq<u8>, b: Seq<u8>, c: Seq<u8>)
    requires
        paths::is_name(a),
        paths::is_name(b),
        paths::is_name(c),
    ensures
        paths::components_of(paths::join_of(paths::join_of(paths::join_of(top, a), b), c))
            == paths::components_of(top) + seq![a, b, c],
{
    let p = paths::join_of(top, a);
    let q = paths::join_of(p, b);
    paths::lemma_join_name(top, a);
    paths::lemma_join_name(p, b);
    paths::lemma_join_name(q, c);
    assert(paths::components_of(top).push(a).push(b).push(c) =~= paths::components_of(top)
        + seq![a, b, c]);
}

/// The hexadecimal form of a part is a part of the hexadecimal form, and can be
/// part of a path.
proof fn lemma_hex_part(checksum: Seq<u8>, from: int, to: int)
    requires
        0 <= from < to <= checksum.len(),
    ensures
        ({
            let part = digest::hex_of(checksum).subrange(2 * from, 2 * to);
            &&& digest::unhex(part) == Some(checksum.subrange(from, to))
            &&& paths::is_name(text::bytes_of(part))
            &&& text::text_of(text::bytes_of(part)) == Some(part)
        }),
{
    let part = digest::hex_of(checksum).subrange(2 * from, 2 * to);
    let bytes = checksum.subrange(from, to);
    assert(part =~= digest::hex_of(bytes)) by {
        assert forall|i: int| 0 <= i < part.len() implies part[i] == #[trigger] digest::hex_of(
            bytes,
        )[i] by {
            assert((2 * from + i) / 2 == from + i / 2);
            assert((2 * from + i) % 2 == i % 2);
        }
    }
    digest::law_hex_round_trip(bytes);
    assert forall|i: int| 0 <= i < part.len() implies digest::hex_value(#[trigger] part[i]) is Some by {
        assert(digest::unhex(part) is Some);
    }
    lemma_hex_name(part);
    text::lemma_text_bytes(part);
}

/// The path of a loose object gives its checksum back.
pub proof fn law_loose_object_path_round_trip(data_dir: Seq<u8>, checksum: Seq<u8>)
    requires
        checksum.len() == 20,
    ensures
        loose_checksum_of(loose_object_path_of(data_dir, checksum)) == Some(checksum),
{
    let hex = digest::hex_of(checksum);
    let a = hex.subrange(0, 2);
    let b = hex.subrange(2, 4);
    let c = hex.subrange(4, 40);
    lemma_hex_part(checksum, 0, 1);
    lemma_hex_part(checksum, 1, 2);
    lemma_hex_part(checksum, 2, 20);
    assert(hex.take(2) =~= a);
    assert(hex.skip(4) =~= c);
    let top = below(data_dir, LOOSE_DIR@);
    lemma_three_names(top, text::bytes_of(a), text::bytes_of(b), text::bytes_of(c));
    assert(checksum.subrange(0, 1) + checksum.subrange(1, 2) + checksum.subrange(2, 20)
        =~= checksum);
}

/// Loose packs are those in the directory `loose`.
pub proof fn law_loose_names(pack: Seq<char>)
    ensures
        has_loose_name(pack) <==> seq!['l', 'o', 'o', 's', 'e', '/'].is_prefix_of(pack),
{
    reveal_strlit("loose");
    reveal_strlit("/");
    assert(LOOSE_DIR@ + "/"@ =~= seq!['l', 'o', 'o', 's', 'e', '/']);
}

/// Different checksums have different paths.
pub proof fn law_loose_objects_have_their_own_paths(
    data_dir: Seq<u8>,
    checksum: Seq<u8>,
    other: Seq<u8>,
)
    requires
        checksum.len() == 20,
        other.len() == 20,
    ensures
        loose_object_path_of(data_dir, checksum) == loose_object_path_of(data_dir, other)
            <==> checksum == other,
{
    law_loose_object_path_round_trip(data_dir, checksum);
    law_loose_object_path_round_trip(data_dir, other);
}

proof fn lemma_loose_name()
    ensures
        paths::is_name(text::bytes_of("loose"@)),
{
    reveal_strlit("loose");
    let name = "loose"@;
    vstd::utf8::is_ascii_chars_encode_utf8(name);
    let n = text::bytes_of(name);
    assert(n.len() == 5);
    if n.contains(paths::slash()) {
        let i = n.index_of(paths::slash());
        assert(n[i] == name[i] as u8);
    }
}

/// The object with a given checksum is four names below the data directory: the
/// directory of loose objects, the first byte, the second byte, and the others.
pub proof fn law_loose_object_is_below_its_bytes(data_dir: Seq<u8>, checksum: Seq<u8>)
    requires
        checksum.len() == 20,
    ensures
        ({
            let hex = digest::hex_of(checksum);
            paths::components_of(loose_object_path_of(data_dir, checksum))
                == paths::components_of(data_dir).push(text::bytes_of("loose"@)) + seq![
                text::bytes_of(hex.subrange(0, 2)),
                text::bytes_of(hex.subrange(2, 4)),
                text::bytes_of(hex.subrange(4, 40)),
            ]
        }),
{
    let hex = digest::hex_of(checksum);
    let a = text::bytes_of(hex.subrange(0, 2));
    let b = text::bytes_of(hex.subrange(2, 4));
    let c = text::bytes_of(hex.subrange(4, 40));
    lemma_hex_part(checksum, 0, 1);
    lemma_hex_part(checksum, 1, 2);
    lemma_hex_part(checksum, 2, 20);
    assert(hex.take(2) =~= hex.subrange(0, 2));
    assert(hex.skip(4) =~= hex.subrange(4, 40));
    lemma_three_names(below(data_dir, LOOSE_DIR@), a, b, c);
    lemma_loose_name();
    paths::lemma_join_name(data_dir, text::bytes_of("loose"@));
}

/// The files of a pack are in the directory of packs, under its name, with a dot
/// and the extension behind it.
pub proof fn law_pack_file_is_named_after_pack(
    data_dir: Seq<u8>,
    pack: Seq<char>,
    extension: Seq<char>,
)
    requires
        pack.len() > 0,
        id::is_id(pack),
        pack.last() != '/',
        text::bytes_of(extension).len() > 0,
    ensures
        pack_file_of(data_dir, pack, extension) == paths::join_of(
            paths::join_of(data_dir, text::bytes_of("packs"@)),
            text::bytes_of(pack),
        ) + seq![46u8] + text::bytes_of(extension),
{
    let b = text::bytes_of(pack);
    assert forall|i: int| 0 <= i < pack.len() implies '\0' <= #[trigger] pack[i] <= '\u{7f}' by {
        assert(id::is_id_char(pack[i]));
    }
    assert(vstd::utf8::is_ascii_chars(pack));
    vstd::utf8::is_ascii_chars_encode_utf8(pack);
    assert(b.len() == pack.len());
    assert forall|i: int| 0 <= i < b.len() implies #[trigger] b[i] != 46 by {
        assert(id::is_id_char(pack[i]));
        assert(b[i] == pack[i] as u8);
    }
    assert(b[b.len() - 1] == pack[pack.len() - 1] as u8);
    assert(id::is_id_char(pack[pack.len() - 1]));
    paths::law_extension_is_added(
        below(data_dir, PACKS_DIR@),
        b,
        text::bytes_of(extension),
    );
}

} // verus!
