//! Atomic creation of files: the decisions on what is found on disk.

use crate::ioerror::{IoError, IoErrorKind};
use crate::paths;
use crate::paths::parent;
use crate::repo::fs;
use crate::repo::fs::{random_bytes, temp_path};
use vstd::prelude::*;
use vstd::string::StringExecFns;

verus! {

/// The start of the names of temporary files.
pub const TEMP_PREFIX: &'static str = ".elfshakertmp_";

/// Checks that the file that was locked is the one that has its name. This
/// protects against the case where a file can be locked, but unlinked. The files
/// are given by their inodes, and the name as it is displayed.
pub fn lock_name(name: &str, locked: u64, named: u64) -> (r: Result<(), IoError>)
    ensures
        match r {
            Ok(_) => locked == named,
            Err(e) => locked != named && e.kind == IoErrorKind::WouldBlock && e.message@
                == "file lock for "@ + name@ + " acquired by a different process"@,
        },
{
    if locked != named {
        let mut message = "file lock for ".to_owned();
        message.append(name);
        message.append(" acquired by a different process");
        return Err(IoError { kind: IoErrorKind::WouldBlock, message });
    }
    Ok(())
}

/// The directory of a file: its parent, or else the root.
pub open spec fn dir_of(dest: Seq<u8>) -> Seq<u8> {
    match paths::parent_of(dest) {
        Some(dir) => dir,
        None => paths::root(),
    }
}

/// Finds the directory of a file.
pub fn parent_dir(dest: &[u8]) -> (r: Vec<u8>)
    ensures
        r@ == dir_of(dest@),
{
    match parent(dest) {
        Some(dir) => dir,
        None => {
            let mut top: Vec<u8> = Vec::new();
            top.push(47);
            assert(top@ =~= paths::root());
            top
        },
    }
}

/// What to do once it was tried to create a file.
#[derive(Debug)]
pub enum CreateStep {
    /// The file is new: lock it to indicate that it is in use.
    Lock,
    /// Parent directories do not exist: make them and try again.
    MakeParents,
    /// The file exists: it might be stale.
    Prune(IoError),
    Fail(IoError),
}

/// The failure to open a file for writing, with its path in the message.
pub open spec fn is_open_error(e: IoError, kind: IoErrorKind, dest: Seq<char>) -> bool {
    e.kind == kind && e.message@ == "couldn't open "@ + dest + " for writing"@
}

/// Makes the failure to open a file for writing.
pub fn open_error(kind: IoErrorKind, dest: &str) -> (r: IoError)
    ensures
        is_open_error(r, kind, dest@),
{
    let mut message = "couldn't open ".to_owned();
    message.append(dest);
    message.append(" for writing");
    IoError { kind, message }
}

/// Decides what to do once it was tried to create a file with the given path,
/// as it is displayed.
pub fn create_step(outcome: Result<(), IoError>, dest: &str) -> (r: CreateStep)
    ensures
        match outcome {
            Ok(_) => r is Lock,
            Err(e) => if e.kind == IoErrorKind::NotFound {
                r is MakeParents
            } else if e.kind == IoErrorKind::AlreadyExists {
                r == CreateStep::Prune(e)
            } else {
                r matches CreateStep::Fail(f) && is_open_error(f, e.kind, dest@)
            },
        },
{
    match outcome {
        Ok(_) => CreateStep::Lock,
        Err(e) => if e.kind == IoErrorKind::NotFound {
            CreateStep::MakeParents
        } else if e.kind == IoErrorKind::AlreadyExists {
            CreateStep::Prune(e)
        } else {
            CreateStep::Fail(open_error(e.kind, dest))
        },
    }
}

/// A file without content is stale if nobody has a lock on it.
pub fn can_be_stale(is_file: bool, len: u64) -> (r: bool)
    ensures
        r == (is_file && len == 0),
{
    !(!is_file || len > 0)
}

/// Returns a unique path suitable for a temporary file. The filename is picked
/// from a 128-bit random distribution.
pub fn create_temp_path(temp_dir: &[u8]) -> (r: Vec<u8>)
    ensures
        exists|bytes: Seq<u8>|
            bytes.len() == 16 && r@ == #[trigger] fs::temp_path_of(
                temp_dir@,
                TEMP_PREFIX@,
                bytes,
            ),
{
    let bytes = random_bytes();
    let r = temp_path(temp_dir, TEMP_PREFIX, &bytes);
    assert(r@ == fs::temp_path_of(temp_dir@, TEMP_PREFIX@, bytes@));
    r
}

/// The failure to create a temporary file, with its path in the message.
pub fn temp_file_error(kind: IoErrorKind, path: &str) -> (r: IoError)
    ensures
        r.kind == kind,
        r.message@ == "couldn't create temporary file "@ + path@,
{
    let mut message = "couldn't create temporary file ".to_owned();
    message.append(path);
    IoError { kind, message }
}

} // verus!
