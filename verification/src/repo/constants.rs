//! Names and numbers that repositories are made of.

use vstd::prelude::*;

verus! {

/// The name of the directory with the data of a repository.
pub const REPO_DIR: &'static str = "elfshaker_data";

/// The top-level index file path.
pub const INDEX_FILE: &'static str = "index";

/// A pointer to the extracted snapshot.
pub const HEAD_FILE: &'static str = "HEAD";

/// A directory containing a list of .pack and .pack.idx files
pub const PACKS_DIR: &'static str = "packs";

/// The file extension of a pack file.
pub const PACK_EXTENSION: &'static str = "pack";

/// The file extension of a pack index file.
pub const PACK_INDEX_EXTENSION: &'static str = "pack.idx";

/// A directory containing the object files from all loose snapshots
pub const LOOSE_DIR: &'static str = "loose";

/// The pack index for the loose snapshots
pub const LOOSE_INDEX_FILE: &'static str = "loose.idx";

/// A directory used during store/extract operations. Can be deleted safely
/// at anytime when there is no operation executing.
pub const TEMP_DIR: &'static str = "trash";

/// Reserved pack name used to indicate the loose set of snapshots.
pub const LOOSE_ID: &'static str = "loose";

/// A directory containing the index files of remotes.
pub const REMOTES_DIR: &'static str = "remotes";

/// The file extension of a remote index file.
pub const REMOTE_INDEX_EXTENSION: &'static str = "esi";

/// The largest window log that is accepted during decompression: 1024 MiB.
pub const DEFAULT_WINDOW_LOG_MAX: u32 = 30;

/// Valid pack headers have this value in their magic field.
pub const PACK_HEADER_MAGIC: u64 = 848629801635942891;

} // verus!
