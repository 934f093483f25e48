//! Pack indexes: the snapshots of a pack, the files in them and the objects
//! that hold the contents of the files.

pub mod error;
pub mod file;
pub mod encoding;
pub mod handleset;
pub mod laws;
pub mod model;
pub mod packidx;
pub mod packidxv1;
pub mod verpackidx;

pub use error::PackError;
pub use handleset::FileHandleSet;
pub use packidxv1::PackIndexV1;
pub use packidx::{
    ChangeSet, FileEntry, FileHandle, FileMetadata, ObjectMetadata, Snapshot, LOOSE_OBJECT_OFFSET,
};
