//! Core types for working with repositories.

pub mod algo;
pub mod checkout;
pub mod constants;
pub mod create;
pub mod diff;
pub mod error;
pub mod extract;
pub mod fs;
pub mod gc;
pub mod id;
pub mod laws;
pub mod merge;
pub mod pack;
pub mod packfile;
pub mod remote;
pub mod repository;
pub mod search;
pub mod store;

pub use algo::partition_by_u64;
pub use checkout::{ExtractOptions, ExtractPlan, ExtractResult};
pub use constants::{
    HEAD_FILE, INDEX_FILE, LOOSE_DIR, PACKS_DIR, PACK_EXTENSION, PACK_INDEX_EXTENSION, REPO_DIR,
};
pub use error::Error;
pub use id::{IdError, PackId, SnapshotId};
pub use packfile::{Pack, PackOptions};
pub use pack::{write_skippable_frame, PackFrame, PackHeader};
pub use repository::Repository;
