//! A verified core for a content-addressed store of snapshots: pack indexes,
//! pack files made of compressed frames, remote indexes, and the decisions
//! taken when snapshots are stored, packed and extracted.

pub mod atomicfile;
pub mod batch;
pub mod bytes;
pub mod cli;
pub mod compression;
pub mod createpack;
pub mod digest;
pub mod entrypool;
pub mod indexed;
pub mod ioerror;
pub mod log;
pub mod lookup;
pub mod packidx;
pub mod pathidx;
pub mod paths;
pub mod progress;
pub mod repo;
pub mod select;
pub mod sort;
pub mod split;
pub mod text;
