//! The errors of pack indexes.

use crate::digest;
use crate::digest::{hex_encode, ObjectChecksum};
use crate::entrypool::Handle;
use crate::ioerror::IoError;
use crate::text;
use crate::text::decimal;
use vstd::prelude::*;
use vstd::string::StringExecFns;

verus! {

/// Error type used in the packidx module.
#[derive(Debug)]
pub enum PackError {
    CompleteListNeeded,
    PathNotFound(Handle),
    ObjectNotFound,
    SnapshotNotFound(String),
    /// A snapshot with that tag is already present in the pack
    SnapshotAlreadyExists(String, String),
    ChecksumMismatch(ObjectChecksum, ObjectChecksum),
    IOError(IoError),
    /// The text of the decoding failure
    DeserializeError(String),
    /// The text of the encoding failure
    SerializeError(String),
    BadMagic,
    BadPackVersion([u8; 4]),
}

/// Four bytes as a list in square brackets.
pub open spec fn four_bytes_text(v: Seq<u8>) -> Seq<char> {
    "["@ + text::decimal_of(v[0] as nat) + ", "@ + text::decimal_of(v[1] as nat) + ", "@
        + text::decimal_of(v[2] as nat) + ", "@ + text::decimal_of(v[3] as nat) + "]"@
}

/// The message for an error.
pub open spec fn pack_error_text(e: PackError) -> Seq<char> {
    match e {
        PackError::CompleteListNeeded =>
            "Expected a complete file list, but got the delta format instead!"@,
        PackError::ObjectNotFound => "The object was not found!"@,
        PackError::PathNotFound(p) => "Corrupt pack, PathHandle "@ + text::decimal_of(p as nat)
            + " not found"@,
        PackError::SnapshotNotFound(s) => "The snapshot '"@ + s@ + "' was not found!"@,
        PackError::SnapshotAlreadyExists(p, s) => "A snapshot with the tag '"@ + s@
            + "' is already present in the pack '"@ + p@ + "'!"@,
        PackError::ChecksumMismatch(exp, got) => "The object checksum did not match! exp "@
            + digest::hex_of(exp@) + " got "@ + digest::hex_of(got@),
        PackError::IOError(e) => "Reading pack index: "@ + e.message@,
        PackError::DeserializeError(e) => "Deserialization failed, corrupt pack index: "@ + e@,
        PackError::SerializeError(e) => "Serialization failed: "@ + e@,
        PackError::BadMagic => "Bad pack magic, expected ELFS!"@,
        PackError::BadPackVersion(v) => "Pack version is too recent ("@ + four_bytes_text(v@)
            + "), please upgrade elfshaker!"@,
    }
}

/// Formats four bytes as a list in square brackets.
fn format_four_bytes(v: &[u8; 4]) -> (r: String)
    ensures
        r@ == four_bytes_text(v@),
{
    let mut s = "[".to_owned();
    s.append(decimal(v[0] as u64).as_str());
    s.append(", ");
    s.append(decimal(v[1] as u64).as_str());
    s.append(", ");
    s.append(decimal(v[2] as u64).as_str());
    s.append(", ");
    s.append(decimal(v[3] as u64).as_str());
    s.append("]");
    s
}

impl PackError {
    /// The message for the error.
    pub fn message(&self) -> (r: String)
        ensures
            r@ == pack_error_text(*self),
    {
        match self {
            PackError::CompleteListNeeded =>
                "Expected a complete file list, but got the delta format instead!".to_owned(),
            PackError::ObjectNotFound => "The object was not found!".to_owned(),
            PackError::PathNotFound(p) => {
                let mut s = "Corrupt pack, PathHandle ".to_owned();
                s.append(decimal(*p as u64).as_str());
                s.append(" not found");
                s
            },
            PackError::SnapshotNotFound(tag) => {
                let mut s = "The snapshot '".to_owned();
                s.append(tag.as_str());
                s.append("' was not found!");
                s
            },
            PackError::SnapshotAlreadyExists(pack, tag) => {
                let mut s = "A snapshot with the tag '".to_owned();
                s.append(tag.as_str());
                s.append("' is already present in the pack '");
                s.append(pack.as_str());
                s.append("'!");
                s
            },
            PackError::ChecksumMismatch(exp, got) => {
                let mut s = "The object checksum did not match! exp ".to_owned();
                s.append(hex_encode(exp.as_slice()).as_str());
                s.append(" got ");
                s.append(hex_encode(got.as_slice()).as_str());
                s
            },
            PackError::IOError(e) => {
                let mut s = "Reading pack index: ".to_owned();
                s.append(e.message.as_str());
                s
            },
            PackError::DeserializeError(e) => {
                let mut s = "Deserialization failed, corrupt pack index: ".to_owned();
                s.append(e.as_str());
                s
            },
            PackError::SerializeError(e) => {
                let mut s = "Serialization failed: ".to_owned();
                s.append(e.as_str());
                s
            },
            PackError::BadMagic => "Bad pack magic, expected ELFS!".to_owned(),
            PackError::BadPackVersion(v) => {
                let mut s = "Pack version is too recent (".to_owned();
                s.append(format_four_bytes(v).as_str());
                s.append("), please upgrade elfshaker!");
                s
            },
        }
    }
}

} // verus!
