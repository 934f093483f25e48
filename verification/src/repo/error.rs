//! The errors of repository operations.

use super::id;
use super::id::{IdError, PackId};
use crate::ioerror::IoError;
use crate::packidx::error;
use crate::packidx::PackError;
use vstd::prelude::*;
use vstd::string::StringExecFns;

verus! {

/// A remote index file is corrupted.
#[derive(Debug)]
pub struct RemoteIndexFormatError {
    pub message: String,
    pub source: Option<String>,
}

/// The message for a corrupted remote index.
pub open spec fn format_error_text(e: RemoteIndexFormatError) -> Seq<char> {
    e.message@ + " (source="@ + (match e.source {
        Some(s) => s@,
        None => "(unspecified)"@,
    }) + ")"@
}

impl RemoteIndexFormatError {
    /// Creates an error that does not say where the index is from.
    pub fn new(message: String) -> (r: Self)
        ensures
            r.message == message,
            r.source is None,
    {
        RemoteIndexFormatError { message, source: None }
    }

    /// Says where the index is from, if that was said before.
    pub fn reify(self, display_name: &str) -> (r: Self)
        ensures
            r.message == self.message,
            match self.source {
                None => r.source is None,
                Some(_) => r.source matches Some(s) && s@ == display_name@,
            },
    {
        if self.source.is_none() {
            self
        } else {
            RemoteIndexFormatError {
                message: self.message,
                source: Some(display_name.to_owned()),
            }
        }
    }

    /// The message for the error.
    pub fn text(&self) -> (r: String)
        ensures
            r@ == format_error_text(*self),
    {
        let mut s = self.message.clone();
        s.append(" (source=");
        match &self.source {
            Some(source) => {
                s.append(source.as_str());
            },
            None => {
                s.append("(unspecified)");
            },
        }
        s.append(")");
        s
    }
}

/// The type of error used by repository operations.
#[derive(Debug)]
pub enum Error {
    IOError(IoError),
    /// The text of a failure to walk through a directory
    WalkDirError(String),
    /// A path that is not text, as it is displayed
    Utf8Error(String),
    PackError(PackError),
    IdError(IdError),
    /// Bad HEAD (missing HEAD is okay and means that nothing has been extracted so far)
    CorruptHead,
    /// The references snapshot/pack is missing.
    BrokenHeadRef(Box<Error>),
    /// The .pack.idx is corrupt
    CorruptPackIndex,
    /// The .pack file is corrupt.
    CorruptPack,
    /// Multiple or none snapshots match the specified description
    AmbiguousSnapshotMatch(String, Vec<PackId>),
    /// The working directory contains unexpected files
    DirtyWorkDir,
    /// The .pack file is not available in packs/
    PackNotFound(String),
    /// The directory is not a repository
    RepositoryNotFound,
    /// A remote index file is corrupt
    BadRemoteIndexFormat(RemoteIndexFormatError),
    /// A request failed
    HttpError(String),
    /// The path is not the one of a loose object
    BadLooseObject(String),
}

/// The text as a quoted literal.
pub uninterp spec fn quoted(s: Seq<char>) -> Seq<char>;

/// Wraps the `Debug` implementation of `str` in the standard library. What it
/// gives is a function of the text.
#[verifier::external_body]
pub(crate) fn quote(s: &str) -> (r: String)
    ensures
        r@ == quoted(s@),
{
    format!("{:?}", s)
}

/// A list of packs in square brackets.
pub open spec fn packs_text(packs: Seq<PackId>) -> Seq<char> {
    "["@ + packs_list_text(packs) + "]"@
}

/// A list of packs, separated by commas.
pub open spec fn packs_list_text(packs: Seq<PackId>) -> Seq<char>
    decreases packs.len(),
{
    if packs.len() == 0 {
        Seq::empty()
    } else if packs.len() == 1 {
        "Pack("@ + quoted(packs[0]@) + ")"@
    } else {
        packs_list_text(packs.drop_last()) + ", "@ + "Pack("@ + quoted(packs.last()@) + ")"@
    }
}

/// The message for an error.
pub open spec fn error_text(e: Error) -> Seq<char>
    decreases e,
{
    match e {
        Error::IOError(e) => e.message@,
        Error::PackError(e) => error::pack_error_text(e),
        Error::IdError(e) => id::id_error_text(e),
        Error::WalkDirError(e) => e@,
        Error::Utf8Error(s) => "unable to interpret path as utf8: "@ + s@,
        Error::CorruptHead => "HEAD is corrupt!"@,
        Error::BrokenHeadRef(e) => "Broken HEAD: "@ + error_text(*e),
        Error::CorruptPack => "The pack file is corrupt!"@,
        Error::CorruptPackIndex => "The pack index is corrupt!"@,
        Error::AmbiguousSnapshotMatch(snapshot, packs) => "The requested snapshot "@ + snapshot@
            + " lives in multiple packs: "@ + packs_text(packs@),
        Error::DirtyWorkDir => "Some files in the repository have been removed or modified unexpectedly! You can use --force to skip this check, but this might result in DATA LOSS!"@,
        Error::PackNotFound(p) => "The specified pack file '"@ + p@
            + "' could not be found in the repository index!"@,
        Error::RepositoryNotFound => "The directory is not an elfshaker repository!"@,
        Error::BadRemoteIndexFormat(e) => format_error_text(e),
        Error::HttpError(e) => e@,
        Error::BadLooseObject(p) => "Bad loose object '"@ + p@ + "'!"@,
    }
}

/// Formats a list of packs in square brackets.
fn format_packs(packs: &[PackId]) -> (r: String)
    ensures
        r@ == packs_text(packs@),
{
    let mut s = "[".to_owned();
    let mut i: usize = 0;
    assert(s@ =~= "["@ + packs_list_text(packs@.take(0)));
    while i < packs.len()
        invariant
            i <= packs.len(),
            s@ == "["@ + packs_list_text(packs@.take(i as int)),
        decreases packs.len() - i,
    {
        let ghost before = s@;
        if i > 0 {
            s.append(", ");
        }
        s.append("Pack(");
        s.append(quote(packs[i].as_str()).as_str());
        s.append(")");
        proof {
            let now = packs@.take(i + 1);
            assert(now.drop_last() =~= packs@.take(i as int));
            assert(now.last() == packs@[i as int]);
            assert(s@ =~= "["@ + packs_list_text(now));
        }
        i += 1;
    }
    assert(packs@.take(i as int) =~= packs@);
    s.append("]");
    s
}

impl Error {
    /// The message for the error.
    pub fn message(&self) -> (r: String)
        ensures
            r@ == error_text(*self),
        decreases self,
    {
        match self {
            Error::IOError(e) => e.message.clone(),
            Error::PackError(e) => e.message(),
            Error::IdError(e) => e.message(),
            Error::WalkDirError(e) => e.clone(),
            Error::Utf8Error(path) => {
                let mut s = "unable to interpret path as utf8: ".to_owned();
                s.append(path.as_str());
                s
            },
            Error::CorruptHead => "HEAD is corrupt!".to_owned(),
            Error::BrokenHeadRef(e) => {
                let mut s = "Broken HEAD: ".to_owned();
                s.append((**e).message().as_str());
                s
            },
            Error::CorruptPack => "The pack file is corrupt!".to_owned(),
            Error::CorruptPackIndex => "The pack index is corrupt!".to_owned(),
            Error::AmbiguousSnapshotMatch(snapshot, packs) => {
                let mut s = "The requested snapshot ".to_owned();
                s.append(snapshot.as_str());
                s.append(" lives in multiple packs: ");
                s.append(format_packs(packs.as_slice()).as_str());
                s
            },
            Error::DirtyWorkDir => "Some files in the repository have been removed or modified unexpectedly! You can use --force to skip this check, but this might result in DATA LOSS!".to_owned(),
            Error::PackNotFound(p) => {
                let mut s = "The specified pack file '".to_owned();
                s.append(p.as_str());
                s.append("' could not be found in the repository index!");
                s
            },
            Error::RepositoryNotFound => "The directory is not an elfshaker repository!".to_owned(),
            Error::BadRemoteIndexFormat(e) => e.text(),
            Error::HttpError(e) => e.clone(),
            Error::BadLooseObject(p) => {
                let mut s = "Bad loose object '".to_owned();
                s.append(p.as_str());
                s.append("'!");
                s
            },
        }
    }
}

} // verus!
