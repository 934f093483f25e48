//! Reading and writing of pack index files.

use super::error::PackError;
use super::encoding;
use super::encoding::{decode_parts, decode_tags, encode_parts};
use super::model;
use super::packidxv1;
use super::packidxv1::PackIndexV1;
use crate::bytes;
use crate::bytes::{bytes_equal, bytes_less};
use crate::ioerror::{IoError, IoErrorKind};
use vstd::prelude::*;
use vstd::slice::slice_subrange;

verus! {

/// The bytes with which a pack index file starts.
pub open spec fn magic() -> Seq<u8> {
    seq![0x45u8, 0x4cu8, 0x46u8, 0x53u8]
}

/// The version that follows the magic.
pub open spec fn version() -> Seq<u8> {
    seq![0u8, 0u8, 0u8, 1u8]
}

/// The file ends before the magic and the version do.
pub open spec fn is_cut_short(file: Seq<u8>) -> bool {
    file.len() < 4 || (file.take(4) == magic() && file.len() < 8)
}

/// The file starts with something else than the magic.
pub open spec fn has_bad_magic(file: Seq<u8>) -> bool {
    file.len() >= 4 && file.take(4) != magic()
}

/// The version of the file is later than that which is supported.
pub open spec fn is_too_recent(file: Seq<u8>) -> bool {
    file.len() >= 8 && file.take(4) == magic() && bytes::lex_less(version(), file.subrange(4, 8))
}

/// The header of the file is accepted.
pub open spec fn has_good_header(file: Seq<u8>) -> bool {
    !is_cut_short(file) && !has_bad_magic(file) && !is_too_recent(file)
}

/// What the index file says.
pub open spec fn index_of_file(file: Seq<u8>) -> Option<model::IndexView> {
    if has_good_header(file) {
        match encoding::decoded_index(file.skip(8)) {
            Some(p) => if model::paths_named(p) {
                Some(model::view_of_parts(p))
            } else {
                None
            },
            None => None,
        }
    } else {
        None
    }
}

/// The tags of the snapshots in an index file.
pub open spec fn tags_of_file(file: Seq<u8>) -> Option<Seq<Seq<char>>> {
    if has_good_header(file) {
        match encoding::array_header(file.skip(8)) {
            Some(n) => encoding::decoded_tags(file.skip(8).skip(n)),
            None => None,
        }
    } else {
        None
    }
}

/// The error is the one for a bad header.
pub open spec fn is_header_error(file: Seq<u8>, e: PackError) -> bool {
    match e {
        PackError::IOError(e) => e.kind == IoErrorKind::UnexpectedEof && is_cut_short(file),
        PackError::BadMagic => has_bad_magic(file),
        PackError::BadPackVersion(v) => is_too_recent(file) && v@ == file.subrange(4, 8),
        _ => false,
    }
}

/// Reads the magic and the version.
pub fn read_magic(file: &[u8]) -> (r: Result<(), PackError>)
    ensures
        match r {
            Ok(_) => has_good_header(file@),
            Err(e) => is_header_error(file@, e),
        },
{
    if file.len() < 4 {
        return Err(PackError::IOError(IoError::unexpected_eof()));
    }
    let expected: [u8; 4] = [0x45, 0x4c, 0x46, 0x53];
    assert(expected@ =~= magic());
    let start = slice_subrange(file, 0, 4);
    assert(start@ =~= file@.take(4));
    if !bytes_equal(start, expected.as_slice()) {
        return Err(PackError::BadMagic);
    }
    if file.len() < 8 {
        return Err(PackError::IOError(IoError::unexpected_eof()));
    }
    let supported: [u8; 4] = [0, 0, 0, 1];
    assert(supported@ =~= version());
    let found: [u8; 4] = [file[4], file[5], file[6], file[7]];
    assert(found@ =~= file@.subrange(4, 8));
    if bytes_less(supported.as_slice(), found.as_slice()) {
        return Err(PackError::BadPackVersion(found));
    }
    Ok(())
}

/// The magic and the version with which an index file starts.
pub fn write_magic() -> (r: Vec<u8>)
    ensures
        r@ == magic() + version(),
{
    let mut r: Vec<u8> = Vec::new();
    r.push(0x45);
    r.push(0x4c);
    r.push(0x46);
    r.push(0x53);
    r.push(0);
    r.push(0);
    r.push(0);
    r.push(1);
    assert(r@ =~= magic() + version());
    r
}

/// The length of the header of the array in which the parts are stored.
fn parts_header(data: &[u8]) -> (r: Option<usize>)
    ensures
        match r {
            Some(n) => encoding::array_header(data@) == Some(n as int) && n <= data@.len(),
            None => encoding::array_header(data@) is None,
        },
{
    if data.len() >= 1 && 0x91 <= data[0] && data[0] <= 0x9f {
        Some(1)
    } else if data.len() >= 3 && data[0] == 0xdc && (data[1] != 0 || data[2] != 0) {
        Some(3)
    } else if data.len() >= 5 && data[0] == 0xdd && (data[1] != 0 || data[2] != 0 || data[3] != 0
        || data[4] != 0) {
        Some(5)
    } else {
        None
    }
}

impl PackIndexV1 {
    /// Reads an index from the bytes of a file.
    pub fn parse(file: &[u8]) -> (r: Result<Self, PackError>)
        ensures
            match r {
                Ok(index) => {
                    &&& index.wf()
                    &&& index_of_file(file@) == Some(index@)
                    &&& tags_of_file(file@) == Some(index@.tags)
                },
                Err(PackError::DeserializeError(_)) => has_good_header(file@) && index_of_file(
                    file@,
                ) is None,
                Err(e) => is_header_error(file@, e),
            },
    {
        if let Err(e) = read_magic(file) {
            return Err(e);
        }
        let data = slice_subrange(file, 8, file.len());
        assert(data@ =~= file@.skip(8));
        match decode_parts(data) {
            Ok(parts) => match PackIndexV1::from_parts(parts) {
                Some(index) => Ok(index),
                None => Err(
                    PackError::DeserializeError("unknown variant, expected `Unix`".to_owned()),
                ),
            },
            Err(e) => Err(PackError::DeserializeError(e)),
        }
    }

    /// Reads only the list of snapshots from the bytes of an index file.
    pub fn parse_only_snapshots(file: &[u8]) -> (r: Result<Vec<String>, PackError>)
        ensures
            match r {
                Ok(tags) => tags_of_file(file@) == Some(packidxv1::text_views(tags@)),
                Err(PackError::DeserializeError(_)) => has_good_header(file@) && tags_of_file(
                    file@,
                ) is None,
                Err(e) => is_header_error(file@, e),
            },
    {
        if let Err(e) = read_magic(file) {
            return Err(e);
        }
        let data = slice_subrange(file, 8, file.len());
        assert(data@ =~= file@.skip(8));
        match parts_header(data) {
            Some(n) => {
                let list = slice_subrange(data, n, data.len());
                assert(list@ =~= data@.skip(n as int));
                match decode_tags(list) {
                    Ok(tags) => Ok(tags),
                    Err(e) => Err(PackError::DeserializeError(e)),
                }
            },
            None => Err(
                PackError::DeserializeError("expected alloc::vec::Vec<alloc::string::String>".to_owned()),
            ),
        }
    }

    /// The bytes of the file in which the index is stored.
    pub fn to_file(&self) -> (r: Result<Vec<u8>, PackError>)
        ensures
            encoding::parts_fit(model::parts_of(self@)) ==> r is Ok,
            match r {
                Ok(file) => {
                    &&& file@ == magic() + version() + encoding::encoded_index(
                        model::parts_of(self@),
                    )
                    &&& encoding::parts_fit(model::parts_of(self@)) && model::all_described(self@)
                        && model::pools_valid(self@) ==> index_of_file(file@) == Some(
                        (model::IndexView { current: Set::empty(), ..self@ }),
                    )
                },
                Err(e) => e is SerializeError,
            },
    {
        let parts = self.to_parts();
        match encode_parts(&parts) {
            Ok(data) => {
                let mut file = write_magic();
                file.extend_from_slice(data.as_slice());
                proof {
                    assert(file@ =~= magic() + version() + data@);
                    assert(file@.take(4) =~= magic());
                    assert(file@.subrange(4, 8) =~= version());
                    bytes::lemma_lex_irreflexive(version());
                    assert(file@.skip(8) =~= data@);
                    if model::all_described(self@) && model::pools_valid(self@) {
                        model::law_index_round_trip(self@);
                    }
                }
                Ok(file)
            },
            Err(e) => Err(PackError::SerializeError(e)),
        }
    }
}

/// An index file is read if it starts with the magic number and a version that is
/// known.
pub proof fn law_written_index_is_read(v: model::IndexView, content: Seq<u8>)
    requires
        model::pools_valid(v),
        model::all_described(v),
        encoding::decoded_index(content) == Some(model::parts_of(v)),
    ensures
        index_of_file(seq![0x45u8, 0x4cu8, 0x46u8, 0x53u8, 0u8, 0u8, 0u8, 1u8] + content) == Some(
            model::IndexView { current: Set::empty(), ..v },
        ),
{
    let file = seq![0x45u8, 0x4cu8, 0x46u8, 0x53u8, 0u8, 0u8, 0u8, 1u8] + content;
    assert(file.take(4) =~= magic());
    assert(file.subrange(4, 8) =~= version());
    assert(file.skip(8) =~= content);
    reveal_with_fuel(bytes::lex_less, 6);
    model::law_index_round_trip(v);
}

/// A file without the magic number at its start, or with a later version, is not
/// read.
pub proof fn law_other_files_are_refused(file: Seq<u8>)
    requires
        file.len() < 8 || file.take(4) != seq![0x45u8, 0x4cu8, 0x46u8, 0x53u8] || file[4] > 0
            || file[5] > 0 || file[6] > 0 || file[7] > 1,
    ensures
        !has_good_header(file),
        index_of_file(file) is None,
        tags_of_file(file) is None,
{
    if file.len() >= 8 && file.take(4) == magic() {
        let v = file.subrange(4, 8);
        assert(v[0] == file[4] && v[1] == file[5] && v[2] == file[6] && v[3] == file[7]);
        reveal_with_fuel(bytes::lex_less, 6);
    }
}

} // verus!
