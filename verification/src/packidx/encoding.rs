//! The bytes of a pack index file.
//!
//! The file starts with a magic number and a version. After them comes a
//! MessagePack array with the tags, the lists of changes, the paths, the
//! checksums and the metadata of the objects.

use std::collections::BTreeMap;
use vstd::prelude::*;

verus! {

/// The values that are stored in a pack index file, in their order.
pub struct IndexParts {
    pub tags: Vec<String>,
    /// Added and removed files, each a path handle and an object handle.
    pub deltas: Vec<(Vec<(u32, u32)>, Vec<(u32, u32)>)>,
    /// Each path as a map from the platform's name to the bytes of the path.
    pub paths: Vec<Vec<(String, Vec<u8>)>>,
    pub objects: Vec<[u8; 20]>,
    /// Offset and size of each object.
    pub metadata: Vec<(u64, u64)>,
}

/// What the stored values say.
#[verifier::ext_equal]
pub struct PartsView {
    pub tags: Seq<Seq<char>>,
    pub deltas: Seq<(Seq<(u32, u32)>, Seq<(u32, u32)>)>,
    pub paths: Seq<Seq<(Seq<char>, Seq<u8>)>>,
    pub objects: Seq<Seq<u8>>,
    pub metadata: Seq<(u64, u64)>,
}

impl View for IndexParts {
    type V = PartsView;

    open spec fn view(&self) -> PartsView {
        PartsView {
            tags: self.tags@.map_values(|s: String| s@),
            deltas: self.deltas@.map_values(
                |d: (Vec<(u32, u32)>, Vec<(u32, u32)>)| (d.0@, d.1@),
            ),
            paths: self.paths@.map_values(
                |p: Vec<(String, Vec<u8>)>| p@.map_values(|e: (String, Vec<u8>)| (e.0@, e.1@)),
            ),
            objects: self.objects@.map_values(|o: [u8; 20]| o@),
            metadata: self.metadata@,
        }
    }
}

/// Every list and every text is short enough for its length to be stored in 32
/// bits, and every path has one name.
pub open spec fn parts_fit(p: PartsView) -> bool {
    &&& p.tags.len() <= u32::MAX
    &&& forall|i: int|
        0 <= i < p.tags.len() ==> vstd::utf8::encode_utf8(#[trigger] p.tags[i]).len() <= u32::MAX
    &&& p.deltas.len() <= u32::MAX
    &&& forall|i: int|
        0 <= i < p.deltas.len() ==> (#[trigger] p.deltas[i]).0.len() <= u32::MAX && p.deltas[i].1.len()
            <= u32::MAX
    &&& p.paths.len() <= u32::MAX
    &&& forall|i: int|
        0 <= i < p.paths.len() ==> (#[trigger] p.paths[i]).len() == 1 && vstd::utf8::encode_utf8(
            p.paths[i][0].0,
        ).len() <= u32::MAX && p.paths[i][0].1.len() <= u32::MAX
    &&& p.objects.len() <= u32::MAX
    &&& p.metadata.len() <= u32::MAX
}

/// The values that the MessagePack decoder reads from the start of the bytes.
pub uninterp spec fn decoded_index(bytes: Seq<u8>) -> Option<PartsView>;

/// The texts that the MessagePack decoder reads from the start of the bytes.
pub uninterp spec fn decoded_tags(bytes: Seq<u8>) -> Option<Seq<Seq<char>>>;

/// The bytes that the MessagePack encoder writes for the values.
pub uninterp spec fn encoded_index(parts: PartsView) -> Seq<u8>;

/// The length of the header of a MessagePack array that is not empty.
pub open spec fn array_header(bytes: Seq<u8>) -> Option<int> {
    if bytes.len() >= 1 && 0x91 <= bytes[0] <= 0x9f {
        Some(1)
    } else if bytes.len() >= 3 && bytes[0] == 0xdc && (bytes[1] != 0 || bytes[2] != 0) {
        Some(3)
    } else if bytes.len() >= 5 && bytes[0] == 0xdd && (bytes[1] != 0 || bytes[2] != 0 || bytes[3]
        != 0 || bytes[4] != 0) {
        Some(5)
    } else {
        None
    }
}

/// Wraps `rmp_serde::decode::from_read` for a tuple of the five lists of an
/// index, where each path is a map. What it reads is a function of the bytes.
/// A failure is given as text, of which nothing is claimed.
/// The length of an array is stored in 32 bits. The first list stands right
/// after the header of the array, and is read as it is read on its own. Only
/// the form that is written is read: an index that is a map with names of
/// fields is none.
#[verifier::external_body]
pub(crate) fn decode_parts(bytes: &[u8]) -> (r: Result<IndexParts, String>)
    ensures
        match r {
            Ok(p) => decoded_index(bytes@) == Some(p@),
            Err(_) => decoded_index(bytes@) is None,
        },
        r matches Ok(p) ==> p.paths@.len() <= u32::MAX && p.objects@.len() <= u32::MAX
            && p.metadata@.len() <= u32::MAX,
        r matches Ok(p) ==> array_header(bytes@) is Some && decoded_tags(
            bytes@.skip(array_header(bytes@)->0),
        ) == Some(p@.tags),
{
    let parts = rmp_serde::decode::from_read(bytes).map_err(|e| e.to_string())?;
    let (tags, deltas, maps, objects, metadata) = parts;
    let maps: Vec<BTreeMap<String, Vec<u8>>> = maps;
    let paths = maps.into_iter().map(|m| m.into_iter().collect()).collect();
    Ok(IndexParts { tags, deltas, paths, objects, metadata })
}

/// Wraps `rmp_serde::decode::from_read` for a list of texts. What it reads is a
/// function of the bytes. A failure is given as text, of which nothing is
/// claimed.
#[verifier::external_body]
pub(crate) fn decode_tags(bytes: &[u8]) -> (r: Result<Vec<String>, String>)
    ensures
        match r {
            Ok(tags) => decoded_tags(bytes@) == Some(tags@.map_values(|s: String| s@)),
            Err(_) => decoded_tags(bytes@) is None,
        },
{
    rmp_serde::decode::from_read(bytes).map_err(|e| e.to_string())
}

/// Wraps `rmp_serde::encode::write` to a `Vec` for a tuple of the five lists of
/// an index, where each path is a map. Writing to a `Vec` does not fail. What
/// is written is a function of the values, and where all lengths fit in 32
/// bits, decoding gives the values back.
#[verifier::external_body]
pub(crate) fn encode_parts(p: &IndexParts) -> (r: Result<Vec<u8>, String>)
    ensures
        parts_fit(p@) ==> r is Ok,
        r matches Ok(bytes) ==> bytes@ == encoded_index(p@),
        r matches Ok(bytes) ==> parts_fit(p@) ==> decoded_index(bytes@) == Some(p@),
{
    let mut bytes = Vec::new();
    let maps = p.paths.iter().map(|m| m.iter().map(|e| (&e.0, &e.1)).collect()).collect();
    let maps: Vec<BTreeMap<&String, &Vec<u8>>> = maps;
    let parts = (&p.tags, &p.deltas, &maps, &p.objects, &p.metadata);
    rmp_serde::encode::write(&mut bytes, &parts).map_err(|e| e.to_string())?;
    Ok(bytes)
}

} // verus!
