//! The decisions of the commands.

use crate::bytes::ByteString;
use crate::ioerror::{IoError, IoErrorKind};
use crate::lookup;
use crate::lookup::PositionTable;
use crate::packidx::error;
use crate::packidx::laws;
use crate::packidx::model;
use crate::packidx::packidx;
use crate::packidx::packidx::FileEntryView;
use crate::packidx::packidxv1;
use crate::packidx::{FileEntry, PackError, PackIndexV1};
use crate::repo::checkout;
use crate::repo::constants::LOOSE_DIR;
use crate::repo::error::Error;
use crate::repo::id;
use crate::repo::id::{IdError, PackId, SnapshotId};
use crate::repo::id::SnapshotIdView;
use crate::repo::merge;
use crate::repo::merge::merge_indexes;
use crate::repo::search;
use crate::repo::PackOptions;
use crate::split;
use crate::split::split_list;
use crate::text;
use crate::text::{decimal, decode_text, signed_decimal};
use vstd::prelude::*;
use vstd::slice::slice_to_vec;
use vstd::string::StringExecFns;

verus! {

/// Window log is currently not configurable; We use a hopefully reasonable
/// value of 28 == 256MiB window log. A configurable window log will require the
/// user to specify the value during extract operations as well as pack
/// operations.
pub const DEFAULT_COMPRESSION_WINDOW_LOG: u32 = 28;

/// This is the built-in heuristic that tells us how many frames to use based on
/// the data size. 1 frame / 512 MiB
pub const FRAME_PER_DATA_SIZE: u64 = 536870912;

/// The number of threads to use: what was asked for, or the number of physical
/// cores if that was 0.
pub fn thread_count(requested: u32, physical_cores: usize) -> (r: u32)
    ensures
        r == (if requested == 0 {
            (physical_cores as int) % 0x1_0000_0000
        } else {
            requested as int
        }),
{
    if requested == 0 {
        let cores = physical_cores as u64;
        let r = #[verifier::truncate] (cores as u32);
        assert(r == cores % 0x1_0000_0000) by (bit_vector)
            requires
                r == cores as u32,
        ;
        r
    } else {
        requested
    }
}

/// The lowest compression level of Zstandard: the negated size of a block.
pub const MIN_COMPRESSION_LEVEL: i32 = -131072;

/// The highest compression level of Zstandard.
pub const MAX_COMPRESSION_LEVEL: i32 = 22;

/// Wraps `zstd::compression_level_range`: the first and the last level that the
/// library accepts, which are constants of its compressor.
#[verifier::external_body]
fn compression_level_range() -> (r: (i32, i32))
    ensures
        r == (MIN_COMPRESSION_LEVEL, MAX_COMPRESSION_LEVEL),
{
    let range = zstd::compression_level_range();
    (*range.start(), *range.end())
}

/// The message for a compression level that is not accepted.
pub open spec fn level_text(level: i32, first: i32, last: i32) -> Seq<char> {
    "Invalid compression level "@ + text::signed_of(level as int) + " (value must be between "@
        + text::signed_of(first as int) + " and "@ + text::signed_of(last as int) + ")!"@
}

/// Checks that a compression level is in a range.
pub fn check_level_in(level: i32, first: i32, last: i32) -> (r: Result<(), String>)
    ensures
        match r {
            Ok(_) => first <= level <= last,
            Err(e) => !(first <= level <= last) && e@ == level_text(level, first, last),
        },
{
    if first <= level && level <= last {
        return Ok(());
    }
    let mut s = "Invalid compression level ".to_owned();
    s.append(signed_decimal(level).as_str());
    s.append(" (value must be between ");
    s.append(signed_decimal(first).as_str());
    s.append(" and ");
    s.append(signed_decimal(last).as_str());
    s.append(")!");
    Err(s)
}

/// Checks that a compression level is one that the compression accepts.
pub fn check_compression_level(level: i32) -> (r: Result<(), String>)
    ensures
        match r {
            Ok(_) => MIN_COMPRESSION_LEVEL <= level <= MAX_COMPRESSION_LEVEL,
            Err(e) => !(MIN_COMPRESSION_LEVEL <= level <= MAX_COMPRESSION_LEVEL) && e@
                == level_text(level, MIN_COMPRESSION_LEVEL, MAX_COMPRESSION_LEVEL),
        },
{
    let (first, last) = compression_level_range();
    check_level_in(level, first, last)
}

/// Where the list of packs to pack comes from.
#[derive(Clone, Copy, Debug, PartialEq, Eq, Structural)]
pub enum PackSource {
    /// A file with one snapshot on each line.
    Lines,
    /// A file with a NUL behind each snapshot.
    NulSeparated,
    /// The indexes that were named.
    Indexes,
    /// All loose packs.
    LoosePacks,
}

/// Decides where the list of packs to pack comes from. At most one source can be
/// given.
pub fn pack_source(snapshots_from: bool, snapshots0_from: bool, indexes: bool) -> (r: Result<
    PackSource,
    String,
>)
    ensures
        match r {
            Ok(PackSource::Lines) => snapshots_from && !snapshots0_from && !indexes,
            Ok(PackSource::NulSeparated) => !snapshots_from && snapshots0_from && !indexes,
            Ok(PackSource::Indexes) => !snapshots_from && !snapshots0_from && indexes,
            Ok(PackSource::LoosePacks) => !snapshots_from && !snapshots0_from && !indexes,
            Err(e) => {
                &&& (snapshots_from && snapshots0_from) || (snapshots_from && indexes) || (
                snapshots0_from && indexes)
                &&& e@ == "Invalid options!"@
            },
        },
{
    match (snapshots_from, snapshots0_from, indexes) {
        (true, false, false) => Ok(PackSource::Lines),
        (false, true, false) => Ok(PackSource::NulSeparated),
        (false, false, true) => Ok(PackSource::Indexes),
        (false, false, false) => Ok(PackSource::LoosePacks),
        _ => Err("Invalid options!".to_owned()),
    }
}

/// The message of the standard library for bytes that are not UTF-8.
pub uninterp spec fn utf8_error_text(bytes: Seq<u8>) -> Seq<char>;

/// Wraps the error of `std::str::from_utf8`, as text. It is a function of the
/// bytes.
#[verifier::external_body]
fn describe_utf8_error(bytes: &[u8]) -> (r: String)
    requires
        text::text_of(bytes@) is None,
    ensures
        r@ == utf8_error_text(bytes@),
{
    match std::str::from_utf8(bytes) {
        Ok(s) => s.to_owned(),
        Err(e) => e.to_string(),
    }
}

/// The snapshots of a list, as far as they are text.
pub open spec fn decoded_items(items: Seq<Seq<u8>>, n: int) -> Seq<Seq<char>> {
    Seq::new(n as nat, |i: int| text::text_of(items[i])->0)
}

/// Splits a list of snapshots. Returns the snapshots up to the first one that is
/// not text, and the error for that one, if there is one.
pub fn snapshot_list(buf: &[u8], separator: u8) -> (r: (Vec<String>, Option<Error>))
    ensures
        ({
            let items = split::without_empty(split::pieces_of(buf@, separator));
            let n = r.0@.len() as int;
            &&& n <= items.len()
            &&& forall|i: int| 0 <= i < n ==> text::text_of(#[trigger] items[i]) is Some
            &&& packidxv1::text_views(r.0@) == decoded_items(items, n)
            &&& match r.1 {
                None => n == items.len(),
                Some(e) => {
                    &&& n < items.len()
                    &&& text::text_of(items[n]) is None
                    &&& e matches Error::IOError(f) && f.kind == IoErrorKind::InvalidData
                        && f.message@ == "Unable to decode snapshot list: "@ + utf8_error_text(
                        items[n],
                    )
                },
            }
        }),
{
    let list = split_list(buf, separator);
    let ghost items = split::byte_views(list@);
    let mut r: Vec<String> = Vec::new();
    let mut i: usize = 0;
    assert(packidxv1::text_views(r@) =~= decoded_items(items, 0));
    while i < list.len()
        invariant
            i <= list.len(),
            items == split::byte_views(list@),
            items == split::without_empty(split::pieces_of(buf@, separator)),
            r@.len() == i,
            forall|j: int| 0 <= j < i ==> text::text_of(#[trigger] items[j]) is Some,
            packidxv1::text_views(r@) == decoded_items(items, i as int),
        decreases list.len() - i,
    {
        assert(items[i as int] == list@[i as int]@);
        match decode_text(slice_to_vec(list[i].as_slice())) {
            Some(s) => {
                let ghost before = packidxv1::text_views(r@);
                r.push(s);
                assert(packidxv1::text_views(r@) =~= before.push(s@));
                assert(packidxv1::text_views(r@) =~= decoded_items(items, i + 1));
            },
            None => {
                let mut message = "Unable to decode snapshot list: ".to_owned();
                message.append(describe_utf8_error(list[i].as_slice()).as_str());
                return (
                    r,
                    Some(Error::IOError(IoError { kind: IoErrorKind::InvalidData, message })),
                );
            },
        }
        i += 1;
    }
    (r, None)
}

/// The number of frames to use based on the data size: the size divided by the
/// size of the data of a frame, rounding up.
pub open spec fn frame_hint(object_size_total: nat) -> int {
    (object_size_total + FRAME_PER_DATA_SIZE - 1) / (FRAME_PER_DATA_SIZE as int)
}

/// Suggests how many frames to use based on the data size.
pub fn get_frame_size_hint(object_size_total: u64) -> (r: u32)
    ensures
        r == frame_hint(object_size_total as nat) % 0x1_0000_0000,
{
    // Divide by FRAME_PER_DATA_SIZE, rounding up
    let whole: u64 = object_size_total / FRAME_PER_DATA_SIZE;
    let frames: u64 = if object_size_total % FRAME_PER_DATA_SIZE > 0 {
        whole + 1
    } else {
        whole
    };
    assert(frames == frame_hint(object_size_total as nat));
    let r = #[verifier::truncate] (frames as u32);
    assert(r == frames % 0x1_0000_0000) by (bit_vector)
        requires
            r == frames as u32,
    ;
    r
}

/// An index for a new pack, and the options for its creation.
pub struct PreparedPack {
    pub index: PackIndexV1,
    pub options: PackOptions,
}

/// Why no pack can be made of snapshots.
#[derive(Debug)]
pub enum PrepareError {
    /// There are no snapshots. There is no point in creating an empty pack.
    NoSnapshots,
    /// The sizes of the objects do not add up to a number of 64 bits.
    TooLarge,
    PackError(PackError),
}

/// The message for a pack that cannot be made.
pub open spec fn prepare_error_text(e: PrepareError) -> Seq<char> {
    match e {
        PrepareError::NoSnapshots => "There are no loose snapshots!"@,
        PrepareError::TooLarge => "The objects are too large!"@,
        PrepareError::PackError(e) => error::pack_error_text(e),
    }
}

impl PrepareError {
    /// The message for the error.
    pub fn message(&self) -> (r: String)
        ensures
            r@ == prepare_error_text(*self),
    {
        match self {
            PrepareError::NoSnapshots => "There are no loose snapshots!".to_owned(),
            PrepareError::TooLarge => "The objects are too large!".to_owned(),
            PrepareError::PackError(e) => e.message(),
        }
    }
}

/// The names of packs.
pub open spec fn pack_names(packs: Seq<PackId>) -> Seq<Seq<char>> {
    packs.map_values(|p: PackId| p@)
}

/// The names without those that came before.
pub open spec fn without_repetition(names: Seq<Seq<char>>) -> Seq<Seq<char>>
    decreases names.len(),
{
    if names.len() == 0 {
        Seq::empty()
    } else {
        let rest = without_repetition(names.drop_last());
        if rest.contains(names.last()) {
            rest
        } else {
            rest.push(names.last())
        }
    }
}

/// Tells whether one of the packs has the given name.
fn lists_pack(packs: &Vec<PackId>, id: &PackId) -> (r: bool)
    ensures
        r == pack_names(packs@).contains(id@),
{
    let ghost names = pack_names(packs@);
    let mut i: usize = 0;
    while i < packs.len()
        invariant
            i <= packs.len(),
            names == pack_names(packs@),
            forall|j: int| 0 <= j < i ==> #[trigger] names[j] != id@,
        decreases packs.len() - i,
    {
        assert(names[i as int] == packs@[i as int]@);
        if packs[i].same(id) {
            return true;
        }
        i += 1;
    }
    false
}

/// Drops the packs that are listed before. A pack is listed more than once if
/// several of its snapshots were asked for.
pub fn distinct_packs(packs: &[PackId]) -> (r: Vec<PackId>)
    ensures
        pack_names(r@) == without_repetition(pack_names(packs@)),
{
    let ghost names = pack_names(packs@);
    let mut r: Vec<PackId> = Vec::new();
    let mut i: usize = 0;
    assert(names.take(0) =~= Seq::empty());
    assert(pack_names(r@) =~= Seq::empty());
    while i < packs.len()
        invariant
            i <= packs.len(),
            names == pack_names(packs@),
            pack_names(r@) == without_repetition(names.take(i as int)),
        decreases packs.len() - i,
    {
        let ghost before = pack_names(r@);
        assert(names.take(i + 1).drop_last() =~= names.take(i as int));
        assert(names[i as int] == packs@[i as int]@);
        if !lists_pack(&r, &packs[i]) {
            r.push(packs[i].clone());
            assert(pack_names(r@) =~= before.push(names[i as int]));
        }
        i += 1;
    }
    assert(names.take(i as int) =~= names);
    r
}

/// Prepares the creation of a pack: joins the indexes of the snapshots, and
/// decides on the number of frames if none is given.
pub fn prepare_pack(
    indexes: &[PackIndexV1],
    compression_level: i32,
    num_workers: u32,
    frames: u32,
) -> (r: Result<PreparedPack, PrepareError>)
    requires
        forall|i: int| 0 <= i < indexes@.len() ==> merge::can_walk(#[trigger] indexes@[i]),
        merge::path_count(indexes@, indexes@.len() as int) <= u32::MAX + 1,
        merge::object_count(indexes@, indexes@.len() as int) <= u32::MAX + 1,
    ensures
        match r {
            Ok(p) => {
                &&& indexes@.len() > 0
                &&& merge::merge_fault(indexes@, indexes@.len() as int) is None
                &&& p.index.wf()
                &&& laws::holds_snapshots(
                    p.index@,
                    merge::merged(indexes@, indexes@.len() as int),
                )
                &&& merge::described_by(p.index@, indexes@, indexes@.len() as int)
                &&& p.options.compression_level == compression_level
                &&& p.options.compression_window_log == DEFAULT_COMPRESSION_WINDOW_LOG
                &&& p.options.num_workers == num_workers
                &&& p.options.num_frames == (if frames == 0 {
                    frame_hint(model::total_size(p.index@.metadata)) % 0x1_0000_0000
                } else {
                    frames as int
                })
                &&& frames == 0 ==> model::total_size(p.index@.metadata) <= u64::MAX
            },
            Err(PrepareError::NoSnapshots) => indexes@.len() == 0,
            Err(PrepareError::TooLarge) => {
                &&& frames == 0
                &&& indexes@.len() > 0
                &&& merge::merge_fault(indexes@, indexes@.len() as int) is None
                &&& exists|index: PackIndexV1|
                    #![trigger index.wf()]
                    laws::holds_snapshots(index@, merge::merged(indexes@, indexes@.len() as int))
                        && merge::described_by(index@, indexes@, indexes@.len() as int)
                        && model::total_size(index@.metadata) > u64::MAX
            },
            Err(PrepareError::PackError(e)) => indexes@.len() > 0 && merge::is_merge_error(
                e,
                merge::merge_fault(indexes@, indexes@.len() as int),
            ),
        },
{
    if indexes.len() == 0 {
        return Err(PrepareError::NoSnapshots);
    }
    let index = match merge_indexes(indexes) {
        Ok(index) => index,
        Err(e) => {
            return Err(PrepareError::PackError(e));
        },
    };
    let num_frames: u32 = if frames == 0 {
        match index.checked_object_size_total() {
            Some(total) => get_frame_size_hint(total),
            None => {
                assert(index.wf());
                return Err(PrepareError::TooLarge);
            },
        }
    } else {
        frames
    };
    let options = PackOptions {
        compression_window_log: DEFAULT_COMPRESSION_WINDOW_LOG,
        compression_level,
        num_workers,
        num_frames,
    };
    Ok(PreparedPack { index, options })
}

/// Tells whether a pack is one of the given ones.
fn is_among(packs: &[PackId], pack: &PackId) -> (r: bool)
    ensures
        r == search::pack_names(packs@).contains(pack@),
{
    let ghost names = search::pack_names(packs@);
    let mut i: usize = 0;
    while i < packs.len()
        invariant
            i <= packs.len(),
            names == search::pack_names(packs@),
            forall|j: int| 0 <= j < i ==> #[trigger] names[j] != pack@,
        decreases packs.len() - i,
    {
        assert(names[i as int] == packs@[i as int]@);
        if packs[i].same(pack) {
            return true;
        }
        i += 1;
    }
    false
}

/// The new current snapshot once packs were packed: if the current HEAD was
/// referencing a snapshot in an index which has been packed, it is updated to
/// point into the new pack.
pub fn head_after_pack(head: &SnapshotId, packed: &[PackId], pack: &PackId) -> (r: Option<
    SnapshotId,
>)
    requires
        search::pack_names(packed@).contains(head@.pack) ==> id::is_id(head@.tag),
    ensures
        match r {
            Some(new_head) => search::pack_names(packed@).contains(head@.pack) && new_head@ == (
            SnapshotIdView { pack: pack@, tag: head@.tag }),
            None => !search::pack_names(packed@).contains(head@.pack),
        },
{
    if is_among(packed, head.pack()) {
        match SnapshotId::new(pack.clone(), head.tag()) {
            Ok(new_head) => Some(new_head),
            Err(_) => {
                assert(false);
                None
            },
        }
    } else {
        None
    }
}

/// Tells whether there is nothing to extract: the snapshot is already extracted
/// and is not to be reset.
pub fn is_already_extracted(head: &Option<SnapshotId>, new_head: &SnapshotId, reset: bool) -> (r:
    bool)
    ensures
        r == (!reset && (*head matches Some(h) && h@ == new_head@)),
{
    match head {
        Some(head) => !reset && head.same(new_head),
        None => false,
    }
}

/// The summary of an extraction.
pub open spec fn summary_text(result: checkout::ExtractResult, id: SnapshotIdView) -> Seq<char> {
    "A \t"@ + text::decimal_of(result.added_file_count as nat) + " files\nD \t"@ + text::decimal_of(
        result.removed_file_count as nat,
    ) + " files\nM \t"@ + text::decimal_of(result.modified_file_count as nat)
        + " files\nExtracted '"@ + id::canonical(id) + "'\n"@
}

/// Formats the summary of an extraction.
pub fn extract_summary(result: &checkout::ExtractResult, new_head: &SnapshotId) -> (r: String)
    ensures
        r@ == summary_text(*result, new_head@),
{
    let mut s = "A \t".to_owned();
    s.append(decimal(result.added_file_count as u64).as_str());
    s.append(" files\nD \t");
    s.append(decimal(result.removed_file_count as u64).as_str());
    s.append(" files\nM \t");
    s.append(decimal(result.modified_file_count as u64).as_str());
    s.append(" files\nExtracted '");
    s.append(new_head.to_text().as_str());
    s.append("'\n");
    s
}

/// Where the list of files to store comes from.
#[derive(Clone, Copy, Debug, PartialEq, Eq, Structural)]
pub enum FileSource {
    /// A list with the given separator.
    List(u8),
    /// All files below the current directory.
    Everything,
}

/// Decides where the list of files to store comes from.
pub fn file_source(files_from: bool, files_from0: bool) -> (r: Result<FileSource, String>)
    ensures
        match r {
            Ok(FileSource::List(separator)) => files_from != files_from0 && separator == (
            if files_from {
                10
            } else {
                0int
            }),
            Ok(FileSource::Everything) => !files_from && !files_from0,
            Err(e) => files_from && files_from0 && e@ == "Invalid options!"@,
        },
{
    if files_from && files_from0 {
        return Err("Invalid options!".to_owned());
    }
    if files_from {
        Ok(FileSource::List(10))
    } else if files_from0 {
        Ok(FileSource::List(0))
    } else {
        Ok(FileSource::Everything)
    }
}

/// Splits a list of files.
pub fn read_files_list(buf: &[u8], separator: u8) -> (r: Vec<Vec<u8>>)
    ensures
        split::byte_views(r@) == split::without_empty(split::pieces_of(buf@, separator)),
{
    split_list(buf, separator)
}

/// The ID of a snapshot that is stored in a loose pack of its own.
pub fn loose_snapshot(tag: &str) -> (r: Result<SnapshotId, IdError>)
    ensures
        match r {
            Ok(s) => id::is_id(tag@) && s@ == (SnapshotIdView {
                pack: LOOSE_DIR@ + "/"@ + tag@,
                tag: tag@,
            }),
            Err(e) => !id::is_id(tag@) && (e matches IdError::InvalidSnapshot(t) && t@ == tag@),
        },
{
    let mut name = LOOSE_DIR.to_owned();
    name.append("/");
    name.append(tag);
    SnapshotId::new(PackId::Pack(name), tag)
}

/// The last entry for each path that was asked for.
pub open spec fn is_selection(
    selected: Seq<FileEntryView>,
    es: Seq<FileEntryView>,
    paths: Seq<Seq<u8>>,
) -> bool {
    &&& selected.len() == paths.len()
    &&& forall|i: int|
        0 <= i < paths.len() ==> is_last_for(#[trigger] selected[i], es, paths[i])
}

/// The entry is the last one with the path.
pub open spec fn is_last_for(e: FileEntryView, es: Seq<FileEntryView>, path: Seq<u8>) -> bool {
    exists|k: int| #[trigger]
        lookup::is_last(checkout::paths_in(es), k) && es[k] == e && e.path == path
}

/// Finds the entries for all paths that were specified on the command line, and
/// fails if any are missing.
pub fn select_entries(entries: &[FileEntry], paths: &[Vec<u8>]) -> (r: Result<
    Vec<FileEntry>,
    String,
>)
    ensures
        ({
            let es = packidx::entry_views(entries@);
            match r {
                Ok(selected) => is_selection(
                    packidx::entry_views(selected@),
                    es,
                    split::byte_views(paths@),
                ),
                Err(e) => {
                    &&& exists|i: int|
                        0 <= i < paths@.len() && !checkout::paths_in(es).contains(
                            (#[trigger] paths@[i])@,
                        )
                    &&& e@ == "Some of the paths did not match files in the snapshot!"@
                },
            }
        }),
{
    let ghost es = packidx::entry_views(entries@);
    let ghost all = checkout::paths_in(es);
    let mut table = PositionTable::new();
    let mut i: usize = 0;
    while i < entries.len()
        invariant
            i <= entries.len(),
            es == packidx::entry_views(entries@),
            all == checkout::paths_in(es),
            table.wf(),
            table@ == all.take(i as int),
        decreases entries.len() - i,
    {
        table.push(entries[i].path.duplicate());
        assert(table@ =~= all.take(i + 1));
        i += 1;
    }
    assert(all.take(i as int) =~= all);
    let mut selected: Vec<FileEntry> = Vec::new();
    let mut i: usize = 0;
    while i < paths.len()
        invariant
            i <= paths.len(),
            es == packidx::entry_views(entries@),
            all == checkout::paths_in(es),
            table.wf(),
            table@ == all,
            all.len() == entries@.len(),
            selected@.len() == i,
            forall|j: int|
                0 <= j < i ==> is_last_for((#[trigger] selected@[j])@, es, paths@[j]@),
        decreases paths.len() - i,
    {
        match table.find_last(paths[i].as_slice()) {
            Some(k) => {
                let e = entries[k].clone();
                selected.push(e);
                proof {
                    assert(es[k as int] == entries@[k as int]@);
                    assert(all[k as int] == es[k as int].path);
                    assert(lookup::is_last(all, k as int));
                    assert(is_last_for(e@, es, paths@[i as int]@));
                }
            },
            None => {
                assert(!all.contains(paths@[i as int]@));
                return Err("Some of the paths did not match files in the snapshot!".to_owned());
            },
        }
        i += 1;
    }
    proof {
        let views = packidx::entry_views(selected@);
        assert forall|j: int| 0 <= j < paths@.len() implies is_last_for(
            #[trigger] views[j],
            es,
            split::byte_views(paths@)[j],
        ) by {
            assert(is_last_for(selected@[j]@, es, paths@[j]@));
        }
    }
    Ok(selected)
}

/// Checks that it was said what to collect.
pub fn check_gc_options(loose_snapshots: bool, loose_objects: bool) -> (r: Result<(), String>)
    ensures
        match r {
            Ok(_) => loose_snapshots || loose_objects,
            Err(e) => !loose_snapshots && !loose_objects && e@ == "Invalid options!"@,
        },
{
    if !loose_snapshots && !loose_objects {
        Err("Invalid options!".to_owned())
    } else {
        Ok(())
    }
}

/// The pack to explode: the one that was found, or an error.
pub fn pack_to_explode(found: Result<Option<PackId>, IdError>, pack_name: &str) -> (r: Result<
    PackId,
    Error,
>)
    ensures
        match found {
            Ok(Some(pack)) => r == Ok::<PackId, Error>(pack),
            Ok(None) => r matches Err(Error::PackNotFound(name)) && name@ == pack_name@,
            Err(e) => r == Err::<PackId, Error>(Error::IdError(e)),
        },
{
    match found {
        Ok(Some(pack)) => Ok(pack),
        Ok(None) => Err(Error::PackNotFound(pack_name.to_owned())),
        Err(e) => Err(Error::IdError(e)),
    }
}

/// There are just enough frames for each to hold no more than 512 MiB of the
/// objects on average.
pub proof fn law_frames_hold_the_data(object_size_total: nat)
    ensures
        object_size_total <= frame_hint(object_size_total) * 536870912,
        object_size_total > 0 ==> (frame_hint(object_size_total) - 1) * 536870912
            < object_size_total,
        object_size_total == 0 ==> frame_hint(object_size_total) == 0,
{
}

/// Names without repetition are the same names, each once.
pub proof fn law_every_name_is_kept_once(names: Seq<Seq<char>>)
    ensures
        without_repetition(names).no_duplicates(),
        forall|n: Seq<char>| #[trigger]
            without_repetition(names).contains(n) <==> names.contains(n),
    decreases names.len(),
{
    if names.len() > 0 {
        let init = names.drop_last();
        let rest = without_repetition(init);
        let now = without_repetition(names);
        law_every_name_is_kept_once(init);
        assert forall|n: Seq<char>| #[trigger] now.contains(n) <==> names.contains(n) by {
            assert(names =~= init.push(names.last()));
            if now.contains(n) {
                let i = now.index_of(n);
                if i < rest.len() {
                    assert(rest[i] == n);
                    assert(rest.contains(n));
                    let j = init.index_of(n);
                    assert(names[j] == n);
                } else {
                    assert(names[names.len() - 1] == n);
                }
            }
            if names.contains(n) {
                let i = names.index_of(n);
                if i < init.len() {
                    assert(init[i] == n);
                    assert(init.contains(n));
                    assert(rest.contains(n));
                    let j = rest.index_of(n);
                    assert(now[j] == n);
                } else if !rest.contains(n) {
                    assert(now[rest.len() as int] == n);
                }
            }
        }
    } else {
        assert forall|n: Seq<char>| #[trigger] without_repetition(names).contains(n)
            <==> names.contains(n) by {
            assert(!names.contains(n));
        }
    }
}

/// Names keep the order in which they first occur.
pub proof fn law_first_occurrences_stay_in_order(names: Seq<Seq<char>>, i: int)
    requires
        0 <= i <= names.len(),
    ensures
        without_repetition(names.take(i)).is_prefix_of(without_repetition(names)),
    decreases names.len(),
{
    if i < names.len() {
        let init = names.drop_last();
        law_first_occurrences_stay_in_order(init, i);
        assert(init.take(i) =~= names.take(i));
        let start = without_repetition(names.take(i));
        let rest = without_repetition(init);
        assert(start == rest.subrange(0, start.len() as int));
        assert(start =~= without_repetition(names).subrange(0, start.len() as int));
    } else {
        assert(names.take(i) =~= names);
        let all = without_repetition(names);
        assert(all =~= all.subrange(0, all.len() as int));
    }
}

/// A selection has an entry for each of the paths, in their order, and no entry
/// for that path stands behind it.
pub proof fn law_selection_has_each_path(
    selected: Seq<FileEntryView>,
    es: Seq<FileEntryView>,
    paths: Seq<Seq<u8>>,
    i: int,
)
    requires
        is_selection(selected, es, paths),
        0 <= i < paths.len(),
    ensures
        selected.len() == paths.len(),
        selected[i].path == paths[i],
        exists|k: int|
            {
                &&& 0 <= k < es.len()
                &&& #[trigger] es[k] == selected[i]
                &&& forall|j: int| k < j < es.len() ==> (#[trigger] es[j]).path != paths[i]
            },
{
    assert(is_last_for(selected[i], es, paths[i]));
    let all = checkout::paths_in(es);
    let k = choose|k: int| #[trigger]
        lookup::is_last(all, k) && es[k] == selected[i] && selected[i].path == paths[i];
    assert(es[k] == selected[i]);
    assert forall|j: int| k < j < es.len() implies (#[trigger] es[j]).path != paths[i] by {
        assert(all[j] != all[k]);
    }
}

/// A line that starts with a letter and a tab, and counts files.
pub open spec fn count_line(letter: char, count: nat) -> Seq<char> {
    seq![letter, ' ', '\t'] + text::decimal_of(count) + seq![
        ' ',
        'f',
        'i',
        'l',
        'e',
        's',
        '\n',
    ]
}

/// A summary starts with three lines, which count the files that were added,
/// deleted and modified. The rest names the snapshot, and does not depend on the
/// counts.
pub proof fn law_summary_counts_files(
    result: checkout::ExtractResult,
    other: checkout::ExtractResult,
    id: SnapshotIdView,
)
    ensures
        ({
            let start = count_line('A', result.added_file_count as nat) + count_line(
                'D',
                result.removed_file_count as nat,
            ) + count_line('M', result.modified_file_count as nat);
            let other_start = count_line('A', other.added_file_count as nat) + count_line(
                'D',
                other.removed_file_count as nat,
            ) + count_line('M', other.modified_file_count as nat);
            let shown = summary_text(result, id);
            let other_shown = summary_text(other, id);
            &&& start.is_prefix_of(shown)
            &&& shown.skip(start.len() as int) == other_shown.skip(other_start.len() as int)
            &&& text::occurs(shown, id.pack + seq![':'] + id.tag)
        }),
{
    let start = lemma_summary(result, id);
    let other_start = lemma_summary(other, id);
    let name = id.pack + seq![':'] + id.tag;
    reveal_strlit(":");
    assert(":"@ =~= seq![':']);
    let shown = summary_text(result, id);
    let before = start + "Extracted '"@;
    let after = "'\n"@;
    assert(id::canonical(id) == name);
    assert(shown =~= before + name + after);
    text::law_occurring_text_is_between_others(shown, name);
}

proof fn lemma_summary(result: checkout::ExtractResult, id: SnapshotIdView) -> (start: Seq<char>)
    ensures
        start == count_line('A', result.added_file_count as nat) + count_line(
            'D',
            result.removed_file_count as nat,
        ) + count_line('M', result.modified_file_count as nat),
        summary_text(result, id) == start + ("Extracted '"@ + id::canonical(id) + "'\n"@),
        start.is_prefix_of(summary_text(result, id)),
        summary_text(result, id).skip(start.len() as int) == "Extracted '"@ + id::canonical(id)
            + "'\n"@,
{
    reveal_strlit("A \t");
    reveal_strlit(" files\nD \t");
    reveal_strlit(" files\nM \t");
    reveal_strlit(" files\nExtracted '");
    reveal_strlit("Extracted '");
    let start = count_line('A', result.added_file_count as nat) + count_line(
        'D',
        result.removed_file_count as nat,
    ) + count_line('M', result.modified_file_count as nat);
    let rest = "Extracted '"@ + id::canonical(id) + "'\n"@;
    let shown = summary_text(result, id);
    assert(shown =~= start + rest);
    assert(start =~= shown.subrange(0, start.len() as int));
    assert(shown.skip(start.len() as int) =~= rest);
    start
}

} // verus!
