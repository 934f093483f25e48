//! Pack files: a header in a skippable frame, followed by compressed frames.

use super::algo;
use super::constants::PACK_HEADER_MAGIC;
use super::error::Error;
use crate::ioerror;
use crate::ioerror::{IoError, IoErrorKind};
use crate::packidx::packidx;
use crate::packidx::packidx::FileEntryView;
use crate::packidx::{FileEntry, ObjectMetadata};
use crate::select;
use vstd::prelude::*;
use vstd::slice::slice_subrange;

verus! {

/// The bits that the magic number of every skippable frame has.
pub const SKIPPABLE_MAGIC_MASK: u32 = 0x184D2A50;

/// The number with the given bytes, the least significant one first.
pub open spec fn le32(b: Seq<u8>) -> u32 {
    (b[0] + 0x100 * b[1] + 0x1_0000 * b[2] + 0x100_0000 * b[3]) as u32
}

/// The bytes of a number, the least significant one first.
pub open spec fn le32_bytes(v: u32) -> Seq<u8> {
    seq![
        (v % 0x100) as u8,
        (v / 0x100 % 0x100) as u8,
        (v / 0x1_0000 % 0x100) as u8,
        (v / 0x100_0000) as u8,
    ]
}

pub proof fn lemma_le32(v: u32)
    ensures
        le32(le32_bytes(v)) == v,
{
    assert(v == v % 0x100 + 0x100 * (v / 0x100 % 0x100) + 0x1_0000 * (v / 0x1_0000 % 0x100)
        + 0x100_0000 * (v / 0x100_0000));
}

/// The data starts with the magic number of a skippable frame.
pub open spec fn is_skippable(data: Seq<u8>) -> bool {
    data.len() >= 4 && le32(data.take(4)) & SKIPPABLE_MAGIC_MASK == SKIPPABLE_MAGIC_MASK
}

/// The content of the skippable frame at the start of the data.
pub open spec fn skippable_content(data: Seq<u8>) -> Option<Seq<u8>> {
    if is_skippable(data) && data.len() >= 8 && data.len() >= 8 + le32(data.subrange(4, 8)) {
        Some(data.subrange(8, 8 + le32(data.subrange(4, 8))))
    } else {
        None
    }
}

/// A skippable frame with the given content.
pub open spec fn skippable_frame(content: Seq<u8>) -> Seq<u8> {
    le32_bytes(SKIPPABLE_MAGIC_MASK) + le32_bytes((content.len() % 0x1_0000_0000) as u32) + content
}

fn read_le32(data: &[u8], at: usize) -> (r: u32)
    requires
        at + 4 <= data@.len(),
    ensures
        r == le32(data@.subrange(at as int, at + 4)),
{
    assert(data@.subrange(at as int, at + 4).len() == 4);
    (data[at] as u32) + 0x100 * (data[at + 1] as u32) + 0x1_0000 * (data[at + 2] as u32)
        + 0x100_0000 * (data[at + 3] as u32)
}

fn write_le32(out: &mut Vec<u8>, v: u32)
    ensures
        final(out)@ == old(out)@ + le32_bytes(v),
{
    let ghost before = out@;
    out.push((v % 0x100) as u8);
    out.push((v / 0x100 % 0x100) as u8);
    out.push((v / 0x1_0000 % 0x100) as u8);
    out.push((v / 0x100_0000) as u8);
    assert(out@ =~= before + le32_bytes(v));
}

/// Reads a Zstandard skippable frame from the start of `data` and writes its
/// content to `buf`. Returns the size of the frame, *not* that of the content.
pub fn read_skippable_frame(data: &[u8], buf: &mut Vec<u8>) -> (r: Result<u64, IoError>)
    ensures
        match r {
            Ok(size) => skippable_content(data@) matches Some(c) && final(buf)@ == c && size
                == c.len() + 8,
            Err(e) => {
                &&& skippable_content(data@) is None
                &&& final(buf)@ == old(buf)@
                &&& data@.len() >= 4 && !is_skippable(data@) ==> e.kind == IoErrorKind::InvalidData
                    && e.message@ == "Not a Zstandard skippable frame!"@
                &&& data@.len() < 4 || is_skippable(data@) ==> e.kind
                    == IoErrorKind::UnexpectedEof && e.message@ == ioerror::eof_text()
            },
        },
{
    if data.len() < 4 {
        return Err(IoError::unexpected_eof());
    }
    // Ensure this is a skippable frame.
    let magic = read_le32(data, 0);
    assert(data@.subrange(0, 4) =~= data@.take(4));
    if magic & SKIPPABLE_MAGIC_MASK != SKIPPABLE_MAGIC_MASK {
        return Err(IoError::new(IoErrorKind::InvalidData, "Not a Zstandard skippable frame!"));
    }
    if data.len() < 8 {
        return Err(IoError::unexpected_eof());
    }
    let size = read_le32(data, 4) as usize;
    if data.len() - 8 < size {
        return Err(IoError::unexpected_eof());
    }
    buf.clear();
    buf.extend_from_slice(slice_subrange(data, 8, 8 + size));
    assert(buf@ =~= skippable_content(data@)->0);
    // Compute overall frame size.
    Ok(8 + (size as u64))
}

/// Writes a Zstandard skippable frame with the given user data. Returns the
/// number of bytes written (the size of the frame, including the magic number
/// and header).
pub fn write_skippable_frame(out: &mut Vec<u8>, buf: &[u8]) -> (r: Result<u64, IoError>)
    requires
        buf@.len() + 8 <= u64::MAX,
    ensures
        r matches Ok(size) && size == buf@.len() + 8,
        final(out)@ == old(out)@ + skippable_frame(buf@),
{
    let ghost before = out@;
    write_le32(out, SKIPPABLE_MAGIC_MASK);
    let len = buf.len() as u64;
    let short = #[verifier::truncate] (len as u32);
    assert(short == len % 0x1_0000_0000) by (bit_vector)
        requires
            short == len as u32,
    ;
    write_le32(out, short);
    out.extend_from_slice(buf);
    assert(out@ =~= before + skippable_frame(buf@));
    // Compute overall frame size.
    Ok(8 + buf.len() as u64)
}

/// Where the parts of a frame are.
proof fn lemma_frame_parts(magic: Seq<u8>, size: Seq<u8>, content: Seq<u8>, rest: Seq<u8>)
    requires
        magic.len() == 4,
        size.len() == 4,
    ensures
        ({
            let data = magic + size + content + rest;
            &&& data.len() == 8 + content.len() + rest.len()
            &&& data.take(4) == magic
            &&& data.subrange(4, 8) == size
            &&& data.subrange(8, 8 + content.len() as int) == content
        }),
{
    let data = magic + size + content + rest;
    assert(data.take(4) =~= magic);
    assert(data.subrange(4, 8) =~= size);
    assert(data.subrange(8, 8 + content.len() as int) =~= content);
}

/// Reading a skippable frame gives the content back that was written, whatever
/// follows the frame.
pub proof fn law_skippable_frame_round_trip(content: Seq<u8>, rest: Seq<u8>)
    requires
        content.len() <= u32::MAX,
    ensures
        skippable_content(skippable_frame(content) + rest) == Some(content),
        skippable_frame(content).len() == content.len() + 8,
{
    let magic = le32_bytes(SKIPPABLE_MAGIC_MASK);
    let size = le32_bytes(content.len() as u32);
    lemma_le32(SKIPPABLE_MAGIC_MASK);
    lemma_le32(content.len() as u32);
    lemma_frame_parts(magic, size, content, rest);
    assert(SKIPPABLE_MAGIC_MASK & SKIPPABLE_MAGIC_MASK == SKIPPABLE_MAGIC_MASK) by (bit_vector);
}

/// Represents a compressed Zstandard frame in the .pack file.
#[derive(Clone, Copy, Debug, PartialEq, Eq, Structural)]
pub struct PackFrame {
    /// The size of the frame, in bytes.
    pub frame_size: u64,
    /// The size of the data stream in the frame, once decompressed, in bytes.
    pub decompressed_size: u64,
}

/// Represents the custom header in the beginning of a .pack file.
#[derive(Clone, Debug)]
pub struct PackHeader {
    /// Valid pack headers have this value set to [`PACK_HEADER_MAGIC`].
    pub magic: u64,
    /// The list of frames in the pack file, sorted by their byte offsets.
    pub frames: Vec<PackFrame>,
}

impl PackHeader {
    /// Create a new pack header.
    pub fn new(frames: Vec<PackFrame>) -> (r: Self)
        ensures
            r.magic == PACK_HEADER_MAGIC,
            r.frames == frames,
    {
        PackHeader { magic: PACK_HEADER_MAGIC, frames }
    }

    /// Verifies the header magic.
    pub fn is_valid(&self) -> (r: bool)
        ensures
            r == (self.magic == PACK_HEADER_MAGIC),
    {
        self.magic == PACK_HEADER_MAGIC
    }
}

impl Default for PackHeader {
    fn default() -> (r: Self)
        ensures
            r.magic == PACK_HEADER_MAGIC,
            r.frames@ == Seq::<PackFrame>::empty(),
    {
        PackHeader { magic: PACK_HEADER_MAGIC, frames: Vec::new() }
    }
}

/// The sizes of the frames.
pub open spec fn frame_sizes(frames: Seq<PackFrame>) -> Seq<u64> {
    frames.map_values(|f: PackFrame| f.frame_size)
}

/// The sizes of the data streams in the frames.
pub open spec fn decompressed_sizes(frames: Seq<PackFrame>) -> Seq<u64> {
    frames.map_values(|f: PackFrame| f.decompressed_size)
}

/// Where each of a list of pieces starts, if they follow one another.
pub open spec fn starts_of(sizes: Seq<u64>) -> Seq<u64> {
    Seq::new(sizes.len(), |i: int| algo::range_sum(sizes, 0, i) as u64)
}

/// The starts of all pieces fit in 64 bits.
pub open spec fn starts_fit(sizes: Seq<u64>) -> bool {
    sizes.len() > 0 ==> algo::range_sum(sizes, 0, sizes.len() - 1) <= u64::MAX
}

proof fn lemma_starts_fit(sizes: Seq<u64>, i: int)
    requires
        starts_fit(sizes),
        0 <= i < sizes.len(),
    ensures
        algo::range_sum(sizes, 0, i) <= u64::MAX,
{
    algo::lemma_range_sum_split(sizes, 0, i, sizes.len() - 1);
}

/// Computes where each of a list of pieces starts.
fn compute_starts(sizes: &[u64]) -> (r: Vec<u64>)
    requires
        starts_fit(sizes@),
    ensures
        r@ == starts_of(sizes@),
{
    let mut r: Vec<u64> = Vec::new();
    let mut at: u64 = 0;
    let mut i: usize = 0;
    while i < sizes.len()
        invariant
            i <= sizes.len(),
            starts_fit(sizes@),
            i < sizes.len() ==> at == algo::range_sum(sizes@, 0, i as int),
            r@ =~= starts_of(sizes@).take(i as int),
        decreases sizes.len() - i,
    {
        r.push(at);
        if i + 1 < sizes.len() {
            proof {
                lemma_starts_fit(sizes@, i + 1);
            }
            at = at + sizes[i];
        }
        i += 1;
    }
    r
}

/// Tells whether the starts of all pieces fit in 64 bits.
fn check_starts(sizes: &[u64]) -> (r: bool)
    ensures
        r == starts_fit(sizes@),
{
    if sizes.len() == 0 {
        return true;
    }
    let mut at: u64 = 0;
    let mut i: usize = 0;
    while i < sizes.len() - 1
        invariant
            0 < sizes.len(),
            i <= sizes.len() - 1,
            at == algo::range_sum(sizes@, 0, i as int),
        decreases sizes.len() - i,
    {
        if at > u64::MAX - sizes[i] {
            proof {
                algo::lemma_range_sum_split(sizes@, 0, i + 1, sizes@.len() - 1);
            }
            return false;
        }
        at = at + sizes[i];
        i += 1;
    }
    true
}

fn list_frame_sizes(frames: &[PackFrame]) -> (r: Vec<u64>)
    ensures
        r@ == frame_sizes(frames@),
{
    let mut r: Vec<u64> = Vec::new();
    let mut i: usize = 0;
    while i < frames.len()
        invariant
            i <= frames.len(),
            r@ =~= frame_sizes(frames@).take(i as int),
        decreases frames.len() - i,
    {
        r.push(frames[i].frame_size);
        i += 1;
    }
    r
}

fn list_decompressed_sizes(frames: &[PackFrame]) -> (r: Vec<u64>)
    ensures
        r@ == decompressed_sizes(frames@),
{
    let mut r: Vec<u64> = Vec::new();
    let mut i: usize = 0;
    while i < frames.len()
        invariant
            i <= frames.len(),
            r@ =~= decompressed_sizes(frames@).take(i as int),
        decreases frames.len() - i,
    {
        r.push(frames[i].decompressed_size);
        i += 1;
    }
    r
}

/// Returns a list of the frame offsets, computed using the order and sizes of
/// the given frames.
pub fn compute_frame_offsets(frames: &[PackFrame]) -> (r: Vec<u64>)
    requires
        starts_fit(frame_sizes(frames@)),
    ensures
        r@ == starts_of(frame_sizes(frames@)),
{
    compute_starts(list_frame_sizes(frames).as_slice())
}

/// Returns a list of the data offsets, computed using the order and
/// decompressed sizes of the given frames.
pub fn compute_frame_decompressed_offset(frames: &[PackFrame]) -> (r: Vec<u64>)
    requires
        starts_fit(decompressed_sizes(frames@)),
    ensures
        r@ == starts_of(decompressed_sizes(frames@)),
{
    compute_starts(list_decompressed_sizes(frames).as_slice())
}

/// Tells whether all offsets of the frames and of their data fit in 64 bits.
pub fn frames_fit(frames: &[PackFrame]) -> (r: bool)
    ensures
        r == (starts_fit(frame_sizes(frames@)) && starts_fit(decompressed_sizes(frames@))),
{
    check_starts(list_frame_sizes(frames).as_slice()) && check_starts(
        list_decompressed_sizes(frames).as_slice(),
    )
}

/// The last piece that starts at or before the offset.
pub open spec fn piece_at(starts: Seq<u64>, offset: u64) -> Option<int>
    decreases starts.len(),
{
    if starts.len() == 0 {
        None
    } else if starts.last() <= offset {
        Some(starts.len() - 1)
    } else {
        piece_at(starts.drop_last(), offset)
    }
}

/// What the last piece that starts at or before the offset is.
pub proof fn lemma_piece_at(starts: Seq<u64>, offset: u64)
    ensures
        match piece_at(starts, offset) {
            Some(i) => 0 <= i < starts.len() && starts[i] <= offset && forall|j: int|
                i < j < starts.len() ==> starts[j] > offset,
            None => forall|j: int| 0 <= j < starts.len() ==> starts[j] > offset,
        },
    decreases starts.len(),
{
    if starts.len() > 0 && starts.last() > offset {
        lemma_piece_at(starts.drop_last(), offset);
        assert(forall|j: int| 0 <= j < starts.len() - 1 ==> starts[j] == starts.drop_last()[j]);
    }
}

fn find_piece(starts: &[u64], offset: u64) -> (r: Option<usize>)
    ensures
        match r {
            Some(i) => piece_at(starts@, offset) == Some(i as int) && i < starts@.len(),
            None => piece_at(starts@, offset) is None,
        },
{
    let mut n: usize = starts.len();
    assert(starts@.take(n as int) =~= starts@);
    while n > 0
        invariant
            n <= starts.len(),
            piece_at(starts@.take(n as int), offset) == piece_at(starts@, offset),
        decreases n,
    {
        assert(starts@.take(n as int).drop_last() =~= starts@.take(n - 1));
        if starts[n - 1] <= offset {
            return Some(n - 1);
        }
        n -= 1;
    }
    None
}

/// The entry with its offset counted from `start`.
pub open spec fn local_entry(e: FileEntryView, start: u64) -> FileEntryView {
    FileEntryView {
        metadata: ObjectMetadata {
            offset: (e.metadata.offset - start) as u64,
            size: e.metadata.size,
        },
        ..e
    }
}

/// The entries that lie in frame `k`, with offsets that are relative to it.
pub open spec fn entries_in_frame(
    starts: Seq<u64>,
    es: Seq<FileEntryView>,
    k: int,
) -> Seq<FileEntryView>
    decreases es.len(),
{
    if es.len() == 0 {
        Seq::empty()
    } else {
        let rest = entries_in_frame(starts, es.drop_last(), k);
        if piece_at(starts, es.last().metadata.offset) == Some(k) {
            rest.push(local_entry(es.last(), starts[k]))
        } else {
            rest
        }
    }
}

/// The lists are, frame by frame, the entries that lie in the frame.
pub open spec fn are_assigned(
    lists: Seq<Vec<FileEntry>>,
    starts: Seq<u64>,
    es: Seq<FileEntryView>,
) -> bool {
    &&& lists.len() == starts.len()
    &&& forall|k: int|
        0 <= k < lists.len() ==> packidx::entry_views((#[trigger] lists[k])@) == entries_in_frame(
            starts,
            es,
            k,
        )
}

/// Groups and transforms the list of [`FileEntry`]-s taken from a pack index
/// (and with absolute offsets into the decompressed stream) into sets of
/// entries per frame, with adjusted (relative) offsets to that corresponding
/// Zstandard frame. Objects are assumed to not be split across two frames.
pub fn assign_to_frames(frames: &[PackFrame], entries: &[FileEntry]) -> (r: Result<
    Vec<Vec<FileEntry>>,
    Error,
>)
    requires
        starts_fit(decompressed_sizes(frames@)),
    ensures
        match r {
            Ok(lists) => (frames@.len() > 0 || entries@.len() == 0) && are_assigned(
                lists@,
                starts_of(decompressed_sizes(frames@)),
                packidx::entry_views(entries@),
            ),
            Err(e) => frames@.len() == 0 && entries@.len() > 0 && e == Error::CorruptPack,
        },
{
    let starts = compute_frame_decompressed_offset(frames);
    let ghost es = packidx::entry_views(entries@);
    let mut lists: Vec<Vec<FileEntry>> = Vec::new();
    let mut k: usize = 0;
    while k < frames.len()
        invariant
            k <= frames.len(),
            lists@.len() == k,
            forall|j: int| 0 <= j < k ==> (#[trigger] lists@[j])@.len() == 0,
        decreases frames.len() - k,
    {
        lists.push(Vec::new());
        k += 1;
    }
    let mut i: usize = 0;
    proof {
        assert(es.take(0) =~= Seq::empty());
        assert forall|k: int| 0 <= k < lists@.len() implies packidx::entry_views(
            (#[trigger] lists@[k])@,
        ) == entries_in_frame(starts@, es.take(0), k) by {
            assert(packidx::entry_views(lists@[k]@) =~= Seq::empty());
        }
    }
    while i < entries.len()
        invariant
            i <= entries.len(),
            i > 0 ==> frames@.len() > 0,
            es == packidx::entry_views(entries@),
            starts@ == starts_of(decompressed_sizes(frames@)),
            starts_fit(decompressed_sizes(frames@)),
            are_assigned(lists@, starts@, es.take(i as int)),
        decreases entries.len() - i,
    {
        let entry = &entries[i];
        proof {
            lemma_piece_at(starts@, entry.metadata.offset);
            if frames@.len() > 0 {
                assert(starts@[0] == 0);
            }
            assert(es[i as int] == entry@);
            assert(es.take(i + 1).drop_last() =~= es.take(i as int));
        }
        let k = match find_piece(starts.as_slice(), entry.metadata.offset) {
            Some(k) => k,
            None => {
                return Err(Error::CorruptPack);
            },
        };
        // Compute the offset relative to that frame.
        let local_offset = entry.metadata.offset - starts[k];
        let mut local = entry.clone();
        local.metadata = ObjectMetadata { offset: local_offset, size: entry.metadata.size };
        let ghost before = lists@;
        let ghost pushed = local@;
        assert(pushed =~= local_entry(entry@, starts@[k as int]));
        lists[k].push(local);
        proof {
            assert forall|j: int| 0 <= j < lists@.len() implies packidx::entry_views(
                (#[trigger] lists@[j])@,
            ) == entries_in_frame(starts@, es.take(i + 1), j) by {
                if j == k {
                    assert(packidx::entry_views(lists@[j]@) =~= packidx::entry_views(
                        before[j]@,
                    ).push(pushed));
                } else {
                    assert(lists@[j] == before[j]);
                }
            }
        }
        i += 1;
    }
    assert(es.take(i as int) =~= es);
    Ok(lists)
}

/// A skippable frame starts with the number of such frames and the length of its
/// content, both from the lowest byte up. The content follows unchanged.
pub proof fn law_skippable_frame_layout(content: Seq<u8>)
    requires
        content.len() <= u32::MAX,
    ensures
        ({
            let f = skippable_frame(content);
            &&& f.len() == content.len() + 8
            &&& f.take(4) == seq![0x50u8, 0x2Au8, 0x4Du8, 0x18u8]
            &&& f[4] + 0x100 * f[5] + 0x1_0000 * f[6] + 0x100_0000 * f[7] == content.len()
            &&& f.skip(8) == content
        }),
{
    let f = skippable_frame(content);
    assert(f.take(4) =~= seq![0x50u8, 0x2Au8, 0x4Du8, 0x18u8]);
    assert(f.skip(8) =~= content);
    let n = content.len() as int;
    assert(n % 0x1_0000_0000 == n);
}

/// Pieces start where those before them end, the first one at 0.
pub proof fn law_pieces_follow_one_another(sizes: Seq<u64>, i: int)
    requires
        starts_fit(sizes),
        0 <= i < sizes.len(),
    ensures
        starts_of(sizes).len() == sizes.len(),
        starts_of(sizes)[0] == 0,
        i + 1 < sizes.len() ==> starts_of(sizes)[i + 1] == starts_of(sizes)[i] + sizes[i],
{
    let starts = starts_of(sizes);
    assert(algo::range_sum(sizes, 0, 0) == 0);
    if i + 1 < sizes.len() {
        algo::lemma_range_sum_split(sizes, 0, i, sizes.len() - 1);
        algo::lemma_range_sum_split(sizes, 0, i + 1, sizes.len() - 1);
        assert(algo::range_sum(sizes, 0, i + 1) == algo::range_sum(sizes, 0, i) + sizes[i]);
    }
}

/// An offset is in the last of the pieces that start at it or before it. It is in
/// none if all of them start behind it.
pub proof fn law_offset_is_in_its_piece(starts: Seq<u64>, offset: u64)
    ensures
        match piece_at(starts, offset) {
            Some(k) => 0 <= k < starts.len() && starts[k] <= offset && forall|j: int|
                k < j < starts.len() ==> offset < #[trigger] starts[j],
            None => forall|j: int| 0 <= j < starts.len() ==> offset < #[trigger] starts[j],
        },
    decreases starts.len(),
{
    if starts.len() > 0 && starts.last() > offset {
        let init = starts.drop_last();
        law_offset_is_in_its_piece(init, offset);
        assert forall|j: int| 0 <= j < init.len() implies init[j] == #[trigger] starts[j] by {}
    }
}

/// A frame gets exactly the entries whose offsets are in it, in order, with
/// offsets that count from its start.
pub proof fn law_frame_gets_its_entries(starts: Seq<u64>, es: Seq<FileEntryView>, k: int) -> (at:
    Seq<int>)
    requires
        0 <= k < starts.len(),
    ensures
        select::is_selected(
            entries_in_frame(starts, es, k),
            es,
            es.len() as int,
            |e: FileEntryView|
                starts[k] <= e.metadata.offset && forall|j: int|
                    k < j < starts.len() ==> e.metadata.offset < #[trigger] starts[j],
            |e: FileEntryView|
                FileEntryView {
                    path: e.path,
                    checksum: e.checksum,
                    metadata: ObjectMetadata {
                        offset: (e.metadata.offset - starts[k]) as u64,
                        size: e.metadata.size,
                    },
                    file_metadata: e.file_metadata,
                },
            at,
        ),
    decreases es.len(),
{
    let wanted = |e: FileEntryView|
        starts[k] <= e.metadata.offset && forall|j: int|
            k < j < starts.len() ==> e.metadata.offset < #[trigger] starts[j];
    let value = |e: FileEntryView|
        FileEntryView {
            path: e.path,
            checksum: e.checksum,
            metadata: ObjectMetadata {
                offset: (e.metadata.offset - starts[k]) as u64,
                size: e.metadata.size,
            },
            file_metadata: e.file_metadata,
        };
    if es.len() == 0 {
        select::lemma_none_selected(es, wanted, value);
        Seq::empty()
    } else {
        let init = es.drop_last();
        let n = init.len() as int;
        let at = law_frame_gets_its_entries(starts, init, k);
        let before = entries_in_frame(starts, init, k);
        assert(select::is_selected(before, es, n, wanted, value, at)) by {
            assert forall|i: int| 0 <= i < n && wanted(#[trigger] es[i]) implies at.contains(i) by {
                assert(init[i] == es[i]);
            }
        }
        law_offset_is_in_its_piece(starts, es[n].metadata.offset);
        if wanted(es[n]) {
            assert(piece_at(starts, es[n].metadata.offset) == Some(k));
            select::lemma_select_next(before, es, n, wanted, value, at);
            at.push(n)
        } else {
            select::lemma_pass_over(before, es, n, wanted, value, at);
            at
        }
    }
}

} // verus!
