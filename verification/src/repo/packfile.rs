//! Reading and writing of pack files.

use super::algo;
use super::constants;
use super::error::Error;
use super::extract;
use super::extract::{extract_files, FrameExtraction};
use super::id::PackId;
use super::pack;
use super::pack::{
    assign_to_frames, compute_frame_offsets, frames_fit, read_skippable_frame,
    write_skippable_frame, PackFrame, PackHeader,
};
use crate::batch;
use crate::batch::CompressionOptions;
use crate::entrypool::Handle;
use crate::ioerror::IoError;
use crate::packidx::file;
use crate::packidx::model;
use crate::packidx::packidx;
use crate::packidx::{FileEntry, PackError, PackIndexV1};
use vstd::prelude::*;
use vstd::slice::{slice_subrange, slice_to_vec};

verus! {

/// The magic number and the sizes of the frames that the MessagePack decoder
/// reads from the start of the bytes.
pub uninterp spec fn decoded_header(bytes: Seq<u8>) -> Option<(u64, Seq<(u64, u64)>)>;

/// The bytes that the MessagePack encoder writes for a magic number and the
/// sizes of frames.
pub uninterp spec fn encoded_header(magic: u64, frames: Seq<(u64, u64)>) -> Seq<u8>;

/// Wraps `rmp_serde::decode::from_read` for a pair of a number and a list of
/// pairs of numbers. What it reads is a function of the bytes. The length of an
/// array is stored in 32 bits. Only the form that is written is read: a header
/// that is a map with names of fields is none.
#[verifier::external_body]
fn decode_header(bytes: &[u8]) -> (r: Option<(u64, Vec<(u64, u64)>)>)
    ensures
        match r {
            Some(h) => decoded_header(bytes@) == Some((h.0, h.1@)) && h.1@.len() <= u32::MAX,
            None => decoded_header(bytes@) is None,
        },
{
    rmp_serde::decode::from_read(bytes).ok()
}

/// Wraps `rmp_serde::encode::to_vec` for a pair of a number and a list of pairs
/// of numbers. Writing to a `Vec` does not fail. What is written is a function
/// of the values. A number takes up to nine bytes and the start of an array up
/// to five; for a pair that is one. Where the length of the list fits in 32
/// bits, decoding gives the values back.
#[verifier::external_body]
fn encode_header(magic: u64, frames: &Vec<(u64, u64)>) -> (r: Option<Vec<u8>>)
    requires
        frames@.len() <= u32::MAX,
    ensures
        r is Some,
        r->0@ == encoded_header(magic, frames@),
        r->0@.len() <= 15 + 19 * frames@.len(),
        decoded_header(r->0@) == Some((magic, frames@)),
{
    rmp_serde::encode::to_vec(&(magic, frames)).ok()
}

/// The two sizes of each frame.
pub open spec fn size_pairs(frames: Seq<PackFrame>) -> Seq<(u64, u64)> {
    frames.map_values(|f: PackFrame| (f.frame_size, f.decompressed_size))
}

/// The frames with the given sizes.
pub open spec fn frames_of_pairs(pairs: Seq<(u64, u64)>) -> Seq<PackFrame> {
    pairs.map_values(|p: (u64, u64)| PackFrame { frame_size: p.0, decompressed_size: p.1 })
}

/// The frames that are listed in the header of a pack file.
pub open spec fn listed_frames(file: Seq<u8>) -> Option<Seq<PackFrame>> {
    match pack::skippable_content(file) {
        Some(content) => match decoded_header(content) {
            Some(h) => if h.0 == constants::PACK_HEADER_MAGIC {
                Some(frames_of_pairs(h.1))
            } else {
                None
            },
            None => None,
        },
        None => None,
    }
}

/// The size of the skippable frame at the start of a pack file.
pub open spec fn header_size(file: Seq<u8>) -> int {
    match pack::skippable_content(file) {
        Some(content) => content.len() as int + 8,
        None => 0,
    }
}

fn frames_from_pairs(pairs: &Vec<(u64, u64)>) -> (r: Vec<PackFrame>)
    ensures
        r@ == frames_of_pairs(pairs@),
{
    let mut r: Vec<PackFrame> = Vec::new();
    let mut i: usize = 0;
    while i < pairs.len()
        invariant
            i <= pairs.len(),
            r@ =~= frames_of_pairs(pairs@).take(i as int),
        decreases pairs.len() - i,
    {
        r.push(PackFrame { frame_size: pairs[i].0, decompressed_size: pairs[i].1 });
        i += 1;
    }
    r
}

fn pairs_from_frames(frames: &[PackFrame]) -> (r: Vec<(u64, u64)>)
    ensures
        r@ == size_pairs(frames@),
{
    let mut r: Vec<(u64, u64)> = Vec::new();
    let mut i: usize = 0;
    while i < frames.len()
        invariant
            i <= frames.len(),
            r@ =~= size_pairs(frames@).take(i as int),
        decreases frames.len() - i,
    {
        r.push((frames[i].frame_size, frames[i].decompressed_size));
        i += 1;
    }
    r
}

/// Reads the header of a pack file. Returns it with its size in the file.
pub fn read_header(file: &[u8]) -> (r: Result<(PackHeader, u64), Error>)
    ensures
        match r {
            Ok(h) => {
                &&& listed_frames(file@) == Some(h.0.frames@)
                &&& h.0.magic == constants::PACK_HEADER_MAGIC
                &&& h.1 == header_size(file@)
                &&& h.0.frames@.len() <= u32::MAX
            },
            Err(Error::IOError(_)) => pack::skippable_content(file@) is None,
            Err(e) => pack::skippable_content(file@) is Some && listed_frames(file@) is None && e
                == Error::CorruptPack,
        },
{
    let mut content: Vec<u8> = Vec::new();
    let size = match read_skippable_frame(file, &mut content) {
        Ok(size) => size,
        Err(e) => {
            return Err(Error::IOError(e));
        },
    };
    let header = match decode_header(content.as_slice()) {
        Some(h) => PackHeader { magic: h.0, frames: frames_from_pairs(&h.1) },
        None => {
            return Err(Error::CorruptPack);
        },
    };
    if !header.is_valid() {
        return Err(Error::CorruptPack);
    }
    Ok((header, size))
}

/// The one frame of a pack file without a header.
pub open spec fn legacy_frames(file_size: int) -> Seq<PackFrame> {
    seq![PackFrame { frame_size: file_size as u64, decompressed_size: u64::MAX }]
}

/// The frames of a pack file, with or without a header.
pub open spec fn frames_of_file(file: Seq<u8>) -> Seq<PackFrame> {
    match listed_frames(file) {
        Some(frames) => frames,
        None => legacy_frames(file.len() as int),
    }
}

/// Where the first frame of a pack file starts.
pub open spec fn frames_start(file: Seq<u8>) -> int {
    if listed_frames(file) is Some {
        header_size(file)
    } else {
        0
    }
}

/// The offsets of the frames and of their data fit in 64 bits.
pub open spec fn layout_fits(frames: Seq<PackFrame>, start: int) -> bool {
    let sizes = pack::frame_sizes(frames);
    &&& pack::starts_fit(sizes)
    &&& pack::starts_fit(pack::decompressed_sizes(frames))
    &&& sizes.len() > 0 ==> start + algo::range_sum(sizes, 0, sizes.len() - 1) <= u64::MAX
}

/// Represents an pack file.
pub struct Pack {
    /// The base filename of the pack.
    name: String,
    /// The index for the pack.
    index: PackIndexV1,
    /// The header of the pack.
    header: PackHeader,
    /// The size of the header in the file.
    header_size: u64,
    /// The file size of the pack (in bytes).
    file_size: u64,
}

/// Entries to extract from one frame.
#[derive(Debug)]
pub struct FrameTask {
    /// Where the frame starts in the file.
    pub start: u64,
    /// The entries, with offsets relative to the data of the frame.
    pub entries: Vec<FileEntry>,
}

/// What to do in order to extract entries.
#[derive(Debug)]
pub struct ExtractionPlan {
    /// The number of threads to use.
    pub num_workers: u32,
    /// What to extract, frame by frame. Frames without entries are left out.
    pub tasks: Vec<FrameTask>,
}

/// The tasks for the first `n` frames.
pub open spec fn are_tasks(
    tasks: Seq<FrameTask>,
    frames: Seq<PackFrame>,
    start: int,
    es: Seq<packidx::FileEntryView>,
    n: int,
) -> bool
    decreases n,
{
    if n <= 0 {
        tasks.len() == 0
    } else {
        let here = pack::entries_in_frame(
            pack::starts_of(pack::decompressed_sizes(frames)),
            es,
            n - 1,
        );
        if here.len() == 0 {
            are_tasks(tasks, frames, start, es, n - 1)
        } else {
            &&& tasks.len() > 0
            &&& packidx::entry_views(tasks.last().entries@) == here
            &&& tasks.last().start == start + pack::starts_of(pack::frame_sizes(frames))[n - 1]
            &&& are_tasks(tasks.drop_last(), frames, start, es, n - 1)
        }
    }
}

impl Pack {
    /// The frames of the pack.
    pub closed spec fn frames(&self) -> Seq<PackFrame> {
        self.header.frames@
    }

    /// Where the first frame starts.
    pub closed spec fn start(&self) -> int {
        self.header_size as int
    }

    /// The base filename of the pack.
    pub closed spec fn name_view(&self) -> Seq<char> {
        self.name@
    }

    /// What the index of the pack says.
    pub closed spec fn index_view(&self) -> model::IndexView {
        self.index@
    }

    /// The size of the pack file.
    pub closed spec fn size(&self) -> int {
        self.file_size as int
    }

    /// The index is well formed, and the frames fit in a file.
    pub closed spec fn wf(&self) -> bool {
        &&& self.index.wf()
        &&& layout_fits(self.frames(), self.start())
        &&& self.frames().len() <= u32::MAX
    }

    /// Opens a pack file and its corresponding index, of which the contents are
    /// given. A pack file without a header is taken to be one frame. A pack
    /// file whose frames do not fit in 64 bits is corrupt.
    pub fn open(pack_name: &PackId, index_file: &[u8], pack_file: &[u8]) -> (r: Result<
        Self,
        Error,
    >)
        ensures
            match r {
                Ok(p) => {
                    &&& file::index_of_file(index_file@) == Some(p.index_view())
                    &&& layout_fits(frames_of_file(pack_file@), frames_start(pack_file@))
                    &&& p.wf()
                    &&& p.name_view() == pack_name@
                    &&& p.frames() == frames_of_file(pack_file@)
                    &&& p.start() == frames_start(pack_file@)
                    &&& p.size() == pack_file@.len()
                },
                Err(Error::PackError(e)) => file::index_of_file(index_file@) is None && (
                e is DeserializeError || file::is_header_error(index_file@, e)),
                Err(e) => {
                    &&& file::index_of_file(index_file@) is Some
                    &&& !layout_fits(frames_of_file(pack_file@), frames_start(pack_file@))
                    &&& e == Error::CorruptPack
                },
            },
    {
        let index = match PackIndexV1::parse(index_file) {
            Ok(index) => index,
            Err(e) => {
                return Err(Error::PackError(e));
            },
        };
        let file_size = pack_file.len() as u64;
        let (header, header_size) = match read_header(pack_file) {
            Ok(h) => h,
            Err(_) => {
                // This manufactured pack header works for the legacy pack
                // format (no skippable frame/no header).
                let mut frames: Vec<PackFrame> = Vec::new();
                frames.push(PackFrame { frame_size: file_size, decompressed_size: u64::MAX });
                assert(frames@ =~= legacy_frames(pack_file@.len() as int));
                (PackHeader::new(frames), 0)
            },
        };
        if !frames_fit(header.frames.as_slice()) {
            return Err(Error::CorruptPack);
        }
        let offsets = compute_frame_offsets(header.frames.as_slice());
        if offsets.len() > 0 && offsets[offsets.len() - 1] > u64::MAX - header_size {
            proof {
                let sizes = pack::frame_sizes(header.frames@);
                assert(offsets@[sizes.len() - 1] == algo::range_sum(sizes, 0, sizes.len() - 1));
            }
            return Err(Error::CorruptPack);
        }
        proof {
            let sizes = pack::frame_sizes(header.frames@);
            if sizes.len() > 0 {
                assert(offsets@[sizes.len() - 1] == algo::range_sum(sizes, 0, sizes.len() - 1));
            }
        }
        Ok(Pack { name: pack_name.as_str().to_owned(), index, header, header_size, file_size })
    }

    /// The base filename of the pack.
    pub fn name(&self) -> (r: &str)
        ensures
            r@ == self.name_view(),
    {
        self.name.as_str()
    }

    /// A reference to the pack index.
    pub fn index(&self) -> (r: &PackIndexV1)
        ensures
            r@ == self.index_view(),
            self.wf() ==> r.wf(),
    {
        &self.index
    }

    /// The size of the pack in bytes.
    pub fn file_size(&self) -> (r: u64)
        ensures
            r == self.size(),
    {
        self.file_size
    }

    /// Plans the extraction of entries, which must be entries of the pack
    /// index: the number of threads to use, and what to extract from which
    /// frame.
    pub fn extract_entries(&self, entries: &[FileEntry], num_workers: u32) -> (r: Result<
        ExtractionPlan,
        Error,
    >)
        requires
            self.wf(),
            entries@.len() > 0 ==> num_workers > 0 && self.frames().len() > 0,
        ensures
            match r {
                Ok(plan) => if entries@.len() == 0 {
                    plan.tasks@.len() == 0 && plan.num_workers == num_workers
                } else {
                    &&& plan.num_workers == (if num_workers <= self.frames().len() {
                        num_workers as int
                    } else {
                        self.frames().len() as int
                    })
                    &&& are_tasks(
                        plan.tasks@,
                        self.frames(),
                        self.start(),
                        packidx::entry_views(entries@),
                        self.frames().len() as int,
                    )
                },
                Err(_) => false,
            },
    {
        if entries.len() == 0 {
            return Ok(ExtractionPlan { num_workers, tasks: Vec::new() });
        }
        let frames = self.header.frames.as_slice();
        let num_frames = frames.len() as u32;
        let num_workers = if num_workers <= num_frames {
            num_workers
        } else {
            num_frames
        };
        // Assign entries to the frames they reside in. The resulting entries
        // will have offsets relative to their containing frame.
        let frame_to_entries = match assign_to_frames(frames, entries) {
            Ok(lists) => lists,
            Err(e) => {
                return Err(e);
            },
        };
        let offsets = compute_frame_offsets(frames);
        let ghost es = packidx::entry_views(entries@);
        let ghost starts = pack::starts_of(pack::decompressed_sizes(self.frames()));
        let mut tasks: Vec<FrameTask> = Vec::new();
        let mut k: usize = 0;
        while k < frame_to_entries.len()
            invariant
                self.wf(),
                frames@ == self.frames(),
                k <= frame_to_entries.len(),
                starts == pack::starts_of(pack::decompressed_sizes(self.frames())),
                pack::are_assigned(frame_to_entries@, starts, es),
                offsets@ == pack::starts_of(pack::frame_sizes(self.frames())),
                are_tasks(tasks@, self.frames(), self.start(), es, k as int),
            decreases frame_to_entries.len() - k,
        {
            let list = &frame_to_entries[k];
            assert(packidx::entry_views(list@) == pack::entries_in_frame(starts, es, k as int));
            assert(packidx::entry_views(list@).len() == list@.len());
            // Skip empty frames.
            if list.len() > 0 {
                proof {
                    let sizes = pack::frame_sizes(self.frames());
                    algo::lemma_range_sum_split(sizes, 0, k as int, sizes.len() - 1);
                    assert(offsets@[k as int] == algo::range_sum(sizes, 0, k as int) as u64);
                }
                let ghost before = tasks@;
                let task = FrameTask {
                    start: self.header_size + offsets[k],
                    entries: copy_entries(list),
                };
                tasks.push(task);
                assert(tasks@.drop_last() =~= before);
            }
            k += 1;
        }
        Ok(ExtractionPlan { num_workers, tasks })
    }
}

/// Copies a list of entries.
fn copy_entries(list: &Vec<FileEntry>) -> (r: Vec<FileEntry>)
    ensures
        packidx::entry_views(r@) == packidx::entry_views(list@),
{
    let mut r: Vec<FileEntry> = Vec::new();
    let mut i: usize = 0;
    while i < list.len()
        invariant
            i <= list.len(),
            r@.len() == i,
            forall|j: int| 0 <= j < i ==> (#[trigger] r@[j])@ == list@[j]@,
        decreases list.len() - i,
    {
        r.push(list[i].clone());
        i += 1;
    }
    assert(packidx::entry_views(r@) =~= packidx::entry_views(list@));
    r
}

/// The bytes of a file from a position on.
pub open spec fn from_position(file: Seq<u8>, at: u64) -> Seq<u8> {
    if at <= file.len() {
        file.skip(at as int)
    } else {
        Seq::empty()
    }
}

/// Extracts the entries of a task from a pack file. Checksum verification can
/// be toggled on/off.
pub fn extract_task(pack_file: &[u8], task: &FrameTask, verify: bool) -> (r: FrameExtraction)
    requires
        extract::ends_fit(packidx::entry_views(task.entries@), verify),
    ensures
        exists|failure: Option<IoError>| #[trigger]
            extract::is_extraction(
                r,
                failure,
                from_position(pack_file@, task.start),
                packidx::entry_views(task.entries@),
                verify,
            ),
        r.result is Ok ==> extract::is_extracted(
            r,
            from_position(pack_file@, task.start),
            packidx::entry_views(task.entries@),
            verify,
        ),
{
    let start: usize = if task.start <= pack_file.len() as u64 {
        task.start as usize
    } else {
        pack_file.len()
    };
    let packed = slice_subrange(pack_file, start, pack_file.len());
    assert(packed@ =~= from_position(pack_file@, task.start));
    extract_files(packed, task.entries.as_slice(), verify)
}

/// A compressed frame, and the size of the data in it.
pub struct CompressedFrame {
    pub decompressed_size: u64,
    pub bytes: Vec<u8>,
}

/// The frames as they are listed in a header.
pub open spec fn header_frames(frames: Seq<CompressedFrame>) -> Seq<PackFrame> {
    frames.map_values(
        |f: CompressedFrame|
            PackFrame {
                frame_size: f.bytes@.len() as u64,
                decompressed_size: f.decompressed_size,
            },
    )
}

/// The bytes of each frame.
pub open spec fn frame_bytes(frames: Seq<CompressedFrame>) -> Seq<Seq<u8>> {
    frames.map_values(|f: CompressedFrame| f.bytes@)
}

/// The bytes of a pack file with the given frames.
pub open spec fn pack_bytes(frames: Seq<CompressedFrame>) -> Seq<u8> {
    pack::skippable_frame(
        encoded_header(constants::PACK_HEADER_MAGIC, size_pairs(header_frames(frames))),
    ) + batch::joined(frame_bytes(frames))
}

/// Assembles a pack file: a header that lists the frames, and the frames.
pub fn assemble_pack(frames: &[CompressedFrame]) -> (r: Vec<u8>)
    requires
        15 + 19 * frames@.len() <= u32::MAX - 8,
    ensures
        r@ == pack_bytes(frames@),
        listed_frames(r@) == Some(header_frames(frames@)),
        r@.skip(header_size(r@)) == batch::joined(frame_bytes(frames@)),
        header_size(r@) <= r@.len(),
{
    let mut listed: Vec<PackFrame> = Vec::new();
    let mut i: usize = 0;
    while i < frames.len()
        invariant
            i <= frames.len(),
            listed@ =~= header_frames(frames@).take(i as int),
        decreases frames.len() - i,
    {
        listed.push(
            PackFrame {
                frame_size: frames[i].bytes.len() as u64,
                decompressed_size: frames[i].decompressed_size,
            },
        );
        i += 1;
    }
    // Create and serialize header.
    let header = PackHeader::new(listed);
    let pairs = pairs_from_frames(header.frames.as_slice());
    let content = encode_header(header.magic, &pairs).unwrap();
    let mut out: Vec<u8> = Vec::new();
    // Write header and frames.
    let _ = write_skippable_frame(&mut out, content.as_slice());
    let ghost start = out@;
    let ghost pieces = frame_bytes(frames@);
    let mut k: usize = 0;
    assert(pieces.take(0) =~= Seq::empty());
    assert(out@ =~= start + batch::joined(pieces.take(0)));
    while k < frames.len()
        invariant
            k <= frames.len(),
            pieces == frame_bytes(frames@),
            out@ == start + batch::joined(pieces.take(k as int)),
        decreases frames.len() - k,
    {
        out.extend_from_slice(frames[k].bytes.as_slice());
        proof {
            assert(pieces.take(k + 1).drop_last() =~= pieces.take(k as int));
            assert(pieces[k as int] == frames@[k as int].bytes@);
            assert(out@ =~= start + batch::joined(pieces.take(k + 1)));
        }
        k += 1;
    }
    proof {
        assert(pieces.take(k as int) =~= pieces);
        assert(start =~= pack::skippable_frame(content@));
        pack::law_skippable_frame_round_trip(content@, batch::joined(pieces));
        assert(header.frames@ =~= header_frames(frames@));
        assert(frames_of_pairs(pairs@) =~= header_frames(frames@));
        assert(out@.skip(start.len() as int) =~= batch::joined(pieces));
    }
    out
}

/// A struct specifying the the packing options.
#[derive(Clone, Debug)]
pub struct PackOptions {
    pub compression_window_log: u32,
    pub compression_level: i32,
    pub num_workers: u32,
    pub num_frames: u32,
}

/// What to compress into which frame.
pub struct PackPlan {
    /// The index, with the offsets that the objects get in the pack.
    pub index: PackIndexV1,
    /// The objects in the order in which they are laid out.
    pub ordering: Vec<Handle>,
    /// The objects of each frame.
    pub partitions: Vec<Vec<Handle>>,
    /// How to compress each frame.
    pub task_opts: CompressionOptions,
}

/// The number of workers for each of `n` tasks: enough to share out all workers.
pub open spec fn workers_per_task(num_workers: int, n: int) -> int {
    (num_workers + n - 1) / (if n >= 1 {
        n
    } else {
        1
    })
}

/// The lists are the given ranges of the handles.
pub open spec fn are_range_copies(
    lists: Seq<Vec<Handle>>,
    handles: Seq<Handle>,
    ranges: Seq<(int, int)>,
) -> bool {
    &&& lists.len() == ranges.len()
    &&& forall|k: int|
        0 <= k < lists.len() ==> (#[trigger] lists[k])@ == handles.subrange(ranges[k].0, ranges[k].1)
}

/// Decides how to lay out and compress the objects of an index in a pack.
pub fn plan_pack(index: PackIndexV1, opts: &PackOptions) -> (r: PackPlan)
    requires
        index.wf(),
        model::total_size(index@.metadata) <= u64::MAX,
        opts.num_workers > 0,
        index@.metadata.dom().len() > 0 ==> algo::partition_limit(
            opts.num_frames,
            index@.metadata.dom().len(),
        ) > 0,
        opts.num_workers + algo::partition_limit(
            opts.num_frames,
            index@.metadata.dom().len(),
        ) <= u32::MAX,
    ensures
        r.index.wf(),
        model::is_ordering(r.ordering@, index@.metadata),
        r.index@ == (model::IndexView {
            metadata: model::placed(index@.metadata, r.ordering@),
            ..index@
        }),
        are_range_copies(
            r.partitions@,
            r.ordering@,
            algo::partition_ranges(
                model::sizes_of(index@.metadata, r.ordering@),
                opts.num_frames,
            ),
        ),
        r.task_opts.window_log == opts.compression_window_log,
        r.task_opts.level == opts.compression_level,
        r.task_opts.num_workers == workers_per_task(
            opts.num_workers as int,
            r.partitions@.len() as int,
        ),
        r.partitions@.len() > 0 ==> r.task_opts.num_workers > 0,
{
    let ghost m = index@.metadata;
    let (index, ordering) = index.compute_object_offsets_and_ordering();
    proof {
        model::lemma_sizes_add_up(m, ordering@);
        ordering@.unique_seq_to_set();
        assert forall|i: int| 0 <= i < ordering@.len() implies index@.metadata.contains_key(
            #[trigger] ordering@[i],
        ) by {
            assert(ordering@.to_set().contains(ordering@[i]));
        }
        assert forall|i: int| 0 <= i < ordering@.len() implies model::sizes_of(
            index@.metadata,
            ordering@,
        )[i] == model::sizes_of(m, ordering@)[i] by {
            assert(ordering@.to_set().contains(ordering@[i]));
        }
        assert(model::sizes_of(index@.metadata, ordering@) =~= model::sizes_of(m, ordering@));
    }
    // Gather a list of all objects to compress.
    let slices = index.objects_partitioned_by_size(opts.num_frames, ordering.as_slice());
    let mut partitions: Vec<Vec<Handle>> = Vec::new();
    let mut k: usize = 0;
    while k < slices.len()
        invariant
            k <= slices.len(),
            partitions@.len() == k,
            forall|j: int| 0 <= j < k ==> (#[trigger] partitions@[j])@ == slices@[j]@,
        decreases slices.len() - k,
    {
        partitions.push(slice_to_vec(slices[k]));
        k += 1;
    }
    proof {
        let values = model::sizes_of(m, ordering@);
        if values.len() > 0 {
            algo::law_partitions_cover_in_order(values, opts.num_frames);
        }
    }
    let n = partitions.len() as u32;
    let tasks: u32 = if n >= 1 {
        n
    } else {
        1
    };
    let shared = opts.num_workers + n - 1;
    let workers_per_task = shared / tasks;
    if n >= 1 {
        assert(workers_per_task > 0) by (nonlinear_arith)
            requires
                workers_per_task == shared / tasks,
                shared >= tasks,
                tasks >= 1,
        ;
    }
    let task_opts = CompressionOptions {
        window_log: opts.compression_window_log,
        level: opts.compression_level,
        num_workers: workers_per_task,
    };
    PackPlan { index, ordering, partitions, task_opts }
}

/// There is a task for each frame that has entries to extract, in the order of
/// the frames. It starts where its frame does: behind the header and the frames
/// before it.
pub proof fn law_every_frame_with_entries_has_a_task(
    tasks: Seq<FrameTask>,
    frames: Seq<PackFrame>,
    start: int,
    es: Seq<packidx::FileEntryView>,
    n: int,
) -> (at: Seq<int>)
    requires
        are_tasks(tasks, frames, start, es, n),
        0 <= n <= frames.len(),
        pack::starts_fit(pack::frame_sizes(frames)),
    ensures
        at.len() == tasks.len(),
        forall|k: int|
            0 <= k < at.len() ==> 0 <= (#[trigger] at[k]) < n && packidx::entry_views(
                tasks[k].entries@,
            ) == pack::entries_in_frame(
                pack::starts_of(pack::decompressed_sizes(frames)),
                es,
                at[k],
            ) && tasks[k].start == start + algo::sum_of(pack::frame_sizes(frames).take(at[k])),
        forall|k: int, l: int| 0 <= k < l < at.len() ==> (#[trigger] at[k]) < (#[trigger] at[l]),
        forall|f: int|
            0 <= f < n && (#[trigger] pack::entries_in_frame(
                pack::starts_of(pack::decompressed_sizes(frames)),
                es,
                f,
            )).len() > 0 ==> at.contains(f),
    decreases n,
{
    if n <= 0 {
        Seq::empty()
    } else {
        let starts = pack::starts_of(pack::decompressed_sizes(frames));
        let here = pack::entries_in_frame(starts, es, n - 1);
        if here.len() == 0 {
            law_every_frame_with_entries_has_a_task(tasks, frames, start, es, n - 1)
        } else {
            let init = tasks.drop_last();
            let before = law_every_frame_with_entries_has_a_task(init, frames, start, es, n - 1);
            let at = before.push(n - 1);
            let sizes = pack::frame_sizes(frames);
            lemma_start_is_sum(sizes, n - 1);
            let m = init.len() as int;
            assert forall|k: int| 0 <= k < at.len() implies 0 <= (#[trigger] at[k]) < n
                && packidx::entry_views(tasks[k].entries@) == pack::entries_in_frame(
                starts,
                es,
                at[k],
            ) && tasks[k].start == start + algo::sum_of(sizes.take(at[k])) by {
                if k < m {
                    assert(at[k] == before[k]);
                    assert(tasks[k] == init[k]);
                }
            }
            assert forall|f: int| 0 <= f < n && (#[trigger] pack::entries_in_frame(
                starts,
                es,
                f,
            )).len() > 0 implies at.contains(f) by {
                if f < n - 1 {
                    let k = before.index_of(f);
                    assert(at[k] == f);
                } else {
                    assert(at[m] == f);
                }
            }
            at
        }
    }
}

proof fn lemma_start_is_sum(sizes: Seq<u64>, i: int)
    requires
        pack::starts_fit(sizes),
        0 <= i < sizes.len(),
    ensures
        pack::starts_of(sizes)[i] == algo::sum_of(sizes.take(i)),
    decreases i,
{
    if i == 0 {
        assert(sizes.take(0) =~= Seq::empty());
        pack::law_pieces_follow_one_another(sizes, 0);
    } else {
        lemma_start_is_sum(sizes, i - 1);
        pack::law_pieces_follow_one_another(sizes, i - 1);
        assert(sizes.take(i).drop_last() =~= sizes.take(i - 1));
    }
}

/// The workers of all tasks together are at least as many as were asked for, with
/// no more for each task than that needs.
pub proof fn law_workers_are_shared(num_workers: int, n: int)
    requires
        num_workers > 0,
        n > 0,
    ensures
        workers_per_task(num_workers, n) * n >= num_workers,
        (workers_per_task(num_workers, n) - 1) * n < num_workers,
{
    let w = workers_per_task(num_workers, n);
    assert(w * n >= num_workers && (w - 1) * n < num_workers) by (nonlinear_arith)
        requires
            n > 0,
            num_workers > 0,
            w == (num_workers + n - 1) / n,
    ;
}

/// A header lists the frames in order, each with the length of its bytes and of
/// its data.
pub proof fn law_header_lists_every_frame(frames: Seq<CompressedFrame>, i: int)
    requires
        0 <= i < frames.len(),
        frames[i].bytes@.len() <= u64::MAX,
    ensures
        header_frames(frames).len() == frames.len(),
        header_frames(frames)[i].frame_size == frames[i].bytes@.len(),
        header_frames(frames)[i].decompressed_size == frames[i].decompressed_size,
        size_pairs(header_frames(frames))[i].0 == frames[i].bytes@.len(),
        size_pairs(header_frames(frames))[i].1 == frames[i].decompressed_size,
{
}

/// A pack file whose header is not one is a single frame, which takes the whole
/// file.
pub proof fn law_file_without_header_is_one_frame(file: Seq<u8>)
    requires
        listed_frames(file) is None,
        file.len() <= u64::MAX,
    ensures
        frames_of_file(file).len() == 1,
        frames_of_file(file)[0].frame_size == file.len(),
        frames_of_file(file)[0].decompressed_size == u64::MAX,
        frames_start(file) == 0,
{
}

} // verus!
