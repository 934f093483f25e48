//! Creation of pack files.

use super::algo;
use super::checkout;
use super::constants;
use super::error::Error;
use super::laws;
use super::pack;
use super::packfile;
use super::packfile::{assemble_pack, plan_pack, CompressedFrame, PackOptions};
use crate::batch;
use crate::batch::compress_files;
use crate::bytes::ByteString;
use crate::compression;
use crate::digest;
use crate::entrypool::Handle;
use crate::packidx::model;
use crate::packidx::packidx::FileEntryView;
use crate::packidx::{FileHandle, PackIndexV1};
use crate::progress::{Checkpoint, ProgressReporter};
use vstd::prelude::*;

verus! {

/// The contents of the objects in a given order.
pub open spec fn ordered_contents(contents: Seq<Vec<u8>>, ordering: Seq<Handle>) -> Seq<Seq<u8>> {
    ordering.map_values(|h: Handle| contents[h as int]@)
}

/// There is a content of the right size for each object of the index.
pub open spec fn are_contents_of(contents: Seq<Vec<u8>>, v: model::IndexView) -> bool {
    forall|h: Handle| #[trigger]
        v.metadata.contains_key(h) ==> h < contents.len() && contents[h as int]@.len()
            == v.metadata[h].size
}

/// The frames are made of the contents as the options say, with long distance
/// matching. The workers are shared out among the frames.
pub open spec fn are_made_with(
    frames: Seq<CompressedFrame>,
    contents: Seq<Seq<u8>>,
    sizes: Seq<u64>,
    opts: PackOptions,
) -> bool {
    let ranges = algo::partition_ranges(sizes, opts.num_frames);
    forall|k: int|
        0 <= k < frames.len() ==> compression::is_frame_of(
            (#[trigger] frames[k]).bytes@,
            batch::joined(contents.subrange(ranges[k].0, ranges[k].1)),
            opts.compression_level,
            true,
            opts.compression_window_log,
            (packfile::workers_per_task(opts.num_workers as int, frames.len() as int) - 1) as u32,
        )
}

/// The completion of each of `n` frames was reported, and that of all.
pub open spec fn are_reported<F: Fn(&Checkpoint)>(reporter: &ProgressReporter<F>, n: int) -> bool {
    &&& forall|k: int|
        0 < k <= n ==> #[trigger] reporter.reported(
            (Checkpoint { done: k as usize, remaining: Some((n - k) as usize) }),
        )
    &&& reporter.reported((Checkpoint { done: n as usize, remaining: Some(0) }))
}

/// The frames of a created pack have the sizes of the partitions that are made
/// of the contents for `n` frames, and hold the contents if the window is not
/// larger than what is accepted during decompression. No objects need no
/// frames.
pub open spec fn are_created_frames(
    frames: Seq<CompressedFrame>,
    contents: Seq<Seq<u8>>,
    sizes: Seq<u64>,
    opts: PackOptions,
) -> bool {
    if contents.len() == 0 {
        frames.len() == 0
    } else {
        &&& laws::are_sized_frames(frames, contents, sizes, opts.num_frames)
        &&& are_made_with(frames, contents, sizes, opts)
        &&& opts.compression_window_log <= constants::DEFAULT_WINDOW_LOG_MAX
            ==> laws::are_frames_of(frames, contents, sizes, opts.num_frames)
    }
}

/// The index and the pack file are those that are created for an index and
/// the contents of its objects: the objects are placed in the given order, and
/// the frames that are made of them follow the header.
pub open spec fn is_created(
    created: model::IndexView,
    file: Seq<u8>,
    v: model::IndexView,
    contents: Seq<Vec<u8>>,
    opts: PackOptions,
    ordering: Seq<Handle>,
    frames: Seq<CompressedFrame>,
) -> bool {
    &&& model::is_ordering(ordering, v.metadata)
    &&& created == (model::IndexView { metadata: model::placed(v.metadata, ordering), ..v })
    &&& are_created_frames(
        frames,
        ordered_contents(contents, ordering),
        model::sizes_of(v.metadata, ordering),
        opts,
    )
    &&& file == packfile::pack_bytes(frames)
    &&& laws::is_pack_of(file, frames)
}

/// Copies the contents of the given objects.
fn gather_objects(contents: &[Vec<u8>], handles: &Vec<Handle>) -> (r: Vec<Vec<u8>>)
    requires
        forall|i: int| 0 <= i < handles@.len() ==> (#[trigger] handles@[i]) < contents@.len(),
    ensures
        batch::contents_of(r@) == ordered_contents(contents@, handles@),
{
    let mut r: Vec<Vec<u8>> = Vec::new();
    let mut i: usize = 0;
    while i < handles.len()
        invariant
            forall|i: int| 0 <= i < handles@.len() ==> (#[trigger] handles@[i]) < contents@.len(),
            i <= handles.len(),
            r@.len() == i,
            forall|j: int| 0 <= j < i ==> (#[trigger] r@[j])@ == contents@[handles@[j] as int]@,
        decreases handles.len() - i,
    {
        r.push(contents[handles[i] as usize].duplicate());
        i += 1;
    }
    assert(batch::contents_of(r@) =~= ordered_contents(contents@, handles@));
    r
}

/// The length of a list fits in 64 bits.
proof fn lemma_vec_len(v: Vec<u8>)
    ensures
        v@.len() <= u64::MAX,
{
    assert(v.len() == v@.len());
}

/// Creates a pack file from an index and the contents of its objects, which
/// are given by handle. Returns the index with the offsets that the objects
/// have in the pack, and the pack file.
pub fn create_pack<F: Fn(&Checkpoint)>(
    index: PackIndexV1,
    contents: &[Vec<u8>],
    opts: &PackOptions,
    reporter: &ProgressReporter<F>,
) -> (r: Result<(PackIndexV1, Vec<u8>), Error>)
    requires
        index.wf(),
        are_contents_of(contents@, index@),
        model::total_size(index@.metadata) <= u64::MAX,
        opts.num_workers > 0,
        index@.metadata.dom().len() > 0 ==> algo::partition_limit(
            opts.num_frames,
            index@.metadata.dom().len(),
        ) > 0,
        opts.num_workers + algo::partition_limit(
            opts.num_frames,
            index@.metadata.dom().len(),
        ) <= u32::MAX,
        15 + 19 * algo::partition_limit(opts.num_frames, index@.metadata.dom().len()) <= u32::MAX
            - 8,
        reporter.is_ready(),
    ensures
        r matches Ok(created) ==> created.0.wf(),
        r is Ok ==> exists|ordering: Seq<Handle>, frames: Seq<CompressedFrame>| #[trigger]
            is_created(r->Ok_0.0@, r->Ok_0.1@, index@, contents@, *opts, ordering, frames)
                && are_reported(reporter, frames.len() as int),
        index@.metadata.dom().len() == 0 ==> r is Ok,
        r matches Err(e) ==> e is IOError,
{
    let ghost v = index@;
    let ghost m = v.metadata;
    let plan = plan_pack(index, opts);
    let ghost ordering = plan.ordering@;
    let ghost sizes = model::sizes_of(m, ordering);
    let ghost ordered = ordered_contents(contents@, ordering);
    let ghost ranges = algo::partition_ranges(sizes, opts.num_frames);
    proof {
        ordering.unique_seq_to_set();
        model::lemma_sizes_add_up(m, ordering);
        assert forall|i: int| 0 <= i < ordering.len() implies (#[trigger] ordering[i])
            < contents@.len() && sizes[i] == ordered[i].len() by {
            assert(ordering.to_set().contains(ordering[i]));
            assert(m.contains_key(ordering[i]));
        }
        assert(laws::are_sizes(sizes, ordered));
        if sizes.len() > 0 {
            algo::law_partitions_cover_in_order(sizes, opts.num_frames);
        }
    }
    let total = plan.partitions.len();
    let silent: ProgressReporter<F> = ProgressReporter::dummy();
    let mut frames: Vec<CompressedFrame> = Vec::new();
    let mut done: usize = 0;
    while done < total
        invariant
            reporter.is_ready(),
            silent.is_ready(),
            total == plan.partitions.len(),
            done <= total,
            frames@.len() == done,
            plan.task_opts.window_log == opts.compression_window_log,
            plan.task_opts.level == opts.compression_level,
            plan.task_opts.num_workers == packfile::workers_per_task(
                opts.num_workers as int,
                total as int,
            ),
            m == index@.metadata,
            ordering.len() == m.dom().len(),
            forall|k: int|
                0 < k <= done ==> #[trigger] reporter.reported(
                    (Checkpoint { done: k as usize, remaining: Some((total - k) as usize) }),
                ),
            plan.partitions@.len() > 0 ==> plan.task_opts.num_workers > 0,
            packfile::are_range_copies(plan.partitions@, ordering, ranges),
            ordered == ordered_contents(contents@, ordering),
            forall|i: int| 0 <= i < ordering.len() ==> (#[trigger] ordering[i]) < contents@.len(),
            sizes.len() == ordering.len(),
            ranges == algo::partition_ranges(sizes, opts.num_frames),
            sizes.len() > 0 ==> algo::partition_limit(opts.num_frames, sizes.len()) > 0,
            forall|k: int|
                0 <= k < done ==> {
                    let data = batch::joined(ordered.subrange(ranges[k].0, ranges[k].1));
                    &&& (#[trigger] frames@[k]).decompressed_size == data.len()
                    &&& compression::is_frame_of(
                        frames@[k].bytes@,
                        data,
                        opts.compression_level,
                        true,
                        opts.compression_window_log,
                        (plan.task_opts.num_workers - 1) as u32,
                    )
                    &&& opts.compression_window_log <= constants::DEFAULT_WINDOW_LOG_MAX
                        ==> compression::holds_data(frames@[k].bytes@, data)
                },
        decreases total - done,
    {
        let handles = &plan.partitions[done];
        proof {
            assert(plan.partitions@[done as int]@ == ordering.subrange(
                ranges[done as int].0,
                ranges[done as int].1,
            ));
            if sizes.len() == 0 {
                assert(ranges.len() == 0);
            }
            algo::law_partitions_cover_in_order(sizes, opts.num_frames);
            laws::lemma_range_end(ranges, sizes.len() as int, done as int);
            let range = ranges[done as int];
            assert forall|i: int| 0 <= i < handles@.len() implies (#[trigger] handles@[i])
                < contents@.len() by {
                assert(handles@[i] == ordering[range.0 + i]);
            }
            assert(ordered_contents(contents@, handles@) =~= ordered.subrange(range.0, range.1));
        }
        let objects = gather_objects(contents, handles);
        match compress_files(objects.as_slice(), &plan.task_opts, &silent) {
            Ok((decompressed_size, bytes)) => {
                frames.push(CompressedFrame { decompressed_size, bytes });
            },
            Err(e) => {
                return Err(Error::IOError(e));
            },
        }
        done += 1;
        reporter.checkpoint(done, Some(total - done));
    }
    // Report that all compression tasks are done.
    reporter.checkpoint(total, Some(0));
    let file = assemble_pack(frames.as_slice());
    proof {
        if ordered.len() == 0 {
            assert(ranges.len() == 0);
        } else {
            assert forall|k: int| 0 <= k < frames@.len() implies ({
                let data = batch::joined(ordered.subrange(ranges[k].0, ranges[k].1));
                &&& (#[trigger] frames@[k]).decompressed_size == data.len()
                &&& frames@[k].bytes@.len() <= u64::MAX
            }) by {
                lemma_vec_len(frames@[k].bytes);
            }
            assert(are_made_with(frames@, ordered, sizes, *opts));
        }
        assert(are_created_frames(frames@, ordered, sizes, *opts));
        lemma_vec_len(file);
        laws::lemma_created_fits(file@, frames@, ordered, sizes, opts.num_frames);
    }
    assert(is_created(plan.index@, file@, v, contents@, *opts, ordering, frames@));
    let r: Result<(PackIndexV1, Vec<u8>), Error> = Ok((plan.index, file));
    assert(is_created(r->Ok_0.0@, r->Ok_0.1@, index@, contents@, *opts, ordering, frames@));
    assert(are_reported(reporter, frames@.len() as int));
    r
}

/// The contents have the checksums that the index gives.
pub open spec fn have_checksums(contents: Seq<Vec<u8>>, v: model::IndexView) -> bool {
    forall|h: Handle| #[trigger]
        v.metadata.contains_key(h) ==> h < v.objects.len() && v.objects[h as int]
            == digest::sha1_of(contents[h as int]@)
}

/// A snapshot that was packed is extracted: each of its files is assigned to a
/// frame of the pack, and the extraction from each frame succeeds, with or
/// without verification, and gives each file the content of its object.
pub proof fn law_packed_snapshot_is_extracted(
    created: model::IndexView,
    file: Seq<u8>,
    v: model::IndexView,
    contents: Seq<Vec<u8>>,
    opts: PackOptions,
    ordering: Seq<Handle>,
    frames: Seq<CompressedFrame>,
    tag: Seq<char>,
    es: Seq<FileEntryView>,
    verify: bool,
)
    requires
        is_created(created, file, v, contents, opts, ordering, frames),
        are_contents_of(contents, v),
        have_checksums(contents, v),
        opts.compression_window_log <= constants::DEFAULT_WINDOW_LOG_MAX,
        checkout::is_known(created, tag),
        checkout::is_sound(created, tag),
        checkout::lists_snapshot(es, created, tag),
        es.len() <= usize::MAX,
    ensures
        ({
            let ordered = ordered_contents(contents, ordering);
            let sizes = model::sizes_of(v.metadata, ordering);
            let starts = pack::starts_of(
                pack::decompressed_sizes(packfile::header_frames(frames)),
            );
            &&& forall|a: int|
                0 <= a < es.len() ==> (pack::piece_at(starts, (#[trigger] es[a]).metadata.offset)
                    matches Some(k) && 0 <= k < frames.len())
            &&& forall|k: int|
                0 <= k < frames.len() ==> #[trigger] laws::is_frame_extracted(
                    file,
                    frames,
                    ordered,
                    sizes,
                    es,
                    verify,
                    k,
                )
        }),
{
    let ordered = ordered_contents(contents, ordering);
    let sizes = model::sizes_of(v.metadata, ordering);
    let handles = choose|handles: Seq<FileHandle>| #[trigger]
        checkout::lists_handles(handles, created, tag) && es == model::entries_of(created, handles);
    assert forall|a: int| 0 <= a < es.len() implies laws::is_placed(
        #[trigger] es[a],
        ordered,
        sizes,
    ) by {
        let h = handles[a];
        assert(handles.to_set().contains(h));
        assert(model::handle_fault(created, h) is None);
        assert(created.metadata.contains_key(h.object));
        assert(v.metadata.contains_key(h.object));
        assert(ordering.to_set().contains(h.object));
        let i = ordering.index_of(h.object);
        assert(ordering[i] == h.object);
        assert(es[a] == model::entry_of(created, h));
        assert(sizes[i] == v.metadata[h.object].size);
        assert(ordered[i] == contents[h.object as int]@);
        assert(laws::is_entry_of(es[a], ordered, sizes, i));
    }
    assert(laws::are_entries_of(es, ordered, sizes));
    if es.len() > 0 {
        assert(laws::is_placed(es[0], ordered, sizes));
        assert(laws::are_frames_of(frames, ordered, sizes, opts.num_frames));
        assert forall|a: int| 0 <= a < es.len() implies (pack::piece_at(
            pack::starts_of(pack::decompressed_sizes(packfile::header_frames(frames))),
            (#[trigger] es[a]).metadata.offset,
        ) matches Some(k) && 0 <= k < frames.len()) by {
            assert(laws::is_placed(es[a], ordered, sizes));
            let i = choose|i: int| laws::is_entry_of(es[a], ordered, sizes, i);
            laws::law_every_object_is_in_its_frame(
                file,
                frames,
                ordered,
                sizes,
                opts.num_frames,
                es[a],
                i,
                0,
            );
        }
    }
    assert forall|k: int| 0 <= k < frames.len() implies #[trigger] laws::is_frame_extracted(
        file,
        frames,
        ordered,
        sizes,
        es,
        verify,
        k,
    ) by {
        laws::law_packed_files_are_extracted(
            file,
            frames,
            ordered,
            sizes,
            opts.num_frames,
            es,
            verify,
            k,
        );
    }
}

} // verus!
