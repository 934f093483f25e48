//! What holds of pack files across operations: what is packed is extracted.

use super::algo;
use super::constants;
use super::extract;
use super::extract::{Extraction, FrameExtraction};
use super::pack;
use super::packfile;
use super::packfile::CompressedFrame;
use crate::batch;
use crate::compression;
use crate::digest;
use crate::packidx::packidx::FileEntryView;
use crate::packidx::ObjectMetadata;
use crate::sort;
use vstd::prelude::*;

verus! {

/// The content of an entry in a stream.
pub open spec fn content_in(data: Seq<u8>, e: FileEntryView) -> Seq<u8> {
    data.subrange(e.metadata.offset as int, e.metadata.offset + e.metadata.size)
}

/// What is written for the entries from position `i` on is their contents.
proof fn lemma_extraction_from(data: Seq<u8>, es: Seq<FileEntryView>, verify: bool, i: int)
    requires
        0 <= i <= es.len(),
        forall|a: int| 0 <= a < es.len() ==> extract::is_within(data, #[trigger] es[a]),
        verify ==> forall|a: int|
            0 <= a < es.len() ==> digest::sha1_of(content_in(data, es[a])) == (
            #[trigger] es[a]).checksum,
    ensures
        ({
            let x = extract::extraction_from(data, false, es, verify, i);
            &&& x.fault is None
            &&& x.written.len() == es.len() - i
            &&& forall|j: int|
                0 <= j < x.written.len() ==> (#[trigger] x.written[j]).path == es[i + j].path
                    && data.subrange(x.written[j].start, x.written[j].end) == content_in(
                    data,
                    es[i + j],
                )
        }),
    decreases es.len() - i,
{
    if i < es.len() {
        let x = extract::extraction_from(data, false, es, verify, i);
        assert(extract::is_within(data, es[i]));
        if verify {
            assert(digest::sha1_of(content_in(data, es[i])) == es[i].checksum);
        }
        lemma_extraction_from(data, es, verify, i + 1);
        let rest = extract::extraction_from(data, false, es, verify, i + 1);
        assert forall|j: int| 0 <= j < x.written.len() implies (#[trigger] x.written[j]).path
            == es[i + j].path && data.subrange(x.written[j].start, x.written[j].end) == content_in(
            data,
            es[i + j],
        ) by {
            if j > 0 {
                assert(x.written[j] == rest.written[j - 1]);
            }
        }
    }
}

/// The extraction succeeds, and each file that is written has the path of its
/// entry and the given content.
pub open spec fn is_faithful(
    x: Extraction,
    data: Seq<u8>,
    es: Seq<FileEntryView>,
    contents: Seq<Seq<u8>>,
) -> bool {
    &&& x.fault is None
    &&& x.written.len() == es.len()
    &&& contents.len() == es.len()
    &&& forall|j: int|
        0 <= j < es.len() ==> (#[trigger] x.written[j]).path == es[j].path && data.subrange(
            x.written[j].start,
            x.written[j].end,
        ) == contents[j]
}

/// The entries of a stream that holds all their objects are all extracted, in
/// whatever order they come, each with the part of the data that its metadata
/// says, if the checksums match or are not verified.
pub proof fn law_stream_entries_are_extracted(data: Seq<u8>, es: Seq<FileEntryView>, verify: bool)
    requires
        es.len() <= usize::MAX,
        forall|a: int| 0 <= a < es.len() ==> extract::is_within(data, #[trigger] es[a]),
        verify ==> forall|a: int|
            0 <= a < es.len() ==> digest::sha1_of(content_in(data, es[a])) == (
            #[trigger] es[a]).checksum,
    ensures
        is_faithful(
            extract::extraction(data, false, es, verify),
            data,
            extract::by_offset(es),
            extract::by_offset(es).map_values(|e: FileEntryView| content_in(data, e)),
        ),
{
    let lt = extract::offset_order(es);
    let p = sort::sorting_of(lt, es.len() as int);
    extract::lemma_offset_order(es);
    sort::lemma_sorting_exists(lt, es.len() as int);
    let s = extract::by_offset(es);
    assert forall|a: int| 0 <= a < s.len() implies extract::is_within(data, #[trigger] s[a]) by {
        assert(s[a] == es[p[a] as int]);
    }
    if verify {
        assert forall|a: int| 0 <= a < s.len() implies digest::sha1_of(content_in(data, s[a])) == (
        #[trigger] s[a]).checksum by {
            assert(s[a] == es[p[a] as int]);
        }
    }
    lemma_extraction_from(data, s, verify, 0);
}

/// The sizes of a list of contents.
pub open spec fn are_sizes(sizes: Seq<u64>, contents: Seq<Seq<u8>>) -> bool {
    &&& sizes.len() == contents.len()
    &&& forall|i: int| 0 <= i < sizes.len() ==> (#[trigger] sizes[i]) == contents[i].len()
}

proof fn lemma_joined_len(sizes: Seq<u64>, contents: Seq<Seq<u8>>, a: int, b: int)
    requires
        are_sizes(sizes, contents),
        0 <= a <= b <= contents.len(),
    ensures
        batch::joined(contents.subrange(a, b)).len() == algo::range_sum(sizes, a, b),
    decreases b - a,
{
    let s = contents.subrange(a, b);
    if a < b {
        lemma_joined_len(sizes, contents, a, b - 1);
        assert(s.drop_last() =~= contents.subrange(a, b - 1));
        assert(s.last() == contents[b - 1]);
        assert(sizes[b - 1] == contents[b - 1].len());
    }
}

/// A piece is found in the joined pieces where the sizes say.
proof fn lemma_joined_piece(sizes: Seq<u64>, contents: Seq<Seq<u8>>, a: int, b: int, i: int)
    requires
        are_sizes(sizes, contents),
        0 <= a <= i < b <= contents.len(),
    ensures
        ({
            let data = batch::joined(contents.subrange(a, b));
            let at = algo::range_sum(sizes, a, i) as int;
            &&& at + sizes[i] <= data.len()
            &&& data.subrange(at, at + sizes[i]) == contents[i]
        }),
{
    let s = contents.subrange(a, b);
    let data = batch::joined(s);
    let at = algo::range_sum(sizes, a, i) as int;
    batch::lemma_joined_split(s, i - a);
    let head = s.take(i - a);
    let tail = s.skip(i - a);
    assert(head =~= contents.subrange(a, i));
    lemma_joined_len(sizes, contents, a, i);
    batch::lemma_joined_split(tail, 1);
    assert(tail.take(1) =~= seq![contents[i]]);
    assert(tail.take(1).drop_last() =~= Seq::empty());
    reveal_with_fuel(batch::joined, 2);
    assert(batch::joined(tail.take(1)) =~= contents[i]);
    assert(sizes[i] == contents[i].len());
    assert(data.subrange(at, at + sizes[i]) =~= contents[i]);
}

/// The frames have the sizes of the partitions that are made of the contents
/// for `n` frames.
pub open spec fn are_sized_frames(
    frames: Seq<CompressedFrame>,
    contents: Seq<Seq<u8>>,
    sizes: Seq<u64>,
    n: u32,
) -> bool {
    let ranges = algo::partition_ranges(sizes, n);
    &&& are_sizes(sizes, contents)
    &&& algo::sum_of(sizes) <= u64::MAX
    &&& contents.len() > 0
    &&& algo::partition_limit(n, contents.len()) > 0
    &&& frames.len() == ranges.len()
    &&& forall|k: int|
        0 <= k < frames.len() ==> {
            let data = batch::joined(contents.subrange(ranges[k].0, ranges[k].1));
            &&& (#[trigger] frames[k]).decompressed_size == data.len()
            &&& frames[k].bytes@.len() <= u64::MAX
        }
}

/// The frames hold the contents: each is one of the partitions that are made of
/// them for `n` frames, compressed.
pub open spec fn are_frames_of(
    frames: Seq<CompressedFrame>,
    contents: Seq<Seq<u8>>,
    sizes: Seq<u64>,
    n: u32,
) -> bool {
    let ranges = algo::partition_ranges(sizes, n);
    &&& are_sized_frames(frames, contents, sizes, n)
    &&& forall|k: int|
        0 <= k < frames.len() ==> compression::holds_data(
            (#[trigger] frames[k]).bytes@,
            batch::joined(contents.subrange(ranges[k].0, ranges[k].1)),
        )
}

/// The file is a pack with the given frames.
pub open spec fn is_pack_of(file: Seq<u8>, frames: Seq<CompressedFrame>) -> bool {
    let hdr = packfile::header_size(file);
    &&& packfile::listed_frames(file) == Some(packfile::header_frames(frames))
    &&& hdr <= file.len()
    &&& file.skip(hdr) == batch::joined(packfile::frame_bytes(frames))
    &&& packfile::layout_fits(packfile::header_frames(frames), hdr)
}

/// The frames of a pack file that holds them all fit in 64 bits.
pub proof fn lemma_created_fits(
    file: Seq<u8>,
    frames: Seq<CompressedFrame>,
    contents: Seq<Seq<u8>>,
    sizes: Seq<u64>,
    n: u32,
)
    requires
        contents.len() == 0 ==> frames.len() == 0,
        contents.len() > 0 ==> are_sized_frames(frames, contents, sizes, n),
        packfile::listed_frames(file) == Some(packfile::header_frames(frames)),
        packfile::header_size(file) <= file.len() <= u64::MAX,
        file.skip(packfile::header_size(file)) == batch::joined(packfile::frame_bytes(frames)),
    ensures
        is_pack_of(file, frames),
{
    let listed = packfile::header_frames(frames);
    if frames.len() > 0 {
        let fs = pack::frame_sizes(listed);
        let ds = pack::decompressed_sizes(listed);
        let pieces = packfile::frame_bytes(frames);
        let hdr = packfile::header_size(file);
        let last = frames.len() - 1;
        assert(are_sizes(fs, pieces)) by {
            assert forall|i: int| 0 <= i < fs.len() implies (#[trigger] fs[i]) == pieces[i].len() by {
                assert(frames[i].bytes@.len() <= u64::MAX);
            }
        }
        lemma_joined_len(fs, pieces, 0, pieces.len() as int);
        assert(pieces.subrange(0, pieces.len() as int) =~= pieces);
        assert(file.skip(hdr).len() == file.len() - hdr);
        algo::lemma_range_sum_split(fs, 0, last, fs.len() as int);
        lemma_data_starts(frames, contents, sizes, n, last);
        algo::lemma_range_sum_within(sizes, 0, algo::partition_ranges(sizes, n)[last].0);
    }
}

/// Where the data of the frames starts: where the first object in each starts.
proof fn lemma_data_starts(
    frames: Seq<CompressedFrame>,
    contents: Seq<Seq<u8>>,
    sizes: Seq<u64>,
    n: u32,
    k: int,
)
    requires
        are_sized_frames(frames, contents, sizes, n),
        0 <= k < frames.len(),
    ensures
        ({
            let d = pack::decompressed_sizes(packfile::header_frames(frames));
            let r = algo::partition_ranges(sizes, n)[k];
            &&& 0 <= r.0 < r.1 <= sizes.len()
            &&& d[k] == algo::range_sum(sizes, r.0, r.1)
            &&& algo::range_sum(d, 0, k) == algo::range_sum(sizes, 0, r.0)
        }),
    decreases k,
{
    algo::law_partitions_cover_in_order(sizes, n);
    let ranges = algo::partition_ranges(sizes, n);
    let d = pack::decompressed_sizes(packfile::header_frames(frames));
    lemma_range_end(ranges, sizes.len() as int, k);
    let r = ranges[k];
    lemma_joined_len(sizes, contents, r.0, r.1);
    assert(frames[k].decompressed_size == batch::joined(contents.subrange(r.0, r.1)).len());
    assert(d[k] == frames[k].decompressed_size);
    if k > 0 {
        lemma_data_starts(frames, contents, sizes, n, k - 1);
        let q = ranges[k - 1];
        assert(q.1 == r.0);
        algo::lemma_range_sum_split(sizes, 0, q.0, q.1);
    }
}

/// Ranges that follow one another up to the end do not pass it.
pub proof fn lemma_range_end(ranges: Seq<(int, int)>, end: int, k: int)
    requires
        0 <= k < ranges.len(),
        ranges.last().1 == end,
        forall|k: int| 0 <= k < ranges.len() ==> 0 <= (#[trigger] ranges[k]).0 < ranges[k].1,
        forall|k: int| 0 <= k < ranges.len() - 1 ==> (#[trigger] ranges[k]).1 == ranges[k + 1].0,
    ensures
        ranges[k].1 <= end,
    decreases ranges.len() - k,
{
    if k < ranges.len() - 1 {
        lemma_range_end(ranges, end, k + 1);
        assert(ranges[k].1 == ranges[k + 1].0);
        assert(ranges[k + 1].0 < ranges[k + 1].1);
    }
}

/// Some range holds the position, and later ranges start after it.
proof fn lemma_range_of(ranges: Seq<(int, int)>, end: int, i: int, k: int) -> (r: int)
    requires
        0 <= k < ranges.len(),
        ranges[k].0 <= i < end,
        ranges.last().1 == end,
        forall|k: int| 0 <= k < ranges.len() ==> 0 <= (#[trigger] ranges[k]).0 < ranges[k].1,
        forall|k: int| 0 <= k < ranges.len() - 1 ==> (#[trigger] ranges[k]).1 == ranges[k + 1].0,
    ensures
        k <= r < ranges.len(),
        ranges[r].0 <= i < ranges[r].1,
    decreases ranges.len() - k,
{
    if i < ranges[k].1 {
        k
    } else if k == ranges.len() - 1 {
        k
    } else {
        assert(ranges[k].1 == ranges[k + 1].0);
        lemma_range_of(ranges, end, i, k + 1)
    }
}

/// Later ranges start at or after the end of earlier ones.
proof fn lemma_ranges_ordered(ranges: Seq<(int, int)>, a: int, b: int)
    requires
        0 <= a < b < ranges.len(),
        forall|k: int| 0 <= k < ranges.len() ==> 0 <= (#[trigger] ranges[k]).0 < ranges[k].1,
        forall|k: int| 0 <= k < ranges.len() - 1 ==> (#[trigger] ranges[k]).1 == ranges[k + 1].0,
    ensures
        ranges[a].1 <= ranges[b].0,
    decreases b - a,
{
    if a + 1 < b {
        lemma_ranges_ordered(ranges, a, b - 1);
        assert(ranges[b - 1].0 < ranges[b - 1].1);
        assert(ranges[b - 1].1 == ranges[b].0);
    } else {
        assert(ranges[a].1 == ranges[a + 1].0);
    }
}

/// The frame at position `k` and what follows it start where the sizes of the
/// frames say.
proof fn lemma_frame_position(file: Seq<u8>, frames: Seq<CompressedFrame>, k: int)
    requires
        is_pack_of(file, frames),
        forall|k: int| 0 <= k < frames.len() ==> (#[trigger] frames[k]).bytes@.len() <= u64::MAX,
        0 <= k < frames.len(),
    ensures
        ({
            let hdr = packfile::header_size(file);
            let at = hdr + pack::starts_of(
                pack::frame_sizes(packfile::header_frames(frames)),
            )[k];
            let rest = batch::joined(packfile::frame_bytes(frames).skip(k + 1));
            &&& 0 <= at <= u64::MAX
            &&& packfile::from_position(file, at as u64) == frames[k].bytes@ + rest
        }),
{
    let hdr = packfile::header_size(file);
    let listed = packfile::header_frames(frames);
    let sizes = pack::frame_sizes(listed);
    let pieces = packfile::frame_bytes(frames);
    assert(are_sizes(sizes, pieces)) by {
        assert forall|i: int| 0 <= i < sizes.len() implies (#[trigger] sizes[i]) == pieces[i].len() by {
            assert(frames[i].bytes@.len() <= u64::MAX);
        }
    }
    algo::lemma_range_sum_split(sizes, 0, k, sizes.len() - 1);
    let start = algo::range_sum(sizes, 0, k) as int;
    assert(pack::starts_of(sizes)[k] == start as u64);
    let at = hdr + start;
    batch::lemma_joined_split(pieces, k);
    assert(pieces.take(k) =~= pieces.subrange(0, k));
    lemma_joined_len(sizes, pieces, 0, k);
    let tail = pieces.skip(k);
    batch::lemma_joined_split(tail, 1);
    assert(tail.take(1) =~= seq![frames[k].bytes@]);
    assert(tail.take(1).drop_last() =~= Seq::empty());
    reveal_with_fuel(batch::joined, 2);
    assert(batch::joined(tail.take(1)) =~= frames[k].bytes@);
    assert(tail.skip(1) =~= pieces.skip(k + 1));
    let all = batch::joined(pieces);
    assert(file.skip(hdr) == all);
    assert(batch::joined(pieces.take(k)).len() == start);
    assert(all.len() == file.len() - hdr);
    assert(at <= file.len());
    assert(file.skip(at) =~= all.skip(start));
    assert(all.skip(start) =~= frames[k].bytes@ + batch::joined(pieces.skip(k + 1)));
}

/// The entry is that of the object at position `i` of the layout: it has the
/// offset and size that the layout gives, and the checksum of the content.
pub open spec fn is_entry_of(
    e: FileEntryView,
    contents: Seq<Seq<u8>>,
    sizes: Seq<u64>,
    i: int,
) -> bool {
    &&& 0 <= i < contents.len()
    &&& e.metadata == (ObjectMetadata {
        offset: algo::range_sum(sizes, 0, i) as u64,
        size: sizes[i],
    })
    &&& e.checksum == digest::sha1_of(contents[i])
}

/// The frame to which an entry is assigned holds its object, at the offset
/// that is relative to the frame.
proof fn lemma_entry_in_frame(
    frames: Seq<CompressedFrame>,
    contents: Seq<Seq<u8>>,
    sizes: Seq<u64>,
    n: u32,
    e: FileEntryView,
    i: int,
    k: int,
)
    requires
        are_frames_of(frames, contents, sizes, n),
        is_entry_of(e, contents, sizes, i),
        pack::starts_fit(pack::decompressed_sizes(packfile::header_frames(frames))),
        pack::piece_at(
            pack::starts_of(pack::decompressed_sizes(packfile::header_frames(frames))),
            e.metadata.offset,
        ) == Some(k),
    ensures
        ({
            let starts = pack::starts_of(
                pack::decompressed_sizes(packfile::header_frames(frames)),
            );
            let r = algo::partition_ranges(sizes, n)[k];
            let data = batch::joined(contents.subrange(r.0, r.1));
            let here = pack::local_entry(e, starts[k]);
            &&& 0 <= k < frames.len()
            &&& here.metadata.offset + here.metadata.size <= data.len()
            &&& content_in(data, here) == contents[i]
            &&& here.metadata.offset == e.metadata.offset - starts[k]
        }),
{
    let d = pack::decompressed_sizes(packfile::header_frames(frames));
    let starts = pack::starts_of(d);
    let ranges = algo::partition_ranges(sizes, n);
    algo::law_partitions_cover_in_order(sizes, n);
    algo::lemma_range_sum_within(sizes, 0, i);
    let offset = algo::range_sum(sizes, 0, i) as int;
    pack::lemma_piece_at(starts, e.metadata.offset);
    assert forall|q: int| 0 <= q < frames.len() implies (#[trigger] starts[q]) == algo::range_sum(
        sizes,
        0,
        ranges[q].0,
    ) by {
        lemma_data_starts(frames, contents, sizes, n, q);
        algo::lemma_range_sum_within(sizes, 0, ranges[q].0);
    }
    lemma_data_starts(frames, contents, sizes, n, k);
    let r = ranges[k];
    let data = batch::joined(contents.subrange(r.0, r.1));
    let here = pack::local_entry(e, starts[k]);
    lemma_joined_len(sizes, contents, r.0, r.1);
    let home = lemma_range_of(ranges, sizes.len() as int, i, 0);
    let h = ranges[home];
    lemma_data_starts(frames, contents, sizes, n, home);
    assert(starts[home] <= offset) by {
        algo::lemma_range_sum_split(sizes, 0, h.0, i);
    }
    assert(home <= k);
    if home < k {
        // Only an empty object is assigned to a later frame.
        lemma_ranges_ordered(ranges, home, k);
        algo::lemma_range_sum_split(sizes, 0, i, i + 1);
        algo::lemma_range_sum_split(sizes, 0, i + 1, r.0);
        assert(algo::range_sum(sizes, i, i + 1) == algo::range_sum(sizes, i, i) + sizes[i]);
        assert(starts[k] >= offset + sizes[i]);
        assert(sizes[i] == contents[i].len());
        assert(content_in(data, here) =~= contents[i]);
    } else {
        algo::lemma_range_sum_split(sizes, 0, r.0, i);
        lemma_joined_piece(sizes, contents, r.0, r.1, i);
    }
}

/// Every object of a pack is assigned to a frame, and the data of that frame
/// holds its content at the relative offset. A prefix of the data that reaches
/// the end of the object is enough.
pub proof fn law_every_object_is_in_its_frame(
    file: Seq<u8>,
    frames: Seq<CompressedFrame>,
    contents: Seq<Seq<u8>>,
    sizes: Seq<u64>,
    n: u32,
    e: FileEntryView,
    i: int,
    limit: int,
)
    requires
        are_frames_of(frames, contents, sizes, n),
        is_pack_of(file, frames),
        is_entry_of(e, contents, sizes, i),
    ensures
        ({
            let listed = packfile::header_frames(frames);
            let starts = pack::starts_of(pack::decompressed_sizes(listed));
            let k = pack::piece_at(starts, e.metadata.offset)->0;
            let here = pack::local_entry(e, starts[k]);
            let at = packfile::header_size(file) + pack::starts_of(pack::frame_sizes(listed))[k];
            let data = compression::decompressed(
                packfile::from_position(file, at as u64),
                limit,
                constants::DEFAULT_WINDOW_LOG_MAX,
            );
            &&& pack::piece_at(starts, e.metadata.offset) is Some
            &&& 0 <= k < frames.len()
            &&& here.metadata.offset + here.metadata.size <= listed[k].decompressed_size
            &&& here.metadata.offset + here.metadata.size <= limit
                <= listed[k].decompressed_size ==> content_in(data, here) == contents[i]
        }),
{
    let listed = packfile::header_frames(frames);
    let starts = pack::starts_of(pack::decompressed_sizes(listed));
    pack::lemma_piece_at(starts, e.metadata.offset);
    algo::law_partitions_cover_in_order(sizes, n);
    assert(starts[0] == 0);
    let k = pack::piece_at(starts, e.metadata.offset)->0;
    lemma_entry_in_frame(frames, contents, sizes, n, e, i, k);
    let r = algo::partition_ranges(sizes, n)[k];
    let full = batch::joined(contents.subrange(r.0, r.1));
    let here = pack::local_entry(e, starts[k]);
    assert(frames[k].decompressed_size == full.len());
    assert(compression::holds_data(frames[k].bytes@, full));
    lemma_frame_position(file, frames, k);
    if here.metadata.offset + here.metadata.size <= limit <= listed[k].decompressed_size {
        let rest = batch::joined(packfile::frame_bytes(frames).skip(k + 1));
        assert(compression::decompressed(
            frames[k].bytes@ + rest,
            limit,
            constants::DEFAULT_WINDOW_LOG_MAX,
        ) == full.take(limit));
        assert(content_in(full.take(limit), here) =~= content_in(full, here));
    }
}

/// An entry of a frame is one of the entries that were assigned, with its
/// offset made relative.
proof fn lemma_assigned_entry(starts: Seq<u64>, es: Seq<FileEntryView>, k: int, b: int) -> (a: int)
    requires
        0 <= b < pack::entries_in_frame(starts, es, k).len(),
    ensures
        0 <= a < es.len(),
        pack::piece_at(starts, es[a].metadata.offset) == Some(k),
        pack::entries_in_frame(starts, es, k)[b] == pack::local_entry(es[a], starts[k]),
    decreases es.len(),
{
    let init = es.drop_last();
    let rest = pack::entries_in_frame(starts, init, k);
    if b < rest.len() {
        let a = lemma_assigned_entry(starts, init, k, b);
        assert(init[a] == es[a]);
        a
    } else {
        es.len() - 1
    }
}

/// The data of entries ends within a bound within which each of them ends.
proof fn lemma_data_end_bound(es: Seq<FileEntryView>, bound: int)
    requires
        0 <= bound,
        forall|i: int|
            0 <= i < es.len() ==> (#[trigger] es[i]).metadata.offset + es[i].metadata.size <= bound,
    ensures
        0 <= extract::data_end(es) <= bound,
    decreases es.len(),
{
    if es.len() > 0 {
        lemma_data_end_bound(es.drop_last(), bound);
    }
}

/// The entry is that of an object of the layout.
pub open spec fn is_placed(e: FileEntryView, contents: Seq<Seq<u8>>, sizes: Seq<u64>) -> bool {
    exists|i: int| #[trigger] is_entry_of(e, contents, sizes, i)
}

/// The entries are those of objects of the layout.
pub open spec fn are_entries_of(
    es: Seq<FileEntryView>,
    contents: Seq<Seq<u8>>,
    sizes: Seq<u64>,
) -> bool {
    forall|a: int| 0 <= a < es.len() ==> is_placed(#[trigger] es[a], contents, sizes)
}

/// The content of the file is that of the object that the entry is for: the
/// entry is that of an object whose content is the given one.
pub open spec fn has_content(
    e: FileEntryView,
    start: u64,
    contents: Seq<Seq<u8>>,
    sizes: Seq<u64>,
    content: Seq<u8>,
) -> bool {
    exists|i: int|
        0 <= i < contents.len() && (#[trigger] contents[i]) == content && e.metadata.offset + start
            == algo::range_sum(sizes, 0, i) && e.metadata.size == sizes[i] && e.checksum
            == digest::sha1_of(contents[i])
}

/// The extraction of the entries that are assigned to the frame at position `k`
/// succeeds, and each file gets the content of the object that its entry is
/// for.
pub open spec fn is_frame_extracted(
    file: Seq<u8>,
    frames: Seq<CompressedFrame>,
    contents: Seq<Seq<u8>>,
    sizes: Seq<u64>,
    es: Seq<FileEntryView>,
    verify: bool,
    k: int,
) -> bool {
    let listed = packfile::header_frames(frames);
    let starts = pack::starts_of(pack::decompressed_sizes(listed));
    let here = pack::entries_in_frame(starts, es, k);
    let at = packfile::header_size(file) + pack::starts_of(pack::frame_sizes(listed))[k];
    let data = compression::decompressed(
        packfile::from_position(file, at as u64),
        extract::data_end(here),
        constants::DEFAULT_WINDOW_LOG_MAX,
    );
    let x = extract::extraction(data, false, here, verify);
    let sorted = extract::by_offset(here);
    &&& x.fault is None
    &&& x.written.len() == here.len()
    &&& forall|j: int|
        0 <= j < here.len() ==> (#[trigger] x.written[j]).path == sorted[j].path
            && has_content(
            sorted[j],
            starts[k],
            contents,
            sizes,
            data.subrange(x.written[j].start, x.written[j].end),
        )
}

/// What was packed is extracted: for every frame of a pack, the extraction of
/// the entries that are assigned to it succeeds, with or without verification,
/// and each file gets the content of the object that its entry is for.
pub proof fn law_packed_files_are_extracted(
    file: Seq<u8>,
    frames: Seq<CompressedFrame>,
    contents: Seq<Seq<u8>>,
    sizes: Seq<u64>,
    n: u32,
    es: Seq<FileEntryView>,
    verify: bool,
    k: int,
)
    requires
        are_frames_of(frames, contents, sizes, n),
        is_pack_of(file, frames),
        are_entries_of(es, contents, sizes),
        es.len() <= usize::MAX,
        0 <= k < frames.len(),
    ensures
        is_frame_extracted(file, frames, contents, sizes, es, verify, k),
{
    let listed = packfile::header_frames(frames);
    let starts = pack::starts_of(pack::decompressed_sizes(listed));
    let here = pack::entries_in_frame(starts, es, k);
    let limit = extract::data_end(here);
    let at = packfile::header_size(file) + pack::starts_of(pack::frame_sizes(listed))[k];
    let data = compression::decompressed(
        packfile::from_position(file, at as u64),
        limit,
        constants::DEFAULT_WINDOW_LOG_MAX,
    );
    let r = algo::partition_ranges(sizes, n)[k];
    let full = batch::joined(contents.subrange(r.0, r.1));
    assert(frames[k].decompressed_size == full.len());
    assert(compression::holds_data(frames[k].bytes@, full));
    lemma_frame_position(file, frames, k);
    lemma_assigned_len(starts, es, k);
    // Each entry of the frame ends within the data of the frame.
    assert forall|b: int| 0 <= b < here.len() implies (#[trigger] here[b]).metadata.offset
        + here[b].metadata.size <= full.len() by {
        let a = lemma_assigned_entry(starts, es, k, b);
        assert(is_placed(es[a], contents, sizes));
        let i = choose|i: int| is_entry_of(es[a], contents, sizes, i);
        lemma_entry_in_frame(frames, contents, sizes, n, es[a], i, k);
    }
    lemma_data_end_bound(here, full.len() as int);
    assert(data == full.take(limit)) by {
        let rest = batch::joined(packfile::frame_bytes(frames).skip(k + 1));
        assert(compression::decompressed(
            frames[k].bytes@ + rest,
            limit,
            constants::DEFAULT_WINDOW_LOG_MAX,
        ) == full.take(limit));
    }
    assert forall|b: int| 0 <= b < here.len() implies extract::is_within(data, #[trigger] here[b])
        && has_content(here[b], starts[k], contents, sizes, content_in(data, here[b]))
        && digest::sha1_of(content_in(data, here[b])) == here[b].checksum by {
        let a = lemma_assigned_entry(starts, es, k, b);
        assert(is_placed(es[a], contents, sizes));
        let i = choose|i: int| is_entry_of(es[a], contents, sizes, i);
        lemma_entry_in_frame(frames, contents, sizes, n, es[a], i, k);
        extract::lemma_data_end(here, b);
        algo::lemma_range_sum_within(sizes, 0, i);
        assert(content_in(full.take(limit), here[b]) =~= content_in(full, here[b]));
        assert(contents[i] == content_in(data, here[b]));
    }
    law_stream_entries_are_extracted(data, here, verify);
    let x = extract::extraction(data, false, here, verify);
    let sorted = extract::by_offset(here);
    let lt = extract::offset_order(here);
    extract::lemma_offset_order(here);
    sort::lemma_sorting_exists(lt, here.len() as int);
    let p = sort::sorting_of(lt, here.len() as int);
    assert forall|j: int| 0 <= j < here.len() implies (#[trigger] x.written[j]).path
        == sorted[j].path && has_content(
        sorted[j],
        starts[k],
        contents,
        sizes,
        data.subrange(x.written[j].start, x.written[j].end),
    ) by {
        assert(sorted[j] == here[p[j] as int]);
        assert(sorted.map_values(|e: FileEntryView| content_in(data, e))[j] == content_in(
            data,
            here[p[j] as int],
        ));
    }
}

/// What an extraction gives for a frame of a pack is what was packed: where it
/// gives no error, its files are those of the entries that are assigned to the
/// frame, each with the content of the object that its entry is for.
pub proof fn law_returned_files_have_contents(
    r: FrameExtraction,
    file: Seq<u8>,
    frames: Seq<CompressedFrame>,
    contents: Seq<Seq<u8>>,
    sizes: Seq<u64>,
    n: u32,
    es: Seq<FileEntryView>,
    verify: bool,
    k: int,
)
    requires
        are_frames_of(frames, contents, sizes, n),
        is_pack_of(file, frames),
        are_entries_of(es, contents, sizes),
        es.len() <= usize::MAX,
        0 <= k < frames.len(),
        ({
            let listed = packfile::header_frames(frames);
            let starts = pack::starts_of(pack::decompressed_sizes(listed));
            let at = packfile::header_size(file) + pack::starts_of(pack::frame_sizes(listed))[k];
            extract::is_extracted(
                r,
                packfile::from_position(file, at as u64),
                pack::entries_in_frame(starts, es, k),
                verify,
            )
        }),
    ensures
        ({
            let starts = pack::starts_of(
                pack::decompressed_sizes(packfile::header_frames(frames)),
            );
            let sorted = extract::by_offset(pack::entries_in_frame(starts, es, k));
            &&& r.files@.len() == sorted.len()
            &&& forall|j: int|
                0 <= j < sorted.len() ==> (#[trigger] r.files@[j]).path@ == sorted[j].path
                    && has_content(
                    sorted[j],
                    starts[k],
                    contents,
                    sizes,
                    r.data@.subrange(r.files@[j].start as int, r.files@[j].end as int),
                )
        }),
{
    law_packed_files_are_extracted(file, frames, contents, sizes, n, es, verify, k);
    let starts = pack::starts_of(pack::decompressed_sizes(packfile::header_frames(frames)));
    let here = pack::entries_in_frame(starts, es, k);
    let written = extract::extraction(r.data@, false, here, verify).written;
    assert(extract::extracted_views(r.files@) == written);
    assert(extract::by_offset(here).len() == here.len());
    assert forall|j: int| 0 <= j < here.len() implies (#[trigger] r.files@[j])@ == written[j] by {
        assert(extract::extracted_views(r.files@)[j] == r.files@[j]@);
    }
}

/// The extraction of the entries from a stream succeeds, and each file gets the
/// content of the object that its entry is for.
pub open spec fn is_stream_extracted(
    packed: Seq<u8>,
    contents: Seq<Seq<u8>>,
    sizes: Seq<u64>,
    es: Seq<FileEntryView>,
    verify: bool,
) -> bool {
    let data = compression::decompressed(
        packed,
        extract::data_end(es),
        constants::DEFAULT_WINDOW_LOG_MAX,
    );
    let x = extract::extraction(data, false, es, verify);
    let sorted = extract::by_offset(es);
    &&& x.fault is None
    &&& x.written.len() == es.len()
    &&& forall|j: int|
        0 <= j < es.len() ==> (#[trigger] x.written[j]).path == sorted[j].path && has_content(
            sorted[j],
            0,
            contents,
            sizes,
            data.subrange(x.written[j].start, x.written[j].end),
        )
}

/// What was compressed as one stream is extracted: the extraction of entries
/// for its objects succeeds, with or without verification, and each file gets
/// the content of the object that its entry is for.
pub proof fn law_compressed_files_are_extracted(
    packed: Seq<u8>,
    contents: Seq<Seq<u8>>,
    sizes: Seq<u64>,
    es: Seq<FileEntryView>,
    verify: bool,
)
    requires
        compression::holds_data(packed, batch::joined(contents)),
        are_sizes(sizes, contents),
        algo::sum_of(sizes) <= u64::MAX,
        are_entries_of(es, contents, sizes),
        es.len() <= usize::MAX,
    ensures
        is_stream_extracted(packed, contents, sizes, es, verify),
{
    let full = batch::joined(contents);
    let n = contents.len() as int;
    let limit = extract::data_end(es);
    let data = compression::decompressed(packed, limit, constants::DEFAULT_WINDOW_LOG_MAX);
    assert(contents.subrange(0, n) =~= contents);
    assert forall|b: int| 0 <= b < es.len() implies (#[trigger] es[b]).metadata.offset
        + es[b].metadata.size <= full.len() by {
        assert(is_placed(es[b], contents, sizes));
        let i = choose|i: int| is_entry_of(es[b], contents, sizes, i);
        lemma_joined_piece(sizes, contents, 0, n, i);
        algo::lemma_range_sum_within(sizes, 0, i);
    }
    lemma_data_end_bound(es, full.len() as int);
    assert(data == full.take(limit)) by {
        assert(packed + Seq::<u8>::empty() =~= packed);
        assert(compression::decompressed(
            packed + Seq::<u8>::empty(),
            limit,
            constants::DEFAULT_WINDOW_LOG_MAX,
        ) == full.take(limit));
    }
    assert forall|b: int| 0 <= b < es.len() implies extract::is_within(data, #[trigger] es[b])
        && has_content(es[b], 0, contents, sizes, content_in(data, es[b])) && digest::sha1_of(
        content_in(data, es[b]),
    ) == es[b].checksum by {
        assert(is_placed(es[b], contents, sizes));
        let i = choose|i: int| is_entry_of(es[b], contents, sizes, i);
        lemma_joined_piece(sizes, contents, 0, n, i);
        algo::lemma_range_sum_within(sizes, 0, i);
        extract::lemma_data_end(es, b);
        assert(content_in(full.take(limit), es[b]) =~= content_in(full, es[b]));
        assert(contents[i] == content_in(data, es[b]));
    }
    law_stream_entries_are_extracted(data, es, verify);
    let x = extract::extraction(data, false, es, verify);
    let sorted = extract::by_offset(es);
    let lt = extract::offset_order(es);
    extract::lemma_offset_order(es);
    sort::lemma_sorting_exists(lt, es.len() as int);
    let p = sort::sorting_of(lt, es.len() as int);
    assert forall|j: int| 0 <= j < es.len() implies (#[trigger] x.written[j]).path
        == sorted[j].path && has_content(
        sorted[j],
        0,
        contents,
        sizes,
        data.subrange(x.written[j].start, x.written[j].end),
    ) by {
        assert(sorted[j] == es[p[j] as int]);
        assert(sorted.map_values(|e: FileEntryView| content_in(data, e))[j] == content_in(
            data,
            es[p[j] as int],
        ));
    }
}

/// A frame has at most as many entries as there are.
proof fn lemma_assigned_len(starts: Seq<u64>, es: Seq<FileEntryView>, k: int)
    ensures
        pack::entries_in_frame(starts, es, k).len() <= es.len(),
    decreases es.len(),
{
    if es.len() > 0 {
        lemma_assigned_len(starts, es.drop_last(), k);
    }
}

} // verus!
