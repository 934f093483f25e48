//! Extraction of files from the frames of a pack.

use super::constants;
use super::constants::DEFAULT_WINDOW_LOG_MAX;
use super::error::Error;
use crate::bytes::bytes_equal;
use crate::compression;
use crate::compression::decompress;
use crate::digest;
use crate::digest::{sha1, ObjectChecksum};
use crate::ioerror;
use crate::ioerror::{IoError, IoErrorKind};
use crate::packidx::packidx;
use crate::packidx::packidx::FileEntryView;
use crate::packidx::{FileEntry, PackError};
use crate::sort;
use crate::sort::sort_positions;
use vstd::prelude::*;
use vstd::slice::{slice_subrange, slice_to_vec};

verus! {

/// A file to write: its path, and the part of the data that is its content.
#[derive(Debug)]
pub struct ExtractedFile {
    pub path: Vec<u8>,
    pub start: usize,
    pub end: usize,
}

/// What an [`ExtractedFile`] says.
#[verifier::ext_equal]
pub struct ExtractedView {
    pub path: Seq<u8>,
    pub start: int,
    pub end: int,
}

impl View for ExtractedFile {
    type V = ExtractedView;

    open spec fn view(&self) -> ExtractedView {
        ExtractedView { path: self.path@, start: self.start as int, end: self.end as int }
    }
}

/// What a list of extracted files says.
pub open spec fn extracted_views(files: Seq<ExtractedFile>) -> Seq<ExtractedView> {
    files.map_values(|f: ExtractedFile| f@)
}

/// Why an extraction stops.
pub enum ExtractFault {
    /// The data could not be read that far
    Stream,
    /// The data ends before the object does
    Eof,
    /// The object does not have the expected checksum
    Checksum { expected: Seq<u8>, actual: Seq<u8> },
}

/// The files that are written, in order, and why there are no more.
pub struct Extraction {
    pub written: Seq<ExtractedView>,
    pub fault: Option<ExtractFault>,
}

/// The data was read up to the end of the object, or up to its start if the
/// object is empty.
pub open spec fn is_within(data: Seq<u8>, e: FileEntryView) -> bool {
    e.metadata.offset + e.metadata.size <= data.len()
}

/// What is written for the entries from position `i` on, in a stream of which
/// `data` has been read: for each the part of the data from its offset on that
/// has its size. If reading has failed, the extraction does not succeed.
pub open spec fn extraction_from(
    data: Seq<u8>,
    failed: bool,
    es: Seq<FileEntryView>,
    verify: bool,
    i: int,
) -> Extraction
    decreases es.len() - i,
{
    if i >= es.len() {
        Extraction {
            written: Seq::empty(),
            fault: if failed {
                Some(ExtractFault::Stream)
            } else {
                None
            },
        }
    } else {
        let e = es[i];
        let size = e.metadata.size as int;
        if !is_within(data, e) && failed {
            Extraction { written: Seq::empty(), fault: Some(ExtractFault::Stream) }
        } else if !is_within(data, e) && size > 0 {
            Extraction { written: Seq::empty(), fault: Some(ExtractFault::Eof) }
        } else {
            // Past the end of the data only an empty object can be read.
            let s = if is_within(data, e) {
                e.metadata.offset as int
            } else {
                0
            };
            let actual = digest::sha1_of(data.subrange(s, s + size));
            if verify && actual != e.checksum {
                Extraction {
                    written: Seq::empty(),
                    fault: Some(ExtractFault::Checksum { expected: e.checksum, actual }),
                }
            } else {
                let rest = extraction_from(data, failed, es, verify, i + 1);
                Extraction {
                    written: seq![ExtractedView { path: e.path, start: s, end: s + size }]
                        + rest.written,
                    fault: rest.fault,
                }
            }
        }
    }
}

/// Orders entries by the offset of their objects.
pub open spec fn offset_less(a: FileEntryView, b: FileEntryView) -> bool {
    a.metadata.offset < b.metadata.offset
}

/// The order of a list of entries.
pub open spec fn offset_order(es: Seq<FileEntryView>) -> spec_fn(int, int) -> bool {
    |a: int, b: int| offset_less(es[a], es[b])
}

/// The entries in the order of the offsets of their objects. Entries with the
/// same offset keep their order.
pub open spec fn by_offset(es: Seq<FileEntryView>) -> Seq<FileEntryView> {
    let p = sort::sorting_of(offset_order(es), es.len() as int);
    Seq::new(es.len(), |i: int| es[p[i] as int])
}

/// What is extracted from a stream of which `data` has been read.
pub open spec fn extraction(
    data: Seq<u8>,
    failed: bool,
    es: Seq<FileEntryView>,
    verify: bool,
) -> Extraction {
    extraction_from(data, failed, by_offset(es), verify, 0)
}

/// How far the data has to be read for the entries.
pub open spec fn data_end(es: Seq<FileEntryView>) -> int
    decreases es.len(),
{
    if es.len() == 0 {
        0
    } else {
        let rest = data_end(es.drop_last());
        let end = es.last().metadata.offset + es.last().metadata.size;
        if rest <= end {
            end
        } else {
            rest
        }
    }
}

/// The ends of all objects fit in 64 bits. Objects that are verified are small
/// enough to be hashed.
pub open spec fn ends_fit(es: Seq<FileEntryView>, verify: bool) -> bool {
    &&& data_end(es) <= u64::MAX
    &&& verify ==> data_end(es) < 0x2000_0000_0000_0000
}

/// No object ends after the end of the data.
pub proof fn lemma_data_end(es: Seq<FileEntryView>, i: int)
    requires
        0 <= i < es.len(),
    ensures
        es[i].metadata.offset + es[i].metadata.size <= data_end(es),
        0 <= data_end(es),
    decreases es.len(),
{
    if i < es.len() - 1 {
        lemma_data_end(es.drop_last(), i);
    } else if es.len() > 1 {
        lemma_data_end(es.drop_last(), 0);
    }
}

/// Verifies that the object has the expected checksum.
pub fn verify_object(buf: &[u8], exp_checksum: &ObjectChecksum) -> (r: Result<(), Error>)
    requires
        buf@.len() < 0x2000_0000_0000_0000,
    ensures
        match r {
            Ok(_) => digest::sha1_of(buf@) == exp_checksum@,
            Err(e) => {
                &&& digest::sha1_of(buf@) != exp_checksum@
                &&& e matches Error::PackError(PackError::ChecksumMismatch(exp, got))
                &&& exp == exp_checksum
                &&& got@ == digest::sha1_of(buf@)
            },
        },
{
    let checksum = sha1(buf);
    if !bytes_equal(checksum.as_slice(), exp_checksum.as_slice()) {
        return Err(Error::PackError(PackError::ChecksumMismatch(*exp_checksum, checksum)));
    }
    Ok(())
}

/// The error is the one for the fault.
pub open spec fn is_fault_error(fault: Option<ExtractFault>, failure: Option<IoError>, r: Result<
    (),
    Error,
>) -> bool {
    match fault {
        None => r is Ok,
        Some(ExtractFault::Stream) => failure matches Some(f) && r matches Err(Error::IOError(e))
            && e == f,
        Some(ExtractFault::Eof) => r matches Err(Error::IOError(e)) && e.kind
            == IoErrorKind::UnexpectedEof && e.message@ == ioerror::eof_text(),
        Some(ExtractFault::Checksum { expected, actual }) => r matches Err(
            Error::PackError(PackError::ChecksumMismatch(exp, got)),
        ) && exp@ == expected && got@ == actual,
    }
}

/// The order of offsets is that of a sort.
pub proof fn lemma_offset_order(es: Seq<FileEntryView>)
    ensures
        sort::is_weak_order(offset_order(es), es.len() as int),
{
}

/// Sorts the entries by the offset of their objects.
fn sort_by_offset(entries: &[FileEntry]) -> (p: Vec<usize>)
    ensures
        p@ == sort::sorting_of(
            offset_order(packidx::entry_views(entries@)),
            entries@.len() as int,
        ),
        sort::is_sorting(
            offset_order(packidx::entry_views(entries@)),
            p@,
            entries@.len() as int,
        ),
{
    let ghost es = packidx::entry_views(entries@);
    let less = |a: usize, b: usize| -> (r: bool)
        requires
            a < entries@.len(),
            b < entries@.len(),
        ensures
            r == offset_less(entries@[a as int]@, entries@[b as int]@),
        {
            entries[a].metadata.offset < entries[b].metadata.offset
        };
    let ghost lt = offset_order(es);
    proof {
        lemma_offset_order(es);
    }
    let p = sort_positions(entries.len(), &less, Ghost(lt));
    proof {
        let q = sort::sorting_of(lt, entries@.len() as int);
        assert(sort::is_sorting(lt, q, entries@.len() as int));
        sort::lemma_sorting_unique(lt, p@, q, entries@.len() as int);
    }
    p
}

/// Extracts the given entries from a stream of which `data` has been read, up
/// to a failure if there was one. Checksum verification can be toggled on/off.
/// Returns the files to write, and whether there is one for each entry and all
/// data could be read.
pub fn extract_from_stream(
    data: &[u8],
    failure: Option<IoError>,
    entries: &[FileEntry],
    verify: bool,
) -> (r: (Vec<ExtractedFile>, Result<(), Error>))
    requires
        ends_fit(packidx::entry_views(entries@), verify),
    ensures
        ({
            let x = extraction(
                data@,
                failure is Some,
                packidx::entry_views(entries@),
                verify,
            );
            &&& extracted_views(r.0@) == x.written
            &&& is_fault_error(x.fault, failure, r.1)
        }),
{
    // Sort objects to allow for forward-only seeking
    let p = sort_by_offset(entries);
    let ghost views = packidx::entry_views(entries@);
    let ghost es = by_offset(views);
    let ghost failed = failure is Some;
    let ghost all = extraction(data@, failed, views, verify);
    let mut files: Vec<ExtractedFile> = Vec::new();
    let mut i: usize = 0;
    assert(all.written =~= Seq::<ExtractedView>::empty() + all.written);
    while i < p.len()
        invariant
            views == packidx::entry_views(entries@),
            ends_fit(views, verify),
            p@ == sort::sorting_of(offset_order(views), entries@.len() as int),
            sort::is_sorting(offset_order(views), p@, entries@.len() as int),
            es == by_offset(views),
            failed == (failure is Some),
            all == extraction(data@, failed, views, verify),
            i <= p.len(),
            p.len() == es.len(),
            ({
                let rest = extraction_from(data@, failed, es, verify, i as int);
                all.written == extracted_views(files@) + rest.written && all.fault == rest.fault
            }),
        decreases p.len() - i,
    {
        let entry = &entries[p[i]];
        let metadata = entry.metadata;
        proof {
            assert(views[p@[i as int] as int] == entry@);
            assert(es[i as int] == entry@);
            lemma_data_end(views, p@[i as int] as int);
        }
        let ghost before = extracted_views(files@);
        let object_end = metadata.offset + metadata.size;
        let (start, end): (usize, usize) = if object_end <= data.len() as u64 {
            (metadata.offset as usize, object_end as usize)
        } else {
            if let Some(e) = failure {
                assert(all.written =~= extracted_views(files@));
                return (files, Err(Error::IOError(e)));
            }
            if metadata.size > 0 {
                assert(all.written =~= extracted_views(files@));
                return (files, Err(Error::IOError(IoError::unexpected_eof())));
            }
            (0, 0)
        };
        if verify {
            let object = slice_subrange(data, start, end);
            if let Err(e) = verify_object(object, &entry.checksum) {
                assert(all.written =~= extracted_views(files@));
                return (files, Err(e));
            }
        }
        let file = ExtractedFile { path: slice_to_vec(entry.path.as_slice()), start, end };
        files.push(file);
        proof {
            let rest = extraction_from(data@, failed, es, verify, i + 1);
            assert(extracted_views(files@) =~= before.push(file@));
            assert(before + (seq![file@] + rest.written) =~= before.push(file@) + rest.written);
        }
        i += 1;
    }
    assert(all.written =~= extracted_views(files@));
    match failure {
        Some(e) => (files, Err(Error::IOError(e))),
        None => (files, Ok(())),
    }
}

/// What [`extract_files`] gives.
#[derive(Debug)]
pub struct FrameExtraction {
    /// The data that was read from the frame.
    pub data: Vec<u8>,
    /// The files to write, whose content is part of the data.
    pub files: Vec<ExtractedFile>,
    /// Whether there is a file for each entry.
    pub result: Result<(), Error>,
}

/// The extraction is that of the entries from the frame at the start of
/// `packed`, where reading failed as `failure` says.
pub open spec fn is_extraction(
    r: FrameExtraction,
    failure: Option<IoError>,
    packed: Seq<u8>,
    es: Seq<FileEntryView>,
    verify: bool,
) -> bool {
    let x = extraction(r.data@, failure is Some, es, verify);
    &&& extracted_views(r.files@) == x.written
    &&& is_fault_error(x.fault, failure, r.result)
    &&& failure is None ==> r.data@ == compression::decompressed(
        packed,
        data_end(es),
        constants::DEFAULT_WINDOW_LOG_MAX,
    )
}

/// The extraction is a success: the data is what the frame at the start of
/// `packed` decompresses to, as far as the entries need it, and the files are
/// those of the entries in that data.
pub open spec fn is_extracted(
    r: FrameExtraction,
    packed: Seq<u8>,
    es: Seq<FileEntryView>,
    verify: bool,
) -> bool {
    let x = extraction(r.data@, false, es, verify);
    &&& r.data@ == compression::decompressed(
        packed,
        data_end(es),
        constants::DEFAULT_WINDOW_LOG_MAX,
    )
    &&& extracted_views(r.files@) == x.written
    &&& x.fault is None
}

/// An extraction from a stream that could not be read does not succeed.
proof fn lemma_failed_extraction(data: Seq<u8>, es: Seq<FileEntryView>, verify: bool, i: int)
    ensures
        extraction_from(data, true, es, verify, i).fault is Some,
    decreases es.len() - i,
{
    if i < es.len() {
        lemma_failed_extraction(data, es, verify, i + 1);
    }
}

/// An extraction that gives no error is a success.
pub proof fn lemma_ok_is_extracted(
    r: FrameExtraction,
    failure: Option<IoError>,
    packed: Seq<u8>,
    es: Seq<FileEntryView>,
    verify: bool,
)
    requires
        is_extraction(r, failure, packed, es, verify),
        r.result is Ok,
    ensures
        is_extracted(r, packed, es, verify),
{
    if failure is Some {
        lemma_failed_extraction(r.data@, by_offset(es), verify, 0);
    }
}

/// How far the data has to be read for the entries.
fn compute_data_end(entries: &[FileEntry]) -> (r: u64)
    requires
        data_end(packidx::entry_views(entries@)) <= u64::MAX,
    ensures
        r == data_end(packidx::entry_views(entries@)),
{
    let ghost es = packidx::entry_views(entries@);
    let mut r: u64 = 0;
    let mut i: usize = 0;
    assert(es.take(0) =~= Seq::empty());
    while i < entries.len()
        invariant
            es == packidx::entry_views(entries@),
            data_end(es) <= u64::MAX,
            i <= entries.len(),
            r == data_end(es.take(i as int)),
        decreases entries.len() - i,
    {
        proof {
            lemma_data_end(es, i as int);
            assert(es[i as int] == entries@[i as int]@);
            assert(es.take(i + 1).drop_last() =~= es.take(i as int));
        }
        let end = entries[i].metadata.offset + entries[i].metadata.size;
        if r <= end {
            r = end;
        }
        i += 1;
    }
    assert(es.take(i as int) =~= es);
    r
}

/// Extracts the given entries from the frame at the start of `packed`.
/// Checksum verification can be toggled on/off.
pub fn extract_files(packed: &[u8], entries: &[FileEntry], verify: bool) -> (r: FrameExtraction)
    requires
        ends_fit(packidx::entry_views(entries@), verify),
    ensures
        exists|failure: Option<IoError>| #[trigger]
            is_extraction(r, failure, packed@, packidx::entry_views(entries@), verify),
        r.result is Ok ==> is_extracted(r, packed@, packidx::entry_views(entries@), verify),
{
    let limit = compute_data_end(entries);
    let (data, failure) = decompress(packed, limit, DEFAULT_WINDOW_LOG_MAX);
    let failure = match failure {
        Some(message) => Some(IoError { kind: IoErrorKind::Other, message }),
        None => None,
    };
    let ghost given = failure;
    let (files, result) = extract_from_stream(data.as_slice(), failure, entries, verify);
    let r = FrameExtraction { data, files, result };
    assert(is_extraction(r, given, packed@, packidx::entry_views(entries@), verify));
    proof {
        if r.result is Ok {
            lemma_ok_is_extracted(r, given, packed@, packidx::entry_views(entries@), verify);
        }
    }
    r
}

/// Where an object was read from: its range if the data reaches so far. An empty
/// object can be read in any case.
pub open spec fn is_read(data: Seq<u8>, e: FileEntryView, w: ExtractedView) -> bool {
    &&& w.path == e.path
    &&& 0 <= w.start <= w.end <= data.len()
    &&& w.end - w.start == e.metadata.size
    &&& e.metadata.offset + e.metadata.size <= data.len() ==> w.start == e.metadata.offset
}

/// An object can be read: the data reaches far enough for it, or it is empty and
/// the data did not fail, and it has its checksum where that is verified.
pub open spec fn is_readable(data: Seq<u8>, failed: bool, e: FileEntryView, verify: bool) -> bool {
    let within = e.metadata.offset + e.metadata.size <= data.len();
    &&& within || (!failed && e.metadata.size == 0)
    &&& verify ==> e.checksum == digest::sha1_of(
        if within {
            data.subrange(
                e.metadata.offset as int,
                e.metadata.offset + e.metadata.size,
            )
        } else {
            Seq::empty()
        },
    )
}

/// Objects are written in order up to the first that cannot be read. There is no
/// fault if and only if all of them can be read and the data did not fail. An
/// object with another checksum than expected is at fault itself. For an object
/// that the data does not reach, the failure of the data is at fault, or else the
/// early end.
pub proof fn law_objects_are_written_up_to_first_fault(
    data: Seq<u8>,
    failed: bool,
    es: Seq<FileEntryView>,
    verify: bool,
)
    ensures
        ({
            let x = extraction_from(data, failed, es, verify, 0);
            let n = x.written.len() as int;
            &&& n <= es.len()
            &&& forall|i: int|
                0 <= i < n ==> is_read(data, es[i], #[trigger] x.written[i]) && is_readable(
                    data,
                    failed,
                    es[i],
                    verify,
                )
            &&& n < es.len() ==> !is_readable(data, failed, es[n], verify)
            &&& x.fault is None <==> n == es.len() && !failed
            &&& n == es.len() && failed ==> x.fault == Some(ExtractFault::Stream)
            &&& n < es.len() && es[n].metadata.offset + es[n].metadata.size > data.len() && failed
                ==> x.fault == Some(ExtractFault::Stream)
            &&& n < es.len() && es[n].metadata.offset + es[n].metadata.size > data.len() && !failed
                && es[n].metadata.size > 0 ==> x.fault == Some(ExtractFault::Eof)
            &&& n < es.len() && es[n].metadata.offset + es[n].metadata.size <= data.len()
                ==> x.fault == Some(
                ExtractFault::Checksum {
                    expected: es[n].checksum,
                    actual: digest::sha1_of(
                        data.subrange(
                            es[n].metadata.offset as int,
                            es[n].metadata.offset + es[n].metadata.size,
                        ),
                    ),
                },
            )
        }),
{
    lemma_written(data, failed, es, verify, 0);
}

proof fn lemma_written(
    data: Seq<u8>,
    failed: bool,
    es: Seq<FileEntryView>,
    verify: bool,
    from: int,
)
    requires
        0 <= from <= es.len(),
    ensures
        ({
            let x = extraction_from(data, failed, es, verify, from);
            let n = from + x.written.len();
            &&& n <= es.len()
            &&& forall|i: int|
                0 <= i < n - from ==> is_read(data, es[from + i], #[trigger] x.written[i])
                    && is_readable(data, failed, es[from + i], verify)
            &&& n < es.len() ==> !is_readable(data, failed, es[n], verify)
            &&& x.fault is None <==> n == es.len() && !failed
            &&& n == es.len() && failed ==> x.fault == Some(ExtractFault::Stream)
            &&& n < es.len() && es[n].metadata.offset + es[n].metadata.size > data.len() && failed
                ==> x.fault == Some(ExtractFault::Stream)
            &&& n < es.len() && es[n].metadata.offset + es[n].metadata.size > data.len() && !failed
                && es[n].metadata.size > 0 ==> x.fault == Some(ExtractFault::Eof)
            &&& n < es.len() && es[n].metadata.offset + es[n].metadata.size <= data.len()
                ==> x.fault == Some(
                ExtractFault::Checksum {
                    expected: es[n].checksum,
                    actual: digest::sha1_of(
                        data.subrange(
                            es[n].metadata.offset as int,
                            es[n].metadata.offset + es[n].metadata.size,
                        ),
                    ),
                },
            )
        }),
    decreases es.len() - from,
{
    if from < es.len() {
        let e = es[from];
        let x = extraction_from(data, failed, es, verify, from);
        let size = e.metadata.size as int;
        let within = is_within(data, e);
        let s = if within {
            e.metadata.offset as int
        } else {
            0
        };
        let actual = digest::sha1_of(data.subrange(s, s + size));
        assert(data.subrange(0, 0) =~= Seq::empty());
        if (!within && (failed || size > 0)) || (verify && actual != e.checksum) {
            assert(x.written.len() == 0);
            assert(!is_readable(data, failed, e, verify));
        } else {
            lemma_written(data, failed, es, verify, from + 1);
            let rest = extraction_from(data, failed, es, verify, from + 1);
            let first = ExtractedView { path: e.path, start: s, end: s + size };
            assert(x.written == seq![first] + rest.written);
            assert(x.fault == rest.fault);
            assert(is_read(data, e, first));
            assert(is_readable(data, failed, e, verify));
            assert(from + x.written.len() == from + 1 + rest.written.len());
            assert forall|i: int| 0 <= i < x.written.len() implies is_read(
                data,
                es[from + i],
                #[trigger] x.written[i],
            ) && is_readable(data, failed, es[from + i], verify) by {
                if i > 0 {
                    assert(x.written[i] == rest.written[i - 1]);
                    assert(es[from + 1 + (i - 1)] == es[from + i]);
                }
            }
        }
    }
}

/// Objects are read in the order of their offsets, each entry once, and entries
/// with the same offset in the order in which they were given.
pub proof fn law_objects_are_read_by_offset(es: Seq<FileEntryView>) -> (p: Seq<usize>)
    requires
        es.len() <= usize::MAX,
    ensures
        by_offset(es).len() == es.len(),
        p.len() == es.len(),
        p.no_duplicates(),
        forall|i: int|
            0 <= i < p.len() ==> (#[trigger] p[i]) < es.len() && by_offset(es)[i]
                == es[p[i] as int],
        forall|i: int, j: int|
            0 <= i < j < p.len() ==> es[#[trigger] p[i] as int].metadata.offset
                < es[#[trigger] p[j] as int].metadata.offset || (es[p[i] as int].metadata.offset
                == es[p[j] as int].metadata.offset && p[i] < p[j]),
{
    let lt = offset_order(es);
    let n = es.len() as int;
    lemma_offset_order(es);
    sort::lemma_sorting_exists(lt, n);
    let p = sort::sorting_of(lt, n);
    assert forall|i: int, j: int| 0 <= i < j < p.len() implies es[#[trigger] p[i] as int].metadata.offset
        < es[#[trigger] p[j] as int].metadata.offset || (es[p[i] as int].metadata.offset
        == es[p[j] as int].metadata.offset && p[i] < p[j]) by {
        assert(sort::comes_before(lt, p[i] as int, p[j] as int));
    }
    p
}

/// The data has to reach the end of every object, and no further.
pub proof fn law_data_reaches_every_object(es: Seq<FileEntryView>)
    ensures
        forall|i: int|
            0 <= i < es.len() ==> (#[trigger] es[i]).metadata.offset + es[i].metadata.size
                <= data_end(es),
        es.len() == 0 ==> data_end(es) == 0,
        es.len() > 0 ==> exists|i: int|
            0 <= i < es.len() && (#[trigger] es[i]).metadata.offset + es[i].metadata.size
                == data_end(es),
    decreases es.len(),
{
    if es.len() > 0 {
        let init = es.drop_last();
        law_data_reaches_every_object(init);
        let n = es.len() - 1;
        assert(es[n] == es.last());
        assert forall|i: int| 0 <= i < init.len() implies init[i] == #[trigger] es[i] by {}
        if init.len() > 0 {
            let i = choose|i: int|
                0 <= i < init.len() && (#[trigger] init[i]).metadata.offset + init[i].metadata.size
                    == data_end(init);
            assert(es[i] == init[i]);
        }
    }
}

} // verus!
