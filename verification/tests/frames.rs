use elfshaker::batch::{compress_files, compute_checksums, join_objects, CompressionOptions};
use elfshaker::packidx::{FileEntry, ObjectMetadata, PackIndexV1};
use elfshaker::progress::{Checkpoint, ProgressReporter, ProgressWriter};
use elfshaker::repo::create::create_pack;
use elfshaker::repo::extract::{extract_files, verify_object};
use elfshaker::repo::pack::{
    assign_to_frames, compute_frame_decompressed_offset, compute_frame_offsets, frames_fit,
    read_skippable_frame,
};
use elfshaker::repo::packfile::{extract_task, read_header};
use elfshaker::repo::{write_skippable_frame, Error, Pack, PackFrame, PackHeader, PackId, PackOptions};
use elfshaker::packidx::PackError;
use elfshaker::ioerror::IoErrorKind;
use std::cell::RefCell;
use std::io::Write;
use zstd::stream::raw::CParameter;

fn make_md(offset: u64, size: u64) -> ObjectMetadata {
    ObjectMetadata { offset, size }
}

#[test]
fn assign_to_frames_single_works() {
    let frames = [PackFrame {
        frame_size: 100,
        decompressed_size: 1000,
    }];
    let entries = [
        FileEntry::new("A".into(), [0; 20], make_md(50, 1)),
        FileEntry::new("B".into(), [1; 20], make_md(50, 1)),
    ];
    let result = assign_to_frames(&frames, &entries).unwrap();
    assert_eq!(1, result.len());
    assert_eq!(&entries, result[0].as_slice());
}

#[test]
fn assign_to_frames_multiple_works() {
    let frames = [
        PackFrame {
            frame_size: 100,
            decompressed_size: 1000,
        },
        PackFrame {
            frame_size: 100,
            decompressed_size: 1000,
        },
    ];
    let entries = [
        FileEntry::new("A".into(), [0; 20], make_md(800, 200)),
        FileEntry::new("B".into(), [1; 20], make_md(1200, 200)),
    ];
    let frame_1_entries = [
        // Offset is same
        FileEntry::new("A".into(), [0; 20], make_md(800, 200)),
    ];
    let frame_2_entries = [
        // Offset 1200 -> 200
        FileEntry::new("B".into(), [1; 20], make_md(200, 200)),
    ];
    let result = assign_to_frames(&frames, &entries).unwrap();
    assert_eq!(2, result.len());
    assert_eq!(&frame_1_entries, result[0].as_slice());
    assert_eq!(&frame_2_entries, result[1].as_slice());
}

#[test]
fn frame_offsets_are_running_sums() {
    let frames = [
        PackFrame { frame_size: 10, decompressed_size: 100 },
        PackFrame { frame_size: 20, decompressed_size: 200 },
        PackFrame { frame_size: 30, decompressed_size: 300 },
    ];
    assert_eq!(vec![0, 10, 30], compute_frame_offsets(&frames));
    assert_eq!(vec![0, 100, 300], compute_frame_decompressed_offset(&frames));
    assert!(frames_fit(&frames));
    let frames = [
        PackFrame { frame_size: u64::MAX, decompressed_size: 1 },
        PackFrame { frame_size: 1, decompressed_size: 1 },
        PackFrame { frame_size: 1, decompressed_size: 1 },
    ];
    assert!(!frames_fit(&frames));
}

#[test]
fn skippable_frame_round_trip() {
    let mut out: Vec<u8> = vec![];
    assert_eq!(13, write_skippable_frame(&mut out, b"hello").unwrap());
    assert_eq!(b"\x50\x2a\x4d\x18\x05\0\0\0hello".to_vec(), out);
    out.extend_from_slice(b"rest");
    let mut buf = vec![];
    assert_eq!(13, read_skippable_frame(&out, &mut buf).unwrap());
    assert_eq!(b"hello".to_vec(), buf);
}

#[test]
fn frame_that_is_not_skippable_fails() {
    let mut buf = vec![];
    let e = read_skippable_frame(b"\0\0\0\0\0\0\0\0", &mut buf).unwrap_err();
    assert_eq!("Not a Zstandard skippable frame!", e.message);
    assert!(read_skippable_frame(b"\x50\x2a", &mut buf).is_err());
    assert!(read_skippable_frame(b"\x50\x2a\x4d\x18\x05\0\0\0hel", &mut buf).is_err());
}

#[test]
fn pack_header_has_a_magic_constant() {
    assert!(PackHeader::new(vec![]).is_valid());
    assert!(PackHeader::default().is_valid());
    let mut h = PackHeader::new(vec![]);
    h.magic = 0;
    assert!(!h.is_valid());
}

#[test]
fn checksums_are_sha1() {
    let sums = compute_checksums(&[b"".to_vec(), b"abc".to_vec()]);
    assert_eq!(
        "da39a3ee5e6b4b0d3255bfef95601890afd80709",
        hex::encode(sums[0])
    );
    assert_eq!(
        "a9993e364706816aba3e25717850c26c9cd0d89d",
        hex::encode(sums[1])
    );
}

#[test]
fn objects_are_verified() {
    let sum = compute_checksums(&[b"abc".to_vec()])[0];
    assert!(verify_object(b"abc", &sum).is_ok());
    assert!(matches!(
        verify_object(b"abd", &sum),
        Err(Error::PackError(PackError::ChecksumMismatch(a, b))) if a == sum && b != sum
    ));
}

#[test]
fn objects_are_joined_and_compressed() {
    let objects = [b"one".to_vec(), b"".to_vec(), b"two".to_vec()];
    assert_eq!(b"onetwo".to_vec(), join_objects(&objects));
    let opts = CompressionOptions { window_log: 20, level: 3, num_workers: 2 };
    let seen = RefCell::new(vec![]);
    let report = |c: &Checkpoint| seen.borrow_mut().push((c.done, c.remaining));
    let reporter = ProgressReporter::new(report);
    let (n, bytes) = compress_files(&objects, &opts, &reporter).unwrap();
    assert_eq!(6, n);
    assert_ne!(b"onetwo".to_vec(), bytes);
    assert_eq!(b"onetwo".to_vec(), zstd::decode_all(bytes.as_slice()).unwrap());
    assert_eq!(Some(&(3, Some(0))), seen.borrow().last());
}

fn entry(path: &str, content: &[u8]) -> FileEntry {
    let checksum = compute_checksums(&[content.to_vec()])[0];
    FileEntry::new(path.into(), checksum, make_md(0, content.len() as u64))
}

const FILES: [(&str, &[u8]); 4] = [
    ("bin/a", b"some content"),
    ("bin/b", b""),
    ("bin/c", b"more, and other, content"),
    ("lib/d", b"xyz"),
];

fn options(num_frames: u32) -> PackOptions {
    PackOptions {
        compression_window_log: 20,
        compression_level: 5,
        num_workers: 3,
        num_frames,
    }
}

fn pack_and_index(num_frames: u32) -> (Vec<u8>, Vec<u8>) {
    let mut index = PackIndexV1::new();
    let entries = FILES.iter().map(|(p, c)| entry(p, c)).collect();
    index.push_snapshot("snap".to_string(), entries).unwrap();
    let contents = index
        .object_checksums()
        .iter()
        .map(|sum| {
            let found = FILES
                .iter()
                .find(|(_, c)| compute_checksums(&[c.to_vec()])[0] == *sum);
            found.unwrap().1.to_vec()
        })
        .collect::<Vec<_>>();
    let reporter = ProgressReporter::new(|_: &Checkpoint| ());
    let (index, pack) = create_pack(index, &contents, &options(num_frames), &reporter).unwrap();
    (pack, index.to_file().unwrap())
}

fn extract_all(num_frames: u32) {
    let (pack_file, index_file) = pack_and_index(num_frames);
    let id = PackId::from_str("P").unwrap();
    let pack = Pack::open(&id, &index_file, &pack_file).unwrap();
    assert_eq!("P", pack.name());
    assert_eq!(pack_file.len() as u64, pack.file_size());
    let handles = pack.index().resolve_snapshot("snap").unwrap();
    let entries = pack.index().entries_from_handles(&handles).unwrap();
    assert_eq!(FILES.len(), entries.len());
    let plan = pack.extract_entries(&entries, 8).unwrap();
    let mut found = vec![];
    for task in plan.tasks.iter() {
        let extraction = extract_task(&pack_file, task, true);
        assert!(extraction.result.is_ok());
        for f in extraction.files.iter() {
            found.push((f.path.clone(), extraction.data[f.start..f.end].to_vec()));
        }
    }
    found.sort();
    let expected = FILES
        .iter()
        .map(|(p, c)| (p.as_bytes().to_vec(), c.to_vec()))
        .collect::<Vec<_>>();
    assert_eq!(expected, found);
}

#[test]
fn packed_files_are_extracted_from_one_frame() {
    extract_all(1);
}

#[test]
fn packed_files_are_extracted_from_several_frames() {
    extract_all(3);
}

#[test]
fn some_files_are_extracted() {
    let (pack_file, index_file) = pack_and_index(2);
    let id = PackId::from_str("P").unwrap();
    let pack = Pack::open(&id, &index_file, &pack_file).unwrap();
    let handles = pack.index().resolve_snapshot("snap").unwrap();
    let entries = pack.index().entries_from_handles(&handles).unwrap();
    let wanted = entries
        .iter()
        .filter(|e| e.path == b"bin/c")
        .cloned()
        .collect::<Vec<_>>();
    let plan = pack.extract_entries(&wanted, 1).unwrap();
    assert_eq!(1, plan.tasks.len());
    assert_eq!(1, plan.num_workers);
    let extraction = extract_task(&pack_file, &plan.tasks[0], true);
    assert!(extraction.result.is_ok());
    let f = &extraction.files[0];
    assert_eq!(
        b"more, and other, content".to_vec(),
        extraction.data[f.start..f.end].to_vec()
    );
    assert!(pack.extract_entries(&[], 0).unwrap().tasks.is_empty());
}

#[test]
fn damaged_packs_are_noticed() {
    let (mut pack_file, index_file) = pack_and_index(1);
    let id = PackId::from_str("P").unwrap();
    assert!(matches!(
        Pack::open(&id, b"ELFS", &pack_file),
        Err(Error::PackError(_))
    ));
    let pack = Pack::open(&id, &index_file, &pack_file).unwrap();
    let handles = pack.index().resolve_snapshot("snap").unwrap();
    let entries = pack.index().entries_from_handles(&handles).unwrap();
    let mut others = entries.clone();
    for e in others.iter_mut() {
        e.checksum[0] ^= 1;
    }
    let plan = pack.extract_entries(&others, 1).unwrap();
    assert!(matches!(
        extract_task(&pack_file, &plan.tasks[0], true).result,
        Err(Error::PackError(PackError::ChecksumMismatch(_, _)))
    ));
    assert!(extract_task(&pack_file, &plan.tasks[0], false).result.is_ok());
    let plan = pack.extract_entries(&entries, 1).unwrap();
    let n = pack_file.len();
    pack_file.truncate(n - 8);
    assert!(matches!(
        extract_task(&pack_file, &plan.tasks[0], true).result,
        Err(Error::IOError(_))
    ));
}

#[test]
fn pack_starts_with_its_header() {
    let (pack_file, _) = pack_and_index(2);
    let (header, size) = read_header(&pack_file).unwrap();
    assert!(header.is_valid());
    assert_eq!(2, header.frames.len());
    let sizes = header.frames.iter().map(|f| f.frame_size).sum::<u64>();
    assert_eq!(pack_file.len() as u64, size + sizes);
    let total = header.frames.iter().map(|f| f.decompressed_size).sum::<u64>();
    assert_eq!(12 + 24 + 3, total);
    let mut other = vec![];
    write_skippable_frame(&mut other, b"other").unwrap();
    assert!(matches!(read_header(&other), Err(Error::CorruptPack)));
    assert!(matches!(read_header(b"other"), Err(Error::IOError(_))));
}

#[test]
fn pack_without_header_is_one_frame() {
    let (_, index_file) = pack_and_index(1);
    let data = b"some contentmore, and other, contentxyz";
    let pack_file = zstd::encode_all(data.as_slice(), 1).unwrap();
    let id = PackId::from_str("P").unwrap();
    let pack = Pack::open(&id, &index_file, &pack_file).unwrap();
    let entries = [FileEntry::new(
        "all".into(),
        compute_checksums(&[data.to_vec()])[0],
        make_md(0, 39),
    )];
    let plan = pack.extract_entries(&entries, 4).unwrap();
    assert_eq!(1, plan.tasks.len());
    assert_eq!(0, plan.tasks[0].start);
    assert!(extract_task(&pack_file, &plan.tasks[0], true).result.is_ok());
}

#[test]
fn files_are_cut_from_the_stream() {
    let packed = zstd::encode_all(b"aabbb".as_slice(), 1).unwrap();
    let entries = [
        FileEntry::new("b".into(), [0; 20], make_md(2, 3)),
        FileEntry::new("a".into(), [0; 20], make_md(0, 2)),
        FileEntry::new("a2".into(), [0; 20], make_md(0, 2)),
    ];
    let r = extract_files(&packed, &entries, false);
    assert!(r.result.is_ok());
    let files = r
        .files
        .iter()
        .map(|f| (f.path.as_slice(), &r.data[f.start..f.end]))
        .collect::<Vec<_>>();
    let expected: Vec<(&[u8], &[u8])> = vec![(b"a", b"aa"), (b"a2", b"aa"), (b"b", b"bbb")];
    assert_eq!(expected, files);
}

fn cut(packed: &[u8], entries: &[FileEntry]) -> Vec<(Vec<u8>, Vec<u8>)> {
    let r = extract_files(packed, entries, false);
    assert!(r.result.is_ok());
    r.files
        .iter()
        .map(|f| (f.path.clone(), r.data[f.start..f.end].to_vec()))
        .collect()
}

#[test]
fn empty_files_are_empty_wherever_they_are() {
    let packed = zstd::encode_all(b"aabbb".as_slice(), 1).unwrap();
    let file = |path: &str, offset, size| FileEntry::new(path.into(), [0; 20], make_md(offset, size));
    let entries = [
        file("b", 2, 3),
        file("at-b", 2, 0),
        file("in-b", 3, 0),
        file("at-end", 5, 0),
        file("past-end", 9, 0),
        file("a", 0, 2),
        file("in-a", 1, 0),
    ];
    let pair = |path: &str, content: &str| (path.as_bytes().to_vec(), content.as_bytes().to_vec());
    let expected = vec![
        pair("a", "aa"),
        pair("in-a", ""),
        pair("b", "bbb"),
        pair("at-b", ""),
        pair("in-b", ""),
        pair("at-end", ""),
        pair("past-end", ""),
    ];
    assert_eq!(expected, cut(&packed, &entries));
}

#[test]
fn every_file_is_verified() {
    let packed = zstd::encode_all(b"aabbb".as_slice(), 1).unwrap();
    let sum = compute_checksums(&[b"aa".to_vec()])[0];
    let good = FileEntry::new("a".into(), sum, make_md(0, 2));
    let bad = FileEntry::new("a2".into(), [7; 20], make_md(0, 2));
    assert!(extract_files(&packed, &[good.clone()], true).result.is_ok());
    let r = extract_files(&packed, &[good, bad], true);
    assert_eq!(1, r.files.len());
    assert!(matches!(
        r.result,
        Err(Error::PackError(PackError::ChecksumMismatch(a, b))) if a == [7; 20] && b == sum
    ));
}

#[test]
fn extraction_from_a_broken_stream_fails() {
    let entries = [FileEntry::new("a".into(), [0; 20], make_md(0, 2))];
    assert!(matches!(
        extract_files(b"no frame", &entries, false).result,
        Err(Error::IOError(_))
    ));
    let packed = zstd::encode_all(b"a".as_slice(), 1).unwrap();
    assert!(matches!(
        extract_files(&packed, &entries, false).result,
        Err(Error::IOError(e)) if e.kind == IoErrorKind::UnexpectedEof
    ));
}

#[test]
fn options_decide_how_files_are_compressed() {
    let mut x: u32 = 1;
    let mut data = vec![];
    for _ in 0..200_000 {
        x = x.wrapping_mul(1664525).wrapping_add(1013904223);
        data.push(b'a' + (x >> 28) as u8);
    }
    let silent = ProgressReporter::new(|_: &Checkpoint| ());
    let mut frames = vec![];
    for (level, window_log) in [(1, 20), (12, 20), (12, 11)] {
        let opts = CompressionOptions { window_log, level, num_workers: 1 };
        let (_, frame) = compress_files(&[data.clone()], &opts, &silent).unwrap();
        let mut encoder = zstd::Encoder::new(vec![], level).unwrap();
        encoder.set_parameter(CParameter::NbWorkers(0)).unwrap();
        encoder
            .set_parameter(CParameter::EnableLongDistanceMatching(true))
            .unwrap();
        encoder.set_parameter(CParameter::WindowLog(window_log)).unwrap();
        encoder.write_all(&data).unwrap();
        assert_eq!(encoder.finish().unwrap(), frame);
        frames.push(frame);
    }
    assert_ne!(frames[0], frames[1]);
    assert_ne!(frames[1], frames[2]);
}

#[test]
fn pack_without_objects_is_created() {
    let mut index = PackIndexV1::new();
    index.push_snapshot("none".to_string(), vec![]).unwrap();
    let seen = RefCell::new(vec![]);
    let report = |c: &Checkpoint| seen.borrow_mut().push((c.done, c.remaining));
    let reporter = ProgressReporter::new(report);
    let (index, pack) = create_pack(index, &[], &options(2), &reporter).unwrap();
    assert_eq!(&vec!["none"], index.snapshot_tags());
    let (header, size) = read_header(&pack).unwrap();
    assert!(header.frames.is_empty());
    assert_eq!(pack.len() as u64, size);
    assert_eq!(vec![(0, Some(0))], *seen.borrow());
}

#[test]
fn progress_is_reported() {
    let seen = RefCell::new(vec![]);
    let report = |c: &Checkpoint| seen.borrow_mut().push((c.done, c.remaining));
    let reporter = ProgressReporter::new(report);
    reporter.checkpoint(1, None);
    let mut w = ProgressWriter::new((), &reporter);
    w.record(5);
    w.record(2);
    let mut w = ProgressWriter::with_known_size((), &reporter, 10);
    w.record(4);
    let expected = vec![(1, None), (5, None), (7, None), (4, Some(6))];
    assert_eq!(&expected, &*seen.borrow());
}

#[test]
fn dummy_reporter_reports_nothing() {
    let mut reporter = ProgressReporter::new(|_: &Checkpoint| panic!("called"));
    reporter = {
        let _ = reporter;
        ProgressReporter::dummy()
    };
    reporter.checkpoint(1, Some(2));
}
