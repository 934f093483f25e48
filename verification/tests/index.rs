use elfshaker::packidx::encoding::IndexParts;
use elfshaker::packidx::file::{read_magic, write_magic};
use elfshaker::packidx::verpackidx::{PackIndex, VerPackIndex};
use elfshaker::packidx::{
    ChangeSet, FileEntry, FileHandle, FileHandleSet, ObjectMetadata, PackError, PackIndexV1,
    Snapshot,
};
use elfshaker::repo::merge::can_merge;
use std::cell::RefCell;
use std::ops::ControlFlow;

fn entry(path: &str, n: u8) -> FileEntry {
    FileEntry::new(path.into(), [n; 20], ObjectMetadata { offset: 0, size: n as u64 })
}

fn index(snapshots: &[(&str, &[(&str, u8)])]) -> PackIndexV1 {
    let mut index = PackIndexV1::new();
    for (tag, files) in snapshots.iter() {
        let entries = files.iter().map(|(p, n)| entry(p, *n)).collect();
        index.push_snapshot(tag.to_string(), entries).unwrap();
    }
    index
}

fn files_in(index: &PackIndexV1, tag: &str) -> Vec<(String, u8)> {
    let handles = index.resolve_snapshot(tag).unwrap();
    let entries = index.entries_from_handles(&handles).unwrap();
    let mut files = entries
        .iter()
        .map(|e| (String::from_utf8(e.path.clone()).unwrap(), e.checksum[0]))
        .collect::<Vec<_>>();
    files.sort();
    files
}

fn pairs(list: &[(&str, u8)]) -> Vec<(String, u8)> {
    list.iter().map(|(p, n)| (p.to_string(), *n)).collect()
}

#[test]
fn snapshots_are_resolved() {
    let idx = index(&[
        ("one", &[("a", 1), ("b", 2)]),
        ("two", &[("a", 3), ("c", 2)]),
        ("three", &[]),
        ("four", &[("a", 1)]),
    ]);
    assert_eq!(pairs(&[("a", 1), ("b", 2)]), files_in(&idx, "one"));
    assert_eq!(pairs(&[("a", 3), ("c", 2)]), files_in(&idx, "two"));
    assert!(files_in(&idx, "three").is_empty());
    assert_eq!(pairs(&[("a", 1)]), files_in(&idx, "four"));
    assert!(idx.resolve_snapshot("five").is_none());
    assert!(idx.has_snapshot("two"));
    assert!(!idx.has_snapshot("five"));
    assert_eq!(4, idx.snapshot_count());
    assert_eq!(vec![2, 2, 0, 1], idx.snapshot_file_counts());
    assert_eq!(6, idx.object_size_total());
    assert_eq!(Some(6), idx.checked_object_size_total());
}

#[test]
fn tags_are_unique() {
    let mut idx = index(&[("one", &[("a", 1)])]);
    let r = idx.push_snapshot("one".to_string(), vec![entry("b", 2)]);
    assert!(matches!(
        r,
        Err(PackError::SnapshotAlreadyExists(_, t)) if t == "one"
    ));
    assert_eq!(1, idx.object_checksums().len());
}

#[test]
fn index_file_round_trip() {
    let idx = index(&[
        ("one", &[("a", 1), ("b", 2)]),
        ("two", &[("a", 3), ("c", 2)]),
    ]);
    let file = idx.to_file().unwrap();
    assert_eq!(b"ELFS\0\0\0\x01".to_vec(), file[..8].to_vec());
    let read = PackIndexV1::parse(&file).unwrap();
    assert_eq!(idx.snapshot_tags(), read.snapshot_tags());
    assert_eq!(files_in(&idx, "one"), files_in(&read, "one"));
    assert_eq!(files_in(&idx, "two"), files_in(&read, "two"));
    assert_eq!(
        vec!["one", "two"],
        PackIndexV1::parse_only_snapshots(&file).unwrap()
    );
    assert_eq!(file, read.to_file().unwrap());
}

#[test]
fn index_files_are_checked() {
    assert!(matches!(
        PackIndexV1::parse(b"OTHER FILE"),
        Err(PackError::BadMagic)
    ));
    assert!(matches!(
        PackIndexV1::parse(b"ELFS\0\0\0\x02"),
        Err(PackError::BadPackVersion([0, 0, 0, 2]))
    ));
    assert!(matches!(
        PackIndexV1::parse(b"ELFS\0\0\0\x01\xc1"),
        Err(PackError::DeserializeError(_))
    ));
    assert!(matches!(PackIndexV1::parse(b"EL"), Err(PackError::IOError(_))));
    assert!(read_magic(&write_magic()).is_ok());
}

#[test]
fn missing_parts_are_reported() {
    let idx = index(&[("one", &[("a", 1)])]);
    assert!(matches!(
        idx.handle_to_entry(&FileHandle::new(7, 0)),
        Err(PackError::PathNotFound(7))
    ));
}

#[test]
fn snapshots_are_visited_in_order() {
    let idx = index(&[("one", &[("a", 1)]), ("two", &[("a", 1), ("b", 2)])]);
    let seen = RefCell::new(vec![]);
    let r = idx.for_each_snapshot(|tag: &str, es: &Vec<FileEntry>| -> ControlFlow<()> {
        seen.borrow_mut().push((tag.to_string(), es.len()));
        ControlFlow::Continue(())
    });
    assert!(r.unwrap().is_none());
    assert_eq!(
        vec![("one".to_string(), 1), ("two".to_string(), 2)],
        *seen.borrow()
    );
    let stop = idx.for_each_snapshot_file_count(|tag: &str, n: u64| {
        if tag == "one" {
            ControlFlow::Break(n)
        } else {
            ControlFlow::Continue(())
        }
    });
    assert_eq!(Some(1), stop.unwrap());
}

#[test]
fn snapshot_checksum_depends_on_content_only() {
    let a = index(&[("t", &[("x", 1), ("y", 2)])]);
    let b = index(&[("s", &[("z", 3)]), ("t", &[("y", 2), ("x", 1)])]);
    let c = index(&[("t", &[("x", 2), ("y", 1)])]);
    let sum = a.compute_snapshot_checksum("t").unwrap();
    assert_eq!(Some(sum), b.compute_snapshot_checksum("t"));
    assert_ne!(Some(sum), c.compute_snapshot_checksum("t"));
    assert_eq!(None, a.compute_snapshot_checksum("s"));
}

#[test]
fn objects_are_ordered_by_size() {
    let idx = index(&[("t", &[("x", 9), ("y", 2), ("z", 5)])]);
    let (idx, ordering) = idx.compute_object_offsets_and_ordering();
    let sizes = ordering
        .iter()
        .map(|h| {
            let md = idx.object_metadata(idx.handle_to_checksum(*h));
            (md.offset, md.size)
        })
        .collect::<Vec<_>>();
    assert_eq!(vec![(0, 2), (2, 5), (7, 9)], sizes);
    let partitions = idx.objects_partitioned_by_size(2, &ordering);
    assert_eq!(ordering, partitions.concat());
}

#[test]
fn handle_sets() {
    let a = FileHandle::new(1, 2);
    let b = FileHandle::new(2, 1);
    let mut set = FileHandleSet::from_list(&[a, a]);
    assert_eq!(1, set.len());
    assert!(set.insert(b));
    assert!(!set.insert(b));
    assert!(set.contains(&a));
    assert!(set.remove(&a));
    assert!(!set.remove(&a));
    assert_eq!(vec![b], set.to_list());
    assert_eq!(0, FileHandleSet::new().len());
}

#[test]
fn changes_lead_to_the_next_set() {
    let a = FileHandle::new(1, 1);
    let b = FileHandle::new(2, 2);
    let c = FileHandle::new(3, 3);
    let mut set = FileHandleSet::from_list(&[a, b]);
    let next = FileHandleSet::from_list(&[b, c]);
    let changes = Snapshot::get_changes(&mut set, &next);
    assert_eq!(&[c], changes.added());
    assert_eq!(&[a], changes.removed());
    let mut set = FileHandleSet::from_list(&[a, b]);
    Snapshot::apply_changes(&mut set, &changes);
    assert!(set.contains(&c) && set.contains(&b) && !set.contains(&a));
    let snapshot = Snapshot::new("t", changes);
    assert_eq!("t", snapshot.tag());
    assert_eq!(1, snapshot.n_added());
}

#[test]
fn change_sets_are_mapped() {
    let changes = ChangeSet::new(vec![1, 2], vec![3]);
    let double = |v: &Vec<i32>| -> Result<Vec<i32>, ()> { Ok(v.iter().map(|x| x * 2).collect()) };
    let mapped = changes.map(double).unwrap();
    assert_eq!(&[2, 4], mapped.added());
    assert_eq!(&[6], mapped.removed());
    assert!(ChangeSet::from_added(vec![1]).removed().is_empty());
}

#[test]
fn versioned_index_is_the_first_version() {
    let v = VerPackIndex::V1(index(&[("one", &[("a", 1)]), ("two", &[("a", 1), ("b", 2)])]));
    assert_eq!(&vec!["one", "two"], v.snapshot_tags());
    assert!(v.has_snapshot("two"));
    assert_eq!(2, v.resolve_snapshot("two").unwrap().len());
}

#[test]
fn pack_errors_have_messages() {
    let sums = PackError::ChecksumMismatch([1; 20], [2; 20]).message();
    assert!(sums.contains(&hex::encode([1; 20])));
    assert_ne!(PackError::BadMagic.message(), PackError::ObjectNotFound.message());
    assert!(PackError::SnapshotNotFound("t".to_string()).message().contains("t"));
}

fn parts_of(index: &PackIndexV1) -> IndexParts {
    index.to_parts()
}

#[test]
fn order_of_files_does_not_change_the_checksum() {
    let a = index(&[("one", &[("x", 1), ("y", 2), ("z", 3)])]);
    let b = index(&[("other", &[("w", 9)]), ("two", &[("z", 3), ("x", 1), ("y", 2)])]);
    let sum = a.compute_snapshot_checksum("one").unwrap();
    assert_eq!(Some(sum), b.compute_snapshot_checksum("two"));
    assert_ne!(Some(sum), b.compute_snapshot_checksum("other"));
}

#[test]
fn broken_indexes_are_noticed() {
    let idx = index(&[("one", &[("a", 1)]), ("two", &[("b", 2)])]);
    assert!(idx.is_walkable());
    assert!(idx.is_resolvable("one"));
    assert_eq!((2, 2), idx.pool_sizes());
    // The second snapshot removes a file that is not there.
    let mut parts = parts_of(&idx);
    parts.deltas[1].1 = vec![(1, 1)];
    let broken = PackIndexV1::from_parts(parts).unwrap();
    assert!(!broken.is_walkable());
    assert!(broken.is_resolvable("one"));
    assert!(!broken.is_resolvable("two"));
    assert!(can_merge(&[idx]));
    assert!(!can_merge(&[broken]));
    // An object is not described.
    let mut parts = parts_of(&index(&[("one", &[("a", 1)])]));
    parts.metadata.clear();
    let broken = PackIndexV1::from_parts(parts).unwrap();
    assert!(!broken.is_walkable());
    assert!(!broken.describes_objects());
    assert!(can_merge(&[PackIndexV1::default()]));
    // An object that no snapshot needs is not described.
    let mut parts = parts_of(&index(&[("one", &[("a", 1)])]));
    parts.objects.push([9; 20]);
    let spare = PackIndexV1::from_parts(parts).unwrap();
    assert!(!spare.describes_objects());
    assert!(spare.is_walkable());
    assert!(can_merge(&[spare]));
}
