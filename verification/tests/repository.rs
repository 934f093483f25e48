use elfshaker::batch::compute_checksums;
use elfshaker::ioerror::{IoError, IoErrorKind};
use elfshaker::packidx::{FileEntry, ObjectMetadata, PackError, PackIndexV1};
use elfshaker::repo::checkout::{entry_source, EntrySource, ExtractOptions, FileTimes};
use elfshaker::repo::fs::{get_last_modified, Timestamp};
use elfshaker::repo::gc::remaining_roots;
use elfshaker::repo::merge::merge_indexes;
use elfshaker::repo::remote::RemoteIndex;
use elfshaker::repo::repository::{HeadFile, MutexFile};
use elfshaker::repo::search::{packs_with_snapshot, IndexedPack, TaggedPack, WalkedEntry};
use elfshaker::repo::store::{clean_file_list, ListedFile, StoredFile};
use elfshaker::repo::{Error, IdError, PackId, Repository, SnapshotId, LOOSE_DIR};

fn repository() -> Repository {
    Repository::open_with_data_dir(
        b"/repo".to_vec(),
        b"/repo/elfshaker_data".to_vec(),
        true,
        MutexFile::Locked,
    )
    .unwrap()
}

fn pack(s: &str) -> PackId {
    PackId::from_str(s).unwrap()
}

fn snapshot(s: &str) -> SnapshotId {
    SnapshotId::from_str(s).unwrap()
}

fn time(secs: i64) -> Timestamp {
    Timestamp { secs, nanos: 0 }
}

fn entry(path: &str, n: u8) -> FileEntry {
    FileEntry::new(path.into(), [n; 20], ObjectMetadata { offset: 0, size: n as u64 })
}

fn index(snapshots: &[(&str, &[(&str, u8)])]) -> PackIndexV1 {
    let mut index = PackIndexV1::new();
    for (tag, files) in snapshots.iter() {
        let entries = files.iter().map(|(p, n)| entry(p, *n)).collect();
        index.push_snapshot(tag.to_string(), entries).unwrap();
    }
    index
}

fn names(packs: &[PackId]) -> Vec<&str> {
    packs.iter().map(|p| p.as_str()).collect()
}

#[test]
fn building_loose_object_paths_works() {
    let checksum = [
        0xFA, 0xF0, 0xDE, 0xAD, 0xBE, 0xEF, 0xBA, 0xDC, 0x0D, 0xE0, 0xFA, 0xF0, 0xDE, 0xAD, 0xBE,
        0xEF, 0xBA, 0xDC, 0x0D, 0xE0,
    ];
    let repo = repository();
    let path = repo.loose_object_path(&checksum);
    let mut expected = repo.data_dir().to_vec();
    for part in [
        LOOSE_DIR,
        "fa",
        "f0",
        "deadbeefbadc0de0faf0deadbeefbadc0de0",
    ] {
        expected.push(b'/');
        expected.extend_from_slice(part.as_bytes());
    }
    assert_eq!(expected, path);
}

#[test]
fn loose_object_path_round_trip() {
    let repo = repository();
    let checksum = compute_checksums(&[b"abc".to_vec()])[0];
    let path = repo.loose_object_path(&checksum);
    assert_eq!(checksum, repo.loose_object_checksum(&path).unwrap());
    assert!(matches!(
        repo.loose_object_checksum(b"/no/checksum/here"),
        Err(Error::BadLooseObject(p)) if p == "/no/checksum/here"
    ));
    assert!(matches!(
        repo.loose_object_checksum(b"x"),
        Err(Error::BadLooseObject(_))
    ));
}

#[test]
fn paths_in_the_repository() {
    let repo = repository();
    assert_eq!(b"/repo", repo.path());
    assert_eq!(b"/repo/elfshaker_data/packs".to_vec(), repo.packs_dir());
    assert_eq!(b"/repo/elfshaker_data/loose".to_vec(), repo.loose_dir());
    assert_eq!(b"/repo/elfshaker_data/remotes".to_vec(), repo.remotes_dir());
    assert_eq!(b"/repo/elfshaker_data/HEAD".to_vec(), repo.head_path());
    assert_eq!(
        b"/repo/elfshaker_data/packs/a/b.pack".to_vec(),
        repo.get_pack_path(&pack("a/b"))
    );
    assert_eq!(
        b"/repo/elfshaker_data/packs/a/b.pack.idx".to_vec(),
        repo.get_pack_index_path(&pack("a/b"))
    );
    assert_eq!(
        b"/repo/elfshaker_data/packs/loose/t.pack.idx".to_vec(),
        repo.loose_index_path("t")
    );
    assert_eq!(
        b"/repo/elfshaker_data/remotes/origin.esi".to_vec(),
        repo.remote_index_path("origin")
    );
}

#[test]
fn repository_needs_its_data_directory() {
    let open = |exists, mutex| {
        Repository::open_with_data_dir(b"/r".to_vec(), b"/r/d".to_vec(), exists, mutex)
    };
    assert!(matches!(
        open(false, MutexFile::Locked),
        Err(Error::RepositoryNotFound)
    ));
    let denied = IoError::new(IoErrorKind::PermissionDenied, "denied");
    let repo = open(true, MutexFile::Unavailable(denied)).unwrap();
    assert!(repo.update_head(&snapshot("P:t")).is_none());
    let busy = IoError::new(IoErrorKind::WouldBlock, "busy");
    assert!(matches!(
        open(true, MutexFile::Unavailable(busy)),
        Err(Error::IOError(_))
    ));
}

#[test]
fn head_round_trip() {
    let repo = repository();
    let id = snapshot("packs/P:tag");
    let content = repo.update_head(&id).unwrap();
    assert_eq!(b"packs/P:tag\n".to_vec(), content);
    let file = HeadFile {
        content,
        created: Some(time(1)),
        modified: Some(time(2)),
    };
    let (head, at) = repo.read_head(Some(file)).unwrap();
    assert!(head.unwrap().same(&id));
    assert_eq!(Some(time(2)), at);
    let (head, at) = repo.read_head(None).unwrap();
    assert!(head.is_none());
    assert!(at.is_none());
    for bad in [b"nothing".to_vec(), b"P:\xff".to_vec()] {
        let file = HeadFile { content: bad, created: None, modified: None };
        assert!(matches!(repo.read_head(Some(file)), Err(Error::CorruptHead)));
    }
}

#[test]
fn most_recent_of_two_times() {
    assert_eq!(Some(time(7)), get_last_modified(Some(time(7)), Some(time(3))));
    assert_eq!(Some(time(7)), get_last_modified(Some(time(3)), Some(time(7))));
    assert_eq!(Some(time(3)), get_last_modified(Some(time(3)), None));
    assert_eq!(None, get_last_modified(None, None));
}

#[test]
fn packs_are_listed_in_order() {
    let repo = repository();
    let walked = [
        WalkedEntry::Path("z.pack.idx".to_string()),
        WalkedEntry::Path("a.pack".to_string()),
        WalkedEntry::Path("loose/t.pack.idx".to_string()),
        WalkedEntry::Path("a.pack.idx".to_string()),
    ];
    assert_eq!(vec!["a", "loose/t", "z"], names(&repo.packs(&walked).unwrap()));
    let bad = [WalkedEntry::NotText("?".to_string())];
    assert!(matches!(repo.packs(&bad), Err(Error::Utf8Error(_))));
    let bad = [WalkedEntry::Failed("io".to_string())];
    assert!(matches!(repo.packs(&bad), Err(Error::WalkDirError(_))));
}

#[test]
fn loose_packs_are_listed_by_age() {
    let repo = repository();
    let make = |id: &str, index_exists, t: Option<i64>| IndexedPack {
        id: pack(id),
        index_exists,
        index_time: t.map(time),
    };
    let packs = [
        make("loose/new", true, Some(9)),
        make("packed", true, Some(1)),
        make("loose/b", true, Some(5)),
        make("loose/a", true, Some(5)),
        make("loose/gone", false, Some(2)),
        make("loose/unknown", true, None),
    ];
    assert_eq!(
        vec!["loose/unknown", "loose/a", "loose/b", "loose/new"],
        names(&repo.loose_packs(&packs))
    );
    assert!(repo.is_pack_loose(&pack("loose/a"), true));
    assert!(!repo.is_pack_loose(&pack("a"), true));
}

#[test]
fn pack_needs_an_index() {
    let repo = repository();
    assert_eq!("P", repo.is_pack("P", true).unwrap().unwrap().as_str());
    assert!(repo.is_pack("P", false).unwrap().is_none());
    assert!(matches!(
        repo.is_pack("P?", true),
        Err(IdError::InvalidPack(_))
    ));
}

#[test]
fn snapshots_are_found_by_tag() {
    let repo = repository();
    let tagged = [
        TaggedPack { id: pack("A"), tags: vec!["x".to_string(), "t".to_string()] },
        TaggedPack { id: pack("B"), tags: vec!["u".to_string()] },
        TaggedPack { id: pack("loose/t"), tags: vec!["t".to_string()] },
    ];
    let packs = packs_with_snapshot(&tagged, "t");
    assert_eq!(vec!["A", "loose/t"], names(&packs));
    let same = [
        index(&[("x", &[]), ("t", &[("a", 1), ("b", 2)])]),
        index(&[("t", &[("b", 2), ("a", 1)])]),
    ];
    assert!(repo.are_snapshots_equal(&same, "t"));
    let found = repo.find_snapshot("t", &packs, &[false, true], &same).unwrap();
    assert_eq!("loose/t:t", found.to_text());
    let found = repo.find_snapshot("t", &packs, &[false, false], &same).unwrap();
    assert_eq!("A:t", found.to_text());
    let different = [
        index(&[("t", &[("a", 1)])]),
        index(&[("t", &[("a", 2)])]),
    ];
    assert!(matches!(
        repo.find_snapshot("t", &packs, &[false, true], &different),
        Err(Error::AmbiguousSnapshotMatch(s, ps)) if s == "t" && ps.len() == 2
    ));
    assert!(matches!(
        repo.find_snapshot("t", &[], &[], &[]),
        Err(Error::PackError(PackError::SnapshotNotFound(_)))
    ));
    let found = repo.find_snapshot("A:t", &[], &[], &[]).unwrap();
    assert_eq!("A:t", found.to_text());
}

#[test]
fn stored_snapshot_is_found() {
    let repo = repository();
    let files = [
        StoredFile { path: b"a".to_vec(), content: b"abc".to_vec(), mode: 0o644 },
        StoredFile { path: b"b".to_vec(), content: b"abc".to_vec(), mode: 0o755 },
    ];
    let stored = repo.create_snapshot(&snapshot("loose/t:t"), &files).unwrap();
    assert_eq!(stored.objects[0], stored.objects[1]);
    assert_eq!(1, stored.index.object_checksums().len());
    assert_eq!(
        b"/repo/elfshaker_data/packs/loose/t.pack.idx".to_vec(),
        stored.index_path
    );
    let read = PackIndexV1::parse(&stored.index_file).unwrap();
    let handles = read.resolve_snapshot("t").unwrap();
    let mut paths = read
        .entries_from_handles(&handles)
        .unwrap()
        .into_iter()
        .map(|e| e.path)
        .collect::<Vec<_>>();
    paths.sort();
    assert_eq!(vec![b"a".to_vec(), b"b".to_vec()], paths);
    assert!(repo.write_loose_object(&stored.objects[0], true).is_none());
    assert_eq!(
        Some(repo.loose_object_path(&stored.objects[0])),
        repo.write_loose_object(&stored.objects[0], false)
    );
}

#[test]
fn files_outside_the_repository_are_left_out() {
    let listed = |path: &str, canonical: &str| ListedFile {
        path: path.into(),
        canonical: Ok(canonical.into()),
    };
    let files = vec![
        listed("b", "/r/b"),
        listed("./a", "/r/a"),
        listed("elfshaker_data/x", "/r/elfshaker_data/x"),
    ];
    let kept = clean_file_list(b"/r", b"/r/elfshaker_data", files).unwrap();
    assert_eq!(vec![b"b".to_vec(), b"a".to_vec()], kept);
    let missing = || {
        vec![ListedFile {
            path: b"m".to_vec(),
            canonical: Err(IoError::new(IoErrorKind::NotFound, "m not found")),
        }]
    };
    assert!(clean_file_list(b"/r", b"/r/elfshaker_data", missing()).unwrap().is_empty());
    let e = clean_file_list(b"/r", b"/elsewhere", missing()).unwrap_err();
    assert_eq!("m not found", e.message);
}

#[test]
fn copies_of_loose_objects() {
    let repo = repository();
    let content = b"abc".to_vec();
    let checksum = compute_checksums(&[content.clone()])[0];
    let e = FileEntry::new("d/f".into(), checksum, ObjectMetadata { offset: 0, size: 3 });
    let tasks = repo.copy_loose_entries(&[e.clone()], b"/w");
    assert_eq!(b"/w/d/f".to_vec(), tasks[0].dest_path);
    assert_eq!(repo.loose_object_path(&checksum), tasks[0].object_path);
    assert!(repo.verify_copies(&[e.clone()], &[content]).is_ok());
    assert!(matches!(
        repo.verify_copies(&[e], &[b"x".to_vec()]),
        Err(Error::PackError(PackError::ChecksumMismatch(a, _))) if a == checksum
    ));
}

#[test]
fn extraction_replaces_the_head() {
    let repo = repository();
    let idx = index(&[
        ("one", &[("a", 1), ("b", 2)]),
        ("two", &[("a", 3), ("c", 2)]),
    ]);
    let opts = ExtractOptions::default();
    let to = snapshot("P:two");
    let plan = repo
        .extract_snapshot(&to, &None, None, &idx, &None, &opts)
        .unwrap();
    assert_eq!(2, plan.new_entries.len());
    assert_eq!(2, plan.result.added_file_count);
    let head = Some(snapshot("P:one"));
    let plan = repo
        .extract_snapshot(&to, &head, Some(time(1)), &idx, &None, &opts)
        .unwrap();
    assert_eq!(1, plan.result.modified_file_count);
    assert_eq!(1, plan.result.added_file_count);
    assert_eq!(vec![b"b".to_vec()], plan.removed_paths);
    assert!(matches!(
        repo.extract_snapshot(&to, &head, None, &idx, &None, &opts),
        Err(Error::DirtyWorkDir)
    ));
    let other = Some(index(&[("one", &[("a", 3), ("c", 2)])]));
    let head = Some(snapshot("Q:one"));
    let plan = repo
        .extract_snapshot(&to, &head, Some(time(1)), &idx, &other, &opts)
        .unwrap();
    assert!(plan.new_entries.is_empty());
    assert!(plan.removed_paths.is_empty());
}

#[test]
fn changed_files_are_noticed() {
    let repo = repository();
    let file = |t| Some(FileTimes { created: Some(time(0)), modified: Some(time(t)) });
    assert!(repo.check_changed_since(time(5), file(4)).is_ok());
    assert!(matches!(
        repo.check_changed_since(time(5), file(6)),
        Err(Error::DirtyWorkDir)
    ));
    let mut opts = ExtractOptions::default();
    assert!(repo.check_work_dir(&opts, time(5), &[file(4), file(6)]).is_err());
    opts.set_force(true);
    assert!(repo.check_work_dir(&opts, time(5), &[file(4), file(6)]).is_ok());
}

#[test]
fn options_keep_what_was_set() {
    let mut opts = ExtractOptions::default();
    assert!(opts.verify());
    assert!(!opts.reset());
    assert!(!opts.force());
    opts.set_verify(false);
    opts.set_reset(true);
    opts.set_num_workers(7);
    assert!(!opts.verify());
    assert!(opts.reset());
    assert_eq!(7, opts.num_workers());
}

#[test]
fn entries_come_from_loose_objects_or_packs() {
    assert_eq!(EntrySource::LooseObjects, entry_source(true, false));
    assert_eq!(EntrySource::Pack, entry_source(false, true));
    assert_eq!(EntrySource::RemotePack, entry_source(false, false));
}

#[test]
fn remote_packs_have_a_place() {
    let repo = repository();
    let text = "meta\tv1\nurl\thttps://host/index.esi\n\
0000000000000000000000000000000000000000\t0000000000000000000000000000000000000000\tA.pack\n";
    let remotes = [RemoteIndex::load(b"/x/origin.esi", text.as_bytes(), "x").unwrap()];
    let target = repo.update_remote_pack(&remotes, &pack("origin/A")).unwrap();
    assert_eq!(0, target.remote);
    assert_eq!("https://host/A.pack", target.pack.url);
    assert_eq!(
        b"/repo/elfshaker_data/packs/origin/A.pack".to_vec(),
        target.path
    );
    assert_eq!(
        b"/repo/elfshaker_data/packs/origin".to_vec(),
        repo.remote_packs_dir(&remotes[0])
    );
    assert!(matches!(
        repo.update_remote_pack(&remotes, &pack("B")),
        Err(Error::PackNotFound(p)) if p == "B"
    ));
}

#[test]
fn redundant_loose_packs_have_a_packed_copy() {
    let repo = repository();
    let packs = [pack("P"), pack("loose/t"), pack("loose/u")];
    let indexes = [
        index(&[("t", &[("a", 1)]), ("v", &[("a", 2)])]),
        index(&[("t", &[("a", 1)])]),
        index(&[("u", &[("a", 3)])]),
    ];
    let groups = repo.find_duplicate_snapshots(&packs, &indexes);
    let texts = groups
        .iter()
        .map(|g| g.snapshots.iter().map(|s| s.to_text()).collect::<Vec<_>>())
        .filter(|g| g.len() > 1)
        .collect::<Vec<_>>();
    assert_eq!(vec![vec!["P:t".to_string(), "loose/t:t".to_string()]], texts);
    let redundant = repo.find_redundant_loose_packs(&packs, &indexes);
    assert_eq!(vec!["loose/t"], names(&redundant));
    let roots = remaining_roots(vec![pack("loose/t"), pack("loose/u")], &redundant);
    assert_eq!(vec!["loose/u"], names(&roots));
}

#[test]
fn unreferenced_objects_are_found() {
    let repo = repository();
    let roots = [index(&[("u", &[("a", 3), ("b", 4)])])];
    let on_disk = [[3; 20], [5; 20], [5; 20], [4; 20]];
    assert_eq!(
        vec![[5; 20]],
        repo.find_unreferenced_objects(&on_disk, &roots)
    );
    let paths = [repo.loose_object_path(&[7; 20])];
    assert_eq!(vec![[7; 20]], repo.loose_object_checksums(&paths).unwrap());
    assert!(repo.loose_object_checksums(&[b"x".to_vec()]).is_err());
}

#[test]
fn packs_are_deleted_with_their_indexes() {
    let repo = repository();
    let delete = |id: &str, index, packed| repo.delete_pack(&pack(id), index, packed, "P.pack");
    assert_eq!(2, delete("P", true, true).unwrap().len());
    assert_eq!(1, delete("loose/t", true, false).unwrap().len());
    assert_eq!("P.pack not found", delete("P", true, false).unwrap_err().message);
    assert!(delete("loose/t", true, true).is_err());
    assert_eq!(30, repo.get_pack_disk_stats(Some(10), 20).len);
    assert_eq!(20, repo.get_pack_disk_stats(None, 20).len);
    assert_eq!(9, repo.get_object_disk_stats(9).len);
}

#[test]
fn merged_index_holds_all_snapshots() {
    let merged = merge_indexes(&[
        index(&[("a", &[("x", 1)]), ("b", &[("y", 2)])]),
        index(&[("c", &[("x", 1), ("z", 3)])]),
    ])
    .unwrap();
    assert_eq!(&vec!["a", "b", "c"], merged.snapshot_tags());
    assert_eq!(1, merged.resolve_snapshot("a").unwrap().len());
    assert_eq!(2, merged.resolve_snapshot("c").unwrap().len());
    assert_eq!(3, merged.object_checksums().len());
}

#[test]
fn errors_have_messages() {
    let e = Error::BadLooseObject("x".to_string());
    assert_eq!("Bad loose object 'x'!", e.message());
    let e = Error::BrokenHeadRef(Box::new(Error::CorruptPack));
    assert!(e.message().contains(&Error::CorruptPack.message()));
    assert_ne!(Error::CorruptHead.message(), Error::CorruptPackIndex.message());
}
