use elfshaker::batch::compute_checksums;
use elfshaker::indexed::{
    Error, ExtractOptions, ObjectIndex, Pack, PackEntry, Repository, SnapshotId,
};
use std::collections::BTreeMap;

fn entry(path: &str, n: u8) -> PackEntry {
    PackEntry::new(path, ObjectIndex { checksum: [n; 20], offset: 0, size: 1 })
}

fn index_file() -> Vec<u8> {
    let mut map: BTreeMap<String, Vec<String>> = BTreeMap::new();
    map.insert("s".to_string(), vec!["P".to_string(), "Q".to_string()]);
    map.insert("t".to_string(), vec!["P".to_string()]);
    rmp_serde::encode::to_vec(&map).unwrap()
}

#[test]
fn indexed_snapshot_id_round_trip() {
    let id = SnapshotId::new("P", "t");
    assert_eq!("P/t", id.to_text());
    let again = SnapshotId::from_str("P/t\n").unwrap();
    assert!(id.same(&again));
    assert!(SnapshotId::from_str("t").is_err());
    assert!(SnapshotId::from_str("a/b/c").is_err());
    assert_eq!(
        "Failed to parse the snapshot spec!",
        SnapshotId::from_str("").unwrap_err().message()
    );
}

#[test]
fn indexed_repository_is_opened() {
    let mut repo = Repository::open(b"/r".to_vec(), None, Some(index_file())).unwrap();
    assert!(repo.head().is_none());
    assert_eq!(vec!["P", "Q"], repo.find_packs("s"));
    assert_eq!(vec!["P"], repo.find_packs("t"));
    assert!(repo.find_packs("u").is_empty());
    let id = SnapshotId::new("P", "t");
    let content = repo.update_head(&id);
    assert!(repo.head().as_ref().unwrap().same(&id));
    let repo = Repository::open(b"/r".to_vec(), Some(content), Some(index_file())).unwrap();
    assert!(repo.head().as_ref().unwrap().same(&id));
}

#[test]
fn indexed_repository_errors() {
    assert!(matches!(
        Repository::open(b"/r".to_vec(), Some(b"x".to_vec()), Some(index_file())),
        Err(Error::CorruptHead)
    ));
    assert!(matches!(
        Repository::open(b"/r".to_vec(), None, Some(b"\xc1".to_vec())),
        Err(Error::CorruptRepositoryIndex)
    ));
    assert!(Repository::open(b"/r".to_vec(), None, None).is_err());
    assert!(Repository::ensure_safe_to_delete(Some(true)).is_ok());
    assert!(matches!(
        Repository::ensure_safe_to_delete(Some(false)),
        Err(Error::DirtyWorkDir)
    ));
    assert!(Repository::ensure_safe_to_delete(None).is_err());
}

#[test]
fn indexed_extraction_replaces_the_head() {
    let mut repo = Repository::open(b"/r".to_vec(), None, Some(index_file())).unwrap();
    repo.update_head(&SnapshotId::new("P", "s"));
    let head = [entry("a", 1), entry("b", 2), entry("c", 3)];
    let opts = ExtractOptions::default();
    let plan = repo.extract(vec![entry("a", 9), entry("b", 2)], &head, &opts);
    assert_eq!(1, plan.new_entries.len());
    assert_eq!("a", plan.new_entries[0].path());
    assert_eq!(vec![b"a".to_vec()], plan.updated_paths);
    assert_eq!(vec![b"c".to_vec()], plan.removed_paths);
    let mut opts = ExtractOptions::default();
    opts.set_reset(true);
    let plan = repo.extract(vec![entry("a", 9), entry("b", 2)], &head, &opts);
    assert_eq!(2, plan.new_entries.len());
    assert!(plan.removed_paths.is_empty());
}

#[test]
fn indexed_pack_is_extracted() {
    let objects = [b"one".to_vec(), b"twelve".to_vec()];
    let sums = compute_checksums(&objects);
    let packed = zstd::encode_all(b"onetwelve".as_slice(), 1).unwrap();
    let make = |path: &str, i: usize, offset, size| {
        PackEntry::new(path, ObjectIndex { checksum: sums[i], offset, size })
    };
    let entries = [make("y", 1, 3, 6), make("x", 0, 0, 3)];
    let pack = Pack::open("P", packed.clone());
    assert_eq!("P", pack.name());
    let r = pack.extract(&entries, true);
    assert!(r.result.is_ok());
    let files = r
        .files
        .iter()
        .map(|f| (f.path.clone(), r.data[f.start..f.end].to_vec()))
        .collect::<Vec<_>>();
    assert_eq!(
        vec![
            (b"x".to_vec(), b"one".to_vec()),
            (b"y".to_vec(), b"twelve".to_vec())
        ],
        files
    );
    let r = Pack::open("P", packed).extract(&[make("y", 0, 3, 6)], true);
    assert!(r.result.is_err());
}

#[test]
fn indexed_options_keep_what_was_set() {
    let mut opts = ExtractOptions::default();
    opts.set_verify(false);
    opts.set_force(true);
    assert!(!opts.verify());
    assert!(opts.force());
    assert!(!opts.reset());
    assert_eq!("elfshaker_data", Repository::data_dir());
}
