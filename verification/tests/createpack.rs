use elfshaker::batch::compute_checksums;
use elfshaker::createpack::{
    create_index, create_snapshots_from_paths, place_objects, sort_entries, unpack_path,
    unpack_snapshot, walk_follow_symlinks, LinkedFile, PathError, PlacedFile, WalkedFile,
};

fn file(path: &str, target: Option<&str>, size: u64) -> WalkedFile {
    WalkedFile {
        path: path.into(),
        target: target.map(|t| t.into()),
        size,
    }
}

#[test]
fn links_are_listed_with_their_file() {
    let files = [
        file("/in/s1/a", Some("/store/x"), 3),
        file("/in/s2/a", Some("/store/x"), 3),
        file("/in/s2/b", None, 5),
        file("/in/s2/c", Some("../y"), 7),
    ];
    let linked = walk_follow_symlinks(&files);
    let mut found = linked
        .into_iter()
        .map(|f| (f.size, f.original, f.symlinks))
        .collect::<Vec<_>>();
    found.sort();
    assert_eq!(
        vec![
            (
                3,
                b"/store/x".to_vec(),
                vec![b"/in/s1/a".to_vec(), b"/in/s2/a".to_vec()]
            ),
            (5, b"/in/s2/b".to_vec(), vec![]),
            (7, b"/in/s2/../y".to_vec(), vec![b"/in/s2/c".to_vec()]),
        ],
        found
    );
}

#[test]
fn walked_files_are_sorted_by_path() {
    let files = [
        file("/in/b", None, 1),
        file("/in/a-b", None, 1),
        file("/in/a/c", None, 1),
    ];
    assert_eq!(vec![2, 1, 0], sort_entries(&files));
}

fn linked(path: &str, size: u64, symlinks: &[&str]) -> LinkedFile {
    LinkedFile {
        original: path.into(),
        size,
        symlinks: symlinks.iter().map(|s| s.as_bytes().to_vec()).collect(),
    }
}

#[test]
fn objects_are_placed_by_size() {
    let placed = place_objects(&[
        linked("/in/s/a", 10, &[]),
        linked("/in/s/b", 5, &[]),
        linked("/in/s/c", 7, &[]),
    ]);
    let found = placed
        .iter()
        .map(|p| (p.file.original.as_slice(), p.offset))
        .collect::<Vec<_>>();
    let expected: Vec<(&[u8], u64)> = vec![(b"/in/s/b", 0), (b"/in/s/c", 5), (b"/in/s/a", 12)];
    assert_eq!(expected, found);
}

fn placed(path: &str, size: u64, offset: u64, symlinks: &[&str]) -> PlacedFile {
    PlacedFile { file: linked(path, size, symlinks), offset }
}

#[test]
fn snapshots_are_named_by_directory() {
    let contents = [b"xyz".to_vec(), b"abcde".to_vec()];
    let sums = compute_checksums(&contents);
    let objects = [
        placed("/in/s1/a", 3, 0, &["/in/s1/a", "/in/s2/d/a"]),
        placed("/in/s2/b", 5, 3, &["/in/s2/b"]),
    ];
    let list = create_snapshots_from_paths(b"/in", 1, &objects, &sums).unwrap();
    let mut tags = list.iter().map(|s| s.tag.as_str()).collect::<Vec<_>>();
    tags.sort();
    assert_eq!(vec!["s1", "s2"], tags);
    let index = create_index(list);
    let pack = zstd::encode_all(b"xyzabcde".as_slice(), 1).unwrap();
    let r = unpack_snapshot(&pack, &index, "s2").unwrap();
    assert!(r.result.is_ok());
    let mut files = r
        .files
        .iter()
        .map(|f| (f.path.clone(), r.data[f.start..f.end].to_vec()))
        .collect::<Vec<_>>();
    files.sort();
    assert_eq!(
        vec![
            (b"b".to_vec(), b"abcde".to_vec()),
            (b"d/a".to_vec(), b"xyz".to_vec())
        ],
        files
    );
}

#[test]
fn files_outside_the_input_are_refused() {
    let objects = [placed("/other/a", 3, 0, &["/other/a"])];
    let r = create_snapshots_from_paths(b"/in", 1, &objects, &[[0; 20]]);
    assert!(matches!(r, Err(PathError::InvalidPath)));
}

#[test]
fn unpacked_files_are_below_the_snapshot() {
    assert_eq!(b"/out/s1/d/a".to_vec(), unpack_path(b"/out", "s1", b"d/a"));
}
