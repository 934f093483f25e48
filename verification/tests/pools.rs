use elfshaker::entrypool::EntryPool;
use elfshaker::pathidx::PathPool;

fn path(s: &str) -> Vec<u8> {
    s.as_bytes().to_vec()
}

#[test]
fn entrypool_basic_pathpool_test() {
    let mut p: EntryPool<Vec<u8>> = EntryPool::new();
    // Not present.
    let handle = p.get(&path("foo"));
    assert_eq!(handle, None);
    // Insertion.
    let first_handle = p.get_or_insert(&path("foo"));
    assert_eq!(p.lookup(first_handle), Some(&path("foo")));
    // Repeat insertion.
    let second_handle = p.get(&path("foo"));
    assert_eq!(Some(first_handle), second_handle);
    // Not present.
    let missing = p.get(&path("bar"));
    assert_eq!(missing, None);
    // Insertion but reusing a previously-was-file path fragment as a directory.
    let foobar = p.get_or_insert(&path("foo/bar"));
    assert_eq!(p.lookup(foobar), Some(&path("foo/bar")));
}

#[test]
fn entrypool_serde() {
    let paths: Vec<Vec<u8>> = vec!["a", "b", "c", "b", "a/a", "a/a/a", "a", "a/a"]
        .into_iter()
        .map(path)
        .collect();

    let pool = EntryPool::from_list(&paths);
    let handles = paths
        .iter()
        .map(|p| pool.get(p).unwrap())
        .collect::<Vec<_>>();

    let mut encoded: Vec<u8> = vec![];
    rmp_serde::encode::write(&mut encoded, pool.iter()).unwrap();

    let list: Vec<Vec<u8>> = rmp_serde::decode::from_read(&*encoded).unwrap();
    let decoded = EntryPool::from_list(&list);

    // Same handles given original paths.
    let decoded_handles = paths
        .iter()
        .map(|p| decoded.get(p).unwrap())
        .collect::<Vec<_>>();
    assert_eq!(handles, decoded_handles);

    // Handles preserved across a roundtrip.
    for (path, orig_handle) in paths.iter().zip(handles.into_iter()) {
        assert_eq!(decoded.lookup(orig_handle), Some(path));
    }
}

#[test]
fn pathidx_basic_pathpool_test() {
    let mut p = PathPool::new();
    // Not present.
    let handle = p.get(b"foo");
    assert_eq!(handle, None);
    // Insertion.
    let first_handle = p.get_or_insert(b"foo");
    assert_eq!(p.lookup(first_handle), Some(&path("foo")));
    // Repeat insertion.
    let second_handle = p.get(b"foo");
    assert_eq!(Some(first_handle), second_handle);
    // Not present.
    let missing = p.get(b"bar");
    assert_eq!(missing, None);
    // Insertion but reusing a previously-was-file path fragment as a directory.
    let foobar = p.get_or_insert(b"foo/bar");
    assert_eq!(p.lookup(foobar), Some(&path("foo/bar")));
}

#[test]
fn pathidx_serde() {
    let paths: Vec<Vec<u8>> = vec!["a", "b", "c", "b", "a/a", "a/a/a", "a", "a/a"]
        .into_iter()
        .map(path)
        .collect();

    let pool = PathPool::from_list(&paths);
    let handles = paths
        .iter()
        .map(|p| pool.get(p).unwrap())
        .collect::<Vec<_>>();

    let mut encoded: Vec<u8> = vec![];
    rmp_serde::encode::write(&mut encoded, pool.to_list()).unwrap();

    let list: Vec<Vec<u8>> = rmp_serde::decode::from_read(&*encoded).unwrap();
    let decoded = PathPool::from_list(&list);

    // Same handles given original paths.
    let decoded_handles = paths
        .iter()
        .map(|p| decoded.get(p).unwrap())
        .collect::<Vec<_>>();
    assert_eq!(handles, decoded_handles);

    // Handles preserved across a roundtrip.
    for (path, orig_handle) in paths.iter().zip(handles.into_iter()) {
        assert_eq!(decoded.lookup(orig_handle), Some(path));
    }
}

#[test]
fn pool_handles_are_positions() {
    let mut p: EntryPool<[u8; 20]> = EntryPool::new();
    assert_eq!(0, p.get_or_insert(&[7; 20]));
    assert_eq!(1, p.get_or_insert(&[9; 20]));
    assert_eq!(0, p.get_or_insert(&[7; 20]));
    assert_eq!(p.lookup(2), None);
    assert_eq!(p.iter(), &vec![[7; 20], [9; 20]]);
}

#[test]
fn empty_path_pool_is_default() {
    let p = PathPool::default();
    assert!(p.to_list().is_empty());
    assert_eq!(p.lookup(0), None);
}
