use elfshaker::indexed;
use elfshaker::indexed::{ObjectIndex, PackEntry};
use elfshaker::packidx::{FileEntry, FileMetadata, ObjectMetadata, LOOSE_OBJECT_OFFSET};
use elfshaker::repo::checkout::plan_update;
use elfshaker::repo::Repository;

const EXAMPLE_MD: ObjectMetadata = ObjectMetadata {
    size: 1,
    offset: LOOSE_OBJECT_OFFSET,
};

fn entry(path: &str, checksum: [u8; 20]) -> FileEntry {
    FileEntry::with_file_metadata(path.into(), checksum, EXAMPLE_MD, FileMetadata::default())
}

fn pack_entry(path: &str, checksum: [u8; 20]) -> PackEntry {
    PackEntry::new(
        path,
        ObjectIndex {
            checksum,
            offset: 0,
            size: 1,
        },
    )
}

#[test]
fn repository_compute_entry_diff_finds_updates() {
    let path = "/path/to/A";
    let old_checksum = [0; 20];
    let new_checksum = [1; 20];
    let old_entries = [entry(path, old_checksum)];
    let new_entries = [entry(path, new_checksum)];
    let (added, removed) = Repository::compute_entry_diff(&old_entries, &new_entries);
    assert_eq!(1, added.len());
    assert_eq!(path.as_bytes(), added[0].path);
    assert_eq!(1, removed.len());
    assert_eq!(path.as_bytes(), removed[0].path);
}

#[test]
fn repository_compute_entry_diff_finds_update_of_duplicated() {
    let path_a = "/path/to/A";
    let path_a_old_checksum = [0; 20];
    let path_b = "/path/to/B";
    let path_b_old_checksum = [0; 20];
    let path_a_new_checksum = [1; 20];
    let old_entries = [
        entry(path_a, path_a_old_checksum),
        entry(path_b, path_b_old_checksum),
    ];
    let new_entries = [entry(path_a, path_a_new_checksum)];
    let (added, removed) = Repository::compute_entry_diff(&old_entries, &new_entries);
    assert_eq!(1, added.len());
    assert_eq!(path_a.as_bytes(), added[0].path);
    assert_eq!(2, removed.len());
    assert!(removed.iter().any(|e| path_a.as_bytes() == e.path));
    assert!(removed.iter().any(|e| path_b.as_bytes() == e.path));
}

#[test]
fn repository_compute_entry_diff_path_switch() {
    let path_a = "/path/to/A";
    let path_a_old_checksum = [0; 20];
    let path_a_new_checksum = [1; 20];
    let path_b = "/path/to/B";
    let path_b_old_checksum = [1; 20];
    let path_b_new_checksum = [0; 20];
    let old_entries = [
        entry(path_a, path_a_old_checksum),
        entry(path_b, path_b_old_checksum),
    ];
    let new_entries = [
        entry(path_a, path_a_new_checksum),
        entry(path_b, path_b_new_checksum),
    ];
    let (added, removed) = Repository::compute_entry_diff(&old_entries, &new_entries);
    assert_eq!(2, added.len());
    assert!(added
        .iter()
        .any(|e| path_a.as_bytes() == e.path && path_a_new_checksum == e.checksum));
    assert!(added
        .iter()
        .any(|e| path_b.as_bytes() == e.path && path_b_new_checksum == e.checksum));
    assert_eq!(2, removed.len());
    assert!(removed
        .iter()
        .any(|e| path_a.as_bytes() == e.path && path_a_old_checksum == e.checksum));
    assert!(removed
        .iter()
        .any(|e| path_b.as_bytes() == e.path && path_b_old_checksum == e.checksum));
}

#[test]
fn repo_compute_entry_diff_finds_updates() {
    let path = "/path/to/A";
    let old_checksum = [0; 20];
    let new_checksum = [1; 20];
    let old_entries = [pack_entry(path, old_checksum)];
    let new_entries = [pack_entry(path, new_checksum)];
    let (added, removed) = indexed::Repository::compute_entry_diff(&old_entries, &new_entries);
    assert_eq!(1, added.len());
    assert_eq!(path, added[0].path());
    assert_eq!(1, removed.len());
    assert_eq!(path, removed[0].path());
}

#[test]
fn repo_compute_entry_diff_finds_update_of_duplicated() {
    let path_a = "/path/to/A";
    let path_a_old_checksum = [0; 20];
    let path_b = "/path/to/B";
    let path_b_old_checksum = [0; 20];
    let path_a_new_checksum = [1; 20];
    let old_entries = [
        pack_entry(path_a, path_a_old_checksum),
        pack_entry(path_b, path_b_old_checksum),
    ];
    let new_entries = [pack_entry(path_a, path_a_new_checksum)];
    let (added, removed) = indexed::Repository::compute_entry_diff(&old_entries, &new_entries);
    assert_eq!(1, added.len());
    assert_eq!(path_a, added[0].path());
    assert_eq!(2, removed.len());
    assert!(removed.iter().any(|e| path_a == e.path()));
    assert!(removed.iter().any(|e| path_b == e.path()));
}

#[test]
fn repo_compute_entry_diff_path_switch() {
    let path_a = "/path/to/A";
    let path_a_old_checksum = [0; 20];
    let path_a_new_checksum = [1; 20];
    let path_b = "/path/to/B";
    let path_b_old_checksum = [1; 20];
    let path_b_new_checksum = [0; 20];
    let old_entries = [
        pack_entry(path_a, path_a_old_checksum),
        pack_entry(path_b, path_b_old_checksum),
    ];
    let new_entries = [
        pack_entry(path_a, path_a_new_checksum),
        pack_entry(path_b, path_b_new_checksum),
    ];
    let (added, removed) = indexed::Repository::compute_entry_diff(&old_entries, &new_entries);
    assert_eq!(2, added.len());
    assert!(added
        .iter()
        .any(|e| path_a == e.path() && path_a_new_checksum == e.object_index().checksum));
    assert!(added
        .iter()
        .any(|e| path_b == e.path() && path_b_new_checksum == e.object_index().checksum));
    assert_eq!(2, removed.len());
    assert!(removed
        .iter()
        .any(|e| path_a == e.path() && path_a_old_checksum == e.object_index().checksum));
    assert!(removed
        .iter()
        .any(|e| path_b == e.path() && path_b_old_checksum == e.object_index().checksum));
}

#[test]
fn same_files_have_no_diff() {
    let old_entries = [entry("a", [1; 20]), entry("b", [2; 20])];
    let new_entries = [entry("b", [2; 20]), entry("a", [1; 20])];
    let (added, removed) = Repository::compute_entry_diff(&old_entries, &new_entries);
    assert!(added.is_empty());
    assert!(removed.is_empty());
}

#[test]
fn change_of_mode_is_an_update() {
    let mut executable = entry("a", [1; 20]);
    executable.file_metadata.mode = 0o755;
    let (added, removed) = Repository::compute_entry_diff(&[entry("a", [1; 20])], &[executable]);
    assert_eq!(1, added.len());
    assert_eq!(0o755, added[0].file_metadata.mode);
    assert_eq!(1, removed.len());
}

#[test]
fn updates_are_counted() {
    let new = vec![entry("a", [1; 20]), entry("b", [2; 20])];
    let old = vec![entry("a", [3; 20]), entry("d", [4; 20]), entry("c", [4; 20])];
    let plan = plan_update(new, old);
    assert_eq!(1, plan.result.modified_file_count);
    assert_eq!(1, plan.result.added_file_count);
    assert_eq!(2, plan.result.removed_file_count);
    assert_eq!(vec![b"c".to_vec(), b"d".to_vec()], plan.removed_paths);
}
