use elfshaker::ioerror::{IoError, IoErrorKind};
use elfshaker::repo::fs::{
    can_remove, create_temp_path, remove_empty_dirs, temp_path, EmptyDirectoryCleanupQueue,
    RemoveOutcome,
};

/// A set of directories and files, by their paths.
struct Tree {
    dirs: Vec<String>,
    files: Vec<String>,
}

impl Tree {
    fn with_dirs(root: &str, names: &[&str]) -> Tree {
        let mut dirs = vec![root.to_string()];
        for name in names {
            dirs.push(format!("{}/{}", dirs.last().unwrap(), name));
        }
        Tree { dirs, files: vec![] }
    }

    fn is_empty(&self, dir: &str) -> bool {
        let prefix = format!("{}/", dir);
        !self
            .dirs
            .iter()
            .chain(self.files.iter())
            .any(|p| p.starts_with(&prefix))
    }

    fn remove(&mut self, leaf_dir: &[u8], boundary_dir: &[u8]) -> Result<(), IoError> {
        let mut removal = remove_empty_dirs(leaf_dir, boundary_dir);
        while let Some(dir) = removal.current() {
            let dir = std::str::from_utf8(dir).unwrap().to_string();
            let outcome = if !self.dirs.contains(&dir) {
                RemoveOutcome::Failed(IoError::new(IoErrorKind::NotFound, "not found"))
            } else if self.is_empty(&dir) {
                self.dirs.retain(|d| d != &dir);
                RemoveOutcome::Removed
            } else {
                RemoveOutcome::NotEmpty
            };
            removal.advance(outcome)?;
        }
        Ok(())
    }
}

#[test]
fn test_remove_empty_dirs_works() {
    let boundary_dir = "/test_remove_empty_dirs_works/test_root";
    let mut tree = Tree::with_dirs(boundary_dir, &["a", "b", "c", "d"]);
    let leaf_dir = tree.dirs.last().unwrap().clone();

    tree.remove(leaf_dir.as_bytes(), boundary_dir.as_bytes())
        .unwrap();

    assert!(
        tree.is_empty(boundary_dir),
        "The directory should have been emptied!"
    );
    assert_eq!(vec![boundary_dir], tree.dirs);
}

#[test]
fn test_remove_empty_dirs_is_safe() {
    let boundary_dir = "/test_remove_empty_dirs_is_safe/test_root";
    let mut tree = Tree::with_dirs(boundary_dir, &["a", "b", "c", "d"]);
    let leaf_dir = tree.dirs.last().unwrap().clone();
    let file = format!("{}/file", leaf_dir);
    tree.files.push(file.clone());

    tree.remove(leaf_dir.as_bytes(), boundary_dir.as_bytes())
        .unwrap();

    assert!(
        tree.files.contains(&file),
        "The file was deleted when it shouldn't have been!"
    );
    assert!(tree.dirs.contains(&leaf_dir));
}

#[test]
fn test_cleanup_queue_works() {
    let boundary_dir = "/test_cleanup_queue_works/test_root";
    let mut tree = Tree::with_dirs(boundary_dir, &["a", "b", "c", "d"]);
    let leaf_dir = tree.dirs.last().unwrap().clone();

    let mut q = EmptyDirectoryCleanupQueue::new();
    let task = q.enqueue(leaf_dir.into_bytes(), boundary_dir.as_bytes().to_vec());
    assert!(task.is_none());

    assert!(
        !tree.is_empty(boundary_dir),
        "The directory should not have been emptied yet!"
    );
    let task = q.process().unwrap();
    tree.remove(&task.leaf_dir, &task.boundary_dir).unwrap();
    assert!(
        tree.is_empty(boundary_dir),
        "The directory should have been emptied!"
    );
    assert!(q.process().is_none());
}

#[test]
fn queue_waits_for_the_innermost_directory() {
    let mut q = EmptyDirectoryCleanupQueue::default();
    let root = b"/r".to_vec();
    assert!(q.enqueue(b"/r/a".to_vec(), root.clone()).is_none());
    assert!(q.enqueue(b"/r/a/b".to_vec(), root.clone()).is_none());
    let task = q.enqueue(b"/r/c".to_vec(), root.clone()).unwrap();
    assert_eq!(b"/r/a/b".to_vec(), task.leaf_dir);
    assert_eq!(root, task.boundary_dir);
    assert_eq!(b"/r/c".to_vec(), q.process().unwrap().leaf_dir);
}

#[test]
fn child_may_be_enqueued_before_its_parent() {
    let mut tree = Tree::with_dirs("/r", &["a", "b"]);
    let mut q = EmptyDirectoryCleanupQueue::new();
    let root = b"/r".to_vec();
    assert!(q.enqueue(b"/r/a/b".to_vec(), root.clone()).is_none());
    let task = q.enqueue(b"/r/a".to_vec(), root).unwrap();
    tree.remove(&task.leaf_dir, &task.boundary_dir).unwrap();
    let task = q.process().unwrap();
    assert_eq!(b"/r/a".to_vec(), task.leaf_dir);
    assert!(tree.remove(&task.leaf_dir, &task.boundary_dir).is_ok());
    assert_eq!(vec!["/r"], tree.dirs);
}

#[test]
fn removal_goes_on_above_a_directory_that_is_gone() {
    let mut removal = remove_empty_dirs(b"/r/a/b", b"/r");
    let e = IoError::new(IoErrorKind::NotFound, "not found");
    assert!(removal.advance(RemoveOutcome::Failed(e)).is_ok());
    assert_eq!(Some(b"/r/a".as_slice()), removal.current());
}

#[test]
fn boundary_is_never_removed() {
    assert!(can_remove(b"/r/a", b"/r"));
    assert!(!can_remove(b"/other", b"/r"));
    assert!(remove_empty_dirs(b"/r", b"/r").current().is_none());
}

#[test]
fn removal_stops_at_a_failure() {
    let mut removal = remove_empty_dirs(b"/r/a/b", b"/r");
    assert_eq!(Some(b"/r/a/b".as_slice()), removal.current());
    removal.advance(RemoveOutcome::Removed).unwrap();
    assert_eq!(Some(b"/r/a".as_slice()), removal.current());
    let e = IoError::new(IoErrorKind::PermissionDenied, "denied");
    assert!(removal.advance(RemoveOutcome::Failed(e)).is_err());
}

#[test]
fn temporary_paths() {
    assert_eq!(
        b"/t/000102030405060708090a0b0c0d0e0f".to_vec(),
        temp_path(b"/t", "", &[0, 1, 2, 3, 4, 5, 6, 7, 8, 9, 10, 11, 12, 13, 14, 15])
    );
    let a = create_temp_path(b"/t");
    let b = create_temp_path(b"/t");
    assert_eq!(3 + 32, a.len());
    assert_ne!(a, b);
    assert_ne!(b"/t/00000000000000000000000000000000".to_vec(), a);
}
