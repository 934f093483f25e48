//! Decisions about files and directories: names of temporary files, times of
//! modification, and which directories are removed once they are empty.

use crate::bytes::bytes_equal;
use crate::digest;
use crate::digest::hex_encode;
use crate::ioerror::{IoError, IoErrorKind};
use crate::paths;
use crate::paths::{components, join, join_components, starts_with};
use crate::split;
use crate::text;
use crate::text::text_bytes;
use rand::RngCore;
use vstd::prelude::*;
use vstd::string::StringExecFns;

verus! {

/// A point in time: seconds since the epoch, and nanoseconds.
#[derive(Clone, Copy, Debug, PartialEq, Eq, Structural)]
pub struct Timestamp {
    pub secs: i64,
    pub nanos: u32,
}

impl Timestamp {
    /// This point in time is before the other.
    pub open spec fn precedes(self, other: Timestamp) -> bool {
        self.secs < other.secs || (self.secs == other.secs && self.nanos < other.nanos)
    }

    /// Tells whether this point in time is before the other.
    pub fn is_before(&self, other: &Timestamp) -> (r: bool)
        ensures
            r == self.precedes(*other),
    {
        self.secs < other.secs || (self.secs == other.secs && self.nanos < other.nanos)
    }
}

/// The most recent of two times, as far as they are known.
pub open spec fn most_recent(created: Option<Timestamp>, modified: Option<Timestamp>) -> Option<
    Timestamp,
> {
    match (created, modified) {
        (Some(c), Some(m)) => if m.precedes(c) {
            Some(c)
        } else {
            Some(m)
        },
        (Some(c), None) => Some(c),
        (None, m) => m,
    }
}

/// Returns the most recent of the times at which a file was created and
/// modified, or [`None`], if neither is known.
pub fn get_last_modified(created: Option<Timestamp>, modified: Option<Timestamp>) -> (r: Option<
    Timestamp,
>)
    ensures
        r == most_recent(created, modified),
{
    match (created, modified) {
        (Some(c), Some(m)) => if m.is_before(&c) {
            Some(c)
        } else {
            Some(m)
        },
        (Some(c), None) => Some(c),
        (None, m) => m,
    }
}

/// Wraps `RngCore::fill_bytes` of the generator that `rand::rng` returns: the
/// bytes are random.
#[verifier::external_body]
pub(crate) fn random_bytes() -> (r: [u8; 16]) {
    let mut bytes = [0u8; 16];
    rand::rng().fill_bytes(&mut bytes);
    bytes
}

/// The path of a temporary file whose name is made of the prefix and of the
/// given bytes.
pub open spec fn temp_path_of(dir: Seq<u8>, prefix: Seq<char>, bytes: Seq<u8>) -> Seq<u8> {
    paths::join_of(dir, text::bytes_of(prefix + digest::hex_of(bytes)))
}

/// Makes the path of a temporary file from the bytes of its name.
pub fn temp_path(temp_dir: &[u8], prefix: &str, bytes: &[u8; 16]) -> (r: Vec<u8>)
    ensures
        r@ == temp_path_of(temp_dir@, prefix@, bytes@),
{
    let mut name = prefix.to_owned();
    name.append(hex_encode(bytes.as_slice()).as_str());
    join(temp_dir, text_bytes(name.as_str()).as_slice())
}

/// Returns a unique path suitable for a temporary file. The filename is picked
/// from a 128-bit random distribution.
pub fn create_temp_path(temp_dir: &[u8]) -> (r: Vec<u8>)
    ensures
        exists|bytes: Seq<u8>|
            bytes.len() == 16 && r@ == #[trigger] temp_path_of(temp_dir@, Seq::empty(), bytes),
{
    proof {
        reveal_strlit("");
    }
    let bytes = random_bytes();
    let r = temp_path(temp_dir, "", &bytes);
    assert(""@ =~= Seq::<char>::empty());
    assert(r@ == temp_path_of(temp_dir@, Seq::empty(), bytes@));
    r
}

/// The failure to open a file, with its path in the message.
pub fn open_file_error(kind: IoErrorKind, path: &str) -> (r: IoError)
    ensures
        r.kind == kind,
        r.message@ == "couldn't open "@ + path@,
{
    let mut message = "couldn't open ".to_owned();
    message.append(path);
    IoError { kind, message }
}

/// The failure to create a file, with its path in the message.
pub fn create_file_error(kind: IoErrorKind, path: &str) -> (r: IoError)
    ensures
        r.kind == kind,
        r.message@ == "couldn't create or open "@ + path@ + " for writing"@,
{
    let mut message = "couldn't create or open ".to_owned();
    message.append(path);
    message.append(" for writing");
    IoError { kind, message }
}

/// One of the names is the parent directory.
pub open spec fn goes_up(names: Seq<Seq<u8>>) -> bool {
    names.contains(paths::dot_dot())
}

/// Checks for the existence of a '/../' component from a position on.
fn contains_parent_dir_component(list: &[Vec<u8>], from: usize) -> (r: bool)
    requires
        from <= list@.len(),
    ensures
        r == goes_up(split::byte_views(list@).skip(from as int)),
{
    let ghost names = split::byte_views(list@).skip(from as int);
    let mut up: Vec<u8> = Vec::new();
    up.push(46);
    up.push(46);
    assert(up@ =~= paths::dot_dot());
    let mut i: usize = from;
    while i < list.len()
        invariant
            from <= i <= list.len(),
            names == split::byte_views(list@).skip(from as int),
            up@ == paths::dot_dot(),
            forall|j: int| from <= j < i ==> #[trigger] list@[j]@ != paths::dot_dot(),
        decreases list.len() - i,
    {
        if bytes_equal(list[i].as_slice(), up.as_slice()) {
            assert(names[i - from] == paths::dot_dot());
            return true;
        }
        i += 1;
    }
    assert forall|j: int| 0 <= j < names.len() implies names[j] != paths::dot_dot() by {
        assert(names[j] == list@[from + j]@);
    }
    false
}

/// The directory is within the boundary, and the part of its path after the
/// boundary does not go up.
pub open spec fn is_removable(leaf_dir: Seq<u8>, boundary_dir: Seq<u8>) -> bool {
    let parts = paths::components_of(leaf_dir);
    let stop = paths::components_of(boundary_dir);
    stop.is_prefix_of(parts) && !goes_up(parts.skip(stop.len() as int))
}

/// The directories from a directory up to the boundary, which is not one of
/// them. Each is the parent of the one before it.
pub open spec fn dirs_upward(leaf_dir: Seq<u8>, boundary_dir: Seq<u8>) -> Seq<Seq<u8>> {
    let parts = paths::components_of(leaf_dir);
    let stop = paths::components_of(boundary_dir).len();
    Seq::new(
        (parts.len() - stop) as nat,
        |i: int| paths::path_of(parts.take(parts.len() - i)),
    )
}

/// What came of an attempt to remove a directory.
#[derive(Debug)]
pub enum RemoveOutcome {
    Removed,
    /// There was something in the directory.
    NotEmpty,
    Failed(IoError),
}

/// The removal of empty directories: which directory is to be removed next.
pub struct EmptyDirRemoval {
    dirs: Vec<Vec<u8>>,
    next: usize,
}

impl View for EmptyDirRemoval {
    type V = Seq<Seq<u8>>;

    /// The directories that are still to be removed.
    closed spec fn view(&self) -> Seq<Seq<u8>> {
        split::byte_views(self.dirs@).skip(self.next as int)
    }
}

impl EmptyDirRemoval {
    /// The position is within the list.
    pub closed spec fn wf(&self) -> bool {
        self.next <= self.dirs@.len()
    }

    /// The directory that is to be removed next.
    pub fn current(&self) -> (r: Option<&[u8]>)
        requires
            self.wf(),
        ensures
            match r {
                Some(dir) => self@.len() > 0 && dir@ == self@[0],
                None => self@.len() == 0,
            },
    {
        if self.next < self.dirs.len() {
            Some(self.dirs[self.next].as_slice())
        } else {
            None
        }
    }

    /// Takes note of what came of the removal of the current directory. A
    /// directory that is already gone counts as removed. A directory that is
    /// not empty ends the removal, and so does any other failure.
    pub fn advance(&mut self, outcome: RemoveOutcome) -> (r: Result<(), IoError>)
        requires
            old(self).wf(),
            old(self)@.len() > 0,
        ensures
            final(self).wf(),
            match outcome {
                RemoveOutcome::Removed => r is Ok && final(self)@ == old(self)@.skip(1),
                RemoveOutcome::NotEmpty => r is Ok && final(self)@.len() == 0,
                RemoveOutcome::Failed(e) => if e.kind == IoErrorKind::NotFound {
                    r is Ok && final(self)@ == old(self)@.skip(1)
                } else {
                    r == Err::<(), IoError>(e) && final(self)@.len() == 0
                },
            },
    {
        let ghost before = self@;
        assert(self@.len() == self.dirs@.len() - self.next);
        assert(self.next < self.dirs.len());
        match outcome {
            RemoveOutcome::Removed => {
                self.next = self.next + 1;
                assert(self@ =~= before.skip(1));
                Ok(())
            },
            RemoveOutcome::NotEmpty => {
                self.next = self.dirs.len();
                Ok(())
            },
            RemoveOutcome::Failed(e) => {
                if e.kind == IoErrorKind::NotFound {
                    // A child that was removed before took it along.
                    self.next = self.next + 1;
                    assert(self@ =~= before.skip(1));
                    return Ok(());
                }
                self.next = self.dirs.len();
                Err(e)
            },
        }
    }
}

/// Tells whether a directory is within the boundary, and the part of its path
/// after the boundary does not go up.
pub fn can_remove(leaf_dir: &[u8], boundary_dir: &[u8]) -> (r: bool)
    ensures
        r == is_removable(leaf_dir@, boundary_dir@),
{
    let parts = components(leaf_dir);
    let stop = components(boundary_dir);
    starts_with(parts.as_slice(), stop.as_slice()) && !contains_parent_dir_component(
        parts.as_slice(),
        stop.len(),
    )
}

/// Starts the removal of empty directories at [`leaf_dir`], bubbling up until
/// `boundary_dir` is reached.
///
/// NOTE: The part of `leaf_dir` after the `boundary_dir` cannot contain '..'
/// and should not go through symlinks (for correctness).
pub fn remove_empty_dirs(leaf_dir: &[u8], boundary_dir: &[u8]) -> (r: EmptyDirRemoval)
    requires
        is_removable(leaf_dir@, boundary_dir@),
    ensures
        r.wf(),
        r@ == dirs_upward(leaf_dir@, boundary_dir@),
{
    let parts = components(leaf_dir);
    let stop = components(boundary_dir).len();
    let ghost views = paths::components_of(leaf_dir@);
    let ghost all = dirs_upward(leaf_dir@, boundary_dir@);
    assert(split::byte_views(parts@).len() == parts@.len());
    assert(stop == paths::components_of(boundary_dir@).len());
    let mut dirs: Vec<Vec<u8>> = Vec::new();
    let mut n: usize = parts.len();
    while n > stop
        invariant
            stop <= n <= parts.len(),
            views == split::byte_views(parts@),
            views.len() == parts@.len(),
            all.len() == parts@.len() - stop,
            forall|i: int|
                0 <= i < all.len() ==> #[trigger] all[i] == paths::path_of(
                    views.take(views.len() - i),
                ),
            split::byte_views(dirs@) == all.take(parts.len() - n),
        decreases n,
    {
        let ghost before = split::byte_views(dirs@);
        let dir = join_components(parts.as_slice(), 0, n);
        assert(views.subrange(0, n as int) =~= views.take(n as int));
        dirs.push(dir);
        n -= 1;
        proof {
            let i = parts.len() - n - 1;
            assert(all[i] == dir@);
            assert(split::byte_views(dirs@) =~= before.push(dir@));
            assert(all.take(i + 1) =~= all.take(i).push(all[i]));
        }
    }
    let r = EmptyDirRemoval { dirs, next: 0 };
    assert(all.take(parts.len() - n) =~= all);
    assert(r@ =~= all);
    r
}

/// A directory that is removed if it is empty, and the directory where that
/// stops.
#[derive(Debug)]
pub struct CleanupTask {
    pub leaf_dir: Vec<u8>,
    pub boundary_dir: Vec<u8>,
}

/// A queue of directories which are removed if empty. When an empty directory is
/// removed, its parent is also considered for removal.
///
/// The queue uses a heuristic to avoid storing the full set of paths and is
/// able to avoid spurious system calls when the list of directories is enqueued
/// in ascending lexicographic order.
pub struct EmptyDirectoryCleanupQueue {
    last: Option<CleanupTask>,
}

impl View for EmptyDirectoryCleanupQueue {
    type V = Option<(Seq<u8>, Seq<u8>)>;

    /// The directory that waits for its removal, and its boundary.
    closed spec fn view(&self) -> Option<(Seq<u8>, Seq<u8>)> {
        match self.last {
            Some(task) => Some((task.leaf_dir@, task.boundary_dir@)),
            None => None,
        }
    }
}

/// The removal of `leaf_dir` considers all directories that the removal of
/// `last_leaf` considers.
pub open spec fn supersedes(
    leaf_dir: Seq<u8>,
    boundary_dir: Seq<u8>,
    last_leaf: Seq<u8>,
    last_boundary: Seq<u8>,
) -> bool {
    &&& paths::components_of(last_boundary) == paths::components_of(boundary_dir)
    &&& paths::is_within(leaf_dir, last_leaf)
}

impl EmptyDirectoryCleanupQueue {
    /// Creates an empty queue.
    pub fn new() -> (r: EmptyDirectoryCleanupQueue)
        ensures
            r@ is None,
    {
        EmptyDirectoryCleanupQueue { last: None }
    }

    /// Adds a directory to the queue. In certain situations this hands out the
    /// directory that was waiting, which is then to be removed.
    pub fn enqueue(&mut self, leaf_dir: Vec<u8>, boundary_dir: Vec<u8>) -> (r: Option<CleanupTask>)
        ensures
            match old(self)@ {
                None => r is None && final(self)@ == Some((leaf_dir@, boundary_dir@)),
                Some((last_leaf, last_boundary)) => if supersedes(
                    leaf_dir@,
                    boundary_dir@,
                    last_leaf,
                    last_boundary,
                ) {
                    r is None && final(self)@ == Some((leaf_dir@, last_boundary))
                } else {
                    &&& r matches Some(task) && task.leaf_dir@ == last_leaf && task.boundary_dir@
                        == last_boundary
                    &&& final(self)@ == Some((leaf_dir@, boundary_dir@))
                },
            },
    {
        match self.last.take() {
            None => {
                self.last = Some(CleanupTask { leaf_dir, boundary_dir });
                None
            },
            Some(task) => {
                let last_boundary = components(task.boundary_dir.as_slice());
                let boundary = components(boundary_dir.as_slice());
                let last_leaf = components(task.leaf_dir.as_slice());
                let leaf = components(leaf_dir.as_slice());
                let same = last_boundary.len() == boundary.len() && starts_with(
                    last_boundary.as_slice(),
                    boundary.as_slice(),
                );
                proof {
                    let x = paths::components_of(task.boundary_dir@);
                    let y = paths::components_of(boundary_dir@);
                    if same {
                        assert(x =~= y);
                    } else if x == y {
                        assert(y.is_prefix_of(x));
                    }
                }
                if same && starts_with(leaf.as_slice(), last_leaf.as_slice()) {
                    // When scheduling a directory that is a subdirectory of the
                    // last seen directory, we can simply overwrite the value.
                    // The removal will consider the previous directory when it
                    // moves up the hierarchy.
                    self.last = Some(CleanupTask { leaf_dir, boundary_dir: task.boundary_dir });
                    None
                } else {
                    // When we schedule a directory that is not a sub-directory
                    // of the last seen directory or we change the boundary, the
                    // last seen directory must be removed, since we will
                    // overwrite these values.
                    self.last = Some(CleanupTask { leaf_dir, boundary_dir });
                    Some(task)
                }
            },
        }
    }

    /// Hands out the directory that is still waiting.
    pub fn process(&mut self) -> (r: Option<CleanupTask>)
        ensures
            final(self)@ is None,
            match old(self)@ {
                None => r is None,
                Some((leaf, boundary)) => r matches Some(task) && task.leaf_dir@ == leaf
                    && task.boundary_dir@ == boundary,
            },
    {
        self.last.take()
    }
}

impl Default for EmptyDirectoryCleanupQueue {
    fn default() -> (r: Self)
        ensures
            r@ is None,
    {
        EmptyDirectoryCleanupQueue::new()
    }
}

/// No directory is lost when the queue replaces the one that is waiting: each
/// directory that would have been considered is considered later on.
pub proof fn law_cleanup_considers_all(
    leaf_dir: Seq<u8>,
    boundary_dir: Seq<u8>,
    last_leaf: Seq<u8>,
    last_boundary: Seq<u8>,
    dir: Seq<u8>,
)
    requires
        supersedes(leaf_dir, boundary_dir, last_leaf, last_boundary),
        is_removable(last_leaf, last_boundary),
        dirs_upward(last_leaf, last_boundary).contains(dir),
    ensures
        dirs_upward(leaf_dir, last_boundary).contains(dir),
{
    let before = dirs_upward(last_leaf, last_boundary);
    let after = dirs_upward(leaf_dir, last_boundary);
    let old_parts = paths::components_of(last_leaf);
    let parts = paths::components_of(leaf_dir);
    let i = before.index_of(dir);
    let j = i + parts.len() - old_parts.len();
    assert(before[i] == dir);
    assert(parts.take(parts.len() - j) =~= old_parts.take(old_parts.len() - i));
    assert(after[j] == dir);
}

/// Only directories strictly within the boundary are removed.
pub proof fn law_only_dirs_within_boundary(leaf_dir: Seq<u8>, boundary_dir: Seq<u8>, i: int)
    requires
        is_removable(leaf_dir, boundary_dir),
        0 <= i < dirs_upward(leaf_dir, boundary_dir).len(),
    ensures
        exists|names: Seq<Seq<u8>>|
            names.len() > 0 && !goes_up(names) && dirs_upward(leaf_dir, boundary_dir)[i]
                == #[trigger] paths::path_of(paths::components_of(boundary_dir) + names),
{
    let parts = paths::components_of(leaf_dir);
    let stop = paths::components_of(boundary_dir);
    let kept = parts.take(parts.len() - i);
    let names = kept.skip(stop.len() as int);
    let all = parts.skip(stop.len() as int);
    assert(stop + names =~= kept);
    assert forall|j: int| 0 <= j < names.len() implies names[j] != paths::dot_dot() by {
        assert(names[j] == all[j]);
    }
    assert(dirs_upward(leaf_dir, boundary_dir)[i] == paths::path_of(stop + names));
}

/// The directories go up from the leaf, each the parent of the one before it, to
/// the one right below the boundary.
pub proof fn law_dirs_lead_up_to_boundary(leaf_dir: Seq<u8>, boundary_dir: Seq<u8>, i: int)
    requires
        is_removable(leaf_dir, boundary_dir),
        0 <= i < dirs_upward(leaf_dir, boundary_dir).len(),
    ensures
        ({
            let dirs = dirs_upward(leaf_dir, boundary_dir);
            let above = paths::parent_of(dirs[i]);
            &&& paths::components_of(dirs[0]) == paths::components_of(leaf_dir)
            &&& i + 1 < dirs.len() ==> above == Some(dirs[i + 1])
            &&& i + 1 == dirs.len() && above is Some ==> paths::components_of(above->0)
                == paths::components_of(boundary_dir)
        }),
{
    let parts = paths::components_of(leaf_dir);
    let stop = paths::components_of(boundary_dir);
    let dirs = dirs_upward(leaf_dir, boundary_dir);
    let k = parts.len() - i;
    assert(parts.take(parts.len() as int) =~= parts);
    paths::lemma_first_components(leaf_dir, parts.len() as int);
    paths::lemma_first_components(leaf_dir, k);
    paths::lemma_first_components(leaf_dir, k - 1);
    assert(parts.take(k).drop_last() =~= parts.take(k - 1));
    assert(parts.take(k).last() == parts[k - 1]);
    if i + 1 < dirs.len() {
        paths::lemma_components_are_names(leaf_dir, k - 1);
        assert(paths::root()[0] == paths::slash());
        assert(paths::root().contains(paths::slash()));
    } else {
        assert(parts.take(k - 1) =~= stop);
    }
}

/// The most recent of two times is one of them, and not before the other. There
/// is none only if both are unknown.
pub proof fn law_most_recent_is_latest(created: Option<Timestamp>, modified: Option<Timestamp>)
    ensures
        most_recent(created, modified) is None <==> created is None && modified is None,
        most_recent(created, modified) matches Some(t) ==> {
            &&& created == Some(t) || modified == Some(t)
            &&& created matches Some(c) ==> c.secs < t.secs || (c.secs == t.secs && c.nanos
                <= t.nanos)
            &&& modified matches Some(m) ==> m.secs < t.secs || (m.secs == t.secs && m.nanos
                <= t.nanos)
        },
{
}

} // verus!
