//! Merging of indexes into the index of a new pack.

use crate::entrypool;
use crate::packidx::laws;
use crate::packidx::laws::TaggedFiles;
use crate::packidx::model;
use crate::packidx::model::IndexView;
use crate::packidx::packidx;
use crate::packidx::packidx::{ChangeView, FileEntryView};
use crate::packidx::packidxv1;
use crate::packidx::{
    FileHandle, FileHandleSet, ObjectMetadata, PackError, PackIndexV1,
};
use vstd::prelude::*;

verus! {

/// The snapshot at position `i` of an index.
pub open spec fn snapshot_at(v: IndexView, i: int) -> TaggedFiles {
    TaggedFiles {
        tag: v.tags[i],
        files: model::pairs_of(v, model::content_after(v.deltas, i + 1)),
    }
}

/// The snapshots after those of the first `n` indexes were added in order.
pub open spec fn merged(indexes: Seq<PackIndexV1>, n: int) -> Seq<TaggedFiles>
    decreases n,
{
    if n <= 0 {
        Seq::empty()
    } else {
        let before = merged(indexes, n - 1);
        let v = indexes[n - 1]@;
        before + Seq::new(model::listed(v) as nat, |i: int| snapshot_at(v, i))
    }
}

/// Where an object is and how long it is.
pub open spec fn object_data(v: IndexView, checksum: Seq<u8>) -> ObjectMetadata {
    v.metadata[entrypool::handle_of(v.objects, checksum)->0]
}

/// One of the first `n` indexes describes the object in this way.
pub open spec fn is_described_in(
    indexes: Seq<PackIndexV1>,
    n: int,
    checksum: Seq<u8>,
    m: ObjectMetadata,
) -> bool {
    exists|k: int|
        0 <= k < n && (#[trigger] indexes[k])@.objects.contains(checksum) && object_data(
            indexes[k]@,
            checksum,
        ) == m
}

/// Every object is described as in one of the first `n` indexes.
pub open spec fn described_by(w: IndexView, indexes: Seq<PackIndexV1>, n: int) -> bool {
    forall|c: Seq<u8>| #[trigger]
        w.objects.contains(c) ==> is_described_in(indexes, n, c, object_data(w, c))
}

/// The number of paths in the first `n` indexes.
pub open spec fn path_count(indexes: Seq<PackIndexV1>, n: int) -> nat
    decreases n,
{
    if n <= 0 {
        0
    } else {
        path_count(indexes, n - 1) + indexes[n - 1]@.paths.len()
    }
}

/// The number of objects in the first `n` indexes.
pub open spec fn object_count(indexes: Seq<PackIndexV1>, n: int) -> nat
    decreases n,
{
    if n <= 0 {
        0
    } else {
        object_count(indexes, n - 1) + indexes[n - 1]@.objects.len()
    }
}

/// The changes between the snapshots of an index fit one another.
pub open spec fn can_walk(index: PackIndexV1) -> bool {
    &&& index.wf()
    &&& model::deltas_described(index@)
    &&& model::clean_upto(index@.deltas, model::listed(index@))
}

/// Why indexes cannot be merged.
pub enum MergeFault {
    /// The changes to a snapshot of an index cannot be resolved
    Broken(PackError),
    /// The tag of a snapshot is there already
    Duplicate(Seq<char>),
}

/// The error is the one for the fault.
pub open spec fn is_merge_error(e: PackError, fault: Option<MergeFault>) -> bool {
    match fault {
        Some(MergeFault::Broken(f)) => e == f,
        Some(MergeFault::Duplicate(tag)) => e matches PackError::SnapshotAlreadyExists(p, t) && p@
            == "<unknown>"@ && t@ == tag,
        None => false,
    }
}

/// The first fault among the snapshots of an index from position `from` on,
/// where those with the given tags are present.
pub open spec fn walk_fault(present: Seq<Seq<char>>, v: IndexView, from: int) -> Option<MergeFault>
    decreases model::listed(v) - from,
{
    if from >= model::listed(v) {
        None
    } else {
        match model::delta_fault(v, v.deltas[from]) {
            Some(e) => Some(MergeFault::Broken(e)),
            None => if present.contains(v.tags[from]) || v.tags.take(from).contains(
                v.tags[from],
            ) {
                Some(MergeFault::Duplicate(v.tags[from]))
            } else {
                walk_fault(present, v, from + 1)
            },
        }
    }
}

/// The first fault that is met when the snapshots of the first `n` indexes are
/// added in order.
pub open spec fn merge_fault(indexes: Seq<PackIndexV1>, n: int) -> Option<MergeFault>
    decreases n,
{
    if n <= 0 {
        None
    } else {
        match merge_fault(indexes, n - 1) {
            Some(e) => Some(e),
            None => walk_fault(laws::tags_of(merged(indexes, n - 1)), indexes[n - 1]@, 0),
        }
    }
}

/// The paths of the first `n` indexes.
spec fn paths_upto(indexes: Seq<PackIndexV1>, n: int) -> Set<Seq<u8>>
    decreases n,
{
    if n <= 0 {
        Set::empty()
    } else {
        paths_upto(indexes, n - 1).union(indexes[n - 1]@.paths.to_set())
    }
}

/// The objects of the first `n` indexes.
spec fn objects_upto(indexes: Seq<PackIndexV1>, n: int) -> Set<Seq<u8>>
    decreases n,
{
    if n <= 0 {
        Set::empty()
    } else {
        objects_upto(indexes, n - 1).union(indexes[n - 1]@.objects.to_set())
    }
}

proof fn lemma_upto_sizes(indexes: Seq<PackIndexV1>, n: int)
    requires
        0 <= n <= indexes.len(),
    ensures
        paths_upto(indexes, n).finite(),
        paths_upto(indexes, n).len() <= path_count(indexes, n),
        objects_upto(indexes, n).finite(),
        objects_upto(indexes, n).len() <= object_count(indexes, n),
    decreases n,
{
    if n > 0 {
        let v = indexes[n - 1]@;
        lemma_upto_sizes(indexes, n - 1);
        v.paths.lemma_cardinality_of_set();
        v.objects.lemma_cardinality_of_set();
        vstd::seq_lib::seq_to_set_is_finite(v.paths);
        vstd::seq_lib::seq_to_set_is_finite(v.objects);
        vstd::set_lib::lemma_len_union(paths_upto(indexes, n - 1), v.paths.to_set());
        vstd::set_lib::lemma_len_union(objects_upto(indexes, n - 1), v.objects.to_set());
    }
}

proof fn lemma_counts_grow(indexes: Seq<PackIndexV1>, n: int, m: int)
    requires
        0 <= n <= m <= indexes.len(),
    ensures
        path_count(indexes, n) <= path_count(indexes, m),
        object_count(indexes, n) <= object_count(indexes, m),
    decreases m - n,
{
    if n < m {
        lemma_counts_grow(indexes, n, m - 1);
    }
}

/// What adding entries does to the paths and objects of an index.
proof fn lemma_added(v: IndexView, es: Seq<FileEntryView>, paths: Set<Seq<u8>>, objects: Set<Seq<u8>>)
    requires
        model::pools_valid(v),
        v.paths.to_set().subset_of(paths),
        v.objects.to_set().subset_of(objects),
        forall|i: int|
            0 <= i < es.len() ==> paths.contains((#[trigger] es[i]).path) && objects.contains(
                es[i].checksum,
            ),
    ensures
        model::with_entries(v, es).paths.to_set().subset_of(paths),
        model::with_entries(v, es).objects.to_set().subset_of(objects),
    decreases es.len(),
{
    if es.len() > 0 {
        let init = es.drop_last();
        let e = es[es.len() - 1];
        assert forall|i: int| 0 <= i < init.len() implies paths.contains((#[trigger] init[i]).path)
            && objects.contains(init[i].checksum) by {
            assert(init[i] == es[i]);
        }
        lemma_added(v, init, paths, objects);
        let w = model::with_entries(v, init);
        let x = model::with_entries(v, es);
        assert forall|p: Seq<u8>| x.paths.to_set().contains(p) implies paths.contains(p) by {
            let i = x.paths.index_of(p);
            if i < w.paths.len() {
                assert(w.paths[i] == p);
                assert(w.paths.to_set().contains(p));
            }
        }
        assert forall|p: Seq<u8>| x.objects.to_set().contains(p) implies objects.contains(p) by {
            let i = x.objects.index_of(p);
            if i < w.objects.len() {
                assert(w.objects[i] == p);
                assert(w.objects.to_set().contains(p));
            }
        }
    }
}

/// Objects are described as before, or as in one of the entries.
pub proof fn lemma_added_data(v: IndexView, es: Seq<FileEntryView>, c: Seq<u8>)
    requires
        model::pools_valid(v),
        model::with_entries(v, es).objects.contains(c),
        model::with_entries(v, es).objects.len() <= u32::MAX + 1,
    ensures
        ({
            let m = object_data(model::with_entries(v, es), c);
            ||| v.objects.contains(c) && object_data(v, c) == m
            ||| exists|i: int|
                0 <= i < es.len() && (#[trigger] es[i]).checksum == c && es[i].metadata == m
        }),
    decreases es.len(),
{
    if es.len() > 0 {
        let init = es.drop_last();
        let e = es.last();
        let w = model::with_entries(v, init);
        let x = model::with_entries(v, es);
        model::lemma_with_entries(v, init);
        model::lemma_with_entries(v, es);
        entrypool::law_interning_keeps_handles(w.objects, e.checksum, c);
        assert(x.objects.len() >= w.objects.len());
        if c == e.checksum {
            assert(es[es.len() - 1].checksum == c);
        } else {
            let i = x.objects.index_of(c);
            assert(x.objects[i] == c);
            assert(i < w.objects.len());
            assert(w.objects[i] == c);
            lemma_added_data(v, init, c);
            let k = entrypool::handle_of(x.objects, e.checksum)->0;
            let h = entrypool::handle_of(x.objects, c)->0;
            entrypool::law_pool_handles_invert(x.objects, k, e.checksum);
            entrypool::law_pool_handles_invert(x.objects, h, c);
            assert(h != k);
            assert(object_data(x, c) == object_data(w, c));
            if exists|i: int|
                0 <= i < init.len() && (#[trigger] init[i]).checksum == c && init[i].metadata
                    == object_data(w, c) {
                let i = choose|i: int|
                    0 <= i < init.len() && (#[trigger] init[i]).checksum == c && init[i].metadata
                        == object_data(w, c);
                assert(es[i] == init[i]);
            }
        }
    }
}

/// The entries of a snapshot of an index are for its paths and its objects.
proof fn lemma_entries_of_index(
    es: Seq<FileEntryView>,
    v: IndexView,
    files: Set<FileHandle>,
    i: int,
)
    requires
        model::pools_valid(v),
        model::lists_files(es, v, files),
        model::faultless(v, files),
        0 <= i < es.len(),
    ensures
        v.paths.contains(es[i].path),
        v.objects.contains(es[i].checksum),
        object_data(v, es[i].checksum) == es[i].metadata,
{
    assert(es.to_set().contains(es[i]));
    let h = choose|h: FileHandle| files.contains(h) && es[i] == model::entry_of(v, h);
    assert(model::handle_fault(v, h) is None);
    assert(v.paths[h.path as int] == es[i].path);
    assert(v.objects[h.object as int] == es[i].checksum);
    entrypool::law_pool_handles_invert(v.objects, h.object, es[i].checksum);
}

/// The paths and checksums of the entries of a snapshot are those of its files.
proof fn lemma_pairs_of_entries(es: Seq<FileEntryView>, v: IndexView, files: Set<FileHandle>)
    requires
        model::lists_files(es, v, files),
    ensures
        es.map_values(|e: FileEntryView| (e.path, e.checksum)).to_set() == model::pairs_of(
            v,
            files,
        ),
{
    let pair = |e: FileEntryView| (e.path, e.checksum);
    let listed = es.map_values(pair);
    let f = |h: FileHandle| (v.paths[h.path as int], v.objects[h.object as int]);
    assert forall|x: (Seq<u8>, Seq<u8>)| listed.to_set().contains(x) <==> model::pairs_of(
        v,
        files,
    ).contains(x) by {
        if listed.contains(x) {
            let i = listed.index_of(x);
            assert(es.to_set().contains(es[i]));
            let h = choose|h: FileHandle| files.contains(h) && es[i] == model::entry_of(v, h);
            assert(f(h) == x);
        }
        if model::pairs_of(v, files).contains(x) {
            let h = choose|h: FileHandle| files.contains(h) && x == f(h);
            let e = model::entry_of(v, h);
            assert(files.map(|h: FileHandle| model::entry_of(v, h)).contains(e));
            assert(es.to_set().contains(e));
            let i = es.index_of(e);
            assert(listed[i] == x);
        }
    }
    assert(listed.to_set() =~= model::pairs_of(v, files));
}

/// What holds of the index while snapshots of the index at position `k` are
/// added.
spec fn is_partial(
    w: IndexView,
    indexes: Seq<PackIndexV1>,
    k: int,
    list: Seq<TaggedFiles>,
) -> bool {
    &&& laws::holds_snapshots(w, list)
    &&& described_by(w, indexes, k + 1)
    &&& w.paths.to_set().subset_of(paths_upto(indexes, k + 1))
    &&& w.objects.to_set().subset_of(objects_upto(indexes, k + 1))
}

/// There is room for the entries of a snapshot of the index at position `k`.
proof fn lemma_room(
    w: IndexView,
    indexes: Seq<PackIndexV1>,
    k: int,
    list: Seq<TaggedFiles>,
    es: Seq<FileEntryView>,
    files: Set<FileHandle>,
)
    requires
        0 <= k < indexes.len(),
        is_partial(w, indexes, k, list),
        model::pools_valid(indexes[k]@),
        model::lists_files(es, indexes[k]@, files),
        model::faultless(indexes[k]@, files),
        path_count(indexes, indexes.len() as int) <= u32::MAX + 1,
        object_count(indexes, indexes.len() as int) <= u32::MAX + 1,
    ensures
        model::has_room(w, es),
        model::with_entries(w, es).paths.to_set().subset_of(paths_upto(indexes, k + 1)),
        model::with_entries(w, es).objects.to_set().subset_of(objects_upto(indexes, k + 1)),
{
    let v = indexes[k]@;
    let paths = paths_upto(indexes, k + 1);
    let objects = objects_upto(indexes, k + 1);
    assert forall|i: int| 0 <= i < es.len() implies paths.contains((#[trigger] es[i]).path)
        && objects.contains(es[i].checksum) by {
        lemma_entries_of_index(es, v, files, i);
        assert(v.paths.to_set().contains(es[i].path));
        assert(v.objects.to_set().contains(es[i].checksum));
    }
    lemma_added(w, es, paths, objects);
    lemma_upto_sizes(indexes, k + 1);
    lemma_counts_grow(indexes, k + 1, indexes.len() as int);
    model::lemma_with_entries(w, es);
    let x = model::with_entries(w, es);
    x.paths.unique_seq_to_set();
    x.objects.unique_seq_to_set();
    vstd::set_lib::lemma_len_subset(x.paths.to_set(), paths);
    vstd::set_lib::lemma_len_subset(x.objects.to_set(), objects);
}

/// Objects stay described as in one of the indexes.
proof fn lemma_described(
    w: IndexView,
    indexes: Seq<PackIndexV1>,
    k: int,
    list: Seq<TaggedFiles>,
    es: Seq<FileEntryView>,
    files: Set<FileHandle>,
)
    requires
        0 <= k < indexes.len(),
        is_partial(w, indexes, k, list),
        model::pools_valid(indexes[k]@),
        model::lists_files(es, indexes[k]@, files),
        model::faultless(indexes[k]@, files),
        model::has_room(w, es),
    ensures
        described_by(model::with_entries(w, es), indexes, k + 1),
{
    let v = indexes[k]@;
    let x = model::with_entries(w, es);
    assert forall|c: Seq<u8>| #[trigger] x.objects.contains(c) implies is_described_in(
        indexes,
        k + 1,
        c,
        object_data(x, c),
    ) by {
        let m = object_data(x, c);
        lemma_added_data(w, es, c);
        if w.objects.contains(c) && object_data(w, c) == m {
            assert(is_described_in(indexes, k + 1, c, object_data(w, c)));
        } else {
            let i = choose|i: int|
                0 <= i < es.len() && (#[trigger] es[i]).checksum == c && es[i].metadata == m;
            lemma_entries_of_index(es, v, files, i);
            assert(indexes[k]@.objects.contains(c));
        }
    }
}

/// Adds the snapshots of the index at position `k`.
fn add_snapshots(new_index: &mut PackIndexV1, indexes: &[PackIndexV1], k: usize, Ghost(list): Ghost<
    Seq<TaggedFiles>,
>) -> (r: Result<(), PackError>)
    requires
        old(new_index).wf(),
        k < indexes@.len(),
        can_walk(indexes@[k as int]),
        is_partial(old(new_index)@, indexes@, k as int, list),
        path_count(indexes@, indexes@.len() as int) <= u32::MAX + 1,
        object_count(indexes@, indexes@.len() as int) <= u32::MAX + 1,
    ensures
        match r {
            Ok(_) => {
                &&& walk_fault(laws::tags_of(list), indexes@[k as int]@, 0) is None
                &&& final(new_index).wf()
                &&& is_partial(
                    final(new_index)@,
                    indexes@,
                    k as int,
                    list + Seq::new(
                        model::listed(indexes@[k as int]@) as nat,
                        |i: int| snapshot_at(indexes@[k as int]@, i),
                    ),
                )
            },
            Err(e) => is_merge_error(e, walk_fault(laws::tags_of(list), indexes@[k as int]@, 0)),
        },
{
    let index = &indexes[k];
    let ghost v = index@;
    let ghost present = laws::tags_of(list);
    let ghost take = |n: int| Seq::new(n as nat, |i: int| snapshot_at(v, i));
    proof {
        index.lemma_wf();
        assert(list + take(0) =~= list);
    }
    let tags = index.snapshot_tags();
    let n = index.snapshot_count();
    let mut files = FileHandleSet::new();
    let mut i: usize = 0;
    while i < n
        invariant
            i <= n,
            n == model::listed(v),
            k < indexes@.len(),
            *index == indexes@[k as int],
            v == index@,
            can_walk(*index),
            model::pools_valid(v),
            packidxv1::text_views(tags@) == v.tags,
            present == laws::tags_of(list),
            take == (|n: int| Seq::new(n as nat, |i: int| snapshot_at(v, i))),
            path_count(indexes@, indexes@.len() as int) <= u32::MAX + 1,
            object_count(indexes@, indexes@.len() as int) <= u32::MAX + 1,
            new_index.wf(),
            is_partial(new_index@, indexes@, k as int, list + take(i as int)),
            walk_fault(present, v, 0) == walk_fault(present, v, i as int),
            files@ == model::content_after(v.deltas, i as int),
            model::faultless(v, files@),
            model::files_described(v, files@),
        decreases n - i,
    {
        let ghost w = new_index@;
        let ghost before = list + take(i as int);
        let ghost tag = v.tags[i as int];
        let entries = match index.snapshot_step(&mut files, i) {
            Ok(entries) => entries,
            Err(e) => {
                assert(model::delta_fault(v, v.deltas[i as int]) == Some(e));
                return Err(e);
            },
        };
        let ghost es = packidx::entry_views(entries@);
        let ghost content = files@;
        proof {
            lemma_room(w, indexes@, k as int, before, es, content);
            lemma_described(w, indexes@, k as int, before, es, content);
            lemma_pairs_of_entries(es, v, content);
            assert(packidxv1::text_views(tags@)[i as int] == tags@[i as int]@);
            assert(w.tags =~= present + v.tags.take(i as int)) by {
                assert forall|j: int| 0 <= j < w.tags.len() implies w.tags[j] == (present
                    + v.tags.take(i as int))[j] by {
                    assert(w.tags[j] == before[j].tag);
                }
            }
            assert(w.tags.contains(tag) <==> present.contains(tag) || v.tags.take(
                i as int,
            ).contains(tag)) by {
                if w.tags.contains(tag) {
                    let j = w.tags.index_of(tag);
                    if j < present.len() {
                        assert(present[j] == tag);
                    } else {
                        assert(v.tags.take(i as int)[j - present.len()] == tag);
                    }
                }
                if present.contains(tag) {
                    assert(w.tags[present.index_of(tag)] == tag);
                }
                if v.tags.take(i as int).contains(tag) {
                    assert(w.tags[present.len() + v.tags.take(i as int).index_of(tag)] == tag);
                }
            }
        }
        match new_index.push_snapshot(tags[i].clone(), entries) {
            Ok(_) => {
                proof {
                    let x = new_index@;
                    let s = snapshot_at(v, i as int);
                    let delta = choose|delta: ChangeView<FileHandle>| #[trigger]
                        packidx::is_change(delta, w.current, x.current) && x
                            == model::with_snapshot(w, tag, es, delta);
                    laws::lemma_push_holds(w, before, s, es, delta);
                    assert(before.push(s) =~= list + take(i + 1));
                    let y = model::with_entries(w, es);
                    assert(x.objects == y.objects && x.metadata == y.metadata && x.paths
                        == y.paths);
                    assert forall|c: Seq<u8>| #[trigger]
                        x.objects.contains(c) implies is_described_in(
                        indexes@,
                        k + 1,
                        c,
                        object_data(x, c),
                    ) by {
                        assert(y.objects.contains(c));
                    }
                }
            },
            Err(e) => {
                return Err(e);
            },
        }
        i += 1;
    }
    Ok(())
}

/// A fault that was met is not replaced by a later one.
proof fn lemma_fault_stays(indexes: Seq<PackIndexV1>, n: int, m: int)
    requires
        0 <= n <= m <= indexes.len(),
        merge_fault(indexes, n) is Some,
    ensures
        merge_fault(indexes, m) == merge_fault(indexes, n),
    decreases m - n,
{
    if n < m {
        lemma_fault_stays(indexes, n, m - 1);
    }
}

/// Tells whether indexes can be merged: the changes in each fit one another,
/// and there are handles for all paths and objects.
pub fn can_merge(indexes: &[PackIndexV1]) -> (r: bool)
    requires
        forall|i: int| 0 <= i < indexes@.len() ==> (#[trigger] indexes@[i]).wf(),
    ensures
        r <==> {
            &&& forall|i: int| 0 <= i < indexes@.len() ==> can_walk(#[trigger] indexes@[i])
            &&& path_count(indexes@, indexes@.len() as int) <= u32::MAX + 1
            &&& object_count(indexes@, indexes@.len() as int) <= u32::MAX + 1
        },
{
    let mut paths: u64 = 0;
    let mut objects: u64 = 0;
    let mut i: usize = 0;
    while i < indexes.len()
        invariant
            i <= indexes@.len(),
            forall|k: int| 0 <= k < indexes@.len() ==> (#[trigger] indexes@[k]).wf(),
            forall|k: int| 0 <= k < i ==> can_walk(#[trigger] indexes@[k]),
            paths == path_count(indexes@, i as int),
            objects == object_count(indexes@, i as int),
            paths <= u32::MAX + 1,
            objects <= u32::MAX + 1,
        decreases indexes@.len() - i,
    {
        proof {
            indexes@[i as int].lemma_wf();
            lemma_counts_grow(indexes@, i + 1, indexes@.len() as int);
        }
        if !indexes[i].is_walkable() {
            assert(!can_walk(indexes@[i as int]));
            return false;
        }
        let (p, o) = indexes[i].pool_sizes();
        paths += p as u64;
        objects += o as u64;
        if paths > 0x1_0000_0000 || objects > 0x1_0000_0000 {
            return false;
        }
        i += 1;
    }
    true
}

/// Makes the index of a pack with all snapshots of the given indexes, in order.
/// No two of them can have the same tag.
pub fn merge_indexes(indexes: &[PackIndexV1]) -> (r: Result<PackIndexV1, PackError>)
    requires
        forall|i: int| 0 <= i < indexes@.len() ==> can_walk(#[trigger] indexes@[i]),
        path_count(indexes@, indexes@.len() as int) <= u32::MAX + 1,
        object_count(indexes@, indexes@.len() as int) <= u32::MAX + 1,
    ensures
        match r {
            Ok(index) => {
                &&& merge_fault(indexes@, indexes@.len() as int) is None
                &&& index.wf()
                &&& laws::holds_snapshots(index@, merged(indexes@, indexes@.len() as int))
                &&& described_by(index@, indexes@, indexes@.len() as int)
            },
            Err(e) => is_merge_error(e, merge_fault(indexes@, indexes@.len() as int)),
        },
{
    let mut new_index = PackIndexV1::new();
    let mut k: usize = 0;
    proof {
        laws::law_new_index_is_consistent();
        assert(laws::tags_of(Seq::<TaggedFiles>::empty()) =~= new_index@.tags);
    }
    while k < indexes.len()
        invariant
            k <= indexes.len(),
            forall|i: int| 0 <= i < indexes@.len() ==> can_walk(#[trigger] indexes@[i]),
            path_count(indexes@, indexes@.len() as int) <= u32::MAX + 1,
            object_count(indexes@, indexes@.len() as int) <= u32::MAX + 1,
            new_index.wf(),
            is_partial(new_index@, indexes@, k - 1, merged(indexes@, k as int)),
            merge_fault(indexes@, k as int) is None,
        decreases indexes.len() - k,
    {
        let ghost list = merged(indexes@, k as int);
        proof {
            let w = new_index@;
            assert forall|c: Seq<u8>| #[trigger] w.objects.contains(c) implies is_described_in(
                indexes@,
                k + 1,
                c,
                object_data(w, c),
            ) by {
                let m = object_data(w, c);
                assert(is_described_in(indexes@, k as int, c, m));
                let i = choose|i: int|
                    0 <= i < k && (#[trigger] indexes@[i])@.objects.contains(c) && object_data(
                        indexes@[i]@,
                        c,
                    ) == m;
                assert(indexes@[i]@.objects.contains(c));
            }
            assert(can_walk(indexes@[k as int]));
        }
        match add_snapshots(&mut new_index, indexes, k, Ghost(list)) {
            Ok(_) => {},
            Err(e) => {
                proof {
                    assert(is_merge_error(e, merge_fault(indexes@, k + 1)));
                    lemma_fault_stays(indexes@, k + 1, indexes@.len() as int);
                }
                return Err(e);
            },
        }
        k += 1;
    }
    Ok(new_index)
}

/// Merging leaves no snapshot out: each snapshot of each index is among those
/// that the merged index holds.
pub proof fn law_every_snapshot_is_merged(indexes: Seq<PackIndexV1>, n: int, k: int, i: int)
    requires
        0 <= k < n <= indexes.len(),
        0 <= i < model::listed(indexes[k]@),
    ensures
        merged(indexes, n).contains(snapshot_at(indexes[k]@, i)),
    decreases n,
{
    let before = merged(indexes, n - 1);
    let s = snapshot_at(indexes[k]@, i);
    if k < n - 1 {
        law_every_snapshot_is_merged(indexes, n - 1, k, i);
        let j = before.index_of(s);
        assert(merged(indexes, n)[j] == s);
    } else {
        assert(merged(indexes, n)[before.len() + i] == s);
    }
}

/// Nothing is merged but the snapshots of the indexes.
pub proof fn law_only_snapshots_are_merged(indexes: Seq<PackIndexV1>, n: int, s: TaggedFiles)
    requires
        0 <= n <= indexes.len(),
        merged(indexes, n).contains(s),
    ensures
        exists|k: int, i: int|
            {
                &&& 0 <= k < n
                &&& 0 <= i < model::listed(indexes[k]@)
                &&& s.tag == #[trigger] indexes[k]@.tags[i]
                &&& s.files == model::pairs_of(
                    indexes[k]@,
                    model::content_after(indexes[k]@.deltas, i + 1),
                )
            },
    decreases n,
{
    let all = merged(indexes, n);
    let x = all.index_of(s);
    if n > 0 {
        let before = merged(indexes, n - 1);
        if x < before.len() {
            assert(before[x] == s);
            law_only_snapshots_are_merged(indexes, n - 1, s);
            let (k, i) = choose|k: int, i: int|
                {
                    &&& 0 <= k < n - 1
                    &&& 0 <= i < model::listed(indexes[k]@)
                    &&& s.tag == #[trigger] indexes[k]@.tags[i]
                    &&& s.files == model::pairs_of(
                        indexes[k]@,
                        model::content_after(indexes[k]@.deltas, i + 1),
                    )
                };
            assert(indexes[k]@.tags[i] == s.tag);
        } else {
            let i = x - before.len();
            assert(s == snapshot_at(indexes[n - 1]@, i));
            assert(indexes[n - 1]@.tags[i] == s.tag);
        }
    }
}

proof fn lemma_walk_is_distinct(present: Seq<Seq<char>>, v: IndexView, from: int)
    requires
        0 <= from,
        walk_fault(present, v, from) is None,
    ensures
        forall|i: int|
            from <= i < model::listed(v) ==> !present.contains(#[trigger] v.tags[i])
                && !v.tags.take(i).contains(v.tags[i]),
    decreases model::listed(v) - from,
{
    if from < model::listed(v) {
        lemma_walk_is_distinct(present, v, from + 1);
    }
}

/// A merge without a fault has each tag only once.
pub proof fn law_merged_tags_are_distinct(indexes: Seq<PackIndexV1>, n: int)
    requires
        0 <= n <= indexes.len(),
        merge_fault(indexes, n) is None,
    ensures
        forall|i: int, j: int|
            0 <= i < j < merged(indexes, n).len() ==> (#[trigger] merged(indexes, n)[i]).tag != (
            #[trigger] merged(indexes, n)[j]).tag,
    decreases n,
{
    if n > 0 {
        law_merged_tags_are_distinct(indexes, n - 1);
        let before = merged(indexes, n - 1);
        let all = merged(indexes, n);
        let v = indexes[n - 1]@;
        let present = laws::tags_of(before);
        lemma_walk_is_distinct(present, v, 0);
        assert forall|i: int, j: int| 0 <= i < j < all.len() implies (#[trigger] all[i]).tag != (
        #[trigger] all[j]).tag by {
            let m = before.len() as int;
            if j < m {
                assert(all[i] == before[i] && all[j] == before[j]);
            } else {
                let y = j - m;
                assert(all[j].tag == v.tags[y]);
                if i < m {
                    assert(all[i] == before[i]);
                    assert(present[i] == all[i].tag);
                    assert(present.contains(present[i]));
                } else {
                    let x = i - m;
                    assert(all[i].tag == v.tags[x]);
                    assert(v.tags.take(y)[x] == v.tags[x]);
                    assert(v.tags.take(y).contains(v.tags[x]));
                }
            }
        }
    }
}

} // verus!
