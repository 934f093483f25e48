//! What a pack index says, and what its operations mean.

use super::error::PackError;
use super::encoding::PartsView;
use super::packidx;
use super::packidx::{
    ChangeView, FileEntryView, FileHandle, FileMetadata, ObjectMetadata,
};
use crate::bytes;
use crate::digest;
use crate::entrypool;
use crate::entrypool::Handle;
use crate::repo::algo;
use vstd::prelude::*;

verus! {

/// What a pack index says.
#[verifier::ext_equal]
pub struct IndexView {
    /// The tags of the snapshots.
    pub tags: Seq<Seq<char>>,
    /// For each snapshot, how its files differ from those of the one before.
    pub deltas: Seq<ChangeView<FileHandle>>,
    /// The paths, each at the position that is its handle.
    pub paths: Seq<Seq<u8>>,
    /// The checksums of the objects, each at the position that is its handle.
    pub objects: Seq<Seq<u8>>,
    /// What is known of the objects.
    pub metadata: Map<Handle, ObjectMetadata>,
    /// The files of the snapshot that was pushed last.
    pub current: Set<FileHandle>,
}

/// An index without snapshots.
pub open spec fn empty_index() -> IndexView {
    IndexView {
        tags: Seq::empty(),
        deltas: Seq::empty(),
        paths: Seq::empty(),
        objects: Seq::empty(),
        metadata: Map::empty(),
        current: Set::empty(),
    }
}

/// The number of snapshots that have both a tag and a list of files.
pub open spec fn listed(v: IndexView) -> int {
    if v.tags.len() <= v.deltas.len() {
        v.tags.len() as int
    } else {
        v.deltas.len() as int
    }
}

/// The files after the first `n` deltas.
pub open spec fn content_after(deltas: Seq<ChangeView<FileHandle>>, n: int) -> Set<FileHandle>
    decreases n,
{
    if n <= 0 {
        Set::empty()
    } else {
        packidx::applied(content_after(deltas, n - 1), deltas[n - 1])
    }
}

/// Each of the first `n` deltas can be made to the files before it.
pub open spec fn clean_upto(deltas: Seq<ChangeView<FileHandle>>, n: int) -> bool {
    forall|i: int|
        0 <= i < n ==> #[trigger] packidx::applies_cleanly(content_after(deltas, i), deltas[i])
}

/// The first position from `from` up to `n` that holds the tag.
pub open spec fn position_of(tags: Seq<Seq<char>>, tag: Seq<char>, from: int, n: int) -> Option<int>
    decreases n - from,
{
    if from >= n {
        None
    } else if tags[from] == tag {
        Some(from)
    } else {
        position_of(tags, tag, from + 1, n)
    }
}

/// The position of the snapshot with the given tag.
pub open spec fn snapshot_position(v: IndexView, tag: Seq<char>) -> Option<int> {
    position_of(v.tags, tag, 0, listed(v))
}

/// The files of the snapshot with the given tag.
pub open spec fn snapshot_files(v: IndexView, tag: Seq<char>) -> Option<Set<FileHandle>> {
    match snapshot_position(v, tag) {
        Some(i) => Some(content_after(v.deltas, i + 1)),
        None => None,
    }
}

/// The deltas can be made up to and with that of the snapshot with the given
/// tag, or all of them where there is no such snapshot.
pub open spec fn resolvable(v: IndexView, tag: Seq<char>) -> bool {
    clean_upto(
        v.deltas,
        match snapshot_position(v, tag) {
            Some(i) => i + 1,
            None => listed(v),
        },
    )
}

/// What is wrong with a handle.
pub open spec fn handle_fault(v: IndexView, h: FileHandle) -> Option<PackError> {
    if h.path >= v.paths.len() {
        Some(PackError::PathNotFound(h.path))
    } else if h.object >= v.objects.len() {
        Some(PackError::ObjectNotFound)
    } else {
        None
    }
}

/// The object of the handle is described, if the handle is without fault.
pub open spec fn is_described(v: IndexView, h: FileHandle) -> bool {
    handle_fault(v, h) is None ==> v.metadata.contains_key(h.object)
}

/// The file that a handle stands for.
pub open spec fn entry_of(v: IndexView, h: FileHandle) -> FileEntryView {
    FileEntryView {
        path: v.paths[h.path as int],
        checksum: v.objects[h.object as int],
        metadata: v.metadata[h.object],
        file_metadata: FileMetadata { mode: 0 },
    }
}

/// The files that a list of handles stands for.
pub open spec fn entries_of(v: IndexView, handles: Seq<FileHandle>) -> Seq<FileEntryView> {
    handles.map_values(|h: FileHandle| entry_of(v, h))
}

/// The first fault among the handles from position `from` on.
pub open spec fn fault_from(v: IndexView, handles: Seq<FileHandle>, from: int) -> Option<PackError>
    decreases handles.len() - from,
{
    if from >= handles.len() {
        None
    } else {
        match handle_fault(v, handles[from]) {
            Some(e) => Some(e),
            None => fault_from(v, handles, from + 1),
        }
    }
}

/// No handle of the list has a fault if there is no first fault.
pub proof fn lemma_no_fault(v: IndexView, handles: Seq<FileHandle>, from: int)
    requires
        0 <= from,
    ensures
        fault_from(v, handles, from) is None <==> forall|i: int|
            from <= i < handles.len() ==> handle_fault(v, #[trigger] handles[i]) is None,
    decreases handles.len() - from,
{
    if from < handles.len() {
        lemma_no_fault(v, handles, from + 1);
    }
}

/// The index after a file has been stored in its pools.
pub open spec fn with_entry(v: IndexView, e: FileEntryView) -> IndexView {
    let objects = entrypool::interned(v.objects, e.checksum);
    IndexView {
        paths: entrypool::interned(v.paths, e.path),
        objects,
        metadata: v.metadata.insert(entrypool::handle_of(objects, e.checksum)->0, e.metadata),
        ..v
    }
}

/// The index after each of the files has been stored in its pools.
pub open spec fn with_entries(v: IndexView, es: Seq<FileEntryView>) -> IndexView
    decreases es.len(),
{
    if es.len() == 0 {
        v
    } else {
        with_entry(with_entries(v, es.drop_last()), es.last())
    }
}

/// The handle of a file in the pools of an index.
pub open spec fn handle_of_entry(v: IndexView, e: FileEntryView) -> FileHandle {
    FileHandle {
        path: entrypool::handle_of(v.paths, e.path)->0,
        object: entrypool::handle_of(v.objects, e.checksum)->0,
    }
}

/// The handles of the files in the pools of an index.
pub open spec fn handles_of_entries(v: IndexView, es: Seq<FileEntryView>) -> Set<FileHandle> {
    es.map_values(|e: FileEntryView| handle_of_entry(v, e)).to_set()
}

/// The index after a snapshot has been pushed whose delta is `delta`.
pub open spec fn with_snapshot(
    v: IndexView,
    tag: Seq<char>,
    es: Seq<FileEntryView>,
    delta: ChangeView<FileHandle>,
) -> IndexView {
    let w = with_entries(v, es);
    IndexView {
        tags: v.tags.push(tag),
        deltas: v.deltas.push(delta),
        current: handles_of_entries(w, es),
        ..w
    }
}

/// The pools can hold the files.
pub open spec fn has_room(v: IndexView, es: Seq<FileEntryView>) -> bool {
    &&& with_entries(v, es).paths.len() <= u32::MAX + 1
    &&& with_entries(v, es).objects.len() <= u32::MAX + 1
}

/// The pools hold no value twice, and every position is a handle.
pub open spec fn pools_valid(v: IndexView) -> bool {
    &&& v.paths.no_duplicates()
    &&& v.paths.len() <= u32::MAX + 1
    &&& v.objects.no_duplicates()
    &&& v.objects.len() <= u32::MAX + 1
}

/// Exactly the objects of the pool are described.
pub open spec fn all_described(v: IndexView) -> bool {
    forall|h: Handle| #[trigger] v.metadata.contains_key(h) <==> h < v.objects.len()
}

/// Storing files only ever appends to the pools, and keeps them valid.
pub proof fn lemma_with_entries(v: IndexView, es: Seq<FileEntryView>)
    requires
        pools_valid(v),
    ensures
        v.paths.is_prefix_of(with_entries(v, es).paths),
        v.objects.is_prefix_of(with_entries(v, es).objects),
        with_entries(v, es).paths.no_duplicates(),
        with_entries(v, es).objects.no_duplicates(),
        with_entries(v, es).tags == v.tags,
        with_entries(v, es).deltas == v.deltas,
        with_entries(v, es).current == v.current,
        forall|i: int|
            0 <= i < es.len() ==> with_entries(v, es).paths.contains(#[trigger] es[i].path)
                && with_entries(v, es).objects.contains(es[i].checksum),
    decreases es.len(),
{
    if es.len() > 0 {
        let w = with_entries(v, es.drop_last());
        let e = es.last();
        lemma_with_entries(v, es.drop_last());
        entrypool::law_interning_keeps_handles(w.paths, e.path, e.path);
        entrypool::law_interning_keeps_handles(w.objects, e.checksum, e.checksum);
        assert forall|i: int| 0 <= i < es.len() implies with_entries(v, es).paths.contains(
            #[trigger] es[i].path,
        ) && with_entries(v, es).objects.contains(es[i].checksum) by {
            if i < es.len() - 1 {
                assert(es.drop_last()[i] == es[i]);
                let p = w.paths.index_of(es[i].path);
                assert(with_entries(v, es).paths[p] == es[i].path);
                let o = w.objects.index_of(es[i].checksum);
                assert(with_entries(v, es).objects[o] == es[i].checksum);
            }
        }
    }
}

/// More files need at least as much room.
pub proof fn lemma_room_of_prefix(v: IndexView, es: Seq<FileEntryView>, i: int)
    requires
        pools_valid(v),
        0 <= i <= es.len(),
    ensures
        with_entries(v, es.take(i)).paths.is_prefix_of(with_entries(v, es).paths),
        with_entries(v, es.take(i)).objects.is_prefix_of(with_entries(v, es).objects),
    decreases es.len() - i,
{
    if i < es.len() {
        lemma_room_of_prefix(v, es, i + 1);
        assert(es.take(i + 1).drop_last() =~= es.take(i));
        let w = with_entries(v, es.take(i));
        lemma_with_entries(v, es.take(i));
        entrypool::law_interning_keeps_handles(w.paths, es[i].path, es[i].path);
        entrypool::law_interning_keeps_handles(w.objects, es[i].checksum, es[i].checksum);
    } else {
        assert(es.take(i) =~= es);
    }
}

/// A value that a list holds is at the same position in every list without
/// repetitions that starts with it.
pub proof fn lemma_handle_in_prefix(a: Seq<Seq<u8>>, b: Seq<Seq<u8>>, k: Seq<u8>)
    requires
        a.is_prefix_of(b),
        a.contains(k),
        b.no_duplicates(),
    ensures
        entrypool::handle_of(a, k) == entrypool::handle_of(b, k),
        b.contains(k),
{
    let i = a.index_of(k);
    assert(b[i] == k);
    let j = b.index_of(k);
    assert(b[j] == k);
}

/// The objects of the files are described, as far as the handles are without
/// fault.
pub open spec fn files_described(v: IndexView, files: Set<FileHandle>) -> bool {
    forall|h: FileHandle| #[trigger] files.contains(h) ==> is_described(v, h)
}

/// The objects of the listed files are described, as far as the handles are
/// without fault.
pub open spec fn handles_described(v: IndexView, handles: Seq<FileHandle>) -> bool {
    forall|i: int| 0 <= i < handles.len() ==> is_described(v, #[trigger] handles[i])
}

/// The objects of the files that are added and removed are described, as far as
/// the handles are without fault.
pub open spec fn delta_described(v: IndexView, delta: ChangeView<FileHandle>) -> bool {
    handles_described(v, delta.added) && handles_described(v, delta.removed)
}

/// The objects of the files of all snapshots are described, as far as the
/// handles are without fault.
pub open spec fn deltas_described(v: IndexView) -> bool {
    forall|i: int| 0 <= i < listed(v) ==> delta_described(v, #[trigger] v.deltas[i])
}

/// Every object of the pool is described.
pub open spec fn objects_described(v: IndexView) -> bool {
    forall|h: Handle| h < v.objects.len() ==> #[trigger] v.metadata.contains_key(h)
}

/// No handle of the set has a fault.
pub open spec fn faultless(v: IndexView, files: Set<FileHandle>) -> bool {
    forall|h: FileHandle| #[trigger] files.contains(h) ==> handle_fault(v, h) is None
}

/// What is wrong with a list of changes: the first fault among the added
/// files, or else the first one among the removed files.
pub open spec fn delta_fault(v: IndexView, delta: ChangeView<FileHandle>) -> Option<PackError> {
    match fault_from(v, delta.added, 0) {
        Some(e) => Some(e),
        None => fault_from(v, delta.removed, 0),
    }
}

/// The first fault in the snapshots from position `from` on.
pub open spec fn first_fault(v: IndexView, from: int) -> Option<PackError>
    decreases listed(v) - from,
{
    if from >= listed(v) {
        None
    } else {
        match delta_fault(v, v.deltas[from]) {
            Some(e) => Some(e),
            None => first_fault(v, from + 1),
        }
    }
}

/// The list has each file of the set once.
pub open spec fn lists_files(
    es: Seq<FileEntryView>,
    v: IndexView,
    files: Set<FileHandle>,
) -> bool {
    &&& es.no_duplicates()
    &&& es.to_set() == files.map(|h: FileHandle| entry_of(v, h))
}

/// Different handles stand for files that differ in path or checksum.
pub proof fn lemma_entries_differ(v: IndexView, a: FileHandle, b: FileHandle)
    requires
        pools_valid(v),
        handle_fault(v, a) is None,
        handle_fault(v, b) is None,
        entry_of(v, a).path == entry_of(v, b).path,
        entry_of(v, a).checksum == entry_of(v, b).checksum,
    ensures
        a == b,
{
    assert(v.paths[a.path as int] == v.paths[b.path as int]);
    assert(v.objects[a.object as int] == v.objects[b.object as int]);
}

/// The files of a list of distinct handles are listed once each.
pub proof fn lemma_lists_files(v: IndexView, handles: Seq<FileHandle>)
    requires
        pools_valid(v),
        handles.no_duplicates(),
        faultless(v, handles.to_set()),
    ensures
        lists_files(entries_of(v, handles), v, handles.to_set()),
{
    let es = entries_of(v, handles);
    let files = handles.to_set();
    let f = |h: FileHandle| entry_of(v, h);
    assert forall|i: int, j: int| 0 <= i < es.len() && 0 <= j < es.len() && i != j implies es[i]
        != es[j] by {
        assert(files.contains(handles[i]));
        assert(files.contains(handles[j]));
        if es[i] == es[j] {
            lemma_entries_differ(v, handles[i], handles[j]);
        }
    }
    assert forall|e: FileEntryView| es.to_set().contains(e) <==> files.map(f).contains(e) by {
        if es.contains(e) {
            let i = es.index_of(e);
            assert(files.contains(handles[i]));
            assert(f(handles[i]) == e);
        }
        if files.map(f).contains(e) {
            let h = choose|h: FileHandle| files.contains(h) && f(h) == e;
            let i = handles.index_of(h);
            assert(es[i] == e);
        }
    }
    assert(es.to_set() =~= files.map(f));
}

/// The number of files after the first `n` deltas, as the deltas count them.
pub open spec fn file_count_after(deltas: Seq<ChangeView<FileHandle>>, n: int) -> int
    decreases n,
{
    if n <= 0 {
        0
    } else {
        file_count_after(deltas, n - 1) + deltas[n - 1].added.len() - deltas[n - 1].removed.len()
    }
}

/// The counts that the deltas give are the numbers of files, if the deltas can
/// be made.
pub proof fn law_file_count_is_number_of_files(deltas: Seq<ChangeView<FileHandle>>, n: int)
    requires
        0 <= n <= deltas.len(),
        clean_upto(deltas, n),
    ensures
        content_after(deltas, n).finite(),
        content_after(deltas, n).len() == file_count_after(deltas, n),
    decreases n,
{
    if n > 0 {
        law_file_count_is_number_of_files(deltas, n - 1);
        let before = content_after(deltas, n - 1);
        let d = deltas[n - 1];
        assert(packidx::applies_cleanly(before, d));
        d.removed.unique_seq_to_set();
        d.added.unique_seq_to_set();
        vstd::seq_lib::seq_to_set_is_finite(d.removed);
        vstd::seq_lib::seq_to_set_is_finite(d.added);
        let removed = d.removed.to_set();
        let added = d.added.to_set();
        let kept = before.difference(removed);
        assert(before.intersect(removed) =~= removed);
        vstd::set_lib::lemma_set_difference_len(before, removed);
        vstd::set_lib::lemma_set_disjoint_lens(kept, added);
    }
}

/// The sizes of the objects with the given handles.
pub open spec fn sizes_of(m: Map<Handle, ObjectMetadata>, handles: Seq<Handle>) -> Seq<u64> {
    handles.map_values(|h: Handle| m[h].size)
}

/// The total size of the objects whose handle is below `n`.
pub open spec fn sizes_below(m: Map<Handle, ObjectMetadata>, n: int) -> nat
    decreases n,
{
    if n <= 0 {
        0
    } else if m.contains_key((n - 1) as Handle) {
        sizes_below(m, n - 1) + m[(n - 1) as Handle].size as nat
    } else {
        sizes_below(m, n - 1)
    }
}

/// The total size of the objects.
pub open spec fn total_size(m: Map<Handle, ObjectMetadata>) -> nat {
    sizes_below(m, 0x1_0000_0000)
}

proof fn lemma_sizes_without(m: Map<Handle, ObjectMetadata>, k: Handle, n: int)
    requires
        m.contains_key(k),
        0 <= n <= 0x1_0000_0000,
    ensures
        sizes_below(m, n) == sizes_below(m.remove(k), n) + (if k < n {
            m[k].size as nat
        } else {
            0
        }),
    decreases n,
{
    if n > 0 {
        lemma_sizes_without(m, k, n - 1);
    }
}

/// The sizes of all objects add up to the total size, in whatever order they
/// are taken.
pub proof fn lemma_sizes_add_up(m: Map<Handle, ObjectMetadata>, handles: Seq<Handle>)
    requires
        handles.no_duplicates(),
        handles.to_set() == m.dom(),
    ensures
        algo::sum_of(sizes_of(m, handles)) == total_size(m),
    decreases handles.len(),
{
    let sizes = sizes_of(m, handles);
    if handles.len() == 0 {
        assert forall|k: Handle| !m.contains_key(k) by {
            if m.dom().contains(k) {
                assert(handles.contains(k));
            }
        }
        lemma_no_sizes(m, 0x1_0000_0000);
    } else {
        let k = handles.last();
        let rest = handles.drop_last();
        let without = m.remove(k);
        assert(handles.to_set().contains(k));
        assert(m.contains_key(k));
        assert forall|h: Handle| rest.to_set().contains(h) <==> without.dom().contains(h) by {
            if rest.contains(h) {
                let i = rest.index_of(h);
                assert(handles[i] == h);
                assert(handles.to_set().contains(h));
            }
            if without.dom().contains(h) {
                assert(handles.to_set().contains(h));
                let i = handles.index_of(h);
                assert(rest[i] == h);
            }
        }
        assert(rest.to_set() =~= without.dom());
        lemma_sizes_add_up(without, rest);
        lemma_sizes_without(m, k, 0x1_0000_0000);
        assert forall|i: int| 0 <= i < rest.len() implies sizes.drop_last()[i] == sizes_of(
            without,
            rest,
        )[i] by {
            assert(rest[i] == handles[i]);
            assert(handles[i] != k);
        }
        assert(sizes.drop_last() =~= sizes_of(without, rest));
    }
}

proof fn lemma_no_sizes(m: Map<Handle, ObjectMetadata>, n: int)
    requires
        forall|k: Handle| !m.contains_key(k),
    ensures
        sizes_below(m, n) == 0,
    decreases n,
{
    if n > 0 {
        lemma_no_sizes(m, n - 1);
    }
}

/// The handles list the objects once each, by size. Objects of the same size
/// are in the order in which they were added to the pool.
pub open spec fn is_ordering(handles: Seq<Handle>, m: Map<Handle, ObjectMetadata>) -> bool {
    &&& handles.no_duplicates()
    &&& handles.to_set() == m.dom()
    &&& forall|i: int, j: int|
        0 <= i < j < handles.len() ==> m[#[trigger] handles[i]].size < m[#[trigger] handles[j]].size
            || (m[handles[i]].size == m[handles[j]].size && handles[i] < handles[j])
}

/// Where the object at position `i` of an ordering starts, if the objects are
/// laid out one after the other.
pub open spec fn offset_at(m: Map<Handle, ObjectMetadata>, handles: Seq<Handle>, i: int) -> int {
    algo::range_sum(sizes_of(m, handles), 0, i) as int
}

/// The metadata with the offsets that the ordering gives.
pub open spec fn placed(m: Map<Handle, ObjectMetadata>, handles: Seq<Handle>) -> Map<
    Handle,
    ObjectMetadata,
> {
    Map::new(
        |h: Handle| m.contains_key(h),
        |h: Handle|
            ObjectMetadata {
                offset: offset_at(m, handles, handles.index_of(h)) as u64,
                size: m[h].size,
            },
    )
}

/// The paths and checksums of a set of files.
pub open spec fn pairs_of(v: IndexView, files: Set<FileHandle>) -> Set<(Seq<u8>, Seq<u8>)> {
    files.map(|h: FileHandle| (v.paths[h.path as int], v.objects[h.object as int]))
}

/// Orders files by checksum, and then by path.
pub open spec fn pair_less(a: (Seq<u8>, Seq<u8>), b: (Seq<u8>, Seq<u8>)) -> bool {
    bytes::lex_less(a.1, b.1) || (a.1 == b.1 && bytes::lex_less(a.0, b.0))
}

/// The list has the paths and checksums of the set in order.
pub open spec fn is_listing(s: Seq<(Seq<u8>, Seq<u8>)>, set: Set<(Seq<u8>, Seq<u8>)>) -> bool {
    &&& s.to_set() == set
    &&& forall|i: int, j: int| 0 <= i < j < s.len() ==> pair_less(#[trigger] s[i], #[trigger] s[j])
}

/// The one list that has the paths and checksums of the set in order.
pub open spec fn listing_of(set: Set<(Seq<u8>, Seq<u8>)>) -> Seq<(Seq<u8>, Seq<u8>)> {
    choose|s: Seq<(Seq<u8>, Seq<u8>)>| is_listing(s, set)
}

/// The paths and checksums of a list, one after the other.
pub open spec fn listing_bytes(s: Seq<(Seq<u8>, Seq<u8>)>) -> Seq<u8>
    decreases s.len(),
{
    if s.len() == 0 {
        Seq::empty()
    } else {
        listing_bytes(s.drop_last()) + s.last().0 + s.last().1
    }
}

/// The checksum of the contents of a snapshot: that of its sorted files.
pub open spec fn files_digest(pairs: Set<(Seq<u8>, Seq<u8>)>) -> Seq<u8> {
    digest::sha1_of(listing_bytes(listing_of(pairs)))
}

pub proof fn lemma_pair_asymmetric(a: (Seq<u8>, Seq<u8>), b: (Seq<u8>, Seq<u8>))
    requires
        pair_less(a, b),
    ensures
        !pair_less(b, a),
{
    if bytes::lex_less(a.1, b.1) && bytes::lex_less(b.1, a.1) {
        bytes::lemma_lex_transitive(a.1, b.1, a.1);
    }
    if bytes::lex_less(a.0, b.0) && bytes::lex_less(b.0, a.0) {
        bytes::lemma_lex_transitive(a.0, b.0, a.0);
    }
    bytes::lemma_lex_irreflexive(a.0);
    bytes::lemma_lex_irreflexive(a.1);
}

/// Two files of which neither comes first have the same path and checksum.
pub proof fn lemma_pair_total(a: (Seq<u8>, Seq<u8>), b: (Seq<u8>, Seq<u8>))
    requires
        !pair_less(a, b),
        !pair_less(b, a),
    ensures
        a == b,
{
    bytes::lemma_lex_total(a.1, b.1);
    bytes::lemma_lex_total(a.0, b.0);
}

/// The order of files is that of a sort.
pub proof fn lemma_pair_negatively_transitive(
    a: (Seq<u8>, Seq<u8>),
    b: (Seq<u8>, Seq<u8>),
    c: (Seq<u8>, Seq<u8>),
)
    requires
        !pair_less(a, b),
        !pair_less(b, c),
    ensures
        !pair_less(a, c),
{
    if pair_less(a, c) {
        if pair_less(b, a) {
            lemma_pair_transitive(b, a, c);
        } else {
            lemma_pair_total(a, b);
        }
    }
}

proof fn lemma_pair_transitive(
    a: (Seq<u8>, Seq<u8>),
    b: (Seq<u8>, Seq<u8>),
    c: (Seq<u8>, Seq<u8>),
)
    requires
        pair_less(a, b),
        pair_less(b, c),
    ensures
        pair_less(a, c),
{
    if bytes::lex_less(a.1, b.1) && bytes::lex_less(b.1, c.1) {
        bytes::lemma_lex_transitive(a.1, b.1, c.1);
    }
    if bytes::lex_less(a.0, b.0) && bytes::lex_less(b.0, c.0) {
        bytes::lemma_lex_transitive(a.0, b.0, c.0);
    }
}

/// A set has one listing only.
pub proof fn lemma_listing_unique(
    a: Seq<(Seq<u8>, Seq<u8>)>,
    b: Seq<(Seq<u8>, Seq<u8>)>,
    set: Set<(Seq<u8>, Seq<u8>)>,
)
    requires
        is_listing(a, set),
        is_listing(b, set),
    ensures
        a == b,
    decreases a.len(),
{
    if a.len() == 0 {
        if b.len() > 0 {
            assert(b.to_set().contains(b[0]));
            assert(a.contains(b[0]));
        }
        assert(a =~= b);
    } else {
        assert(a.to_set().contains(a[0]));
        assert(b.contains(a[0]));
        let j = b.index_of(a[0]);
        if j > 0 {
            assert(pair_less(b[0], b[j]));
            assert(b.to_set().contains(b[0]));
            assert(a.contains(b[0]));
            let k = a.index_of(b[0]);
            if k > 0 {
                assert(pair_less(a[0], a[k]));
                lemma_pair_asymmetric(a[0], b[0]);
            } else {
                lemma_pair_asymmetric(b[0], b[j]);
            }
        }
        assert(a[0] == b[0]);
        let rest = set.remove(a[0]);
        lemma_listing_rest(a, set);
        lemma_listing_rest(b, set);
        lemma_listing_unique(a.drop_first(), b.drop_first(), rest);
        assert(a =~= seq![a[0]] + a.drop_first());
        assert(b =~= seq![b[0]] + b.drop_first());
    }
}

proof fn lemma_listing_rest(a: Seq<(Seq<u8>, Seq<u8>)>, set: Set<(Seq<u8>, Seq<u8>)>)
    requires
        is_listing(a, set),
        a.len() > 0,
    ensures
        is_listing(a.drop_first(), set.remove(a[0])),
{
    let rest = a.drop_first();
    assert forall|x: (Seq<u8>, Seq<u8>)| rest.to_set().contains(x) <==> set.remove(a[0]).contains(
        x,
    ) by {
        if rest.contains(x) {
            let i = rest.index_of(x);
            assert(a[i + 1] == x);
            assert(a.to_set().contains(x));
            assert(pair_less(a[0], a[i + 1]));
            if x == a[0] {
                lemma_pair_asymmetric(a[0], a[i + 1]);
            }
        }
        if set.remove(a[0]).contains(x) {
            assert(a.to_set().contains(x));
            let i = a.index_of(x);
            assert(rest[i - 1] == x);
        }
    }
    assert(rest.to_set() =~= set.remove(a[0]));
}

/// The metadata of the objects whose handle is below `n`, in handle order.
pub open spec fn values_below(m: Map<Handle, ObjectMetadata>, n: int) -> Seq<ObjectMetadata>
    decreases n,
{
    if n <= 0 {
        Seq::empty()
    } else if m.contains_key((n - 1) as Handle) {
        values_below(m, n - 1).push(m[(n - 1) as Handle])
    } else {
        values_below(m, n - 1)
    }
}

/// The metadata of all objects, in handle order.
pub open spec fn values_of(m: Map<Handle, ObjectMetadata>) -> Seq<ObjectMetadata> {
    values_below(m, 0x1_0000_0000)
}

/// The two halves of each handle.
pub open spec fn handle_pairs(s: Seq<FileHandle>) -> Seq<(u32, u32)> {
    s.map_values(|h: FileHandle| (h.path, h.object))
}

/// The handles with the given halves.
pub open spec fn pair_handles(s: Seq<(u32, u32)>) -> Seq<FileHandle> {
    s.map_values(|p: (u32, u32)| FileHandle { path: p.0, object: p.1 })
}

/// The name under which paths are stored.
pub open spec fn platform() -> Seq<char> {
    "Unix"@
}

/// The values that are stored for an index.
pub open spec fn parts_of(v: IndexView) -> PartsView {
    PartsView {
        tags: v.tags,
        deltas: v.deltas.map_values(
            |d: ChangeView<FileHandle>| (handle_pairs(d.added), handle_pairs(d.removed)),
        ),
        paths: v.paths.map_values(|p: Seq<u8>| seq![(platform(), p)]),
        objects: v.objects,
        metadata: values_of(v.metadata).map_values(|m: ObjectMetadata| (m.offset, m.size)),
    }
}

/// Every stored path has one name, that of the platform.
pub open spec fn paths_named(p: PartsView) -> bool {
    forall|i: int|
        0 <= i < p.paths.len() ==> (#[trigger] p.paths[i]).len() == 1 && p.paths[i][0].0 == platform()
}

/// The index with the given stored values.
pub open spec fn view_of_parts(p: PartsView) -> IndexView {
    IndexView {
        tags: p.tags,
        deltas: p.deltas.map_values(
            |d: (Seq<(u32, u32)>, Seq<(u32, u32)>)|
                ChangeView { added: pair_handles(d.0), removed: pair_handles(d.1) },
        ),
        paths: entrypool::interned_all(
            Seq::empty(),
            p.paths.map_values(|e: Seq<(Seq<char>, Seq<u8>)>| e[0].1),
        ),
        objects: entrypool::interned_all(Seq::empty(), p.objects),
        metadata: Map::new(
            |h: Handle| h < p.metadata.len(),
            |h: Handle|
                ObjectMetadata { offset: p.metadata[h as int].0, size: p.metadata[h as int].1 },
        ),
        current: Set::empty(),
    }
}

proof fn lemma_values_below(v: IndexView, n: int)
    requires
        all_described(v),
        0 <= n <= 0x1_0000_0000,
    ensures
        values_below(v.metadata, n) == Seq::new(
            if n <= v.objects.len() {
                n as nat
            } else {
                v.objects.len()
            },
            |i: int| v.metadata[i as Handle],
        ),
    decreases n,
{
    let len = if n <= v.objects.len() {
        n as nat
    } else {
        v.objects.len()
    };
    if n > 0 {
        lemma_values_below(v, n - 1);
        assert(v.metadata.contains_key((n - 1) as Handle) <==> n - 1 < v.objects.len());
    }
    assert(values_below(v.metadata, n) =~= Seq::new(len, |i: int| v.metadata[i as Handle]));
}

/// An index is the same after it has been stored and loaded, but for the files
/// of the snapshot that was pushed last, which are not stored.
pub proof fn law_index_round_trip(v: IndexView)
    requires
        pools_valid(v),
        all_described(v),
    ensures
        paths_named(parts_of(v)),
        view_of_parts(parts_of(v)) == (IndexView { current: Set::empty(), ..v }),
{
    let p = parts_of(v);
    let w = view_of_parts(p);
    assert forall|i: int| 0 <= i < v.deltas.len() implies w.deltas[i] == v.deltas[i] by {
        let d = v.deltas[i];
        assert(pair_handles(handle_pairs(d.added)) =~= d.added);
        assert(pair_handles(handle_pairs(d.removed)) =~= d.removed);
    }
    assert(w.deltas =~= v.deltas);
    assert(p.paths.map_values(|e: Seq<(Seq<char>, Seq<u8>)>| e[0].1) =~= v.paths);
    entrypool::law_pool_list_round_trip(v.paths);
    entrypool::law_pool_list_round_trip(v.objects);
    lemma_values_below(v, 0x1_0000_0000);
    assert(p.metadata.len() == v.objects.len());
    assert forall|h: Handle| w.metadata.contains_key(h) <==> v.metadata.contains_key(h) by {}
    assert(w.metadata =~= v.metadata);
    assert(w =~= IndexView { current: Set::empty(), ..v });
}

/// What is hashed for a list of files has each of them in its place: the bytes
/// are those for the files before it, its path, its checksum, and the bytes for
/// the files after it.
pub proof fn law_listing_holds_every_file(s: Seq<(Seq<u8>, Seq<u8>)>, i: int)
    requires
        0 <= i < s.len(),
    ensures
        listing_bytes(s) == listing_bytes(s.take(i)) + s[i].0 + s[i].1 + listing_bytes(
            s.skip(i + 1),
        ),
    decreases s.len(),
{
    let n = s.len() - 1;
    if i == n {
        assert(s.take(i) =~= s.drop_last());
        assert(s.skip(i + 1) =~= Seq::empty());
        assert(listing_bytes(s) =~= listing_bytes(s.take(i)) + s[i].0 + s[i].1 + listing_bytes(
            s.skip(i + 1),
        ));
    } else {
        let init = s.drop_last();
        law_listing_holds_every_file(init, i);
        assert(init.take(i) =~= s.take(i));
        assert(s.skip(i + 1).drop_last() =~= init.skip(i + 1));
        assert(s.skip(i + 1).last() == s.last());
        assert(listing_bytes(s) =~= listing_bytes(s.take(i)) + s[i].0 + s[i].1 + listing_bytes(
            s.skip(i + 1),
        ));
    }
}

/// What is hashed for a list of files tells the files apart: two lists whose
/// paths and checksums have the same lengths, but which are not the same, are
/// hashed from different bytes.
pub proof fn law_listing_tells_files_apart(
    s: Seq<(Seq<u8>, Seq<u8>)>,
    t: Seq<(Seq<u8>, Seq<u8>)>,
)
    requires
        s.len() == t.len(),
        forall|i: int|
            0 <= i < s.len() ==> (#[trigger] s[i]).0.len() == t[i].0.len() && s[i].1.len()
                == t[i].1.len(),
        s != t,
    ensures
        listing_bytes(s) != listing_bytes(t),
        listing_bytes(s).len() == listing_bytes(t).len(),
    decreases s.len(),
{
    if s.len() == 0 {
        assert(s =~= t);
    } else {
        let n = s.len() - 1;
        let a = s.drop_last();
        let b = t.drop_last();
        assert(s[n].0.len() == t[n].0.len());
        assert forall|i: int| 0 <= i < a.len() implies (#[trigger] a[i]).0.len() == b[i].0.len()
            && a[i].1.len() == b[i].1.len() by {
            assert(s[i] == a[i]);
        }
        if a != b {
            law_listing_tells_files_apart(a, b);
            let k = listing_bytes(a).len() as int;
            assert(listing_bytes(s).take(k) =~= listing_bytes(a));
            assert(listing_bytes(t).take(k) =~= listing_bytes(b));
        } else {
            let k = listing_bytes(a).len() as int;
            let l = k + s[n].0.len();
            if listing_bytes(s) == listing_bytes(t) {
                assert(listing_bytes(s).subrange(k, l) =~= s[n].0);
                assert(listing_bytes(t).subrange(k, l) =~= t[n].0);
                assert(listing_bytes(s).skip(l) =~= s[n].1);
                assert(listing_bytes(t).skip(l) =~= t[n].1);
                assert(s =~= a.push(s[n]));
                assert(t =~= b.push(t[n]));
            }
        }
    }
}

/// The checksum of a snapshot is that of its files in order of their checksums,
/// and for the same checksum in order of their paths.
pub proof fn law_digest_is_of_sorted_files(
    s: Seq<(Seq<u8>, Seq<u8>)>,
    pairs: Set<(Seq<u8>, Seq<u8>)>,
)
    requires
        forall|pair: (Seq<u8>, Seq<u8>)| #[trigger] pairs.contains(pair) <==> s.contains(pair),
        forall|i: int, j: int|
            0 <= i < j < s.len() ==> bytes::lex_less((#[trigger] s[i]).1, (#[trigger] s[j]).1) || (
            s[i].1 == s[j].1 && bytes::lex_less(s[i].0, s[j].0)),
    ensures
        files_digest(pairs) == digest::sha1_of(listing_bytes(s)),
{
    assert(s.to_set() =~= pairs);
    assert(is_listing(s, pairs));
    lemma_listing_unique(s, listing_of(pairs), pairs);
}

/// Snapshots with different files are told apart by what is hashed for them:
/// where the sorted lists of their paths and checksums are of the same lengths,
/// their checksums are those of different bytes.
pub proof fn law_different_files_are_hashed_apart(
    s: Seq<(Seq<u8>, Seq<u8>)>,
    a: Set<(Seq<u8>, Seq<u8>)>,
    t: Seq<(Seq<u8>, Seq<u8>)>,
    b: Set<(Seq<u8>, Seq<u8>)>,
)
    requires
        is_listing(s, a),
        is_listing(t, b),
        s.len() == t.len(),
        forall|i: int|
            0 <= i < s.len() ==> (#[trigger] s[i]).0.len() == t[i].0.len() && s[i].1.len()
                == t[i].1.len(),
        a != b,
    ensures
        exists|x: Seq<u8>, y: Seq<u8>|
            x != y && x.len() == y.len() && files_digest(a) == #[trigger] digest::sha1_of(x)
                && files_digest(b) == #[trigger] digest::sha1_of(y),
{
    lemma_listing_unique(s, listing_of(a), a);
    lemma_listing_unique(t, listing_of(b), b);
    law_listing_tells_files_apart(s, t);
    assert(files_digest(a) == digest::sha1_of(listing_bytes(s)));
    assert(files_digest(b) == digest::sha1_of(listing_bytes(t)));
}

/// A tag stands for the first of the listed snapshots that has it, and a tag
/// that none of them has stands for nothing.
pub proof fn law_tag_stands_for_first_snapshot(v: IndexView, tag: Seq<char>)
    ensures
        match snapshot_files(v, tag) {
            Some(files) => exists|i: int|
                {
                    &&& 0 <= i < v.tags.len()
                    &&& i < v.deltas.len()
                    &&& #[trigger] v.tags[i] == tag
                    &&& files == content_after(v.deltas, i + 1)
                    &&& forall|j: int| 0 <= j < i ==> #[trigger] v.tags[j] != tag
                },
            None => forall|j: int|
                0 <= j < v.tags.len() && j < v.deltas.len() ==> #[trigger] v.tags[j] != tag,
        },
{
    lemma_first_position(v.tags, tag, 0, listed(v));
    if let Some(i) = snapshot_position(v, tag) {
        assert(v.tags[i] == tag);
    }
}

proof fn lemma_first_position(tags: Seq<Seq<char>>, tag: Seq<char>, from: int, n: int)
    requires
        0 <= from,
    ensures
        match position_of(tags, tag, from, n) {
            Some(i) => from <= i < n && tags[i] == tag && forall|j: int|
                from <= j < i ==> #[trigger] tags[j] != tag,
            None => forall|j: int| from <= j < n ==> #[trigger] tags[j] != tag,
        },
    decreases n - from,
{
    if from < n && tags[from] != tag {
        lemma_first_position(tags, tag, from + 1, n);
    }
}

/// A file is in a snapshot if and only if the snapshot adds it, or the one before
/// has it and the snapshot does not remove it. Nothing is there at the start.
pub proof fn law_files_follow_from_changes(
    deltas: Seq<ChangeView<FileHandle>>,
    n: int,
    h: FileHandle,
)
    requires
        0 <= n < deltas.len(),
    ensures
        !content_after(deltas, 0).contains(h),
        content_after(deltas, n + 1).contains(h) <==> deltas[n].added.contains(h) || (content_after(
            deltas,
            n,
        ).contains(h) && !deltas[n].removed.contains(h)),
{
}

/// The entry of a file has the path and the checksum that the handles of the file
/// stand for, and where the object is and how large it is.
pub proof fn law_entry_describes_its_file(v: IndexView, h: FileHandle)
    ensures
        entry_of(v, h).path == v.paths[h.path as int],
        entry_of(v, h).checksum == v.objects[h.object as int],
        entry_of(v, h).metadata.offset == v.metadata[h.object].offset,
        entry_of(v, h).metadata.size == v.metadata[h.object].size,
        entry_of(v, h).file_metadata.mode == 0,
{
}

/// There are as many entries as files, in the order of the files.
pub proof fn law_every_file_has_an_entry(v: IndexView, handles: Seq<FileHandle>, i: int)
    requires
        0 <= i < handles.len(),
    ensures
        entries_of(v, handles).len() == handles.len(),
        entries_of(v, handles)[i].path == v.paths[handles[i].path as int],
        entries_of(v, handles)[i].checksum == v.objects[handles[i].object as int],
{
}

/// A file is at fault if and only if its path or its object is not known, and a
/// list of files has the fault of the first file that is.
pub proof fn law_first_unknown_file_is_reported(v: IndexView, handles: Seq<FileHandle>)
    ensures
        match fault_from(v, handles, 0) {
            Some(e) => exists|i: int|
                {
                    &&& 0 <= i < handles.len()
                    &&& if (#[trigger] handles[i]).path >= v.paths.len() {
                        e == PackError::PathNotFound(handles[i].path)
                    } else {
                        handles[i].object >= v.objects.len() && e == PackError::ObjectNotFound
                    }
                    &&& forall|j: int|
                        0 <= j < i ==> (#[trigger] handles[j]).path < v.paths.len()
                            && handles[j].object < v.objects.len()
                },
            None => forall|j: int|
                0 <= j < handles.len() ==> (#[trigger] handles[j]).path < v.paths.len()
                    && handles[j].object < v.objects.len(),
        },
{
    lemma_first_fault_from(v, handles, 0);
}

proof fn lemma_first_fault_from(v: IndexView, handles: Seq<FileHandle>, from: int)
    requires
        0 <= from,
        forall|j: int|
            0 <= j < from && j < handles.len() ==> (#[trigger] handles[j]).path < v.paths.len()
                && handles[j].object < v.objects.len(),
    ensures
        match fault_from(v, handles, from) {
            Some(e) => exists|i: int|
                {
                    &&& 0 <= i < handles.len()
                    &&& if (#[trigger] handles[i]).path >= v.paths.len() {
                        e == PackError::PathNotFound(handles[i].path)
                    } else {
                        handles[i].object >= v.objects.len() && e == PackError::ObjectNotFound
                    }
                    &&& forall|j: int|
                        0 <= j < i ==> (#[trigger] handles[j]).path < v.paths.len()
                            && handles[j].object < v.objects.len()
                },
            None => forall|j: int|
                0 <= j < handles.len() ==> (#[trigger] handles[j]).path < v.paths.len()
                    && handles[j].object < v.objects.len(),
        },
    decreases handles.len() - from,
{
    if from < handles.len() {
        let h = handles[from];
        if handle_fault(v, h) is None {
            lemma_first_fault_from(v, handles, from + 1);
        }
    }
}

/// A change adds or removes a file.
pub open spec fn touches(d: ChangeView<FileHandle>, h: FileHandle) -> bool {
    d.added.contains(h) || d.removed.contains(h)
}

/// The snapshots of an index are faultless if and only if the paths and objects
/// of all files that they add or remove are known.
pub proof fn law_faults_are_unknown_files(v: IndexView)
    ensures
        first_fault(v, 0) is None <==> forall|i: int, h: FileHandle|
            0 <= i < v.tags.len() && i < v.deltas.len() && #[trigger] touches(v.deltas[i], h)
                ==> h.path < v.paths.len() && h.object < v.objects.len(),
{
    lemma_faults_from(v, 0);
}

proof fn lemma_delta_fault(v: IndexView, d: ChangeView<FileHandle>)
    ensures
        delta_fault(v, d) is None <==> forall|h: FileHandle| #[trigger]
            touches(d, h) ==> h.path < v.paths.len() && h.object < v.objects.len(),
{
    law_first_unknown_file_is_reported(v, d.added);
    law_first_unknown_file_is_reported(v, d.removed);
    if delta_fault(v, d) is Some {
        if fault_from(v, d.added, 0) is Some {
            let i = choose|i: int|
                0 <= i < d.added.len() && !((#[trigger] d.added[i]).path < v.paths.len()
                    && d.added[i].object < v.objects.len());
            assert(touches(d, d.added[i]));
        } else {
            let i = choose|i: int|
                0 <= i < d.removed.len() && !((#[trigger] d.removed[i]).path < v.paths.len()
                    && d.removed[i].object < v.objects.len());
            assert(touches(d, d.removed[i]));
        }
    }
}

proof fn lemma_faults_from(v: IndexView, from: int)
    requires
        0 <= from,
    ensures
        first_fault(v, from) is None <==> forall|i: int, h: FileHandle|
            from <= i < v.tags.len() && i < v.deltas.len() && #[trigger] touches(v.deltas[i], h)
                ==> h.path < v.paths.len() && h.object < v.objects.len(),
    decreases listed(v) - from,
{
    if from < listed(v) {
        let d = v.deltas[from];
        lemma_delta_fault(v, d);
        lemma_faults_from(v, from + 1);
        if delta_fault(v, d) is Some {
            let h = choose|h: FileHandle| #[trigger]
                touches(d, h) && !(h.path < v.paths.len() && h.object < v.objects.len());
            assert(touches(v.deltas[from], h));
        } else if first_fault(v, from + 1) is Some {
            let (i, h) = choose|i: int, h: FileHandle|
                from + 1 <= i < v.tags.len() && i < v.deltas.len() && #[trigger] touches(
                    v.deltas[i],
                    h,
                ) && !(h.path < v.paths.len() && h.object < v.objects.len());
            assert(touches(v.deltas[i], h));
        }
    }
}

/// The total size counts every object once, with its size.
pub proof fn law_every_object_counts(m: Map<Handle, ObjectMetadata>, h: Handle)
    ensures
        m.contains_key(h) ==> total_size(m) == total_size(m.remove(h)) + m[h].size,
        total_size(Map::empty()) == 0,
{
    if m.contains_key(h) {
        lemma_one_counts(m, h, 0x1_0000_0000);
    }
    lemma_nothing_counts(0x1_0000_0000);
}

proof fn lemma_nothing_counts(n: int)
    requires
        n >= 0,
    ensures
        sizes_below(Map::empty(), n) == 0,
    decreases n,
{
    if n > 0 {
        lemma_nothing_counts(n - 1);
    }
}

proof fn lemma_one_counts(m: Map<Handle, ObjectMetadata>, h: Handle, n: int)
    requires
        m.contains_key(h),
        0 <= n <= 0x1_0000_0000,
    ensures
        h < n ==> sizes_below(m, n) == sizes_below(m.remove(h), n) + m[h].size,
        h >= n ==> sizes_below(m, n) == sizes_below(m.remove(h), n),
    decreases n,
{
    if n > 0 {
        lemma_one_counts(m, h, n - 1);
    }
}

/// What is stored of an index: its tags; for each snapshot what it adds and what
/// it removes; its paths, each marked as one of Unix; its objects; and where each
/// object is and how large it is.
pub proof fn law_stored_parts_hold_the_index(v: IndexView)
    requires
        all_described(v),
        v.objects.len() <= u32::MAX + 1,
    ensures
        ({
            let p = parts_of(v);
            &&& p.tags == v.tags
            &&& p.objects == v.objects
            &&& p.deltas.len() == v.deltas.len()
            &&& forall|i: int, j: int|
                0 <= i < v.deltas.len() && 0 <= j < v.deltas[i].added.len() ==> {
                    &&& p.deltas[i].0.len() == v.deltas[i].added.len()
                    &&& p.deltas[i].0[j].0 == (#[trigger] v.deltas[i].added[j]).path
                    &&& p.deltas[i].0[j].1 == v.deltas[i].added[j].object
                }
            &&& forall|i: int, j: int|
                0 <= i < v.deltas.len() && 0 <= j < v.deltas[i].removed.len() ==> {
                    &&& p.deltas[i].1.len() == v.deltas[i].removed.len()
                    &&& p.deltas[i].1[j].0 == (#[trigger] v.deltas[i].removed[j]).path
                    &&& p.deltas[i].1[j].1 == v.deltas[i].removed[j].object
                }
            &&& p.paths.len() == v.paths.len()
            &&& forall|i: int|
                0 <= i < v.paths.len() ==> (#[trigger] p.paths[i]) == seq![
                    (seq!['U', 'n', 'i', 'x'], v.paths[i]),
                ]
            &&& p.metadata.len() == v.objects.len()
            &&& forall|h: Handle|
                h < v.objects.len() ==> (#[trigger] p.metadata[h as int]).0 == v.metadata[h].offset
                    && p.metadata[h as int].1 == v.metadata[h].size
        }),
{
    reveal_strlit("Unix");
    assert(platform() =~= seq!['U', 'n', 'i', 'x']);
    lemma_values_in_order(v.metadata, v.objects.len() as int, 0x1_0000_0000);
}

proof fn lemma_values_in_order(m: Map<Handle, ObjectMetadata>, count: int, n: int)
    requires
        0 <= count <= 0x1_0000_0000,
        0 <= n <= 0x1_0000_0000,
        forall|h: Handle| #[trigger] m.contains_key(h) <==> h < count,
    ensures
        values_below(m, n).len() == (if n <= count {
            n
        } else {
            count
        }),
        forall|h: Handle| h < n && h < count ==> #[trigger] values_below(m, n)[h as int] == m[h],
    decreases n,
{
    if n > 0 {
        lemma_values_in_order(m, count, n - 1);
        let k = (n - 1) as Handle;
        assert(m.contains_key(k) <==> k < count);
        assert forall|h: Handle| h < n && h < count implies #[trigger] values_below(
            m,
            n,
        )[h as int] == m[h] by {
            if h < n - 1 {
                assert(values_below(m, n - 1)[h as int] == m[h]);
            }
        }
    }
}

/// The pairs of files are the paths and checksums of exactly these files.
pub proof fn law_pairs_are_those_of_the_files(
    v: IndexView,
    files: Set<FileHandle>,
    path: Seq<u8>,
    checksum: Seq<u8>,
)
    ensures
        pairs_of(v, files).contains((path, checksum)) <==> exists|h: FileHandle|
            {
                &&& #[trigger] files.contains(h)
                &&& v.paths[h.path as int] == path
                &&& v.objects[h.object as int] == checksum
            },
{
    let f = |h: FileHandle| (v.paths[h.path as int], v.objects[h.object as int]);
    if exists|h: FileHandle|
        {
            &&& #[trigger] files.contains(h)
            &&& v.paths[h.path as int] == path
            &&& v.objects[h.object as int] == checksum
        } {
        let h = choose|h: FileHandle|
            {
                &&& #[trigger] files.contains(h)
                &&& v.paths[h.path as int] == path
                &&& v.objects[h.object as int] == checksum
            };
        assert(files.contains(h) && f(h) == (path, checksum));
    }
}

/// Objects are placed from the smallest to the largest, each of them once.
pub proof fn law_smaller_objects_come_first(
    handles: Seq<Handle>,
    m: Map<Handle, ObjectMetadata>,
    i: int,
    j: int,
)
    requires
        is_ordering(handles, m),
        0 <= i < j < handles.len(),
    ensures
        handles[i] != handles[j],
        m[handles[i]].size <= m[handles[j]].size,
        forall|h: Handle| #[trigger] m.contains_key(h) <==> handles.contains(h),
{
    assert forall|h: Handle| #[trigger] m.contains_key(h) <==> handles.contains(h) by {
        assert(handles.to_set().contains(h) <==> m.dom().contains(h));
    }
}

/// A file that was added last is found again by its handle, with its path, its
/// checksum, and where its object is and how large it is.
pub proof fn law_added_file_is_found(v: IndexView, es: Seq<FileEntryView>, e: FileEntryView)
    requires
        with_entries(v, es.push(e)).paths.len() <= u32::MAX + 1,
        with_entries(v, es.push(e)).objects.len() <= u32::MAX + 1,
    ensures
        ({
            let w = with_entries(v, es.push(e));
            let h = handle_of_entry(w, e);
            &&& entry_of(w, h).path == e.path
            &&& entry_of(w, h).checksum == e.checksum
            &&& entry_of(w, h).metadata == e.metadata
            &&& w.tags == v.tags && w.deltas == v.deltas && w.current == v.current
        }),
{
    let all = es.push(e);
    assert(all.drop_last() =~= es);
    let b = with_entries(v, es);
    let w = with_entries(v, all);
    assert(w == with_entry(b, e));
    if !b.paths.contains(e.path) {
        assert(w.paths[b.paths.len() as int] == e.path);
    }
    assert(w.paths.contains(e.path));
    if !b.objects.contains(e.checksum) {
        assert(w.objects[b.objects.len() as int] == e.checksum);
    }
    assert(w.objects.contains(e.checksum));
    lemma_rest_unchanged(v, all);
}

proof fn lemma_rest_unchanged(v: IndexView, es: Seq<FileEntryView>)
    ensures
        with_entries(v, es).tags == v.tags,
        with_entries(v, es).deltas == v.deltas,
        with_entries(v, es).current == v.current,
    decreases es.len(),
{
    if es.len() > 0 {
        lemma_rest_unchanged(v, es.drop_last());
    }
}

} // verus!
