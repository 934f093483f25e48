//! What holds of pack indexes across operations.

use super::model;
use super::model::IndexView;
use super::packidx;
use super::packidx::{ChangeView, FileEntryView, FileHandle, ObjectMetadata};
use crate::entrypool;
use crate::entrypool::Handle;
use crate::repo::algo;
use vstd::prelude::*;

verus! {

/// What holds of an index to which snapshots are pushed: every tag has a list
/// of changes and stands once, the lists fit one another and lead to the files
/// of the snapshot that was pushed last, and exactly the objects of the pool
/// are described.
pub open spec fn is_consistent(v: IndexView) -> bool {
    &&& model::pools_valid(v)
    &&& model::all_described(v)
    &&& v.tags.len() == v.deltas.len()
    &&& v.tags.no_duplicates()
    &&& model::clean_upto(v.deltas, v.deltas.len() as int)
    &&& model::content_after(v.deltas, v.deltas.len() as int) == v.current
    &&& model::faultless(v, v.current)
}

/// A new index is consistent.
pub proof fn law_new_index_is_consistent()
    ensures
        is_consistent(model::empty_index()),
{
}

/// The position of a tag that stands once.
proof fn lemma_position(tags: Seq<Seq<char>>, tag: Seq<char>, from: int, n: int, i: int)
    requires
        0 <= from <= i < n <= tags.len(),
        tags[i] == tag,
        forall|j: int| from <= j < i ==> tags[j] != tag,
    ensures
        model::position_of(tags, tag, from, n) == Some(i),
    decreases i - from,
{
    if from < i {
        lemma_position(tags, tag, from + 1, n, i);
    }
}

/// More lists of changes do not change what the first ones lead to.
proof fn lemma_content_of_prefix(
    a: Seq<ChangeView<FileHandle>>,
    b: Seq<ChangeView<FileHandle>>,
    n: int,
)
    requires
        n <= a.len(),
        a.is_prefix_of(b),
    ensures
        model::content_after(a, n) == model::content_after(b, n),
    decreases n,
{
    if n > 0 {
        lemma_content_of_prefix(a, b, n - 1);
        assert(a[n - 1] == b[n - 1]);
    }
}

/// Storing files describes exactly the objects of the pool.
proof fn lemma_entries_described(v: IndexView, es: Seq<FileEntryView>)
    requires
        model::pools_valid(v),
        model::all_described(v),
        model::has_room(v, es),
    ensures
        model::all_described(model::with_entries(v, es)),
    decreases es.len(),
{
    if es.len() > 0 {
        let init = es.drop_last();
        let e = es.last();
        let w = model::with_entries(v, init);
        model::lemma_room_of_prefix(v, es, es.len() - 1);
        assert(es.take(es.len() - 1) =~= init);
        model::lemma_with_entries(v, init);
        model::lemma_with_entries(v, es);
        lemma_entries_described(v, init);
        let objects = entrypool::interned(w.objects, e.checksum);
        let k = entrypool::handle_of(objects, e.checksum)->0;
        entrypool::law_interning_keeps_handles(w.objects, e.checksum, e.checksum);
        entrypool::law_pool_handles_invert(objects, k, e.checksum);
        assert(k < objects.len());
        let after = model::with_entries(v, es);
        if w.objects.contains(e.checksum) {
            assert(objects == w.objects);
        } else {
            assert(objects[w.objects.len() as int] == e.checksum);
            assert(objects.index_of(e.checksum) == w.objects.len());
        }
        assert forall|h: Handle| #[trigger] after.metadata.contains_key(h) <==> h
            < after.objects.len() by {
            assert(w.metadata.contains_key(h) <==> h < w.objects.len());
        }
    }
}

/// Pushing a snapshot keeps an index consistent, and the snapshot is found
/// again with exactly the files that were pushed.
pub proof fn law_pushed_snapshot_is_found(
    v: IndexView,
    tag: Seq<char>,
    es: Seq<FileEntryView>,
    delta: ChangeView<FileHandle>,
)
    requires
        is_consistent(v),
        !v.tags.contains(tag),
        model::has_room(v, es),
        packidx::is_change(
            delta,
            v.current,
            model::with_snapshot(v, tag, es, delta).current,
        ),
    ensures
        ({
            let w = model::with_snapshot(v, tag, es, delta);
            &&& is_consistent(w)
            &&& model::resolvable(w, tag)
            &&& model::snapshot_files(w, tag) == Some(w.current)
            &&& model::pairs_of(w, w.current) == es.map_values(
                |e: FileEntryView| (e.path, e.checksum),
            ).to_set()
        }),
{
    let w = model::with_snapshot(v, tag, es, delta);
    let n = v.deltas.len() as int;
    model::lemma_with_entries(v, es);
    lemma_entries_described(v, es);
    assert(w.deltas.drop_last() =~= v.deltas);
    assert(v.deltas.is_prefix_of(w.deltas));
    assert forall|i: int| 0 <= i < n + 1 implies #[trigger] packidx::applies_cleanly(
        model::content_after(w.deltas, i),
        w.deltas[i],
    ) by {
        lemma_content_of_prefix(v.deltas, w.deltas, i);
        if i < n {
            assert(w.deltas[i] == v.deltas[i]);
            assert(packidx::applies_cleanly(model::content_after(v.deltas, i), v.deltas[i]));
        } else {
            packidx::law_change_leads_to_target(delta, v.current, w.current);
        }
    }
    lemma_content_of_prefix(v.deltas, w.deltas, n);
    packidx::law_change_leads_to_target(delta, v.current, w.current);
    assert(model::content_after(w.deltas, n + 1) == w.current);
    assert(w.tags.no_duplicates());
    assert forall|j: int| 0 <= j < n implies w.tags[j] != tag by {
        assert(w.tags[j] == v.tags[j]);
        assert(v.tags.contains(v.tags[j]));
    }
    lemma_position(w.tags, tag, 0, n + 1, n);
    lemma_pushed_files(v, tag, es, delta);
}

/// The handles of the pushed files stand for their paths and checksums.
proof fn lemma_pushed_files(
    v: IndexView,
    tag: Seq<char>,
    es: Seq<FileEntryView>,
    delta: ChangeView<FileHandle>,
)
    requires
        model::pools_valid(v),
        model::has_room(v, es),
    ensures
        ({
            let w = model::with_snapshot(v, tag, es, delta);
            &&& model::faultless(w, w.current)
            &&& model::pairs_of(w, w.current) == es.map_values(
                |e: FileEntryView| (e.path, e.checksum),
            ).to_set()
        }),
{
    let w = model::with_snapshot(v, tag, es, delta);
    let u = model::with_entries(v, es);
    model::lemma_with_entries(v, es);
    let handles = es.map_values(|e: FileEntryView| model::handle_of_entry(u, e));
    let pairs = es.map_values(|e: FileEntryView| (e.path, e.checksum));
    let f = |h: FileHandle| (w.paths[h.path as int], w.objects[h.object as int]);
    assert forall|i: int| 0 <= i < es.len() implies f(#[trigger] handles[i]) == pairs[i]
        && model::handle_fault(w, handles[i]) is None by {
        assert(u.paths.contains(es[i].path));
        entrypool::law_pool_handles_invert(u.paths, handles[i].path, es[i].path);
        entrypool::law_pool_handles_invert(u.objects, handles[i].object, es[i].checksum);
    }
    assert(w.current == handles.to_set());
    assert forall|h: FileHandle| #[trigger] w.current.contains(h) implies model::handle_fault(
        w,
        h,
    ) is None by {
        let i = handles.index_of(h);
        assert(handles[i] == h);
    }
    assert forall|x: (Seq<u8>, Seq<u8>)| w.current.map(f).contains(x) <==> pairs.to_set().contains(
        x,
    ) by {
        if w.current.map(f).contains(x) {
            let h = choose|h: FileHandle| w.current.contains(h) && f(h) == x;
            let i = handles.index_of(h);
            assert(f(handles[i]) == pairs[i]);
            assert(pairs[i] == x);
        }
        if pairs.contains(x) {
            let i = pairs.index_of(x);
            assert(f(handles[i]) == x);
            assert(w.current.contains(handles[i]));
        }
    }
    assert(w.current.map(f) =~= pairs.to_set());
    assert(model::pairs_of(w, w.current) =~= w.current.map(f));
}

/// Pushing a snapshot does not change the snapshots that were pushed before:
/// they have the same files, with the same paths and checksums.
pub proof fn law_earlier_snapshots_stay(
    v: IndexView,
    tag: Seq<char>,
    es: Seq<FileEntryView>,
    delta: ChangeView<FileHandle>,
    earlier: Seq<char>,
    h: FileHandle,
)
    requires
        is_consistent(v),
        v.tags.contains(earlier),
    ensures
        ({
            let w = model::with_snapshot(v, tag, es, delta);
            &&& model::snapshot_files(v, earlier) is Some
            &&& model::snapshot_files(w, earlier) == model::snapshot_files(v, earlier)
            &&& model::handle_fault(v, h) is None ==> model::handle_fault(w, h) is None
                && model::entry_of(w, h).path == model::entry_of(v, h).path && model::entry_of(
                w,
                h,
            ).checksum == model::entry_of(v, h).checksum
        }),
{
    let w = model::with_snapshot(v, tag, es, delta);
    let n = v.deltas.len() as int;
    model::lemma_with_entries(v, es);
    let i = v.tags.index_of(earlier);
    assert(w.tags[i] == earlier);
    assert forall|j: int| 0 <= j < i implies w.tags[j] != earlier && v.tags[j] != earlier by {
        assert(w.tags[j] == v.tags[j]);
        assert(v.tags[j] != v.tags[i]);
    }
    lemma_position(v.tags, earlier, 0, n, i);
    lemma_position(w.tags, earlier, 0, n + 1, i);
    assert(v.deltas.is_prefix_of(w.deltas));
    lemma_content_of_prefix(v.deltas, w.deltas, i + 1);
}

/// A snapshot: its tag, and the paths and checksums of its files.
#[verifier::ext_equal]
pub struct TaggedFiles {
    pub tag: Seq<char>,
    pub files: Set<(Seq<u8>, Seq<u8>)>,
}

/// The tags of snapshots.
pub open spec fn tags_of(list: Seq<TaggedFiles>) -> Seq<Seq<char>> {
    list.map_values(|s: TaggedFiles| s.tag)
}

/// The index holds exactly the given snapshots, in order.
pub open spec fn holds_snapshots(w: IndexView, list: Seq<TaggedFiles>) -> bool {
    &&& is_consistent(w)
    &&& w.tags == tags_of(list)
    &&& forall|j: int| 0 <= j < list.len() ==> holds_snapshot(w, #[trigger] list[j])
}

/// The index holds the snapshot.
pub open spec fn holds_snapshot(w: IndexView, s: TaggedFiles) -> bool {
    &&& model::snapshot_files(w, s.tag) matches Some(files)
    &&& model::faultless(w, files)
    &&& model::pairs_of(w, files) == s.files
}

/// Adding a snapshot to an index that holds snapshots.
pub proof fn lemma_push_holds(
    w: IndexView,
    list: Seq<TaggedFiles>,
    s: TaggedFiles,
    es: Seq<FileEntryView>,
    delta: ChangeView<FileHandle>,
)
    requires
        holds_snapshots(w, list),
        !w.tags.contains(s.tag),
        model::has_room(w, es),
        packidx::is_change(delta, w.current, model::with_snapshot(w, s.tag, es, delta).current),
        es.map_values(|e: FileEntryView| (e.path, e.checksum)).to_set() == s.files,
    ensures
        holds_snapshots(model::with_snapshot(w, s.tag, es, delta), list.push(s)),
{
    let x = model::with_snapshot(w, s.tag, es, delta);
    let now = list.push(s);
    law_pushed_snapshot_is_found(w, s.tag, es, delta);
    assert(x.tags =~= tags_of(now));
    assert forall|j: int| 0 <= j < now.len() implies holds_snapshot(x, #[trigger] now[j]) by {
        if j < list.len() {
            assert(holds_snapshot(w, list[j]));
            assert(w.tags[j] == list[j].tag);
            lemma_earlier_holds(w, s.tag, es, delta, list[j]);
        }
    }
}

/// A snapshot that an index holds stays when another one is pushed.
proof fn lemma_earlier_holds(
    w: IndexView,
    tag: Seq<char>,
    es: Seq<FileEntryView>,
    delta: ChangeView<FileHandle>,
    s: TaggedFiles,
)
    requires
        is_consistent(w),
        w.tags.contains(s.tag),
        holds_snapshot(w, s),
    ensures
        holds_snapshot(model::with_snapshot(w, tag, es, delta), s),
{
    let x = model::with_snapshot(w, tag, es, delta);
    let files = model::snapshot_files(w, s.tag)->0;
    let any = FileHandle { path: 0, object: 0 };
    law_earlier_snapshots_stay(w, tag, es, delta, s.tag, any);
    assert forall|h: FileHandle| #[trigger] files.contains(h) implies model::handle_fault(
        x,
        h,
    ) is None && (x.paths[h.path as int], x.objects[h.object as int]) == (
        w.paths[h.path as int],
        w.objects[h.object as int],
    ) by {
        assert(model::handle_fault(w, h) is None);
        law_earlier_snapshots_stay(w, tag, es, delta, s.tag, h);
    }
    let f = |h: FileHandle| (x.paths[h.path as int], x.objects[h.object as int]);
    let g = |h: FileHandle| (w.paths[h.path as int], w.objects[h.object as int]);
    assert forall|p: (Seq<u8>, Seq<u8>)| files.map(f).contains(p) <==> files.map(g).contains(p) by {
        if files.map(f).contains(p) {
            let h = choose|h: FileHandle| files.contains(h) && p == f(h);
            assert(g(h) == p);
        }
        if files.map(g).contains(p) {
            let h = choose|h: FileHandle| files.contains(h) && p == g(h);
            assert(f(h) == p);
        }
    }
    assert(files.map(f) =~= files.map(g));
    assert(model::pairs_of(x, files) =~= files.map(f));
    assert(model::pairs_of(w, files) =~= files.map(g));
}

/// The index after a snapshot with a new tag was pushed.
pub open spec fn is_pushed(
    v: IndexView,
    tag: Seq<char>,
    es: Seq<FileEntryView>,
    w: IndexView,
) -> bool {
    &&& !v.tags.contains(tag)
    &&& model::has_room(v, es)
    &&& exists|delta: ChangeView<FileHandle>| #[trigger]
        packidx::is_change(delta, v.current, w.current) && w == model::with_snapshot(
            v,
            tag,
            es,
            delta,
        )
}

/// The states of an index that starts out as a new one, to which snapshots are
/// pushed one after the other.
pub open spec fn is_history(
    states: Seq<IndexView>,
    tags: Seq<Seq<char>>,
    files: Seq<Seq<FileEntryView>>,
) -> bool {
    &&& states.len() == tags.len() + 1
    &&& files.len() == tags.len()
    &&& states[0] == model::empty_index()
    &&& forall|i: int|
        0 <= i < tags.len() ==> is_pushed(states[i], #[trigger] tags[i], files[i], states[i + 1])
}

/// The snapshots that were pushed, as far as the first `n`.
pub open spec fn pushed_files(
    tags: Seq<Seq<char>>,
    files: Seq<Seq<FileEntryView>>,
    n: int,
) -> Seq<TaggedFiles> {
    Seq::new(
        n as nat,
        |i: int|
            TaggedFiles {
                tag: tags[i],
                files: files[i].map_values(|e: FileEntryView| (e.path, e.checksum)).to_set(),
            },
    )
}

/// An index holds what was pushed to it: after `n` snapshots were pushed to a
/// new index, it lists their tags in order, and each of them resolves to
/// exactly the files that were pushed with it.
pub proof fn law_index_holds_what_was_pushed(
    states: Seq<IndexView>,
    tags: Seq<Seq<char>>,
    files: Seq<Seq<FileEntryView>>,
    n: int,
)
    requires
        is_history(states, tags, files),
        0 <= n <= tags.len(),
    ensures
        holds_snapshots(states[n], pushed_files(tags, files, n)),
    decreases n,
{
    if n == 0 {
        law_new_index_is_consistent();
        assert(tags_of(pushed_files(tags, files, 0)) =~= states[0].tags);
    } else {
        let v = states[n - 1];
        let w = states[n];
        let before = pushed_files(tags, files, n - 1);
        let s = pushed_files(tags, files, n)[n - 1];
        law_index_holds_what_was_pushed(states, tags, files, n - 1);
        assert(is_pushed(v, tags[n - 1], files[n - 1], w));
        let delta = choose|delta: ChangeView<FileHandle>| #[trigger]
            packidx::is_change(delta, v.current, w.current) && w == model::with_snapshot(
                v,
                tags[n - 1],
                files[n - 1],
                delta,
            );
        lemma_push_holds(v, before, s, files[n - 1], delta);
        assert(before.push(s) =~= pushed_files(tags, files, n));
    }
}

/// The paths and checksums of entries.
pub open spec fn pairs_in(es: Seq<FileEntryView>) -> Set<(Seq<u8>, Seq<u8>)> {
    es.map_values(|e: FileEntryView| (e.path, e.checksum)).to_set()
}

/// Snapshots with the same paths and checksums have the same checksum, whatever
/// indexes they were pushed to, under whatever tags, and in whatever order
/// their files were listed.
pub proof fn law_same_files_same_checksum(
    v: IndexView,
    tag: Seq<char>,
    es: Seq<FileEntryView>,
    w: IndexView,
    other_v: IndexView,
    other_tag: Seq<char>,
    other_es: Seq<FileEntryView>,
    other_w: IndexView,
)
    requires
        is_consistent(v),
        is_pushed(v, tag, es, w),
        is_consistent(other_v),
        is_pushed(other_v, other_tag, other_es, other_w),
        forall|pair: (Seq<u8>, Seq<u8>)| #[trigger]
            pairs_in(es).contains(pair) <==> pairs_in(other_es).contains(pair),
    ensures
        ({
            let files = model::snapshot_files(w, tag);
            let other = model::snapshot_files(other_w, other_tag);
            &&& files is Some && other is Some
            &&& model::files_digest(model::pairs_of(w, files->0)) == model::files_digest(
                model::pairs_of(other_w, other->0),
            )
        }),
{
    let delta = choose|delta: ChangeView<FileHandle>| #[trigger]
        packidx::is_change(delta, v.current, w.current) && w == model::with_snapshot(
            v,
            tag,
            es,
            delta,
        );
    let other_delta = choose|delta: ChangeView<FileHandle>| #[trigger]
        packidx::is_change(delta, other_v.current, other_w.current) && other_w
            == model::with_snapshot(other_v, other_tag, other_es, delta);
    law_pushed_snapshot_is_found(v, tag, es, delta);
    law_pushed_snapshot_is_found(other_v, other_tag, other_es, other_delta);
    assert(pairs_in(es) =~= pairs_in(other_es));
}

/// Objects are laid out one after the other: each starts where the one before
/// ends, none overlaps another, and they end at the total size.
pub proof fn law_objects_follow_one_another(
    m: Map<Handle, ObjectMetadata>,
    ordering: Seq<Handle>,
    i: int,
    j: int,
)
    requires
        model::is_ordering(ordering, m),
        model::total_size(m) <= u64::MAX,
        0 <= i < j < ordering.len(),
    ensures
        ({
            let p = model::placed(m, ordering);
            let a = p[ordering[i]];
            let b = p[ordering[j]];
            &&& a.size == m[ordering[i]].size
            &&& a.offset + a.size <= b.offset
            &&& j == i + 1 ==> a.offset + a.size == b.offset
            &&& p[ordering[0]].offset == 0
            &&& p[ordering.last()].offset + p[ordering.last()].size == model::total_size(m)
        }),
{
    let sizes = model::sizes_of(m, ordering);
    let n = ordering.len() as int;
    model::lemma_sizes_add_up(m, ordering);
    algo::lemma_sum_is_range_sum(sizes);
    assert forall|k: int| 0 <= k < n implies model::placed(m, ordering)[#[trigger] ordering[k]].offset
        == algo::range_sum(sizes, 0, k) && m.contains_key(ordering[k]) by {
        assert(ordering.to_set().contains(ordering[k]));
        assert(ordering.index_of(ordering[k]) == k);
        algo::lemma_range_sum_within(sizes, 0, k);
    }
    assert(ordering[i] == ordering[i] && ordering[j] == ordering[j]);
    algo::lemma_range_sum_split(sizes, 0, i + 1, j);
    assert(sizes[i] == m[ordering[i]].size);
    assert(sizes[n - 1] == m[ordering[n - 1]].size);
    assert(ordering[0] == ordering[0]);
    assert(ordering[n - 1] == ordering.last());
}

} // verus!
