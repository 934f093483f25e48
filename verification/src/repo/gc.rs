//! Garbage collection: which loose packs and which loose objects are not needed
//! any more.

use super::constants::{PACK_EXTENSION, PACK_INDEX_EXTENSION};
use super::error::{quote, Error};
use super::error;
use super::id;
use super::id::{PackId, SnapshotId};
use super::id::SnapshotIdView;
use super::repository;
use super::repository::{is_loose_name, Repository};
use super::search;
use crate::digest::ObjectChecksum;
use crate::ioerror::{IoError, IoErrorKind};
use crate::lookup;
use crate::lookup::PositionTable;
use crate::packidx::model;
use crate::packidx::model::IndexView;
use crate::packidx::packidxv1;
use crate::packidx::{FileHandle, PackIndexV1};
use crate::paths;
use crate::paths::with_extension;
use crate::split;
use crate::text;
use crate::text::text_bytes;
use vstd::prelude::*;
use vstd::slice::slice_to_vec;
use vstd::string::StringExecFns;

verus! {

/// Snapshots with the same content checksum.
#[derive(Debug)]
pub struct SnapshotGroup {
    pub checksum: ObjectChecksum,
    pub snapshots: Vec<SnapshotId>,
}

/// What a [`SnapshotGroup`] says.
#[verifier::ext_equal]
pub struct GroupView {
    pub checksum: Seq<u8>,
    pub snapshots: Seq<SnapshotIdView>,
}

/// What snapshots are called.
pub open spec fn snapshot_names(snapshots: Seq<SnapshotId>) -> Seq<SnapshotIdView> {
    snapshots.map_values(|s: SnapshotId| s@)
}

impl View for SnapshotGroup {
    type V = GroupView;

    open spec fn view(&self) -> GroupView {
        GroupView { checksum: self.checksum@, snapshots: snapshot_names(self.snapshots@) }
    }
}

/// What groups say.
pub open spec fn group_views(groups: Seq<SnapshotGroup>) -> Seq<GroupView> {
    groups.map_values(|g: SnapshotGroup| g@)
}

/// A snapshot and its content checksum.
#[verifier::ext_equal]
pub struct ChecksummedSnapshot {
    pub checksum: Seq<u8>,
    pub id: SnapshotIdView,
}

/// The snapshots that the first `n` tags of an index stand for. A tag that
/// occurs again counts once.
pub open spec fn snapshots_in(pack: Seq<char>, v: IndexView, n: int) -> Seq<ChecksummedSnapshot>
    decreases n,
{
    if n <= 0 {
        Seq::empty()
    } else {
        let before = snapshots_in(pack, v, n - 1);
        if lookup::is_last(v.tags, n - 1) {
            before.push(checksummed(pack, v, v.tags[n - 1]))
        } else {
            before
        }
    }
}

/// A snapshot of an index and its content checksum.
pub open spec fn checksummed(pack: Seq<char>, v: IndexView, tag: Seq<char>) -> ChecksummedSnapshot {
    ChecksummedSnapshot {
        checksum: search::snapshot_checksum(v, tag)->0,
        id: SnapshotIdView { pack, tag },
    }
}

/// The snapshots of the first `n` packs.
pub open spec fn snapshots_of(
    packs: Seq<PackId>,
    indexes: Seq<PackIndexV1>,
    n: int,
) -> Seq<ChecksummedSnapshot>
    decreases n,
{
    if n <= 0 {
        Seq::empty()
    } else {
        snapshots_of(packs, indexes, n - 1) + snapshots_in(
            packs[n - 1]@,
            indexes[n - 1]@,
            indexes[n - 1]@.tags.len() as int,
        )
    }
}

/// The checksums of groups.
pub open spec fn group_checksums(groups: Seq<GroupView>) -> Seq<Seq<u8>> {
    groups.map_values(|g: GroupView| g.checksum)
}

/// The groups after a snapshot was added: to the group with its checksum, or as
/// a new group.
pub open spec fn with_snapshot(groups: Seq<GroupView>, s: ChecksummedSnapshot) -> Seq<GroupView> {
    if group_checksums(groups).contains(s.checksum) {
        let i = group_checksums(groups).index_of(s.checksum);
        groups.update(
            i,
            GroupView { checksum: s.checksum, snapshots: groups[i].snapshots.push(s.id) },
        )
    } else {
        groups.push(GroupView { checksum: s.checksum, snapshots: seq![s.id] })
    }
}

/// Snapshots grouped by their content checksums.
pub open spec fn grouped(snapshots: Seq<ChecksummedSnapshot>) -> Seq<GroupView>
    decreases snapshots.len(),
{
    if snapshots.len() == 0 {
        Seq::empty()
    } else {
        with_snapshot(grouped(snapshots.drop_last()), snapshots.last())
    }
}

/// The checksums of all snapshots in the index can be computed, and their tags
/// are valid.
pub open spec fn is_ready(index: PackIndexV1) -> bool {
    forall|i: int|
        0 <= i < index@.tags.len() ==> {
            &&& search::can_checksum(index, #[trigger] index@.tags[i])
            &&& model::snapshot_files(index@, index@.tags[i]) matches Some(files)
                && model::faultless(index@, files)
            &&& id::is_id(index@.tags[i])
        }
}

proof fn lemma_grouped_distinct(snapshots: Seq<ChecksummedSnapshot>)
    ensures
        group_checksums(grouped(snapshots)).no_duplicates(),
    decreases snapshots.len(),
{
    if snapshots.len() > 0 {
        let before = grouped(snapshots.drop_last());
        let s = snapshots.last();
        lemma_grouped_distinct(snapshots.drop_last());
        let after = with_snapshot(before, s);
        if group_checksums(before).contains(s.checksum) {
            let i = group_checksums(before).index_of(s.checksum);
            assert(group_checksums(after) =~= group_checksums(before));
        } else {
            assert(group_checksums(after) =~= group_checksums(before).push(s.checksum));
        }
    }
}

/// Groups of snapshots, and where each checksum is among them.
struct Grouping {
    groups: Vec<SnapshotGroup>,
    table: PositionTable,
}

impl Grouping {
    /// The snapshots were grouped.
    spec fn holds(&self, snapshots: Seq<ChecksummedSnapshot>) -> bool {
        &&& self.table.wf()
        &&& self.table@ == group_checksums(group_views(self.groups@))
        &&& group_views(self.groups@) == grouped(snapshots)
    }

    fn new() -> (r: Self)
        ensures
            r.holds(Seq::empty()),
    {
        let r = Grouping { groups: Vec::new(), table: PositionTable::new() };
        assert(group_views(r.groups@) =~= grouped(Seq::empty()));
        assert(r.table@ =~= group_checksums(group_views(r.groups@)));
        r
    }

    fn push(&mut self, checksum: ObjectChecksum, id: SnapshotId, Ghost(snapshots): Ghost<
        Seq<ChecksummedSnapshot>,
    >)
        requires
            old(self).holds(snapshots),
        ensures
            final(self).holds(
                snapshots.push(ChecksummedSnapshot { checksum: checksum@, id: id@ }),
            ),
    {
        let ghost s = ChecksummedSnapshot { checksum: checksum@, id: id@ };
        let ghost before = group_views(self.groups@);
        let ghost after = with_snapshot(before, s);
        proof {
            lemma_grouped_distinct(snapshots);
            assert(snapshots.push(s).drop_last() =~= snapshots);
        }
        match self.table.find_last(checksum.as_slice()) {
            Some(i) => {
                proof {
                    assert(group_checksums(before)[i as int] == s.checksum);
                    assert(group_checksums(before).index_of(s.checksum) == i);
                }
                let ghost group = self.groups@[i as int]@;
                self.groups[i].snapshots.push(id);
                proof {
                    assert(self.groups@[i as int]@ =~= GroupView {
                        checksum: s.checksum,
                        snapshots: group.snapshots.push(s.id),
                    });
                    assert(group_views(self.groups@) =~= after);
                    assert(group_checksums(after) =~= group_checksums(before));
                }
            },
            None => {
                let mut list: Vec<SnapshotId> = Vec::new();
                list.push(id);
                let group = SnapshotGroup { checksum, snapshots: list };
                self.table.push(slice_to_vec(checksum.as_slice()));
                self.groups.push(group);
                proof {
                    assert(group@ =~= GroupView { checksum: s.checksum, snapshots: seq![s.id] });
                    assert(group_views(self.groups@) =~= after);
                    assert(group_checksums(after) =~= group_checksums(before).push(s.checksum));
                }
            },
        }
    }
}

/// Builds a table of tags.
fn tag_table(tags: &[String]) -> (r: PositionTable)
    ensures
        r.wf(),
        r@ == search::name_bytes(packidxv1::text_views(tags@)),
{
    let ghost all = search::name_bytes(packidxv1::text_views(tags@));
    let mut r = PositionTable::new();
    let mut i: usize = 0;
    while i < tags.len()
        invariant
            i <= tags.len(),
            all == search::name_bytes(packidxv1::text_views(tags@)),
            r.wf(),
            r@ == all.take(i as int),
        decreases tags.len() - i,
    {
        r.push(text_bytes(tags[i].as_str()));
        assert(all[i as int] == text::bytes_of(tags@[i as int]@));
        assert(all.take(i + 1) =~= all.take(i as int).push(all[i as int]));
        i += 1;
    }
    assert(all.take(i as int) =~= all);
    r
}

proof fn lemma_last_tag(tags: Seq<Seq<char>>, i: int)
    requires
        0 <= i < tags.len(),
    ensures
        lookup::is_last(search::name_bytes(tags), i) <==> lookup::is_last(tags, i),
{
    let names = search::name_bytes(tags);
    assert forall|j: int| 0 <= j < tags.len() implies (#[trigger] names[j] == names[i] <==> tags[j]
        == tags[i]) by {
        text::lemma_text_bytes(tags[i]);
        text::lemma_text_bytes(tags[j]);
    }
    if lookup::is_last(names, i) {
        assert forall|j: int| i < j < tags.len() implies #[trigger] tags[j] != tags[i] by {
            assert(names[j] != names[i]);
        }
    }
}

impl Repository {
    /// Identifies duplicate snapshots in the given packs, whose indexes are given
    /// in the same order (two snapshots are equal if their checksums computed by
    /// compute_snapshot_checksum are equal).
    ///
    /// Returns the snapshots with each snapshot checksum (>= 1).
    pub fn find_duplicate_snapshots(&self, packs: &[PackId], indexes: &[PackIndexV1]) -> (r: Vec<
        SnapshotGroup,
    >)
        requires
            indexes@.len() == packs@.len(),
            forall|i: int| 0 <= i < indexes@.len() ==> is_ready(#[trigger] indexes@[i]),
        ensures
            group_views(r@) == grouped(snapshots_of(packs@, indexes@, packs@.len() as int)),
    {
        let mut grouping = Grouping::new();
        let mut i: usize = 0;
        while i < packs.len()
            invariant
                i <= packs.len(),
                indexes@.len() == packs@.len(),
                forall|i: int| 0 <= i < indexes@.len() ==> is_ready(#[trigger] indexes@[i]),
                grouping.holds(snapshots_of(packs@, indexes@, i as int)),
            decreases packs.len() - i,
        {
            let index = &indexes[i];
            let ghost v = index@;
            let ghost pack = packs@[i as int]@;
            let ghost before = snapshots_of(packs@, indexes@, i as int);
            let tags = index.snapshot_tags();
            let table = tag_table(tags.as_slice());
            assert(is_ready(indexes@[i as int]));
            let mut t: usize = 0;
            assert(before + snapshots_in(pack, v, 0) =~= before);
            while t < tags.len()
                invariant
                    t <= tags.len(),
                    is_ready(*index),
                    v == index@,
                    packidxv1::text_views(tags@) == v.tags,
                    pack == packs@[i as int]@,
                    i < packs.len(),
                    table.wf(),
                    table@ == search::name_bytes(v.tags),
                    grouping.holds(before + snapshots_in(pack, v, t as int)),
                decreases tags.len() - t,
            {
                let tag = tags[t].as_str();
                assert(v.tags[t as int] == tag@);
                proof {
                    lemma_last_tag(v.tags, t as int);
                    assert(table@[t as int] == text::bytes_of(tag@));
                }
                let at = table.find_last(text_bytes(tag).as_slice());
                let last = match at {
                    Some(k) => k == t,
                    None => false,
                };
                assert(last == lookup::is_last(v.tags, t as int));
                if last {
                    assert(search::can_checksum(*index, v.tags[t as int]));
                    let checksum = index.compute_snapshot_checksum(tag);
                    let id = SnapshotId::new(packs[i].clone(), tag);
                    match (checksum, id) {
                        (Some(checksum), Ok(id)) => {
                            let ghost now = snapshots_in(pack, v, t as int);
                            grouping.push(checksum, id, Ghost(before + now));
                            proof {
                                let s = checksummed(pack, v, tag@);
                                assert(s =~= ChecksummedSnapshot { checksum: checksum@, id: id@ });
                                assert((before + now).push(s) =~= before + now.push(s));
                            }
                        },
                        _ => {
                            assert(false);
                        },
                    }
                }
                t += 1;
            }
            i += 1;
        }
        grouping.groups
    }
}

/// One of the snapshots is in a pack that is not loose.
pub open spec fn has_packed(snapshots: Seq<SnapshotIdView>) -> bool {
    exists|i: int|
        0 <= i < snapshots.len() && !repository::has_loose_name((#[trigger] snapshots[i]).pack)
}

/// The snapshots that are in loose packs.
pub open spec fn loose_of(snapshots: Seq<SnapshotIdView>) -> Seq<SnapshotIdView> {
    snapshots.filter(|s: SnapshotIdView| repository::has_loose_name(s.pack))
}

/// The snapshots in loose packs of which there is at least one copy in some
/// pack that is not loose.
pub open spec fn redundant(groups: Seq<GroupView>) -> Seq<SnapshotIdView>
    decreases groups.len(),
{
    if groups.len() == 0 {
        Seq::empty()
    } else {
        let before = redundant(groups.drop_last());
        let snapshots = groups.last().snapshots;
        if snapshots.len() > 1 && has_packed(snapshots) {
            before + loose_of(snapshots)
        } else {
            before
        }
    }
}

/// Tells whether one of the snapshots is in a pack that is not loose.
fn is_any_non_loose(snapshots: &[SnapshotId]) -> (r: bool)
    ensures
        r == has_packed(snapshot_names(snapshots@)),
{
    let ghost names = snapshot_names(snapshots@);
    let mut i: usize = 0;
    while i < snapshots.len()
        invariant
            i <= snapshots.len(),
            names == snapshot_names(snapshots@),
            forall|j: int|
                0 <= j < i ==> repository::has_loose_name((#[trigger] names[j]).pack),
        decreases snapshots.len() - i,
    {
        assert(names[i as int] == snapshots@[i as int]@);
        if !is_loose_name(snapshots[i].pack()) {
            return true;
        }
        i += 1;
    }
    false
}

impl Repository {
    /// Identifies loose packs that are redundant -- have been packed. The packs
    /// are all packs of the repository.
    ///
    /// # Algorithm
    /// 1. Find duplicate snapshots according to snapshot checksums
    /// 2. Filter out non-loose snapshots (identify what can be removed)
    pub fn find_redundant_loose_packs(&self, packs: &[PackId], indexes: &[PackIndexV1]) -> (r: Vec<
        PackId,
    >)
        requires
            indexes@.len() == packs@.len(),
            forall|i: int| 0 <= i < indexes@.len() ==> is_ready(#[trigger] indexes@[i]),
        ensures
            search::pack_names(r@) == redundant(
                grouped(snapshots_of(packs@, indexes@, packs@.len() as int)),
            ).map_values(|s: SnapshotIdView| s.pack),
    {
        // 1. Find duplicate snapshots according to snapshot checksums
        let groups = self.find_duplicate_snapshots(packs, indexes);
        // 2. Filter out non-loose snapshots (identify what can be removed)
        let ghost views = group_views(groups@);
        let ghost pack_of = |s: SnapshotIdView| s.pack;
        let mut r: Vec<PackId> = Vec::new();
        let mut i: usize = 0;
        assert(views.take(0) =~= Seq::empty());
        assert(search::pack_names(r@) =~= redundant(views.take(0)).map_values(pack_of));
        while i < groups.len()
            invariant
                i <= groups.len(),
                views == group_views(groups@),
                pack_of == (|s: SnapshotIdView| s.pack),
                search::pack_names(r@) == redundant(views.take(i as int)).map_values(pack_of),
            decreases groups.len() - i,
        {
            let snapshots = &groups[i].snapshots;
            let ghost names = snapshot_names(snapshots@);
            let ghost before = search::pack_names(r@);
            proof {
                assert(views.take(i + 1).drop_last() =~= views.take(i as int));
                assert(views[i as int].snapshots == names);
            }
            // Loose with at least one copy in some non-loose pack
            if snapshots.len() > 1 && is_any_non_loose(snapshots.as_slice()) {
                let mut j: usize = 0;
                assert(names.take(0) =~= Seq::empty());
                reveal(Seq::filter);
                assert(before =~= before + loose_of(names.take(0)).map_values(pack_of));
                while j < snapshots.len()
                    invariant
                        j <= snapshots.len(),
                        names == snapshot_names(snapshots@),
                        pack_of == (|s: SnapshotIdView| s.pack),
                        search::pack_names(r@) == before + loose_of(
                            names.take(j as int),
                        ).map_values(pack_of),
                    decreases snapshots.len() - j,
                {
                    let ghost now = search::pack_names(r@);
                    let ghost listed = loose_of(names.take(j as int));
                    proof {
                        reveal(Seq::filter);
                        assert(names.take(j + 1).drop_last() =~= names.take(j as int));
                        assert(names[j as int] == snapshots@[j as int]@);
                    }
                    if is_loose_name(snapshots[j].pack()) {
                        r.push(snapshots[j].pack().clone());
                        proof {
                            let s = names[j as int];
                            assert(search::pack_names(r@) =~= now.push(s.pack));
                            assert(loose_of(names.take(j + 1)) == listed.push(s));
                            assert(listed.push(s).map_values(pack_of) =~= listed.map_values(
                                pack_of,
                            ).push(s.pack));
                        }
                    }
                    j += 1;
                }
                proof {
                    assert(names.take(j as int) =~= names);
                    let a = redundant(views.take(i as int));
                    let b = loose_of(names);
                    assert((a + b).map_values(pack_of) =~= a.map_values(pack_of) + b.map_values(
                        pack_of,
                    ));
                }
            }
            i += 1;
        }
        assert(views.take(i as int) =~= views);
        r
    }
}

proof fn lemma_groups_from(snapshots: Seq<ChecksummedSnapshot>, g: int, k: int)
    requires
        0 <= g < grouped(snapshots).len(),
        0 <= k < grouped(snapshots)[g].snapshots.len(),
    ensures
        snapshots.contains(
            ChecksummedSnapshot {
                checksum: grouped(snapshots)[g].checksum,
                id: grouped(snapshots)[g].snapshots[k],
            },
        ),
    decreases snapshots.len(),
{
    let init = snapshots.drop_last();
    let before = grouped(init);
    let s = snapshots.last();
    let now = grouped(snapshots);
    let found = ChecksummedSnapshot { checksum: now[g].checksum, id: now[g].snapshots[k] };
    if g < before.len() && k < before[g].snapshots.len() {
        lemma_groups_from(init, g, k);
        if group_checksums(before).contains(s.checksum) {
            let i = group_checksums(before).index_of(s.checksum);
            assert(group_checksums(before)[i] == before[i].checksum);
        }
        let j = init.index_of(found);
        assert(snapshots[j] == found);
    } else {
        if group_checksums(before).contains(s.checksum) {
            let i = group_checksums(before).index_of(s.checksum);
            assert(group_checksums(before)[i] == before[i].checksum);
        }
        assert(found =~= s);
        assert(snapshots[snapshots.len() - 1] == s);
    }
}

/// Only snapshots in loose packs are redundant, and each of them has a copy with
/// the same content checksum in a pack that is not loose.
pub proof fn law_redundant_has_packed_copy(snapshots: Seq<ChecksummedSnapshot>, id: SnapshotIdView)
    requires
        redundant(grouped(snapshots)).contains(id),
    ensures
        repository::has_loose_name(id.pack),
        exists|a: ChecksummedSnapshot, b: ChecksummedSnapshot|
            {
                &&& #[trigger] snapshots.contains(a)
                &&& #[trigger] snapshots.contains(b)
                &&& a.id == id
                &&& a.checksum == b.checksum
                &&& !repository::has_loose_name(b.id.pack)
            },
{
    let groups = grouped(snapshots);
    lemma_redundant_group(groups, id);
    let g = choose|g: int|
        {
            &&& 0 <= g < groups.len()
            &&& has_packed((#[trigger] groups[g]).snapshots)
            &&& groups[g].snapshots.contains(id)
        };
    let list = groups[g].snapshots;
    let k = list.index_of(id);
    let l = choose|l: int|
        0 <= l < list.len() && !repository::has_loose_name((#[trigger] list[l]).pack);
    lemma_groups_from(snapshots, g, k);
    lemma_groups_from(snapshots, g, l);
    let a = ChecksummedSnapshot { checksum: groups[g].checksum, id: list[k] };
    let b = ChecksummedSnapshot { checksum: groups[g].checksum, id: list[l] };
    assert(snapshots.contains(a));
    assert(snapshots.contains(b));
}

proof fn lemma_redundant_group(groups: Seq<GroupView>, id: SnapshotIdView)
    requires
        redundant(groups).contains(id),
    ensures
        repository::has_loose_name(id.pack),
        exists|g: int|
            {
                &&& 0 <= g < groups.len()
                &&& has_packed((#[trigger] groups[g]).snapshots)
                &&& groups[g].snapshots.contains(id)
            },
    decreases groups.len(),
{
    let init = groups.drop_last();
    let before = redundant(init);
    if before.contains(id) {
        lemma_redundant_group(init, id);
        let g = choose|g: int|
            {
                &&& 0 <= g < init.len()
                &&& has_packed((#[trigger] init[g]).snapshots)
                &&& init[g].snapshots.contains(id)
            };
        assert(groups[g] == init[g]);
    } else {
        let list = groups.last().snapshots;
        let all = before + loose_of(list);
        let i = all.index_of(id);
        assert(all[i] == id);
        if i < before.len() {
            assert(before[i] == id);
        }
        assert(loose_of(list)[i - before.len()] == id);
        assert(loose_of(list).contains(id));
        lemma_filter_holds(list, |s: SnapshotIdView| repository::has_loose_name(s.pack), id);
        assert(groups[groups.len() - 1].snapshots.contains(id));
    }
}

proof fn lemma_filter_holds(
    list: Seq<SnapshotIdView>,
    p: spec_fn(SnapshotIdView) -> bool,
    id: SnapshotIdView,
)
    requires
        list.filter(p).contains(id),
    ensures
        p(id),
        list.contains(id),
    decreases list.len(),
{
    reveal(Seq::filter);
    if list.len() > 0 {
        let init = list.drop_last();
        let i = list.filter(p).index_of(id);
        if i < init.filter(p).len() {
            assert(init.filter(p)[i] == id);
            lemma_filter_holds(init, p, id);
            let j = init.index_of(id);
            assert(list[j] == id);
        } else {
            assert(list[list.len() - 1] == id);
        }
    }
}

/// What a list of checksums says.
pub open spec fn checksum_views(list: Seq<ObjectChecksum>) -> Seq<Seq<u8>> {
    list.map_values(|c: ObjectChecksum| c@)
}

/// The object is in one of the indexes.
pub open spec fn is_referenced(indexes: Seq<PackIndexV1>, checksum: Seq<u8>) -> bool {
    exists|i: int| 0 <= i < indexes.len() && (#[trigger] indexes[i])@.objects.contains(checksum)
}

impl Repository {
    /// Reads the checksums of loose objects from their paths. The first path
    /// that is not the one of an object is an error.
    pub fn loose_object_checksums(&self, paths: &[Vec<u8>]) -> (r: Result<
        Vec<ObjectChecksum>,
        Error,
    >)
        ensures
            match r {
                Ok(list) => {
                    &&& list@.len() == paths@.len()
                    &&& forall|i: int|
                        0 <= i < list@.len() ==> repository::loose_checksum_of(paths@[i]@) == Some(
                            (#[trigger] list@[i])@,
                        )
                },
                Err(e) => exists|i: int|
                    {
                        &&& 0 <= i < paths@.len()
                        &&& repository::loose_checksum_of((#[trigger] paths@[i])@) is None
                        &&& e matches Error::BadLooseObject(t) && t@ == text::lossy_text(
                            paths@[i]@,
                        )
                        &&& forall|j: int|
                            0 <= j < i ==> repository::loose_checksum_of(
                                (#[trigger] paths@[j])@,
                            ) is Some
                    },
            },
    {
        let mut list: Vec<ObjectChecksum> = Vec::new();
        let mut i: usize = 0;
        while i < paths.len()
            invariant
                i <= paths.len(),
                list@.len() == i,
                forall|j: int|
                    0 <= j < i ==> repository::loose_checksum_of(paths@[j]@) == Some(
                        (#[trigger] list@[j])@,
                    ),
                forall|j: int|
                    0 <= j < i ==> repository::loose_checksum_of((#[trigger] paths@[j])@) is Some,
            decreases paths.len() - i,
        {
            match self.loose_object_checksum(paths[i].as_slice()) {
                Ok(checksum) => {
                    list.push(checksum);
                },
                Err(e) => {
                    assert(repository::loose_checksum_of(paths@[i as int]@) is None);
                    return Err(e);
                },
            }
            i += 1;
        }
        Ok(list)
    }

    /// Identifies loose objects that are not referenced from any of the packs.
    ///
    /// # Arguments
    /// * `objects_on_disk` - the checksums of the loose objects
    /// * `roots` - the indexes to consider as the sole referees to objects
    pub fn find_unreferenced_objects(
        &self,
        objects_on_disk: &[ObjectChecksum],
        roots: &[PackIndexV1],
    ) -> (r: Vec<ObjectChecksum>)
        ensures
            checksum_views(r@).no_duplicates(),
            forall|c: Seq<u8>| #[trigger]
                checksum_views(r@).contains(c) <==> checksum_views(objects_on_disk@).contains(c)
                    && !is_referenced(roots@, c),
    {
        // Tracing: Process the roots and mark loose objects as reachable
        let referenced = reference_table(roots);
        let ghost all = checksum_views(objects_on_disk@);
        let mut seen = PositionTable::new();
        let mut r: Vec<ObjectChecksum> = Vec::new();
        let mut i: usize = 0;
        while i < objects_on_disk.len()
            invariant
                i <= objects_on_disk.len(),
                all == checksum_views(objects_on_disk@),
                referenced.wf(),
                forall|c: Seq<u8>| #[trigger]
                    referenced@.contains(c) <==> is_referenced(roots@, c),
                seen.wf(),
                seen@ == all.take(i as int),
                checksum_views(r@).no_duplicates(),
                forall|c: Seq<u8>| #[trigger]
                    checksum_views(r@).contains(c) <==> all.take(i as int).contains(c)
                        && !is_referenced(roots@, c),
            decreases objects_on_disk.len() - i,
        {
            let checksum = objects_on_disk[i];
            let ghost before = checksum_views(r@);
            let ghost done = all.take(i as int);
            let is_new = !seen.contains(checksum.as_slice());
            let is_unreferenced = !referenced.contains(checksum.as_slice());
            if is_new && is_unreferenced {
                assert(before.contains(checksum@) ==> done.contains(checksum@));
                r.push(checksum);
                assert(checksum_views(r@) =~= before.push(checksum@));
            }
            seen.push(slice_to_vec(checksum.as_slice()));
            proof {
                let now = checksum_views(r@);
                assert(all.take(i + 1) =~= done.push(checksum@));
                assert forall|c: Seq<u8>| #[trigger] now.contains(c) <==> all.take(i + 1).contains(
                    c,
                ) && !is_referenced(roots@, c) by {
                    lemma_push_contains(done, checksum@, c);
                    if is_new && is_unreferenced {
                        lemma_push_contains(before, checksum@, c);
                    }
                    assert(before.contains(c) <==> done.contains(c) && !is_referenced(roots@, c));
                    assert(referenced@.contains(checksum@) <==> is_referenced(roots@, checksum@));
                }
            }
            i += 1;
        }
        assert(all.take(i as int) =~= all);
        r
    }
}

proof fn lemma_push_contains(list: Seq<Seq<u8>>, last: Seq<u8>, c: Seq<u8>)
    ensures
        list.push(last).contains(c) <==> list.contains(c) || c == last,
{
    let now = list.push(last);
    if list.contains(c) {
        assert(now[list.index_of(c)] == c);
    }
    assert(now[list.len() as int] == last);
    if now.contains(c) && c != last {
        assert(list[now.index_of(c)] == c);
    }
}

/// Builds a table of the objects in indexes.
fn reference_table(roots: &[PackIndexV1]) -> (r: PositionTable)
    ensures
        r.wf(),
        forall|c: Seq<u8>| #[trigger] r@.contains(c) <==> is_referenced(roots@, c),
{
    let mut r = PositionTable::new();
    let mut i: usize = 0;
    while i < roots.len()
        invariant
            i <= roots.len(),
            r.wf(),
            forall|c: Seq<u8>| #[trigger]
                r@.contains(c) <==> exists|k: int|
                    0 <= k < i && (#[trigger] roots@[k])@.objects.contains(c),
        decreases roots.len() - i,
    {
        let list = roots[i].object_checksums();
        let ghost objects = roots@[i as int]@.objects;
        let ghost before = r@;
        let mut j: usize = 0;
        assert(before + objects.take(0) =~= before);
        while j < list.len()
            invariant
                j <= list.len(),
                list@.map_values(|c: ObjectChecksum| c@) == objects,
                r.wf(),
                r@ == before + objects.take(j as int),
            decreases list.len() - j,
        {
            r.push(slice_to_vec(list[j].as_slice()));
            proof {
                assert(objects[j as int] == list@[j as int]@);
                assert(objects.take(j + 1) =~= objects.take(j as int).push(objects[j as int]));
                assert(r@ =~= before + objects.take(j + 1));
            }
            j += 1;
        }
        proof {
            assert(objects.take(j as int) =~= objects);
            assert forall|c: Seq<u8>| #[trigger] r@.contains(c) <==> exists|k: int|
                0 <= k < i + 1 && (#[trigger] roots@[k])@.objects.contains(c) by {
                assert(before.contains(c) <==> exists|k: int|
                    0 <= k < i && (#[trigger] roots@[k])@.objects.contains(c));
                if r@.contains(c) {
                    let at = r@.index_of(c);
                    if at < before.len() {
                        assert(before[at] == c);
                        let k = choose|k: int|
                            0 <= k < i && (#[trigger] roots@[k])@.objects.contains(c);
                        assert(roots@[k]@.objects.contains(c));
                    } else {
                        assert(objects[at - before.len()] == c);
                        assert(roots@[i as int]@.objects.contains(c));
                    }
                }
                if exists|k: int| 0 <= k < i + 1 && (#[trigger] roots@[k])@.objects.contains(c) {
                    let k = choose|k: int|
                        0 <= k < i + 1 && (#[trigger] roots@[k])@.objects.contains(c);
                    if k == i {
                        let at = objects.index_of(c);
                        assert(r@[before.len() + at] == c);
                    } else {
                        assert(before.contains(c));
                        let at = before.index_of(c);
                        assert(r@[at] == c);
                    }
                }
            }
        }
        i += 1;
    }
    r
}

/// The list of names without the first occurrence of each of the removed ones.
pub open spec fn without(names: Seq<Seq<char>>, removed: Seq<Seq<char>>) -> Seq<Seq<char>>
    decreases removed.len(),
{
    if removed.len() == 0 {
        names
    } else {
        let before = without(names, removed.drop_last());
        if before.contains(removed.last()) {
            before.remove(before.index_of(removed.last()))
        } else {
            before
        }
    }
}

/// The position of a pack in a list.
fn position(packs: &[PackId], pack: &PackId) -> (r: Option<usize>)
    ensures
        match r {
            Some(i) => i < packs@.len() && search::pack_names(packs@).contains(pack@)
                && search::pack_names(packs@)[i as int] == pack@ && forall|j: int|
                0 <= j < i ==> #[trigger] search::pack_names(packs@)[j] != pack@,
            None => !search::pack_names(packs@).contains(pack@),
        },
{
    let ghost names = search::pack_names(packs@);
    let mut i: usize = 0;
    while i < packs.len()
        invariant
            i <= packs.len(),
            names == search::pack_names(packs@),
            forall|j: int| 0 <= j < i ==> #[trigger] names[j] != pack@,
        decreases packs.len() - i,
    {
        assert(names[i as int] == packs@[i as int]@);
        if packs[i].same(pack) {
            return Some(i);
        }
        i += 1;
    }
    None
}

/// The packs that are still needed once the redundant ones are gone. They are
/// the roots in the object graph for reachability analysis.
pub fn remaining_roots(loose_packs: Vec<PackId>, redundant_packs: &[PackId]) -> (r: Vec<PackId>)
    requires
        search::pack_names(loose_packs@).no_duplicates(),
    ensures
        search::pack_names(r@) == without(
            search::pack_names(loose_packs@),
            search::pack_names(redundant_packs@),
        ),
{
    let ghost start = search::pack_names(loose_packs@);
    let ghost removed = search::pack_names(redundant_packs@);
    let mut r = loose_packs;
    let mut i: usize = 0;
    assert(removed.take(0) =~= Seq::empty());
    while i < redundant_packs.len()
        invariant
            i <= redundant_packs.len(),
            removed == search::pack_names(redundant_packs@),
            search::pack_names(r@).no_duplicates(),
            search::pack_names(r@) == without(start, removed.take(i as int)),
        decreases redundant_packs.len() - i,
    {
        let ghost before = search::pack_names(r@);
        proof {
            assert(removed.take(i + 1).drop_last() =~= removed.take(i as int));
            assert(removed[i as int] == redundant_packs@[i as int]@);
        }
        if let Some(at) = position(r.as_slice(), &redundant_packs[i]) {
            proof {
                assert(before.index_of(redundant_packs@[i as int]@) == at);
            }
            r.remove(at);
            assert(search::pack_names(r@) =~= before.remove(at as int));
        }
        i += 1;
    }
    assert(removed.take(i as int) =~= removed);
    r
}

/// How much space a pack takes.
#[derive(Clone, Copy, Debug, PartialEq, Eq, Structural)]
pub struct PackDiskStats {
    pub len: u64,
}

/// How much space an object takes.
#[derive(Clone, Copy, Debug, PartialEq, Eq, Structural)]
pub struct ObjectDiskStats {
    pub len: u64,
}

/// The text of the failure to delete a loose pack that has a pack file.
pub open spec fn unexpected_pack_text(pack: Seq<char>) -> Seq<char> {
    "Unexpected .pack for loose Pack("@ + error::quoted(pack) + ")"@
}

impl Repository {
    /// Lists the files to delete on disk for a pack, given whether its index and
    /// its pack file exist. Deleting a non-existent pack is an error, for which
    /// the path of the pack file is given as it is displayed.
    pub fn delete_pack(
        &self,
        pack_id: &PackId,
        index_exists: bool,
        pack_exists: bool,
        pack_path: &str,
    ) -> (r: Result<Vec<Vec<u8>>, IoError>)
        ensures
            ({
                let is_loose = repository::has_loose_name(pack_id@) && index_exists;
                let index_path = repository::pack_file_of(
                    self@.data_dir,
                    pack_id@,
                    PACK_INDEX_EXTENSION@,
                );
                match r {
                    Ok(files) => is_loose != pack_exists && split::byte_views(files@) == (
                    if is_loose {
                        seq![index_path]
                    } else {
                        seq![
                            index_path,
                            repository::pack_file_of(self@.data_dir, pack_id@, PACK_EXTENSION@),
                        ]
                    }),
                    Err(e) => if is_loose {
                        pack_exists && e.kind == IoErrorKind::Other && e.message@
                            == unexpected_pack_text(pack_id@)
                    } else {
                        !pack_exists && e.kind == IoErrorKind::NotFound && e.message@ == pack_path@
                            + " not found"@
                    },
                }
            }),
    {
        let is_loose = self.is_pack_loose(pack_id, index_exists);
        if is_loose && pack_exists {
            let mut message = "Unexpected .pack for loose Pack(".to_owned();
            message.append(quote(pack_id.as_str()).as_str());
            message.append(")");
            return Err(IoError { kind: IoErrorKind::Other, message });
        } else if !is_loose && !pack_exists {
            let mut message = pack_path.to_owned();
            message.append(" not found");
            return Err(IoError { kind: IoErrorKind::NotFound, message });
        }
        let mut files: Vec<Vec<u8>> = Vec::new();
        files.push(self.get_pack_index_path(pack_id));
        if !is_loose {
            files.push(self.get_pack_path(pack_id));
            assert(split::byte_views(files@) =~= seq![files@[0]@, files@[1]@]);
        } else {
            assert(split::byte_views(files@) =~= seq![files@[0]@]);
        }
        Ok(files)
    }

    /// The paths of the two files whose sizes make up the size of a pack.
    pub fn pack_stats_paths(&self, pack_id: &PackId) -> (r: (Vec<u8>, Vec<u8>))
        ensures
            r.0@ == repository::pack_file_of(self@.data_dir, pack_id@, PACK_INDEX_EXTENSION@),
            r.1@ == paths::with_extension_of(
                paths::with_extension_of(r.0@, Seq::empty()),
                text::bytes_of(PACK_INDEX_EXTENSION@),
            ),
    {
        let path = self.get_pack_index_path(pack_id);
        let none: Vec<u8> = Vec::new();
        let bare = with_extension(path.as_slice(), none.as_slice());
        assert(none@ =~= Seq::empty());
        let index = with_extension(bare.as_slice(), text_bytes(PACK_INDEX_EXTENSION).as_slice());
        (path, index)
    }

    /// The size of a pack, given the size of its first file, where that is
    /// known, and of its second one.
    pub fn get_pack_disk_stats(&self, pack_len: Option<u64>, index_len: u64) -> (r: PackDiskStats)
        requires
            pack_len matches Some(n) ==> n + index_len <= u64::MAX,
        ensures
            r.len == index_len + (match pack_len {
                Some(n) => n as int,
                None => 0,
            }),
    {
        let pack_len: u64 = match pack_len {
            Some(n) => n,
            None => 0,
        };
        PackDiskStats { len: pack_len + index_len }
    }

    /// The size of an object.
    pub fn get_object_disk_stats(&self, len: u64) -> (r: ObjectDiskStats)
        ensures
            r.len == len,
    {
        ObjectDiskStats { len }
    }
}

/// An object that is not referenced from an index is not the content of a file
/// in any snapshot of that index.
pub proof fn law_unreferenced_is_not_needed(
    indexes: Seq<PackIndexV1>,
    i: int,
    tag: Seq<char>,
    path: Seq<u8>,
    checksum: Seq<u8>,
)
    requires
        0 <= i < indexes.len(),
        !is_referenced(indexes, checksum),
        model::snapshot_files(indexes[i]@, tag) matches Some(files) && model::faultless(
            indexes[i]@,
            files,
        ),
    ensures
        !model::pairs_of(indexes[i]@, model::snapshot_files(indexes[i]@, tag)->0).contains(
            (path, checksum),
        ),
{
    let v = indexes[i]@;
    let files = model::snapshot_files(v, tag)->0;
    if model::pairs_of(v, files).contains((path, checksum)) {
        let h = choose|h: FileHandle|
            files.contains(h) && (path, checksum) == (
                v.paths[h.path as int],
                v.objects[h.object as int],
            );
        assert(model::handle_fault(v, h) is None);
        assert(v.objects[h.object as int] == checksum);
        assert(indexes[i]@.objects.contains(checksum));
    }
}

/// Every snapshot is in the group with its checksum.
proof fn lemma_in_its_group(snapshots: Seq<ChecksummedSnapshot>, s: ChecksummedSnapshot) -> (g: int)
    requires
        snapshots.contains(s),
    ensures
        0 <= g < grouped(snapshots).len(),
        grouped(snapshots)[g].checksum == s.checksum,
        grouped(snapshots)[g].snapshots.contains(s.id),
    decreases snapshots.len(),
{
    let init = snapshots.drop_last();
    let before = grouped(init);
    let last = snapshots.last();
    let now = grouped(snapshots);
    let sums = group_checksums(before);
    if s == last {
        if sums.contains(s.checksum) {
            let i = sums.index_of(s.checksum);
            let list = now[i].snapshots;
            assert(list[list.len() - 1] == s.id);
            i
        } else {
            let list = now[before.len() as int].snapshots;
            assert(list[0] == s.id);
            before.len() as int
        }
    } else {
        let k = snapshots.index_of(s);
        assert(init[k] == s);
        let g = lemma_in_its_group(init, s);
        let list = before[g].snapshots;
        let j = list.index_of(s.id);
        if sums.contains(last.checksum) {
            let i = sums.index_of(last.checksum);
            assert(sums[i] == before[i].checksum);
            if i == g {
                assert(now[g].snapshots[j] == s.id);
            }
        }
        assert(now[g].snapshots[j] == s.id);
        g
    }
}

proof fn lemma_group_is_redundant(groups: Seq<GroupView>, g: int, id: SnapshotIdView)
    requires
        0 <= g < groups.len(),
        groups[g].snapshots.len() > 1,
        has_packed(groups[g].snapshots),
        groups[g].snapshots.contains(id),
        repository::has_loose_name(id.pack),
    ensures
        redundant(groups).contains(id),
    decreases groups.len(),
{
    let init = groups.drop_last();
    let before = redundant(init);
    let list = groups.last().snapshots;
    let now = redundant(groups);
    if g == groups.len() - 1 {
        let p = |s: SnapshotIdView| repository::has_loose_name(s.pack);
        lemma_filter_keeps(list, p, id);
        let i = loose_of(list).index_of(id);
        assert(now[before.len() + i] == id);
    } else {
        assert(init[g] == groups[g]);
        lemma_group_is_redundant(init, g, id);
        let i = before.index_of(id);
        assert(now[i] == id);
    }
}

proof fn lemma_filter_keeps(
    list: Seq<SnapshotIdView>,
    p: spec_fn(SnapshotIdView) -> bool,
    id: SnapshotIdView,
)
    requires
        list.contains(id),
        p(id),
    ensures
        list.filter(p).contains(id),
    decreases list.len(),
{
    reveal(Seq::filter);
    let init = list.drop_last();
    let now = list.filter(p);
    let before = init.filter(p);
    if list.last() == id {
        assert(now[before.len() as int] == id);
    } else {
        let i = list.index_of(id);
        assert(init[i] == id);
        lemma_filter_keeps(init, p, id);
        let j = before.index_of(id);
        assert(now[j] == id);
    }
}

/// A snapshot is redundant if and only if it is in a loose pack, and a snapshot
/// with the same checksum is in a pack that is not loose.
pub proof fn law_redundant_means_packed(snapshots: Seq<ChecksummedSnapshot>, id: SnapshotIdView)
    ensures
        redundant(grouped(snapshots)).contains(id) <==> {
            &&& seq!['l', 'o', 'o', 's', 'e', '/'].is_prefix_of(id.pack)
            &&& exists|a: ChecksummedSnapshot, b: ChecksummedSnapshot|
                {
                    &&& #[trigger] snapshots.contains(a)
                    &&& #[trigger] snapshots.contains(b)
                    &&& a.id == id
                    &&& a.checksum == b.checksum
                    &&& !seq!['l', 'o', 'o', 's', 'e', '/'].is_prefix_of(b.id.pack)
                }
        },
{
    let start = seq!['l', 'o', 'o', 's', 'e', '/'];
    repository::law_loose_names(id.pack);
    if redundant(grouped(snapshots)).contains(id) {
        law_redundant_has_packed_copy(snapshots, id);
        let (a, b) = choose|a: ChecksummedSnapshot, b: ChecksummedSnapshot|
            {
                &&& #[trigger] snapshots.contains(a)
                &&& #[trigger] snapshots.contains(b)
                &&& a.id == id
                &&& a.checksum == b.checksum
                &&& !repository::has_loose_name(b.id.pack)
            };
        repository::law_loose_names(b.id.pack);
        assert(snapshots.contains(a) && snapshots.contains(b));
    }
    if start.is_prefix_of(id.pack) && exists|a: ChecksummedSnapshot, b: ChecksummedSnapshot|
        {
            &&& #[trigger] snapshots.contains(a)
            &&& #[trigger] snapshots.contains(b)
            &&& a.id == id
            &&& a.checksum == b.checksum
            &&& !start.is_prefix_of(b.id.pack)
        } {
        let (a, b) = choose|a: ChecksummedSnapshot, b: ChecksummedSnapshot|
            {
                &&& #[trigger] snapshots.contains(a)
                &&& #[trigger] snapshots.contains(b)
                &&& a.id == id
                &&& a.checksum == b.checksum
                &&& !start.is_prefix_of(b.id.pack)
            };
        repository::law_loose_names(b.id.pack);
        let groups = grouped(snapshots);
        let g = lemma_in_its_group(snapshots, a);
        let h = lemma_in_its_group(snapshots, b);
        lemma_grouped_distinct(snapshots);
        assert(group_checksums(groups)[g] == group_checksums(groups)[h]);
        assert(g == h);
        let list = groups[g].snapshots;
        let i = list.index_of(a.id);
        let j = list.index_of(b.id);
        assert(list[i] != list[j]);
        assert(!repository::has_loose_name(list[j].pack));
        lemma_group_is_redundant(groups, g, id);
    }
}

/// All snapshots of all packs are compared, each by its checksum, and no others.
pub proof fn law_all_snapshots_are_compared(
    packs: Seq<PackId>,
    indexes: Seq<PackIndexV1>,
    c: ChecksummedSnapshot,
)
    requires
        packs.len() == indexes.len(),
    ensures
        snapshots_of(packs, indexes, packs.len() as int).contains(c) <==> exists|k: int, i: int|
            {
                &&& 0 <= k < packs.len()
                &&& 0 <= i < indexes[k]@.tags.len()
                &&& c.id.pack == packs[k]@
                &&& c.id.tag == #[trigger] indexes[k]@.tags[i]
                &&& c.checksum == search::snapshot_checksum(indexes[k]@, c.id.tag)->0
            },
{
    lemma_compared(packs, indexes, packs.len() as int, c);
}

proof fn lemma_compared(
    packs: Seq<PackId>,
    indexes: Seq<PackIndexV1>,
    n: int,
    c: ChecksummedSnapshot,
)
    requires
        0 <= n <= packs.len(),
        packs.len() == indexes.len(),
    ensures
        snapshots_of(packs, indexes, n).contains(c) <==> exists|k: int, i: int|
            {
                &&& 0 <= k < n
                &&& 0 <= i < indexes[k]@.tags.len()
                &&& c.id.pack == packs[k]@
                &&& c.id.tag == #[trigger] indexes[k]@.tags[i]
                &&& c.checksum == search::snapshot_checksum(indexes[k]@, c.id.tag)->0
            },
    decreases n,
{
    if n > 0 {
        lemma_compared(packs, indexes, n - 1, c);
        let v = indexes[n - 1]@;
        let pack = packs[n - 1]@;
        let before = snapshots_of(packs, indexes, n - 1);
        let here = snapshots_in(pack, v, v.tags.len() as int);
        let now = snapshots_of(packs, indexes, n);
        lemma_compared_in(pack, v, v.tags.len() as int, c);
        if now.contains(c) {
            let x = now.index_of(c);
            if x < before.len() {
                assert(before[x] == c);
            } else {
                assert(here[x - before.len()] == c);
                let i = choose|i: int|
                    0 <= i < v.tags.len() && c.id.tag == #[trigger] v.tags[i] && lookup::is_last(
                        v.tags,
                        i,
                    );
                assert(indexes[n - 1]@.tags[i] == c.id.tag);
            }
        }
        if exists|k: int, i: int|
            {
                &&& 0 <= k < n
                &&& 0 <= i < indexes[k]@.tags.len()
                &&& c.id.pack == packs[k]@
                &&& c.id.tag == #[trigger] indexes[k]@.tags[i]
                &&& c.checksum == search::snapshot_checksum(indexes[k]@, c.id.tag)->0
            } {
            let (k, i) = choose|k: int, i: int|
                {
                    &&& 0 <= k < n
                    &&& 0 <= i < indexes[k]@.tags.len()
                    &&& c.id.pack == packs[k]@
                    &&& c.id.tag == #[trigger] indexes[k]@.tags[i]
                    &&& c.checksum == search::snapshot_checksum(indexes[k]@, c.id.tag)->0
                };
            if k < n - 1 {
                assert(indexes[k]@.tags[i] == c.id.tag);
                let x = before.index_of(c);
                assert(now[x] == c);
            } else {
                let j = lemma_last_of(v.tags, c.id.tag, v.tags.len() as int);
                assert(v.tags[j] == c.id.tag);
                let x = here.index_of(c);
                assert(now[before.len() + x] == c);
            }
        }
    }
}

/// The last position of a tag.
proof fn lemma_last_of(tags: Seq<Seq<char>>, tag: Seq<char>, n: int) -> (j: int)
    requires
        0 <= n <= tags.len(),
        tags.contains(tag),
        forall|i: int| n <= i < tags.len() ==> #[trigger] tags[i] != tag,
    ensures
        0 <= j < tags.len(),
        tags[j] == tag,
        lookup::is_last(tags, j),
    decreases n,
{
    let at = tags.index_of(tag);
    assert(at < n);
    if tags[n - 1] == tag {
        n - 1
    } else {
        lemma_last_of(tags, tag, n - 1)
    }
}

proof fn lemma_compared_in(pack: Seq<char>, v: IndexView, n: int, c: ChecksummedSnapshot)
    requires
        0 <= n <= v.tags.len(),
    ensures
        snapshots_in(pack, v, n).contains(c) <==> c == checksummed(pack, v, c.id.tag) && exists|
            i: int,
        | 0 <= i < n && c.id.tag == #[trigger] v.tags[i] && lookup::is_last(v.tags, i),
    decreases n,
{
    if n > 0 {
        lemma_compared_in(pack, v, n - 1, c);
        let before = snapshots_in(pack, v, n - 1);
        let now = snapshots_in(pack, v, n);
        if now.contains(c) {
            let x = now.index_of(c);
            if x < before.len() {
                assert(before[x] == c);
            } else {
                assert(v.tags[n - 1] == c.id.tag);
            }
        }
        if c == checksummed(pack, v, c.id.tag) && exists|i: int|
            0 <= i < n && c.id.tag == #[trigger] v.tags[i] && lookup::is_last(v.tags, i) {
            let i = choose|i: int|
                0 <= i < n && c.id.tag == #[trigger] v.tags[i] && lookup::is_last(v.tags, i);
            if i < n - 1 {
                assert(v.tags[i] == c.id.tag);
                let x = before.index_of(c);
                assert(now[x] == c);
            } else {
                assert(now[before.len() as int] == c);
            }
        }
    }
}

/// The packs that remain are those of the given ones that are not removed, each
/// once.
pub proof fn law_remaining_packs_are_not_removed(
    names: Seq<Seq<char>>,
    removed: Seq<Seq<char>>,
    name: Seq<char>,
)
    requires
        names.no_duplicates(),
    ensures
        without(names, removed).no_duplicates(),
        without(names, removed).contains(name) <==> names.contains(name) && !removed.contains(name),
    decreases removed.len(),
{
    if removed.len() > 0 {
        let init = removed.drop_last();
        let gone = removed.last();
        let before = without(names, init);
        let now = without(names, removed);
        law_remaining_packs_are_not_removed(names, init, name);
        assert(removed.contains(name) <==> init.contains(name) || gone == name) by {
            if init.contains(name) {
                assert(removed[init.index_of(name)] == name);
            }
            if gone == name {
                assert(removed[removed.len() - 1] == name);
            }
            if removed.contains(name) && gone != name {
                assert(init[removed.index_of(name)] == name);
            }
        }
        if before.contains(gone) {
            let at = before.index_of(gone);
            if now.contains(name) {
                let x = now.index_of(name);
                if x < at {
                    assert(before[x] == name);
                } else {
                    assert(before[x + 1] == name);
                }
            }
            if before.contains(name) && gone != name {
                let x = before.index_of(name);
                if x < at {
                    assert(now[x] == name);
                } else {
                    assert(now[x - 1] == name);
                }
            }
        }
    }
}

/// An object is referenced if and only if one of the indexes has it.
pub proof fn law_object_in_use_is_referenced(
    indexes: Seq<PackIndexV1>,
    k: int,
    h: int,
    checksum: Seq<u8>,
)
    ensures
        0 <= k < indexes.len() && 0 <= h < indexes[k]@.objects.len() && indexes[k]@.objects[h]
            == checksum ==> is_referenced(indexes, checksum),
        is_referenced(indexes, checksum) ==> exists|i: int, j: int|
            {
                &&& 0 <= i < indexes.len()
                &&& 0 <= j < indexes[i]@.objects.len()
                &&& #[trigger] indexes[i]@.objects[j] == checksum
            },
{
    if 0 <= k < indexes.len() && 0 <= h < indexes[k]@.objects.len() && indexes[k]@.objects[h]
        == checksum {
        assert(indexes[k]@.objects.contains(checksum));
    }
    if is_referenced(indexes, checksum) {
        let i = choose|i: int|
            0 <= i < indexes.len() && (#[trigger] indexes[i])@.objects.contains(checksum);
        let j = indexes[i]@.objects.index_of(checksum);
        assert(indexes[i]@.objects[j] == checksum);
    }
}

/// The snapshots in a group all have its checksum, and no two groups have the same
/// one. Every snapshot is in a group.
pub proof fn law_groups_have_one_checksum(
    snapshots: Seq<ChecksummedSnapshot>,
    s: ChecksummedSnapshot,
)
    requires
        snapshots.contains(s),
    ensures
        exists|g: int|
            {
                &&& 0 <= g < grouped(snapshots).len()
                &&& (#[trigger] grouped(snapshots)[g]).checksum == s.checksum
                &&& grouped(snapshots)[g].snapshots.contains(s.id)
            },
        forall|g: int, h: int|
            0 <= g < h < grouped(snapshots).len() ==> (#[trigger] grouped(snapshots)[g]).checksum
                != (#[trigger] grouped(snapshots)[h]).checksum,
{
    let groups = grouped(snapshots);
    let g = lemma_in_its_group(snapshots, s);
    assert(groups[g].checksum == s.checksum);
    lemma_grouped_distinct(snapshots);
    assert forall|g: int, h: int| 0 <= g < h < groups.len() implies (#[trigger] groups[g]).checksum
        != (#[trigger] groups[h]).checksum by {
        assert(group_checksums(groups)[g] != group_checksums(groups)[h]);
    }
}

} // verus!
