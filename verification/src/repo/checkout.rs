//! Extraction of a snapshot: which files are written, which are removed, and
//! when the working directory is in the way.

use super::diff;
use super::error::Error;
use super::fs::{get_last_modified, Timestamp};
use super::fs;
use super::id::SnapshotId;
use super::repository::Repository;
use crate::bytes;
use crate::bytes::ByteString;
use crate::lookup;
use crate::lookup::PositionTable;
use crate::packidx::model;
use crate::packidx::model::IndexView;
use crate::packidx::packidx;
use crate::packidx::packidx::FileEntryView;
use crate::packidx::{FileEntry, FileHandle, PackError, PackIndexV1};
use crate::sort;
use crate::sort::sort_bytes;
use crate::split;
use vstd::prelude::*;

verus! {

/// A struct specifying the the extract options.
#[derive(Clone, Copy, Debug, PartialEq, Eq, Structural)]
pub struct ExtractOptions {
    /// Toggle checksum verification.
    verify: bool,
    /// Toggle reset mode on/off.
    reset: bool,
    /// Toggle checks guarding against overwriting user-modified files.
    force: bool,
    /// Number of decompression threads (this is an upper-limit).
    num_workers: u32,
}

/// What [`ExtractOptions`] say.
pub struct OptionsView {
    pub verify: bool,
    pub reset: bool,
    pub force: bool,
    pub num_workers: u32,
}

impl View for ExtractOptions {
    type V = OptionsView;

    closed spec fn view(&self) -> OptionsView {
        OptionsView {
            verify: self.verify,
            reset: self.reset,
            force: self.force,
            num_workers: self.num_workers,
        }
    }
}

impl ExtractOptions {
    /// Toggle checksum verification.
    pub fn verify(&self) -> (r: bool)
        ensures
            r == self@.verify,
    {
        self.verify
    }

    /// Toggle checksum verification.
    pub fn set_verify(&mut self, value: bool)
        ensures
            final(self)@ == (OptionsView { verify: value, ..old(self)@ }),
    {
        self.verify = value;
    }

    /// Toggle reset mode on/off.
    pub fn reset(&self) -> (r: bool)
        ensures
            r == self@.reset,
    {
        self.reset
    }

    /// Toggle reset mode on/off.
    pub fn set_reset(&mut self, value: bool)
        ensures
            final(self)@ == (OptionsView { reset: value, ..old(self)@ }),
    {
        self.reset = value;
    }

    /// Toggle checks guarding against overwriting user-modified files.
    pub fn force(&self) -> (r: bool)
        ensures
            r == self@.force,
    {
        self.force
    }

    /// Toggle checks guarding against overwriting user-modified files.
    pub fn set_force(&mut self, value: bool)
        ensures
            final(self)@ == (OptionsView { force: value, ..old(self)@ }),
    {
        self.force = value;
    }

    /// Number of decompression threads (this is an upper-limit).
    pub fn num_workers(&self) -> (r: u32)
        ensures
            r == self@.num_workers,
    {
        self.num_workers
    }

    /// Number of decompression threads (this is an upper-limit).
    pub fn set_num_workers(&mut self, value: u32)
        ensures
            final(self)@ == (OptionsView { num_workers: value, ..old(self)@ }),
    {
        self.num_workers = value;
    }
}

impl Default for ExtractOptions {
    fn default() -> (r: Self)
        ensures
            r@ == (OptionsView { verify: true, reset: false, force: false, num_workers: 1 }),
    {
        ExtractOptions {
            // Verification might be expensive, but makes a good default to have
            // since it can help make sure that the pack contents has not been tampered with.
            verify: true,
            reset: false,
            // Safety checks on by default is safer :)
            force: false,
            // Default to single-thread decompression.
            num_workers: 1,
        }
    }
}

/// How many files an extraction has changed.
#[derive(Clone, Copy, Debug, PartialEq, Eq, Structural)]
pub struct ExtractResult {
    pub modified_file_count: u32,
    pub added_file_count: u32,
    pub removed_file_count: u32,
}

/// What an extraction does.
pub struct ExtractPlan {
    /// The entries that are extracted.
    pub new_entries: Vec<FileEntry>,
    /// The entries whose files are removed or replaced.
    pub old_entries: Vec<FileEntry>,
    /// The paths of the files that are deleted, in ascending order.
    pub removed_paths: Vec<Vec<u8>>,
    /// How many files are changed.
    pub result: ExtractResult,
}

/// The paths of entries.
pub open spec fn paths_in(entries: Seq<FileEntryView>) -> Seq<Seq<u8>> {
    entries.map_values(|e: FileEntryView| e.path)
}

/// The paths of files that are replaced.
pub open spec fn updated_paths(new_entries: Seq<FileEntryView>, old_entries: Seq<FileEntryView>) -> Set<
    Seq<u8>,
> {
    paths_in(new_entries).to_set().intersect(paths_in(old_entries).to_set())
}

/// The paths of files that are deleted. There is no point in deleting files
/// which will be overwritten.
pub open spec fn removed_paths(new_entries: Seq<FileEntryView>, old_entries: Seq<FileEntryView>) -> Set<
    Seq<u8>,
> {
    paths_in(old_entries).to_set().difference(paths_in(new_entries).to_set())
}

/// The plan is the one for writing the new entries in place of the old ones.
pub open spec fn is_plan_for(
    plan: ExtractPlan,
    new_entries: Seq<FileEntryView>,
    old_entries: Seq<FileEntryView>,
) -> bool {
    let updated = updated_paths(new_entries, old_entries).len() as int;
    let removed = split::byte_views(plan.removed_paths@);
    &&& packidx::entry_views(plan.new_entries@) == new_entries
    &&& packidx::entry_views(plan.old_entries@) == old_entries
    &&& removed.to_set() == removed_paths(new_entries, old_entries)
    &&& forall|i: int, j: int|
        0 <= i < j < removed.len() ==> bytes::lex_less(#[trigger] removed[i], #[trigger] removed[j])
    &&& plan.result.added_file_count == (new_entries.len() - updated) % 0x1_0000_0000
    &&& plan.result.removed_file_count == removed_paths(new_entries, old_entries).len()
        % 0x1_0000_0000
    &&& plan.result.modified_file_count == updated % 0x1_0000_0000
}

/// Builds a table of the paths of entries.
pub(crate) fn path_table(entries: &[FileEntry]) -> (r: PositionTable)
    ensures
        r.wf(),
        r@ == paths_in(packidx::entry_views(entries@)),
{
    let ghost all = paths_in(packidx::entry_views(entries@));
    let mut r = PositionTable::new();
    let mut i: usize = 0;
    while i < entries.len()
        invariant
            i <= entries.len(),
            all == paths_in(packidx::entry_views(entries@)),
            r.wf(),
            r@ == all.take(i as int),
        decreases entries.len() - i,
    {
        r.push(entries[i].path.duplicate());
        assert(r@ =~= all.take(i + 1));
        i += 1;
    }
    assert(all.take(i as int) =~= all);
    r
}

/// Lists each path of the entries that is in the table of the others, or each
/// that is not.
pub(crate) fn distinct_paths(entries: &[FileEntry], others: &PositionTable, in_others: bool) -> (r: Vec<Vec<u8>>)
    requires
        others.wf(),
    ensures
        split::byte_views(r@).no_duplicates(),
        forall|p: Seq<u8>| #[trigger]
            split::byte_views(r@).contains(p) <==> paths_in(
                packidx::entry_views(entries@),
            ).contains(p) && others@.contains(p) == in_others,
{
    let own = path_table(entries);
    let ghost all = paths_in(packidx::entry_views(entries@));
    let mut r: Vec<Vec<u8>> = Vec::new();
    let mut i: usize = 0;
    while i < entries.len()
        invariant
            others.wf(),
            own.wf(),
            own@ == all,
            all == paths_in(packidx::entry_views(entries@)),
            all.len() == entries@.len(),
            i <= entries.len(),
            split::byte_views(r@).no_duplicates(),
            forall|p: Seq<u8>| #[trigger]
                split::byte_views(r@).contains(p) <==> others@.contains(p) == in_others && exists|
                    k: int,
                |
                    0 <= k < i && #[trigger] lookup::is_last(all, k) && all[k] == p,
        decreases entries.len() - i,
    {
        let ghost before = split::byte_views(r@);
        let path = entries[i].path.as_slice();
        assert(all[i as int] == path@);
        let at = own.find_last(path);
        let last = match at {
            Some(k) => k == i,
            None => false,
        };
        assert(last == lookup::is_last(all, i as int));
        if last && others.contains(path) == in_others {
            r.push(entries[i].path.duplicate());
            proof {
                let now = split::byte_views(r@);
                assert(now =~= before.push(path@));
                assert forall|p: Seq<u8>| #[trigger] now.contains(p) <==> others@.contains(p)
                    == in_others && exists|k: int|
                    0 <= k < i + 1 && #[trigger] lookup::is_last(all, k) && all[k] == p by {
                    if p == path@ {
                        assert(now[before.len() as int] == p);
                        assert(lookup::is_last(all, i as int));
                    } else if before.contains(p) {
                        assert(now[before.index_of(p)] == p);
                        let k = choose|k: int|
                            0 <= k < i && #[trigger] lookup::is_last(all, k) && all[k] == p;
                        assert(lookup::is_last(all, k));
                    } else {
                        if now.contains(p) {
                            assert(before[now.index_of(p)] == p);
                        }
                    }
                }
                if before.contains(path@) {
                    let k = choose|k: int|
                        0 <= k < i && #[trigger] lookup::is_last(all, k) && all[k] == path@;
                    assert(all[i as int] != all[k]);
                }
            }
        } else {
            assert forall|p: Seq<u8>| #[trigger] before.contains(p) <==> others@.contains(p)
                == in_others && exists|k: int|
                0 <= k < i + 1 && #[trigger] lookup::is_last(all, k) && all[k] == p by {
                if before.contains(p) {
                    let k = choose|k: int|
                        0 <= k < i && #[trigger] lookup::is_last(all, k) && all[k] == p;
                    assert(lookup::is_last(all, k));
                }
            }
        }
        i += 1;
    }
    assert forall|p: Seq<u8>| #[trigger] split::byte_views(r@).contains(p) <==> all.contains(p)
        && others@.contains(p) == in_others by {
        if all.contains(p) {
            lemma_last_exists(all, p, all.len() as int);
        }
    }
    r
}

proof fn lemma_last_exists(keys: Seq<Seq<u8>>, k: Seq<u8>, n: int)
    requires
        0 <= n <= keys.len(),
        keys.contains(k),
        forall|j: int| n <= j < keys.len() ==> #[trigger] keys[j] != k,
    ensures
        exists|i: int| 0 <= i < n && #[trigger] lookup::is_last(keys, i) && keys[i] == k,
    decreases n,
{
    let at = keys.index_of(k);
    assert(at < n);
    if keys[n - 1] == k {
        assert(lookup::is_last(keys, n - 1));
    } else {
        lemma_last_exists(keys, k, n - 1);
    }
}

/// Truncates a count to the type of counts.
fn count(n: usize) -> (r: u32)
    ensures
        r == (n as int) % 0x1_0000_0000,
{
    let n = n as u64;
    let r = #[verifier::truncate] (n as u32);
    assert(r == n % 0x1_0000_0000) by (bit_vector)
        requires
            r == n as u32,
    ;
    r
}

/// Plans to write the new entries in place of the old ones.
pub fn plan_update(new_entries: Vec<FileEntry>, old_entries: Vec<FileEntry>) -> (r: ExtractPlan)
    ensures
        is_plan_for(
            r,
            packidx::entry_views(new_entries@),
            packidx::entry_views(old_entries@),
        ),
{
    let ghost news = packidx::entry_views(new_entries@);
    let ghost olds = packidx::entry_views(old_entries@);
    let table = path_table(new_entries.as_slice());
    let updated = distinct_paths(old_entries.as_slice(), &table, true);
    let removed = distinct_paths(old_entries.as_slice(), &table, false);
    let ghost removed_views = split::byte_views(removed@);
    proof {
        let u = split::byte_views(updated@);
        assert(u.to_set() =~= updated_paths(news, olds));
        assert(removed_views.to_set() =~= removed_paths(news, olds));
        u.unique_seq_to_set();
        removed_views.unique_seq_to_set();
        paths_in(news).lemma_cardinality_of_set();
        vstd::set_lib::lemma_len_subset(u.to_set(), paths_in(news).to_set());
        assert(removed_views.len() == removed.len());
        sort::lemma_sorted_bytes(removed_views);
    }
    let p = sort_bytes(removed.as_slice());
    let mut sorted: Vec<Vec<u8>> = Vec::new();
    let mut i: usize = 0;
    // The list is sorted because the removal of empty directories is more
    // efficient in this case.
    while i < p.len()
        invariant
            i <= p.len(),
            p@.len() == removed@.len(),
            removed_views == split::byte_views(removed@),
            p@ == sort::sorting_of(sort::bytes_order(removed_views), removed@.len() as int),
            sort::is_sorting(sort::bytes_order(removed_views), p@, removed@.len() as int),
            split::byte_views(sorted@) == sort::sorted_bytes(removed_views).take(i as int),
        decreases p.len() - i,
    {
        let ghost before = split::byte_views(sorted@);
        let path = removed[p[i]].duplicate();
        sorted.push(path);
        proof {
            let s = sort::sorted_bytes(removed_views);
            assert(s[i as int] == path@);
            assert(split::byte_views(sorted@) =~= before.push(path@));
            assert(s.take(i + 1) =~= s.take(i as int).push(s[i as int]));
        }
        i += 1;
    }
    assert(split::byte_views(sorted@) =~= sort::sorted_bytes(removed_views));
    let result = ExtractResult {
        added_file_count: count(new_entries.len() - updated.len()),
        removed_file_count: count(removed.len()),
        modified_file_count: count(updated.len()),
    };
    ExtractPlan { new_entries, old_entries, removed_paths: sorted, result }
}

/// The entries are those of a snapshot, in some order.
pub open spec fn lists_snapshot(es: Seq<FileEntryView>, v: IndexView, tag: Seq<char>) -> bool {
    exists|handles: Seq<FileHandle>| #[trigger]
        lists_handles(handles, v, tag) && es == model::entries_of(v, handles)
}

/// The handles are those of the files of a snapshot, in some order.
pub open spec fn lists_handles(handles: Seq<FileHandle>, v: IndexView, tag: Seq<char>) -> bool {
    handles.no_duplicates() && model::snapshot_files(v, tag) == Some(handles.to_set())
}

/// The snapshot is in the index, and its files are found by following the
/// changes between snapshots. The objects of its files are described.
pub open spec fn is_known(v: IndexView, tag: Seq<char>) -> bool {
    &&& model::resolvable(v, tag)
    &&& model::snapshot_files(v, tag) matches Some(files)
    &&& model::files_described(v, files)
}

/// Each file of the snapshot is described in the index.
pub open spec fn is_sound(v: IndexView, tag: Seq<char>) -> bool {
    model::faultless(v, model::snapshot_files(v, tag)->0)
}

/// The error is the one for the first file of the snapshot that is not
/// described, where the files are in some order.
pub open spec fn is_fault(e: PackError, v: IndexView, tag: Seq<char>) -> bool {
    exists|handles: Seq<FileHandle>| #[trigger]
        lists_handles(handles, v, tag) && model::fault_from(v, handles, 0) == Some(e)
}

proof fn lemma_fault_from(v: IndexView, handles: Seq<FileHandle>, from: int)
    requires
        0 <= from <= handles.len(),
    ensures
        model::fault_from(v, handles, from) is None <==> forall|i: int|
            from <= i < handles.len() ==> model::handle_fault(v, #[trigger] handles[i]) is None,
    decreases handles.len() - from,
{
    if from < handles.len() {
        lemma_fault_from(v, handles, from + 1);
        assert(handles[from] == handles[from]);
    }
}

/// Lists the entries of a snapshot.
pub fn snapshot_entries(index: &PackIndexV1, tag: &str) -> (r: Result<Vec<FileEntry>, PackError>)
    requires
        is_known(index@, tag@),
    ensures
        r is Ok <==> is_sound(index@, tag@),
        match r {
            Ok(es) => lists_snapshot(packidx::entry_views(es@), index@, tag@),
            Err(e) => is_fault(e, index@, tag@),
        },
{
    match index.resolve_snapshot(tag) {
        Some(handles) => {
            proof {
                let files = model::snapshot_files(index@, tag@)->0;
                assert(lists_handles(handles@, index@, tag@));
                lemma_fault_from(index@, handles@, 0);
                assert forall|h: FileHandle| #[trigger] files.contains(h) <==> handles@.contains(
                    h,
                ) by {}
                assert forall|i: int| 0 <= i < handles@.len() implies model::is_described(
                    index@,
                    #[trigger] handles@[i],
                ) by {
                    assert(files.contains(handles@[i]));
                }
                if model::fault_from(index@, handles@, 0) is None {
                    assert forall|h: FileHandle| #[trigger] files.contains(h) implies
                        model::handle_fault(index@, h) is None by {
                        let i = handles@.index_of(h);
                        assert(handles@[i] == h);
                    }
                } else if is_sound(index@, tag@) {
                    assert forall|i: int| 0 <= i < handles@.len() implies model::handle_fault(
                        index@,
                        #[trigger] handles@[i],
                    ) is None by {
                        assert(handles@.contains(handles@[i]));
                        assert(files.contains(handles@[i]));
                    }
                }
            }
            index.entries_from_handles(handles.as_slice())
        },
        None => {
            assert(false);
            Ok(Vec::new())
        },
    }
}

/// The current snapshot is known, but not when it was extracted, so that nothing
/// tells which files were modified since.
pub open spec fn is_age_unknown(
    head: Option<SnapshotId>,
    head_time: Option<Timestamp>,
    force: bool,
) -> bool {
    head is Some && head_time is None && !force
}

/// The files of the current snapshot do not matter for the extraction.
pub open spec fn extracts_all(head: Option<SnapshotId>, reset: bool) -> bool {
    reset || head is None
}

/// The index with the current snapshot. The packs of the two snapshots might
/// differ.
pub open spec fn index_of_head(
    snapshot_id: SnapshotId,
    head: SnapshotId,
    source: PackIndexV1,
    head_index: Option<PackIndexV1>,
) -> IndexView {
    if snapshot_id@.pack == head@.pack {
        source@
    } else {
        head_index->0@
    }
}

/// The plan is the one for extracting the entries of a snapshot over those of
/// the current one, or for extracting them all.
pub open spec fn is_planned(
    plan: ExtractPlan,
    entries: Seq<FileEntryView>,
    head_entries: Seq<FileEntryView>,
    snapshot_id: SnapshotId,
    head: Option<SnapshotId>,
    source: PackIndexV1,
    head_index: Option<PackIndexV1>,
    reset: bool,
) -> bool {
    &&& lists_snapshot(entries, source@, snapshot_id@.tag)
    &&& if extracts_all(head, reset) {
        is_plan_for(plan, entries, Seq::empty())
    } else {
        &&& lists_snapshot(
            head_entries,
            index_of_head(snapshot_id, head->0, source, head_index),
            head->0@.tag,
        )
        &&& is_plan_for(
            plan,
            diff::only_in(entries, head_entries),
            diff::only_in(head_entries, entries),
        )
    }
}

/// The outcome is that of planning the extraction of a snapshot over the current
/// one.
pub open spec fn is_extract_outcome(
    r: Result<ExtractPlan, Error>,
    snapshot_id: SnapshotId,
    head: Option<SnapshotId>,
    head_time: Option<Timestamp>,
    source: PackIndexV1,
    head_index: Option<PackIndexV1>,
    opts: OptionsView,
) -> bool {
    &&& r is Ok <==> {
        &&& !is_age_unknown(head, head_time, opts.force)
        &&& is_sound(source@, snapshot_id@.tag)
        &&& extracts_all(head, opts.reset) || is_sound(
            index_of_head(snapshot_id, head->0, source, head_index),
            head->0@.tag,
        )
    }
    &&& match r {
        Ok(plan) => exists|entries: Seq<FileEntryView>, head_entries: Seq<FileEntryView>| #[trigger]
            is_planned(
                plan,
                entries,
                head_entries,
                snapshot_id,
                head,
                source,
                head_index,
                opts.reset,
            ),
        Err(Error::DirtyWorkDir) => is_age_unknown(head, head_time, opts.force),
        Err(Error::PackError(e)) => {
            &&& !is_age_unknown(head, head_time, opts.force)
            &&& if is_sound(source@, snapshot_id@.tag) {
                is_fault(
                    e,
                    index_of_head(snapshot_id, head->0, source, head_index),
                    head->0@.tag,
                )
            } else {
                is_fault(e, source@, snapshot_id@.tag)
            }
        },
        Err(_) => false,
    }
}

impl Repository {
    /// Plans the extraction of a snapshot over the current one. `source_index` is
    /// the index of the pack of the snapshot, and `head_index` the one of the pack
    /// of the current snapshot, where that is another pack.
    pub fn extract_snapshot(
        &self,
        snapshot_id: &SnapshotId,
        head: &Option<SnapshotId>,
        head_time: Option<Timestamp>,
        source_index: &PackIndexV1,
        head_index: &Option<PackIndexV1>,
        opts: &ExtractOptions,
    ) -> (r: Result<ExtractPlan, Error>)
        requires
            is_known(source_index@, snapshot_id@.tag),
            !extracts_all(*head, opts@.reset) ==> {
                &&& head->0@.pack != snapshot_id@.pack ==> *head_index is Some
                &&& is_known(
                    index_of_head(*snapshot_id, head->0, *source_index, *head_index),
                    head->0@.tag,
                )
            },
        ensures
            r is Ok <==> {
                &&& !is_age_unknown(*head, head_time, opts@.force)
                &&& is_sound(source_index@, snapshot_id@.tag)
                &&& extracts_all(*head, opts@.reset) || is_sound(
                    index_of_head(*snapshot_id, head->0, *source_index, *head_index),
                    head->0@.tag,
                )
            },
            match r {
                Ok(plan) => exists|entries: Seq<FileEntryView>, head_entries: Seq<FileEntryView>|
                    #![trigger diff::only_in(entries, head_entries)]
                    lists_snapshot(entries, source_index@, snapshot_id@.tag) && if extracts_all(
                        *head,
                        opts@.reset,
                    ) {
                        is_plan_for(plan, entries, Seq::empty())
                    } else {
                        &&& lists_snapshot(
                            head_entries,
                            index_of_head(*snapshot_id, head->0, *source_index, *head_index),
                            head->0@.tag,
                        )
                        &&& is_plan_for(
                            plan,
                            diff::only_in(entries, head_entries),
                            diff::only_in(head_entries, entries),
                        )
                    },
                Err(Error::DirtyWorkDir) => is_age_unknown(*head, head_time, opts@.force),
                Err(Error::PackError(e)) => {
                    &&& !is_age_unknown(*head, head_time, opts@.force)
                    &&& if is_sound(source_index@, snapshot_id@.tag) {
                        is_fault(
                            e,
                            index_of_head(*snapshot_id, head->0, *source_index, *head_index),
                            head->0@.tag,
                        )
                    } else {
                        is_fault(e, source_index@, snapshot_id@.tag)
                    }
                },
                Err(_) => false,
            },
            is_extract_outcome(
                r,
                *snapshot_id,
                *head,
                head_time,
                *source_index,
                *head_index,
                opts@,
            ),
            r == Err::<ExtractPlan, Error>(Error::DirtyWorkDir) <==> head is Some && head_time is None
                && !opts@.force,
            opts@.reset && r is Ok ==> r->Ok_0.removed_paths@.len() == 0
                && r->Ok_0.result.removed_file_count == 0 && forall|h: FileHandle| #[trigger]
                model::snapshot_files(source_index@, snapshot_id@.tag)->0.contains(h)
                    ==> packidx::entry_views(r->Ok_0.new_entries@).contains(
                    model::entry_of(source_index@, h),
                ),
    {
        if head.is_some() && head_time.is_none() && !opts.force() {
            return Err(Error::DirtyWorkDir);
        }
        let entries = match snapshot_entries(source_index, snapshot_id.tag()) {
            Ok(entries) => entries,
            Err(e) => {
                return Err(Error::PackError(e));
            },
        };
        let ghost views = packidx::entry_views(entries@);
        if !opts.reset() {
            if let Some(head) = head {
                let head_result = if snapshot_id.pack().same(head.pack()) {
                    snapshot_entries(source_index, head.tag())
                } else {
                    match head_index {
                        Some(head_index) => snapshot_entries(head_index, head.tag()),
                        None => {
                            assert(false);
                            Ok(Vec::new())
                        },
                    }
                };
                match head_result {
                    Ok(head_entries) => {
                        let ghost head_views = packidx::entry_views(head_entries@);
                        let (added, removed) = Repository::compute_entry_diff(
                            head_entries.as_slice(),
                            entries.as_slice(),
                        );
                        let plan = plan_update(added, removed);
                        let r: Result<ExtractPlan, Error> = Ok(plan);
                        assert(is_planned(
                            r->Ok_0,
                            views,
                            head_views,
                            *snapshot_id,
                            Some(*head),
                            *source_index,
                            *head_index,
                            opts@.reset,
                        ));
                        assert(is_plan_for(
                            r->Ok_0,
                            diff::only_in(views, head_views),
                            diff::only_in(head_views, views),
                        ));
                        return r;
                    },
                    Err(e) => {
                        return Err(Error::PackError(e));
                    },
                }
            }
        }
        // Extract all, remove nothing
        let none: Vec<FileEntry> = Vec::new();
        assert(packidx::entry_views(none@) =~= Seq::empty());
        let plan = plan_update(entries, none);
        let r: Result<ExtractPlan, Error> = Ok(plan);
        proof {
            let any = Seq::<FileEntryView>::empty();
            let d = diff::only_in(views, any);
            assert(is_plan_for(r->Ok_0, views, Seq::empty()));
            assert(is_planned(
                r->Ok_0,
                views,
                Seq::empty(),
                *snapshot_id,
                *head,
                *source_index,
                *head_index,
                opts@.reset,
            ));
            assert(is_extract_outcome(
                r,
                *snapshot_id,
                *head,
                head_time,
                *source_index,
                *head_index,
                opts@,
            ));
            if opts@.reset {
                law_reset_extracts_everything(
                    r,
                    *snapshot_id,
                    *head,
                    head_time,
                    *source_index,
                    *head_index,
                    opts@,
                );
            }
        }
        r
    }
}

/// When a file was created and modified, as far as that is known.
#[derive(Clone, Copy, Debug)]
pub struct FileTimes {
    pub created: Option<Timestamp>,
    pub modified: Option<Timestamp>,
}

/// A file is there and known not to be more recent than the current snapshot.
pub open spec fn is_unchanged(head_time: Timestamp, file: Option<FileTimes>) -> bool {
    file matches Some(times) && fs::most_recent(times.created, times.modified) matches Some(t)
        && !head_time.precedes(t)
}

impl Repository {
    /// Checks that a file was not changed since the current snapshot was extracted.
    /// If the file is missing that also means it has been modified. If the
    /// modification date of the file is unknown, there is no other option to fall
    /// back on, so we mark the directory as dirty.
    pub fn check_changed_since(&self, head_time: Timestamp, file: Option<FileTimes>) -> (r: Result<(), Error>)
        ensures
            match r {
                Ok(_) => is_unchanged(head_time, file),
                Err(e) => !is_unchanged(head_time, file) && e == Error::DirtyWorkDir,
            },
    {
        match file {
            Some(times) => match get_last_modified(times.created, times.modified) {
                Some(last_modified) => if head_time.is_before(&last_modified) {
                    Err(Error::DirtyWorkDir)
                } else {
                    Ok(())
                },
                None => Err(Error::DirtyWorkDir),
            },
            None => Err(Error::DirtyWorkDir),
        }
    }
}

impl Repository {
    /// Checks that none of the files was changed since the current snapshot was
    /// extracted, unless that is not to be checked.
    pub fn check_work_dir(&self, opts: &ExtractOptions, head_time: Timestamp, files: &[Option<FileTimes>]) -> (r:
        Result<(), Error>)
        ensures
            r is Ok <==> opts@.force || forall|i: int|
                0 <= i < files@.len() ==> is_unchanged(head_time, #[trigger] files@[i]),
            r matches Err(e) ==> e == Error::DirtyWorkDir,
    {
        if opts.force() {
            return Ok(());
        }
        let mut i: usize = 0;
        while i < files.len()
            invariant
                i <= files.len(),
                !opts@.force,
                forall|j: int| 0 <= j < i ==> is_unchanged(head_time, #[trigger] files@[j]),
            decreases files.len() - i,
        {
            match self.check_changed_since(head_time, files[i]) {
                Ok(_) => {},
                Err(e) => {
                    assert(!is_unchanged(head_time, files@[i as int]));
                    return Err(e);
                },
            }
            i += 1;
        }
        Ok(())
    }
}

/// Where the content of the files of a pack comes from.
#[derive(Clone, Copy, Debug, PartialEq, Eq, Structural)]
pub enum EntrySource {
    /// The loose objects.
    LooseObjects,
    /// The pack file.
    Pack,
    /// The pack file, which has to be fetched first.
    RemotePack,
}

/// Tells where the entries of a pack are extracted from.
pub fn entry_source(is_pack_loose: bool, can_open_pack: bool) -> (r: EntrySource)
    ensures
        r == (if is_pack_loose {
            EntrySource::LooseObjects
        } else if can_open_pack {
            EntrySource::Pack
        } else {
            EntrySource::RemotePack
        }),
{
    if is_pack_loose {
        EntrySource::LooseObjects
    } else if can_open_pack {
        EntrySource::Pack
    } else {
        EntrySource::RemotePack
    }
}

/// The files in a directory that holds nothing but the given entries: the
/// content and the metadata of each path.
pub open spec fn files_of(es: Seq<FileEntryView>) -> Map<Seq<u8>, diff::FileKey> {
    Map::new(
        |p: Seq<u8>| paths_in(es).contains(p),
        |p: Seq<u8>| diff::key_of(es[paths_in(es).index_of(p)]),
    )
}

/// Carrying out the plan for going from one snapshot to another, that is, first
/// deleting the removed files and then writing the new ones, leaves exactly the
/// files of the other snapshot.
pub proof fn law_update_leads_to_target(
    plan: ExtractPlan,
    from: Seq<FileEntryView>,
    to: Seq<FileEntryView>,
)
    requires
        paths_in(from).no_duplicates(),
        paths_in(to).no_duplicates(),
        is_plan_for(plan, diff::only_in(to, from), diff::only_in(from, to)),
    ensures
        files_of(from).remove_keys(
            split::byte_views(plan.removed_paths@).to_set(),
        ).union_prefer_right(files_of(packidx::entry_views(plan.new_entries@))) == files_of(to),
{
    let new = diff::only_in(to, from);
    let old = diff::only_in(from, to);
    let removed = removed_paths(new, old);
    let result = files_of(from).remove_keys(removed).union_prefer_right(files_of(new));
    let target = files_of(to);
    assert forall|p: Seq<u8>| result.contains_key(p) <==> target.contains_key(p) by {
        lemma_update_at(from, to, p);
    }
    assert forall|p: Seq<u8>| #[trigger] target.contains_key(p) implies result[p] == target[p] by {
        lemma_update_at(from, to, p);
    }
    assert(result =~= target);
}

/// A path is among those of entries if and only if one of their files has it.
proof fn lemma_path_has_key(es: Seq<FileEntryView>, p: Seq<u8>)
    ensures
        paths_in(es).contains(p) <==> exists|k: diff::FileKey| #[trigger]
            diff::keys_of(es).contains(k) && k.path == p,
{
    if paths_in(es).contains(p) {
        let i = paths_in(es).index_of(p);
        assert(diff::keys_of(es)[i] == diff::key_of(es[i]));
        assert(diff::keys_of(es).contains(diff::key_of(es[i])));
    }
    if exists|k: diff::FileKey| #[trigger] diff::keys_of(es).contains(k) && k.path == p {
        let k = choose|k: diff::FileKey| #[trigger] diff::keys_of(es).contains(k) && k.path == p;
        let i = diff::keys_of(es).index_of(k);
        assert(paths_in(es)[i] == p);
    }
}

/// Where paths are distinct, a path has one file.
proof fn lemma_one_key(es: Seq<FileEntryView>, k: diff::FileKey)
    requires
        paths_in(es).no_duplicates(),
        diff::keys_of(es).contains(k),
    ensures
        files_of(es).contains_key(k.path),
        files_of(es)[k.path] == k,
{
    let i = diff::keys_of(es).index_of(k);
    assert(paths_in(es)[i] == k.path);
    let j = paths_in(es).index_of(k.path);
    assert(paths_in(es)[j] == k.path);
    assert(i == j);
}

/// What an update does to one path.
proof fn lemma_update_at(from: Seq<FileEntryView>, to: Seq<FileEntryView>, p: Seq<u8>)
    requires
        paths_in(from).no_duplicates(),
        paths_in(to).no_duplicates(),
    ensures
        ({
            let new = diff::only_in(to, from);
            let removed = removed_paths(new, diff::only_in(from, to));
            let result = files_of(from).remove_keys(removed).union_prefer_right(files_of(new));
            let target = files_of(to);
            &&& result.contains_key(p) <==> target.contains_key(p)
            &&& target.contains_key(p) ==> result[p] == target[p]
        }),
{
    let new = diff::only_in(to, from);
    let old = diff::only_in(from, to);
    let removed = removed_paths(new, old);
    let result = files_of(from).remove_keys(removed).union_prefer_right(files_of(new));
    let target = files_of(to);
    lemma_path_has_key(new, p);
    lemma_path_has_key(old, p);
    assert forall|k: diff::FileKey| #[trigger] diff::keys_of(new).contains(k) <==> diff::keys_of(
        to,
    ).contains(k) && !diff::keys_of(from).contains(k) by {
        diff::law_diff_lists_missing_files(to, from, k);
    }
    assert forall|k: diff::FileKey| #[trigger] diff::keys_of(old).contains(k) <==> diff::keys_of(
        from,
    ).contains(k) && !diff::keys_of(to).contains(k) by {
        diff::law_diff_lists_missing_files(from, to, k);
    }
    if paths_in(new).contains(p) {
        let i = paths_in(new).index_of(p);
        let k = diff::key_of(new[i]);
        assert(diff::keys_of(new)[i] == k);
        assert(diff::keys_of(new).contains(k));
        lemma_one_key(to, k);
        assert(files_of(new)[p] == k);
    } else if paths_in(to).contains(p) {
        let i = paths_in(to).index_of(p);
        let k = diff::key_of(to[i]);
        assert(diff::keys_of(to)[i] == k);
        assert(diff::keys_of(to).contains(k));
        assert(!diff::keys_of(new).contains(k));
        assert(diff::keys_of(from).contains(k));
        lemma_one_key(from, k);
        lemma_one_key(to, k);
        if paths_in(old).contains(p) {
            let other = choose|o: diff::FileKey| #[trigger]
                diff::keys_of(old).contains(o) && o.path == p;
            assert(diff::keys_of(from).contains(other));
            lemma_one_key(from, other);
        }
        assert(!removed.contains(p));
    } else if paths_in(from).contains(p) {
        let i = paths_in(from).index_of(p);
        let k = diff::key_of(from[i]);
        assert(diff::keys_of(from)[i] == k);
        assert(diff::keys_of(from).contains(k));
        if diff::keys_of(to).contains(k) {
            lemma_one_key(to, k);
        }
        assert(diff::keys_of(old).contains(k));
        assert(removed.contains(p));
    }
}

/// With reset, the current snapshot does not matter, not even if it is the
/// wanted one: every file of the wanted snapshot is extracted, nothing else is,
/// and nothing is removed or replaced.
pub proof fn law_reset_extracts_everything(
    r: Result<ExtractPlan, Error>,
    snapshot_id: SnapshotId,
    head: Option<SnapshotId>,
    head_time: Option<Timestamp>,
    source: PackIndexV1,
    head_index: Option<PackIndexV1>,
    opts: OptionsView,
)
    requires
        is_extract_outcome(r, snapshot_id, head, head_time, source, head_index, opts),
        opts.reset,
        r is Ok,
    ensures
        ({
            let plan = r->Ok_0;
            let new = packidx::entry_views(plan.new_entries@);
            let files = model::snapshot_files(source@, snapshot_id@.tag);
            &&& files is Some
            &&& forall|h: FileHandle| #[trigger]
                files->0.contains(h) ==> new.contains(model::entry_of(source@, h))
            &&& forall|e: FileEntryView| #[trigger]
                new.contains(e) ==> exists|h: FileHandle| #[trigger]
                    files->0.contains(h) && e == model::entry_of(source@, h)
            &&& new.len() == files->0.len()
            &&& plan.old_entries@.len() == 0
            &&& plan.removed_paths@.len() == 0
            &&& plan.result.added_file_count == new.len() % 0x1_0000_0000
            &&& plan.result.removed_file_count == 0
            &&& plan.result.modified_file_count == 0
        }),
{
    let plan = r->Ok_0;
    let none = Seq::<FileEntryView>::empty();
    let new = packidx::entry_views(plan.new_entries@);
    let (entries, other) = choose|entries: Seq<FileEntryView>, other: Seq<FileEntryView>| #[trigger]
        is_planned(plan, entries, other, snapshot_id, head, source, head_index, opts.reset);
    let handles = choose|handles: Seq<FileHandle>| #[trigger]
        lists_handles(handles, source@, snapshot_id@.tag) && entries == model::entries_of(
            source@,
            handles,
        );
    let files = model::snapshot_files(source@, snapshot_id@.tag)->0;
    handles.unique_seq_to_set();
    assert forall|h: FileHandle| #[trigger] files.contains(h) implies new.contains(
        model::entry_of(source@, h),
    ) by {
        let i = handles.index_of(h);
        assert(handles[i] == h);
        assert(new[i] == model::entry_of(source@, h));
    }
    assert forall|e: FileEntryView| #[trigger] new.contains(e) implies exists|h: FileHandle|
        #[trigger]
        files.contains(h) && e == model::entry_of(source@, h) by {
        let i = new.index_of(e);
        assert(handles.to_set().contains(handles[i]));
        assert(new[i] == model::entry_of(source@, handles[i]));
    }
    assert(paths_in(none).to_set() =~= Set::empty());
    assert(updated_paths(entries, none) =~= Set::empty());
    assert(removed_paths(entries, none) =~= Set::empty());
    let removed = split::byte_views(plan.removed_paths@);
    assert(removed.len() == plan.removed_paths@.len());
    if removed.len() > 0 {
        assert(removed.to_set().contains(removed[0]));
    }
    assert(packidx::entry_views(plan.old_entries@).len() == plan.old_entries@.len());
}

/// An extraction over the current snapshot leads to the wanted one: where the
/// directory holds the files of the current snapshot, deleting what the plan
/// removes and writing what it extracts leaves exactly the files of the wanted
/// snapshot.
pub proof fn law_extraction_leads_to_snapshot(
    r: Result<ExtractPlan, Error>,
    snapshot_id: SnapshotId,
    head: SnapshotId,
    head_time: Option<Timestamp>,
    source: PackIndexV1,
    head_index: Option<PackIndexV1>,
    opts: OptionsView,
    at_head: IndexView,
)
    requires
        is_extract_outcome(r, snapshot_id, Some(head), head_time, source, head_index, opts),
        !opts.reset,
        r is Ok,
        snapshot_id@.pack == head@.pack ==> at_head == source@,
        snapshot_id@.pack != head@.pack ==> at_head == head_index->0@,
        forall|es: Seq<FileEntryView>| #[trigger]
            lists_snapshot(es, source@, snapshot_id@.tag) ==> paths_in(es).no_duplicates(),
        forall|es: Seq<FileEntryView>| #[trigger]
            lists_snapshot(es, at_head, head@.tag) ==> paths_in(es).no_duplicates(),
    ensures
        exists|from: Seq<FileEntryView>, to: Seq<FileEntryView>| #[trigger]
            lists_snapshot(from, at_head, head@.tag) && #[trigger] lists_snapshot(
                to,
                source@,
                snapshot_id@.tag,
            ) && files_of(from).remove_keys(
                split::byte_views(r->Ok_0.removed_paths@).to_set(),
            ).union_prefer_right(files_of(packidx::entry_views(r->Ok_0.new_entries@))) == files_of(
                to,
            ),
{
    let plan = r->Ok_0;
    let (to, from) = choose|to: Seq<FileEntryView>, from: Seq<FileEntryView>| #[trigger]
        is_planned(plan, to, from, snapshot_id, Some(head), source, head_index, opts.reset);
    law_update_leads_to_target(plan, from, to);
}

/// The counts of a plan add up: every file that is extracted is either added or
/// modified, every file that goes is either removed or modified, and as many
/// files are removed as there are paths to delete.
pub proof fn law_counts_add_up(
    plan: ExtractPlan,
    new_entries: Seq<FileEntryView>,
    old_entries: Seq<FileEntryView>,
)
    requires
        is_plan_for(plan, new_entries, old_entries),
        paths_in(old_entries).no_duplicates(),
        new_entries.len() <= u32::MAX,
        old_entries.len() <= u32::MAX,
    ensures
        plan.result.added_file_count + plan.result.modified_file_count == plan.new_entries@.len(),
        plan.result.removed_file_count + plan.result.modified_file_count == plan.old_entries@.len(),
        plan.result.removed_file_count == plan.removed_paths@.len(),
{
    let new = paths_in(new_entries);
    let old = paths_in(old_entries);
    let removed = split::byte_views(plan.removed_paths@);
    old.unique_seq_to_set();
    new.lemma_cardinality_of_set();
    vstd::seq_lib::seq_to_set_is_finite(old);
    vstd::seq_lib::seq_to_set_is_finite(new);
    let updated = updated_paths(new_entries, old_entries);
    let gone = removed_paths(new_entries, old_entries);
    vstd::set_lib::lemma_len_subset(updated, new.to_set());
    vstd::set_lib::lemma_len_subset(updated, old.to_set());
    vstd::set_lib::lemma_len_subset(gone, old.to_set());
    assert(updated + gone =~= old.to_set());
    vstd::set_lib::lemma_set_disjoint_lens(updated, gone);
    assert(packidx::entry_views(plan.new_entries@).len() == plan.new_entries@.len());
    assert(packidx::entry_views(plan.old_entries@).len() == plan.old_entries@.len());
    assert(removed.no_duplicates()) by {
        assert forall|i: int, j: int| 0 <= i < removed.len() && 0 <= j < removed.len() && i
            != j implies removed[i] != removed[j] by {
            bytes::lemma_lex_irreflexive(removed[i]);
            if i < j {
                assert(bytes::lex_less(removed[i], removed[j]));
            } else {
                assert(bytes::lex_less(removed[j], removed[i]));
            }
        }
    }
    removed.unique_seq_to_set();
    assert(removed.len() == plan.removed_paths@.len());
}

/// A file counts as unchanged if and only if it is there, it is known when it
/// was created or modified, and neither was after the current snapshot was
/// extracted, as far as it is known.
pub proof fn law_unchanged_files_are_not_newer(head_time: Timestamp, file: Option<FileTimes>)
    requires
        head_time.nanos < 1_000_000_000,
        file matches Some(t) ==> (t.created matches Some(c) ==> c.nanos < 1_000_000_000) && (
        t.modified matches Some(m) ==> m.nanos < 1_000_000_000),
    ensures
        is_unchanged(head_time, file) <==> {
            &&& file is Some
            &&& file->0.created is Some || file->0.modified is Some
            &&& file->0.created matches Some(c) ==> c.secs * 1_000_000_000 + c.nanos
                <= head_time.secs * 1_000_000_000 + head_time.nanos
            &&& file->0.modified matches Some(m) ==> m.secs * 1_000_000_000 + m.nanos
                <= head_time.secs * 1_000_000_000 + head_time.nanos
        },
{
}

} // verus!
