//! The rows of listings, in the format that the user asked for.

use super::size;
use super::size::format_size;
use crate::digest;
use crate::digest::{hex_encode, ObjectChecksum};
use crate::packidx::model;
use crate::packidx::model::IndexView;
use crate::packidx::packidx;
use crate::packidx::packidx::FileEntryView;
use crate::packidx::packidxv1;
use crate::packidx::{FileEntry, FileHandleSet, PackError, PackIndexV1};
use crate::repo::algo;
use crate::repo::id;
use crate::repo::id::{PackId, SnapshotIdView};
use crate::repo::merge;
use crate::repo::search;
use crate::repo::search::TaggedPack;
use crate::sort;
use crate::sort::sort_bytes;
use crate::split;
use crate::select;
use crate::text;
use crate::text::{contains, decimal, decode_lossy, octal, replace, text_bytes};
use vstd::prelude::*;
use vstd::string::StringExecFns;

verus! {

/// The row for a snapshot.
pub open spec fn snapshot_row(
    fmt: Seq<char>,
    pack: Seq<char>,
    tag: Seq<char>,
    bytes: u64,
    file_count: nat,
) -> Seq<char> {
    let s = text::replaced_of(fmt, "%s"@, pack + ":"@ + tag);
    let s = text::replaced_of(s, "%t"@, tag);
    let s = text::replaced_of(s, "%h"@, size::size_text(bytes));
    let s = text::replaced_of(s, "%b"@, text::decimal_of(bytes as nat));
    text::replaced_of(s, "%n"@, text::decimal_of(file_count))
}

/// Formats the row for a snapshot.
pub fn format_snapshot_row(
    fmt: &str,
    pack_id: &PackId,
    snapshot: &str,
    size: u64,
    file_count: u64,
) -> (r: String)
    ensures
        r@ == snapshot_row(fmt@, pack_id@, snapshot@, size, file_count as nat),
{
    proof {
        reveal_strlit("%s");
        reveal_strlit("%t");
        reveal_strlit("%h");
        reveal_strlit("%b");
        reveal_strlit("%n");
    }
    let mut name = pack_id.as_str().to_owned();
    name.append(":");
    name.append(snapshot);
    let s = replace(fmt, "%s", name.as_str());
    let s = replace(s.as_str(), "%t", snapshot);
    let s = replace(s.as_str(), "%h", format_size(size).as_str());
    let s = replace(s.as_str(), "%b", decimal(size).as_str());
    replace(s.as_str(), "%n", decimal(file_count).as_str())
}

/// The sizes of snapshots are part of the format.
pub open spec fn shows_size(fmt: Seq<char>) -> bool {
    text::occurs(fmt, "%h"@) || text::occurs(fmt, "%b"@)
}

/// Tells whether the sizes of snapshots are part of the format.
pub fn is_file_size_required(fmt: &str) -> (r: bool)
    ensures
        r == shows_size(fmt@),
{
    contains(fmt, "%h") || contains(fmt, "%b")
}

/// The sizes of files.
pub open spec fn sizes_in(es: Seq<FileEntryView>) -> Seq<u64> {
    es.map_values(|e: FileEntryView| e.metadata.size)
}

/// The files of the snapshot at position `i`.
pub open spec fn files_at(v: IndexView, i: int) -> Set<packidx::FileHandle> {
    model::content_after(v.deltas, i + 1)
}

/// The row is the one for the snapshot at position `i`.
pub open spec fn is_row_of(
    row: Seq<char>,
    fmt: Seq<char>,
    pack: Seq<char>,
    v: IndexView,
    i: int,
) -> bool {
    if shows_size(fmt) {
        exists|es: Seq<FileEntryView>| #[trigger]
            model::lists_files(es, v, files_at(v, i)) && row == snapshot_row(
                fmt,
                pack,
                v.tags[i],
                algo::sum_of(sizes_in(es)) as u64,
                es.len(),
            )
    } else {
        row == snapshot_row(fmt, pack, v.tags[i], 0, files_at(v, i).len())
    }
}

/// The sizes of the files in each snapshot add up.
pub open spec fn sizes_fit(v: IndexView) -> bool {
    forall|i: int, es: Seq<FileEntryView>|
        0 <= i < model::listed(v) && #[trigger] model::lists_files(es, v, files_at(v, i))
            ==> algo::sum_of(sizes_in(es)) <= u64::MAX
}

/// Adds the sizes of files.
fn total_size(entries: &[FileEntry]) -> (r: u64)
    requires
        algo::sum_of(sizes_in(packidx::entry_views(entries@))) <= u64::MAX,
    ensures
        r == algo::sum_of(sizes_in(packidx::entry_views(entries@))),
{
    let ghost sizes = sizes_in(packidx::entry_views(entries@));
    let mut r: u64 = 0;
    let mut i: usize = 0;
    assert(sizes.take(0) =~= Seq::empty());
    while i < entries.len()
        invariant
            i <= entries.len(),
            sizes == sizes_in(packidx::entry_views(entries@)),
            algo::sum_of(sizes) <= u64::MAX,
            r == algo::sum_of(sizes.take(i as int)),
        decreases entries.len() - i,
    {
        proof {
            assert(sizes.take(i + 1).drop_last() =~= sizes.take(i as int));
            assert(sizes[i as int] == entries@[i as int].metadata.size);
            algo::lemma_sum_of_prefix(sizes, i + 1);
        }
        r = r + entries[i].metadata.size;
        i += 1;
    }
    assert(sizes.take(i as int) =~= sizes);
    r
}

/// Formats the rows for the snapshots of a pack.
pub fn snapshot_rows(fmt: &str, pack_id: &PackId, index: &PackIndexV1) -> (r: Result<
    Vec<String>,
    PackError,
>)
    requires
        merge::can_walk(*index),
        shows_size(fmt@) ==> sizes_fit(index@),
        !shows_size(fmt@) ==> packidxv1::counts_fit(index@),
    ensures
        match r {
            Ok(rows) => {
                &&& shows_size(fmt@) ==> model::first_fault(index@, 0) is None
                &&& rows@.len() == model::listed(index@)
                &&& forall|i: int|
                    0 <= i < rows@.len() ==> is_row_of(
                        (#[trigger] rows@[i])@,
                        fmt@,
                        pack_id@,
                        index@,
                        i,
                    )
            },
            Err(e) => shows_size(fmt@) && model::first_fault(index@, 0) == Some(e),
        },
{
    let ghost v = index@;
    let tags = index.snapshot_tags();
    let n = index.snapshot_count();
    let mut rows: Vec<String> = Vec::new();
    if is_file_size_required(fmt) {
        let mut files = FileHandleSet::new();
        let mut i: usize = 0;
        while i < n
            invariant
                i <= n,
                n == model::listed(v),
                v == index@,
                merge::can_walk(*index),
                shows_size(fmt@),
                sizes_fit(v),
                model::first_fault(v, 0) == model::first_fault(v, i as int),
                packidxv1::text_views(tags@) == v.tags,
                files@ == model::content_after(v.deltas, i as int),
                model::faultless(v, files@),
                model::files_described(v, files@),
                rows@.len() == i,
                forall|j: int|
                    0 <= j < i ==> is_row_of((#[trigger] rows@[j])@, fmt@, pack_id@, v, j),
            decreases n - i,
        {
            let entries = match index.snapshot_step(&mut files, i) {
                Ok(entries) => entries,
                Err(e) => {
                    assert(model::delta_fault(v, v.deltas[i as int]) == Some(e));
                    return Err(e);
                },
            };
            let ghost es = packidx::entry_views(entries@);
            assert(model::lists_files(es, v, files_at(v, i as int)));
            assert(packidxv1::text_views(tags@)[i as int] == tags@[i as int]@);
            let row = format_snapshot_row(
                fmt,
                pack_id,
                tags[i].as_str(),
                total_size(entries.as_slice()),
                entries.len() as u64,
            );
            rows.push(row);
            assert(is_row_of(row@, fmt@, pack_id@, v, i as int));
            i += 1;
        }
    } else {
        let counts = index.snapshot_file_counts();
        let mut i: usize = 0;
        while i < n
            invariant
                i <= n,
                n == model::listed(v),
                v == index@,
                merge::can_walk(*index),
                !shows_size(fmt@),
                packidxv1::text_views(tags@) == v.tags,
                counts@.len() == n,
                packidxv1::counts_fit(v),
                forall|j: int|
                    0 <= j < n && model::file_count_after(v.deltas, j + 1) >= 0 ==> (
                    #[trigger] counts@[j]) == model::file_count_after(v.deltas, j + 1),
                rows@.len() == i,
                forall|j: int|
                    0 <= j < i ==> is_row_of((#[trigger] rows@[j])@, fmt@, pack_id@, v, j),
            decreases n - i,
        {
            proof {
                model::law_file_count_is_number_of_files(v.deltas, i + 1);
                assert(counts@[i as int] == files_at(v, i as int).len());
                assert(packidxv1::text_views(tags@)[i as int] == tags@[i as int]@);
            }
            let row = format_snapshot_row(
                fmt,
                pack_id,
                tags[i].as_str(),
                0,
                counts[i],
            );
            rows.push(row);
            i += 1;
        }
    }
    Ok(rows)
}

/// Sorts lines by their UTF-8 forms.
pub fn sort_lines(lines: &[String]) -> (r: Vec<String>)
    ensures
        packidxv1::text_views(r@) == search::sorted_names(packidxv1::text_views(lines@)),
{
    let ghost views = packidxv1::text_views(lines@);
    let ghost all = search::name_bytes(views);
    let mut keys: Vec<Vec<u8>> = Vec::new();
    let mut i: usize = 0;
    while i < lines.len()
        invariant
            i <= lines.len(),
            views == packidxv1::text_views(lines@),
            all == search::name_bytes(views),
            split::byte_views(keys@) == all.take(i as int),
        decreases lines.len() - i,
    {
        let ghost before = split::byte_views(keys@);
        let key = text_bytes(lines[i].as_str());
        keys.push(key);
        proof {
            assert(views[i as int] == lines@[i as int]@);
            assert(all[i as int] == key@);
            assert(split::byte_views(keys@) =~= before.push(key@));
            assert(all.take(i + 1) =~= all.take(i as int).push(all[i as int]));
        }
        i += 1;
    }
    assert(all.take(i as int) =~= all);
    assert(split::byte_views(keys@).len() == keys@.len());
    let p = sort_bytes(keys.as_slice());
    let ghost sorted = search::sorted_names(views);
    let mut r: Vec<String> = Vec::new();
    let mut i: usize = 0;
    while i < p.len()
        invariant
            i <= p.len(),
            views == packidxv1::text_views(lines@),
            views.len() == lines@.len(),
            p@.len() == lines@.len(),
            p@ == sort::sorting_of(sort::bytes_order(search::name_bytes(views)), p@.len() as int),
            sort::is_sorting(sort::bytes_order(search::name_bytes(views)), p@, p@.len() as int),
            sorted == search::sorted_names(views),
            packidxv1::text_views(r@) == sorted.take(i as int),
        decreases p.len() - i,
    {
        let ghost before = packidxv1::text_views(r@);
        let line = lines[p[i]].clone();
        r.push(line);
        proof {
            assert(sorted[i as int] == line@);
            assert(packidxv1::text_views(r@) =~= before.push(line@));
            assert(sorted.take(i + 1) =~= sorted.take(i as int).push(sorted[i as int]));
        }
        i += 1;
    }
    assert(packidxv1::text_views(r@) =~= sorted);
    r
}

/// The row for a file.
pub open spec fn file_row(fmt: Seq<char>, e: FileEntryView) -> Seq<char> {
    let s = text::replaced_of(fmt, "%o"@, digest::hex_of(e.checksum));
    let s = text::replaced_of(s, "%f"@, text::lossy_text(e.path));
    let s = text::replaced_of(s, "%h"@, size::size_text(e.metadata.size));
    let s = text::replaced_of(s, "%b"@, text::decimal_of(e.metadata.size as nat));
    text::replaced_of(s, "%p"@, text::octal_of(e.file_metadata.mode as nat))
}

/// Formats the row for a file.
pub fn format_file_row(
    fmt: &str,
    checksum: &ObjectChecksum,
    file_name: &[u8],
    size: u64,
    file_mode: u32,
) -> (r: String)
    ensures
        r@ == file_row(
            fmt@,
            (FileEntryView {
                path: file_name@,
                checksum: checksum@,
                metadata: packidx::ObjectMetadata { offset: 0, size },
                file_metadata: packidx::FileMetadata { mode: file_mode },
            }),
        ),
{
    proof {
        reveal_strlit("%o");
        reveal_strlit("%f");
        reveal_strlit("%h");
        reveal_strlit("%b");
        reveal_strlit("%p");
    }
    let s = replace(fmt, "%o", hex_encode(checksum.as_slice()).as_str());
    let s = replace(s.as_str(), "%f", decode_lossy(file_name).as_str());
    let s = replace(s.as_str(), "%h", format_size(size).as_str());
    let s = replace(s.as_str(), "%b", decimal(size).as_str());
    replace(s.as_str(), "%p", octal(file_mode as u64).as_str())
}

/// The rows for files.
pub open spec fn file_rows_of(fmt: Seq<char>, es: Seq<FileEntryView>) -> Seq<Seq<char>> {
    es.map_values(|e: FileEntryView| file_row(fmt, e))
}

/// Formats the sorted rows for files.
pub fn print_files(fmt: &str, entries: &[FileEntry]) -> (r: Vec<String>)
    ensures
        packidxv1::text_views(r@) == search::sorted_names(
            file_rows_of(fmt@, packidx::entry_views(entries@)),
        ),
{
    let ghost all = file_rows_of(fmt@, packidx::entry_views(entries@));
    let mut rows: Vec<String> = Vec::new();
    let mut i: usize = 0;
    while i < entries.len()
        invariant
            i <= entries.len(),
            all == file_rows_of(fmt@, packidx::entry_views(entries@)),
            packidxv1::text_views(rows@) == all.take(i as int),
        decreases entries.len() - i,
    {
        let ghost before = packidxv1::text_views(rows@);
        let e = &entries[i];
        let row = format_file_row(
            fmt,
            &e.checksum,
            e.path.as_slice(),
            e.metadata.size,
            e.file_metadata.mode,
        );
        rows.push(row);
        proof {
            assert(packidx::entry_views(entries@)[i as int] == e@);
            assert(all[i as int] == row@);
            assert(packidxv1::text_views(rows@) =~= before.push(row@));
            assert(all.take(i + 1) =~= all.take(i as int).push(all[i as int]));
        }
        i += 1;
    }
    assert(all.take(i as int) =~= all);
    sort_lines(rows.as_slice())
}

/// A pack, the number of its snapshots and the size of its file.
#[derive(Debug)]
pub struct ListedPack {
    pub id: PackId,
    pub snapshot_count: usize,
    pub size: u64,
}

/// The row for a pack.
pub open spec fn pack_row(fmt: Seq<char>, pack: Seq<char>, snapshot_count: nat, bytes: u64) -> Seq<
    char,
> {
    let s = text::replaced_of(fmt, "%p"@, pack);
    let s = text::replaced_of(s, "%c"@, text::decimal_of(snapshot_count));
    let s = text::replaced_of(s, "%b"@, text::decimal_of(bytes as nat));
    text::replaced_of(s, "%h"@, size::size_text(bytes))
}

/// Formats the row for a pack.
pub fn format_pack_row(fmt: &str, pack_id: &PackId, snapshot_count: usize, size: u64) -> (r: String)
    ensures
        r@ == pack_row(fmt@, pack_id@, snapshot_count as nat, size),
{
    proof {
        reveal_strlit("%p");
        reveal_strlit("%c");
        reveal_strlit("%b");
        reveal_strlit("%h");
    }
    let s = replace(fmt, "%p", pack_id.as_str());
    let s = replace(s.as_str(), "%c", decimal(snapshot_count as u64).as_str());
    let s = replace(s.as_str(), "%b", decimal(size).as_str());
    replace(s.as_str(), "%h", format_size(size).as_str())
}

/// The rows for packs.
pub open spec fn pack_rows_of(fmt: Seq<char>, packs: Seq<ListedPack>) -> Seq<Seq<char>> {
    packs.map_values(|p: ListedPack| pack_row(fmt, p.id@, p.snapshot_count as nat, p.size))
}

/// Formats the sorted rows for packs.
pub fn print_packs(fmt: &str, packs: &[ListedPack]) -> (r: Vec<String>)
    ensures
        packidxv1::text_views(r@) == search::sorted_names(pack_rows_of(fmt@, packs@)),
{
    let ghost all = pack_rows_of(fmt@, packs@);
    let mut rows: Vec<String> = Vec::new();
    let mut i: usize = 0;
    while i < packs.len()
        invariant
            i <= packs.len(),
            all == pack_rows_of(fmt@, packs@),
            packidxv1::text_views(rows@) == all.take(i as int),
        decreases packs.len() - i,
    {
        let ghost before = packidxv1::text_views(rows@);
        let row = format_pack_row(fmt, &packs[i].id, packs[i].snapshot_count, packs[i].size);
        rows.push(row);
        proof {
            assert(all[i as int] == row@);
            assert(packidxv1::text_views(rows@) =~= before.push(row@));
            assert(all.take(i + 1) =~= all.take(i as int).push(all[i as int]));
        }
        i += 1;
    }
    assert(all.take(i as int) =~= all);
    sort_lines(rows.as_slice())
}

/// The row that a search finds for a snapshot: its tag and its pack.
pub open spec fn found_row(tag: Seq<char>, pack: Seq<char>) -> Seq<Seq<char>> {
    seq![tag, pack]
}

/// The rows for those of the first `n` tags of a pack that contain the term.
pub open spec fn found_in_pack(term: Seq<char>, p: TaggedPack, n: int) -> Seq<Seq<Seq<char>>>
    decreases n,
{
    if n <= 0 {
        Seq::empty()
    } else {
        let before = found_in_pack(term, p, n - 1);
        let tag = p.tags@[n - 1]@;
        if text::occurs(tag, term) {
            before.push(found_row(tag, p.id@))
        } else {
            before
        }
    }
}

/// The rows that a search finds in the first `n` packs.
pub open spec fn found_rows(term: Seq<char>, packs: Seq<TaggedPack>, n: int) -> Seq<Seq<Seq<char>>>
    decreases n,
{
    if n <= 0 {
        Seq::empty()
    } else {
        found_rows(term, packs, n - 1) + found_in_pack(
            term,
            packs[n - 1],
            packs[n - 1].tags@.len() as int,
        )
    }
}

/// Finds the snapshots whose tags contain a term.
pub fn find_rows(term: &str, packs: &[TaggedPack]) -> (r: Vec<Vec<String>>)
    ensures
        super::table::row_views(r@) == found_rows(term@, packs@, packs@.len() as int),
{
    let mut r: Vec<Vec<String>> = Vec::new();
    let mut i: usize = 0;
    assert(super::table::row_views(r@) =~= Seq::empty());
    while i < packs.len()
        invariant
            i <= packs.len(),
            super::table::row_views(r@) == found_rows(term@, packs@, i as int),
        decreases packs.len() - i,
    {
        let pack = &packs[i];
        let ghost start = super::table::row_views(r@);
        let mut t: usize = 0;
        assert(start + found_in_pack(term@, *pack, 0) =~= start);
        while t < pack.tags.len()
            invariant
                t <= pack.tags.len(),
                super::table::row_views(r@) == start + found_in_pack(term@, *pack, t as int),
            decreases pack.tags.len() - t,
        {
            let ghost before = super::table::row_views(r@);
            if contains(pack.tags[t].as_str(), term) {
                let mut row: Vec<String> = Vec::new();
                row.push(pack.tags[t].clone());
                row.push(pack.id.as_str().to_owned());
                r.push(row);
                proof {
                    let view = found_row(pack.tags@[t as int]@, pack.id@);
                    assert(packidxv1::text_views(row@) =~= view);
                    assert(super::table::row_views(r@) =~= before.push(view));
                    assert(super::table::row_views(r@) =~= start + found_in_pack(
                        term@,
                        *pack,
                        t + 1,
                    ));
                }
            }
            t += 1;
        }
        i += 1;
    }
    r
}

/// Where the rows for the pack at position `k` start.
pub open spec fn row_start(indexes: Seq<PackIndexV1>, k: int) -> int
    decreases k,
{
    if k <= 0 {
        0
    } else {
        row_start(indexes, k - 1) + model::listed(indexes[k - 1]@)
    }
}

/// The row for the snapshot at position `i` of the pack at position `k`.
pub open spec fn row_at(rows: Seq<Seq<char>>, indexes: Seq<PackIndexV1>, k: int, i: int) -> Seq<
    char,
> {
    rows[row_start(indexes, k) + i]
}

/// The rows are those for the snapshots of the first `n` packs, in order.
pub open spec fn are_rows(
    rows: Seq<Seq<char>>,
    fmt: Seq<char>,
    packs: Seq<PackId>,
    indexes: Seq<PackIndexV1>,
    n: int,
) -> bool {
    &&& rows.len() == row_start(indexes, n)
    &&& forall|k: int, i: int|
        0 <= k < n && 0 <= i < model::listed(indexes[k]@) ==> is_row_of(
            #[trigger] row_at(rows, indexes, k, i),
            fmt,
            packs[k]@,
            indexes[k]@,
            i,
        )
}

proof fn lemma_row_starts(indexes: Seq<PackIndexV1>, j: int, k: int)
    requires
        0 <= j <= k,
    ensures
        row_start(indexes, j) <= row_start(indexes, k),
        j < k ==> row_start(indexes, j) + model::listed(indexes[j]@) <= row_start(indexes, k),
    decreases k - j,
{
    if j < k {
        lemma_row_starts(indexes, j, k - 1);
    }
}

/// The first fault in the snapshots of the first `n` indexes.
pub open spec fn list_fault(indexes: Seq<PackIndexV1>, n: int) -> Option<PackError>
    decreases n,
{
    if n <= 0 {
        None
    } else {
        match list_fault(indexes, n - 1) {
            Some(e) => Some(e),
            None => model::first_fault(indexes[n - 1]@, 0),
        }
    }
}

proof fn lemma_fault_stays(indexes: Seq<PackIndexV1>, n: int, m: int)
    requires
        0 <= n <= m <= indexes.len(),
        list_fault(indexes, n) is Some,
    ensures
        list_fault(indexes, m) == list_fault(indexes, n),
    decreases m - n,
{
    if n < m {
        lemma_fault_stays(indexes, n, m - 1);
    }
}

/// Formats the sorted rows for the snapshots of packs, whose indexes are given
/// in the same order. The first failure is the failure of the listing.
pub fn print_snapshots(fmt: &str, packs: &[PackId], indexes: &[PackIndexV1]) -> (r: Result<
    Vec<String>,
    PackError,
>)
    requires
        indexes@.len() == packs@.len(),
        forall|i: int| 0 <= i < indexes@.len() ==> merge::can_walk(#[trigger] indexes@[i]),
        forall|i: int|
            0 <= i < indexes@.len() ==> {
                let v = (#[trigger] indexes@[i])@;
                &&& shows_size(fmt@) ==> sizes_fit(v)
                &&& !shows_size(fmt@) ==> packidxv1::counts_fit(v)
            },
    ensures
        match r {
            Ok(lines) => {
                &&& shows_size(fmt@) ==> list_fault(indexes@, indexes@.len() as int) is None
                &&& exists|rows: Seq<Seq<char>>| #[trigger]
                    are_rows(rows, fmt@, packs@, indexes@, packs@.len() as int)
                        && packidxv1::text_views(lines@) == search::sorted_names(rows)
            },
            Err(e) => shows_size(fmt@) && list_fault(indexes@, indexes@.len() as int) == Some(e),
        },
{
    let mut lines: Vec<String> = Vec::new();
    let mut k: usize = 0;
    while k < packs.len()
        invariant
            k <= packs.len(),
            indexes@.len() == packs@.len(),
            forall|i: int| 0 <= i < indexes@.len() ==> merge::can_walk(#[trigger] indexes@[i]),
            forall|i: int|
                0 <= i < indexes@.len() ==> {
                    let v = (#[trigger] indexes@[i])@;
                    &&& shows_size(fmt@) ==> sizes_fit(v)
                    &&& !shows_size(fmt@) ==> packidxv1::counts_fit(v)
                },
            are_rows(packidxv1::text_views(lines@), fmt@, packs@, indexes@, k as int),
            shows_size(fmt@) ==> list_fault(indexes@, k as int) is None,
        decreases packs.len() - k,
    {
        let ghost before = packidxv1::text_views(lines@);
        assert(merge::can_walk(indexes@[k as int]));
        let mut rows = match snapshot_rows(fmt, &packs[k], &indexes[k]) {
            Ok(rows) => rows,
            Err(e) => {
                proof {
                    assert(list_fault(indexes@, k + 1) == Some(e));
                    lemma_fault_stays(indexes@, k + 1, indexes@.len() as int);
                }
                return Err(e);
            },
        };
        let ghost added = rows@;
        lines.append(&mut rows);
        proof {
            let now = packidxv1::text_views(lines@);
            assert(now =~= before + packidxv1::text_views(added));
            assert forall|j: int, i: int|
                0 <= j < k + 1 && 0 <= i < model::listed(indexes@[j]@) implies is_row_of(
                #[trigger] row_at(now, indexes@, j, i),
                fmt@,
                packs@[j]@,
                indexes@[j]@,
                i,
            ) by {
                lemma_row_starts(indexes@, j, k as int);
                lemma_row_starts(indexes@, 0, j);
                if j < k {
                    assert(row_at(now, indexes@, j, i) == row_at(before, indexes@, j, i));
                } else {
                    assert(row_at(now, indexes@, j, i) == added[i]@);
                }
            }
        }
        k += 1;
    }
    assert(are_rows(packidxv1::text_views(lines@), fmt@, packs@, indexes@, packs@.len() as int));
    Ok(sort_lines(lines.as_slice()))
}

/// The text has no percent sign, so nothing in it stands for anything else.
pub open spec fn is_plain(s: Seq<char>) -> bool {
    !s.contains('%')
}

/// Plain texts one after the other are plain.
proof fn lemma_plain_join(a: Seq<char>, b: Seq<char>)
    requires
        is_plain(a),
        is_plain(b),
    ensures
        is_plain(a + b),
{
    let s = a + b;
    assert forall|i: int| 0 <= i < s.len() implies s[i] != '%' by {
        if i < a.len() {
            assert(a.contains(a[i]));
        } else {
            assert(b.contains(b[i - a.len()]));
        }
    }
}

/// The decimal form of a number is plain.
proof fn lemma_plain_decimal(n: nat)
    ensures
        is_plain(text::decimal_of(n)),
{
    text::law_decimal_stands_for_number(n);
}

/// In the row for a snapshot, plain text stays as it is, and each placeholder
/// gives way to what it stands for: the name of the pack, a colon and the tag
/// for `%s`, the tag for `%t`, the size for `%h` and `%b`, and the number of
/// files for `%n`.
pub proof fn law_snapshot_placeholders(
    before: Seq<char>,
    after: Seq<char>,
    pack: Seq<char>,
    tag: Seq<char>,
    bytes: u64,
    file_count: nat,
)
    requires
        is_plain(before),
        is_plain(after),
        is_plain(pack),
        is_plain(tag),
    ensures
        snapshot_row(before + seq!['%', 's'] + after, pack, tag, bytes, file_count) == before + (pack
            + seq![':'] + tag) + after,
        snapshot_row(before + seq!['%', 't'] + after, pack, tag, bytes, file_count) == before + tag
            + after,
        snapshot_row(before + seq!['%', 'h'] + after, pack, tag, bytes, file_count) == before
            + size::size_text(bytes) + after,
        snapshot_row(before + seq!['%', 'b'] + after, pack, tag, bytes, file_count) == before
            + text::decimal_of(bytes as nat) + after,
        snapshot_row(before + seq!['%', 'n'] + after, pack, tag, bytes, file_count) == before
            + text::decimal_of(file_count) + after,
{
    reveal_strlit("%s");
    reveal_strlit("%t");
    reveal_strlit("%h");
    reveal_strlit("%b");
    reveal_strlit("%n");
    reveal_strlit(":");
    assert("%s"@ =~= seq!['%', 's']);
    assert("%t"@ =~= seq!['%', 't']);
    assert("%h"@ =~= seq!['%', 'h']);
    assert("%b"@ =~= seq!['%', 'b']);
    assert("%n"@ =~= seq!['%', 'n']);
    assert(":"@ =~= seq![':']);
    let name = pack + ":"@ + tag;
    let size = size::size_text(bytes);
    let count = text::decimal_of(bytes as nat);
    let files = text::decimal_of(file_count);
    lemma_plain_join(pack, ":"@);
    lemma_plain_join(pack + ":"@, tag);
    size::lemma_size_is_plain(bytes);
    lemma_plain_decimal(bytes as nat);
    lemma_plain_decimal(file_count);
    // %s
    text::lemma_replace_one(before, "%s"@, after, name);
    lemma_plain_join(before, name);
    lemma_plain_join(before + name, after);
    lemma_plain_row_after(before + name + after, pack, tag, bytes, file_count);
    // %t
    text::lemma_replace_other(before, "%t"@, after, "%s"@, name);
    text::lemma_replace_one(before, "%t"@, after, tag);
    lemma_plain_join(before, tag);
    lemma_plain_join(before + tag, after);
    lemma_plain_row_after(before + tag + after, pack, tag, bytes, file_count);
    // %h
    text::lemma_replace_other(before, "%h"@, after, "%s"@, name);
    text::lemma_replace_other(before, "%h"@, after, "%t"@, tag);
    text::lemma_replace_one(before, "%h"@, after, size);
    lemma_plain_join(before, size);
    lemma_plain_join(before + size, after);
    lemma_plain_row_after(before + size + after, pack, tag, bytes, file_count);
    // %b
    text::lemma_replace_other(before, "%b"@, after, "%s"@, name);
    text::lemma_replace_other(before, "%b"@, after, "%t"@, tag);
    text::lemma_replace_other(before, "%b"@, after, "%h"@, size);
    text::lemma_replace_one(before, "%b"@, after, count);
    lemma_plain_join(before, count);
    lemma_plain_join(before + count, after);
    lemma_plain_row_after(before + count + after, pack, tag, bytes, file_count);
    // %n
    text::lemma_replace_other(before, "%n"@, after, "%s"@, name);
    text::lemma_replace_other(before, "%n"@, after, "%t"@, tag);
    text::lemma_replace_other(before, "%n"@, after, "%h"@, size);
    text::lemma_replace_other(before, "%n"@, after, "%b"@, count);
    text::lemma_replace_one(before, "%n"@, after, files);
}

/// No placeholder is replaced in a plain text.
proof fn lemma_plain_row_after(
    s: Seq<char>,
    pack: Seq<char>,
    tag: Seq<char>,
    bytes: u64,
    file_count: nat,
)
    requires
        is_plain(s),
    ensures
        text::replaced_of(s, "%s"@, pack + ":"@ + tag) == s,
        text::replaced_of(s, "%t"@, tag) == s,
        text::replaced_of(s, "%h"@, size::size_text(bytes)) == s,
        text::replaced_of(s, "%b"@, text::decimal_of(bytes as nat)) == s,
        text::replaced_of(s, "%n"@, text::decimal_of(file_count)) == s,
{
    reveal_strlit("%s");
    reveal_strlit("%t");
    reveal_strlit("%h");
    reveal_strlit("%b");
    reveal_strlit("%n");
    text::lemma_replace_absent(s, "%s"@, pack + ":"@ + tag);
    text::lemma_replace_absent(s, "%t"@, tag);
    text::lemma_replace_absent(s, "%h"@, size::size_text(bytes));
    text::lemma_replace_absent(s, "%b"@, text::decimal_of(bytes as nat));
    text::lemma_replace_absent(s, "%n"@, text::decimal_of(file_count));
}

/// What is listed for a snapshot by default names it: read as the ID of a
/// snapshot, the row gives its pack and its tag, also where the pack is in a
/// directory.
pub proof fn law_listed_snapshot_is_found_by_its_row(
    id: SnapshotIdView,
    bytes: u64,
    file_count: nat,
)
    requires
        id.pack.len() > 0,
        id::is_id(id.pack),
        id.tag.len() > 0,
        id::is_id(id.tag),
    ensures
        id::parsed_id(snapshot_row(seq!['%', 's'], id.pack, id.tag, bytes, file_count)) == Some(id),
{
    let none = Seq::<char>::empty();
    assert forall|i: int| 0 <= i < id.pack.len() implies id.pack[i] != '%' by {
        assert(id::is_id_char(id.pack[i]));
    }
    assert forall|i: int| 0 <= i < id.tag.len() implies id.tag[i] != '%' by {
        assert(id::is_id_char(id.tag[i]));
    }
    law_snapshot_placeholders(none, none, id.pack, id.tag, bytes, file_count);
    assert(none + seq!['%', 's'] + none =~= seq!['%', 's']);
    reveal_strlit(":");
    assert(":"@ =~= seq![':']);
    assert(none + (id.pack + seq![':'] + id.tag) + none =~= id::canonical(id));
    id::law_canonical_form_round_trip(id, none);
    assert(id::canonical(id) + none =~= id::canonical(id));
}

/// In the row for a file, plain text stays as it is, and each placeholder gives
/// way to what it stands for: the checksum for `%o`, the path for `%f`, the size
/// for `%h` and `%b`, and the mode for `%p`.
pub proof fn law_file_placeholders(before: Seq<char>, after: Seq<char>, e: FileEntryView)
    requires
        is_plain(before),
        is_plain(after),
        is_plain(text::lossy_text(e.path)),
    ensures
        file_row(before + seq!['%', 'o'] + after, e) == before + digest::hex_of(e.checksum) + after,
        file_row(before + seq!['%', 'f'] + after, e) == before + text::lossy_text(e.path) + after,
        file_row(before + seq!['%', 'h'] + after, e) == before + size::size_text(e.metadata.size)
            + after,
        file_row(before + seq!['%', 'b'] + after, e) == before + text::decimal_of(
            e.metadata.size as nat,
        ) + after,
        file_row(before + seq!['%', 'p'] + after, e) == before + text::octal_of(
            e.file_metadata.mode as nat,
        ) + after,
{
    reveal_strlit("%o");
    reveal_strlit("%f");
    reveal_strlit("%h");
    reveal_strlit("%b");
    reveal_strlit("%p");
    assert("%o"@ =~= seq!['%', 'o']);
    assert("%f"@ =~= seq!['%', 'f']);
    assert("%h"@ =~= seq!['%', 'h']);
    assert("%b"@ =~= seq!['%', 'b']);
    assert("%p"@ =~= seq!['%', 'p']);
    let sum = digest::hex_of(e.checksum);
    let path = text::lossy_text(e.path);
    let size = size::size_text(e.metadata.size);
    let count = text::decimal_of(e.metadata.size as nat);
    let mode = text::octal_of(e.file_metadata.mode as nat);
    assert(is_plain(sum)) by {
        assert forall|i: int| 0 <= i < sum.len() implies sum[i] != '%' by {
            let b = e.checksum[i / 2];
            assert(0 <= b / 16 < 16 && 0 <= b % 16 < 16);
        }
    }
    size::lemma_size_is_plain(e.metadata.size);
    lemma_plain_decimal(e.metadata.size as nat);
    text::law_octal_stands_for_number(e.file_metadata.mode as nat);
    text::lemma_replace_one(before, "%o"@, after, sum);
    lemma_plain_join(before, sum);
    lemma_plain_join(before + sum, after);
    lemma_plain_file_row(before + sum + after, e);
    text::lemma_replace_other(before, "%f"@, after, "%o"@, sum);
    text::lemma_replace_one(before, "%f"@, after, path);
    lemma_plain_join(before, path);
    lemma_plain_join(before + path, after);
    lemma_plain_file_row(before + path + after, e);
    text::lemma_replace_other(before, "%h"@, after, "%o"@, sum);
    text::lemma_replace_other(before, "%h"@, after, "%f"@, path);
    text::lemma_replace_one(before, "%h"@, after, size);
    lemma_plain_join(before, size);
    lemma_plain_join(before + size, after);
    lemma_plain_file_row(before + size + after, e);
    text::lemma_replace_other(before, "%b"@, after, "%o"@, sum);
    text::lemma_replace_other(before, "%b"@, after, "%f"@, path);
    text::lemma_replace_other(before, "%b"@, after, "%h"@, size);
    text::lemma_replace_one(before, "%b"@, after, count);
    lemma_plain_join(before, count);
    lemma_plain_join(before + count, after);
    lemma_plain_file_row(before + count + after, e);
    text::lemma_replace_other(before, "%p"@, after, "%o"@, sum);
    text::lemma_replace_other(before, "%p"@, after, "%f"@, path);
    text::lemma_replace_other(before, "%p"@, after, "%h"@, size);
    text::lemma_replace_other(before, "%p"@, after, "%b"@, count);
    text::lemma_replace_one(before, "%p"@, after, mode);
}

/// No placeholder is replaced in a plain text.
proof fn lemma_plain_file_row(s: Seq<char>, e: FileEntryView)
    requires
        is_plain(s),
    ensures
        text::replaced_of(s, "%o"@, digest::hex_of(e.checksum)) == s,
        text::replaced_of(s, "%f"@, text::lossy_text(e.path)) == s,
        text::replaced_of(s, "%h"@, size::size_text(e.metadata.size)) == s,
        text::replaced_of(s, "%b"@, text::decimal_of(e.metadata.size as nat)) == s,
        text::replaced_of(s, "%p"@, text::octal_of(e.file_metadata.mode as nat)) == s,
{
    reveal_strlit("%o");
    reveal_strlit("%f");
    reveal_strlit("%h");
    reveal_strlit("%b");
    reveal_strlit("%p");
    text::lemma_replace_absent(s, "%o"@, digest::hex_of(e.checksum));
    text::lemma_replace_absent(s, "%f"@, text::lossy_text(e.path));
    text::lemma_replace_absent(s, "%h"@, size::size_text(e.metadata.size));
    text::lemma_replace_absent(s, "%b"@, text::decimal_of(e.metadata.size as nat));
    text::lemma_replace_absent(s, "%p"@, text::octal_of(e.file_metadata.mode as nat));
}

/// In the row for a pack, plain text stays as it is, and each placeholder gives
/// way to what it stands for: the name for `%p`, the number of snapshots for
/// `%c`, and the size for `%b` and `%h`.
pub proof fn law_pack_placeholders(
    before: Seq<char>,
    after: Seq<char>,
    pack: Seq<char>,
    snapshot_count: nat,
    bytes: u64,
)
    requires
        is_plain(before),
        is_plain(after),
        is_plain(pack),
    ensures
        pack_row(before + seq!['%', 'p'] + after, pack, snapshot_count, bytes) == before + pack
            + after,
        pack_row(before + seq!['%', 'c'] + after, pack, snapshot_count, bytes) == before
            + text::decimal_of(snapshot_count) + after,
        pack_row(before + seq!['%', 'b'] + after, pack, snapshot_count, bytes) == before
            + text::decimal_of(bytes as nat) + after,
        pack_row(before + seq!['%', 'h'] + after, pack, snapshot_count, bytes) == before
            + size::size_text(bytes) + after,
{
    reveal_strlit("%p");
    reveal_strlit("%c");
    reveal_strlit("%b");
    reveal_strlit("%h");
    assert("%p"@ =~= seq!['%', 'p']);
    assert("%c"@ =~= seq!['%', 'c']);
    assert("%b"@ =~= seq!['%', 'b']);
    assert("%h"@ =~= seq!['%', 'h']);
    let snapshots = text::decimal_of(snapshot_count);
    let count = text::decimal_of(bytes as nat);
    let size = size::size_text(bytes);
    lemma_plain_decimal(snapshot_count);
    lemma_plain_decimal(bytes as nat);
    size::lemma_size_is_plain(bytes);
    text::lemma_replace_one(before, "%p"@, after, pack);
    lemma_plain_join(before, pack);
    lemma_plain_join(before + pack, after);
    text::lemma_replace_absent(before + pack + after, "%c"@, snapshots);
    text::lemma_replace_absent(before + pack + after, "%b"@, count);
    text::lemma_replace_absent(before + pack + after, "%h"@, size);
    text::lemma_replace_other(before, "%c"@, after, "%p"@, pack);
    text::lemma_replace_one(before, "%c"@, after, snapshots);
    lemma_plain_join(before, snapshots);
    lemma_plain_join(before + snapshots, after);
    text::lemma_replace_absent(before + snapshots + after, "%b"@, count);
    text::lemma_replace_absent(before + snapshots + after, "%h"@, size);
    text::lemma_replace_other(before, "%b"@, after, "%p"@, pack);
    text::lemma_replace_other(before, "%b"@, after, "%c"@, snapshots);
    text::lemma_replace_one(before, "%b"@, after, count);
    lemma_plain_join(before, count);
    lemma_plain_join(before + count, after);
    text::lemma_replace_absent(before + count + after, "%h"@, size);
    text::lemma_replace_other(before, "%h"@, after, "%p"@, pack);
    text::lemma_replace_other(before, "%h"@, after, "%c"@, snapshots);
    text::lemma_replace_other(before, "%h"@, after, "%b"@, count);
    text::lemma_replace_one(before, "%h"@, after, size);
}

proof fn lemma_found_in_pack(term: Seq<char>, p: TaggedPack, n: int) -> (at: Seq<int>)
    requires
        0 <= n <= p.tags@.len(),
    ensures
        select::is_selected(
            found_in_pack(term, p, n),
            p.tags@,
            n,
            |t: String| text::occurs(t@, term),
            |t: String| seq![t@, p.id@],
            at,
        ),
    decreases n,
{
    let wanted = |t: String| text::occurs(t@, term);
    let value = |t: String| seq![t@, p.id@];
    if n == 0 {
        select::lemma_none_selected(p.tags@, wanted, value);
        Seq::empty()
    } else {
        let at = lemma_found_in_pack(term, p, n - 1);
        let before = found_in_pack(term, p, n - 1);
        if wanted(p.tags@[n - 1]) {
            select::lemma_select_next(before, p.tags@, n - 1, wanted, value, at);
            at.push(n - 1)
        } else {
            select::lemma_pass_over(before, p.tags@, n - 1, wanted, value, at);
            at
        }
    }
}

/// A search finds exactly the snapshots whose tags hold the term, each with its
/// tag and its pack.
pub proof fn law_search_finds_every_match(
    term: Seq<char>,
    packs: Seq<TaggedPack>,
    n: int,
    row: Seq<Seq<char>>,
)
    requires
        0 <= n <= packs.len(),
    ensures
        found_rows(term, packs, n).contains(row) <==> exists|k: int, i: int|
            {
                &&& 0 <= k < n
                &&& 0 <= i < packs[k].tags@.len()
                &&& text::occurs((#[trigger] packs[k].tags@[i])@, term)
                &&& row == seq![packs[k].tags@[i]@, packs[k].id@]
            },
    decreases n,
{
    if n > 0 {
        law_search_finds_every_match(term, packs, n - 1, row);
        let p = packs[n - 1];
        let m = p.tags@.len() as int;
        let before = found_rows(term, packs, n - 1);
        let here = found_in_pack(term, p, m);
        let now = found_rows(term, packs, n);
        let wanted = |t: String| text::occurs(t@, term);
        let value = |t: String| seq![t@, p.id@];
        let at = lemma_found_in_pack(term, p, m);
        select::lemma_selected_values(here, p.tags@, m, wanted, value, at, row);
        if now.contains(row) {
            let x = now.index_of(row);
            if x < before.len() {
                assert(before[x] == row);
                let (k, i) = choose|k: int, i: int|
                    {
                        &&& 0 <= k < n - 1
                        &&& 0 <= i < packs[k].tags@.len()
                        &&& text::occurs((#[trigger] packs[k].tags@[i])@, term)
                        &&& row == seq![packs[k].tags@[i]@, packs[k].id@]
                    };
                assert(text::occurs(packs[k].tags@[i]@, term));
            } else {
                assert(here[x - before.len()] == row);
                let i = choose|i: int|
                    0 <= i < m && wanted(#[trigger] p.tags@[i]) && value(p.tags@[i]) == row;
                assert(text::occurs(packs[n - 1].tags@[i]@, term));
            }
        }
        if exists|k: int, i: int|
            {
                &&& 0 <= k < n
                &&& 0 <= i < packs[k].tags@.len()
                &&& text::occurs((#[trigger] packs[k].tags@[i])@, term)
                &&& row == seq![packs[k].tags@[i]@, packs[k].id@]
            } {
            let (k, i) = choose|k: int, i: int|
                {
                    &&& 0 <= k < n
                    &&& 0 <= i < packs[k].tags@.len()
                    &&& text::occurs((#[trigger] packs[k].tags@[i])@, term)
                    &&& row == seq![packs[k].tags@[i]@, packs[k].id@]
                };
            if k < n - 1 {
                assert(text::occurs(packs[k].tags@[i]@, term));
                let x = before.index_of(row);
                assert(now[x] == row);
            } else {
                assert(wanted(p.tags@[i]) && value(p.tags@[i]) == row);
                let x = here.index_of(row);
                assert(now[before.len() + x] == row);
            }
        }
    }
}

proof fn lemma_shows_no_size(c: char)
    requires
        c != 'h',
        c != 'b',
    ensures
        !shows_size(seq!['%', c]),
{
    reveal_strlit("%h");
    reveal_strlit("%b");
    let s = seq!['%', c];
    assert forall|i: int| 0 <= i <= s.len() implies !"%h"@.is_prefix_of(#[trigger] s.skip(i))
        && !"%b"@.is_prefix_of(s.skip(i)) by {
        let r = s.skip(i);
        if r.len() >= 2 {
            assert(r.subrange(0, 2)[1] == c);
            assert("%h"@[1] == 'h' && "%b"@[1] == 'b');
        }
    }
}

proof fn lemma_shows_size()
    ensures
        shows_size(seq!['%', 'b']),
{
    reveal_strlit("%b");
    let b = "%b"@;
    let s = seq!['%', 'b'];
    assert(s.skip(0) =~= b);
    assert(b =~= b.subrange(0, 2));
    assert(b.is_prefix_of(s.skip(0)));
}

/// The row of a snapshot shows its own tag, the number of its files, and the sum
/// of the sizes of all of its files.
pub proof fn law_row_is_of_its_snapshot(row: Seq<char>, pack: Seq<char>, v: IndexView, i: int)
    requires
        is_plain(pack),
        is_plain(v.tags[i]),
    ensures
        is_row_of(row, seq!['%', 't'], pack, v, i) ==> row == v.tags[i],
        is_row_of(row, seq!['%', 'n'], pack, v, i) ==> row == text::decimal_of(
            model::content_after(v.deltas, i + 1).len(),
        ),
        is_row_of(row, seq!['%', 'b'], pack, v, i) ==> exists|es: Seq<FileEntryView>|
            {
                &&& es.no_duplicates()
                &&& #[trigger] es.to_set() == model::content_after(v.deltas, i + 1).map(
                    |h: packidx::FileHandle| model::entry_of(v, h),
                )
                &&& row == text::decimal_of(
                    (algo::sum_of(Seq::new(es.len(), |k: int| es[k].metadata.size)) as u64) as nat,
                )
            },
{
    lemma_shows_size();
    lemma_shows_no_size('t');
    lemma_shows_no_size('n');
    let none = Seq::<char>::empty();
    let count = files_at(v, i).len();
    law_snapshot_placeholders(none, none, pack, v.tags[i], 0, count);
    assert(none + seq!['%', 't'] + none =~= seq!['%', 't']);
    assert(none + seq!['%', 'n'] + none =~= seq!['%', 'n']);
    assert(none + seq!['%', 'b'] + none =~= seq!['%', 'b']);
    assert(none + v.tags[i] + none =~= v.tags[i]);
    assert(none + text::decimal_of(count) + none =~= text::decimal_of(count));
    if is_row_of(row, seq!['%', 'b'], pack, v, i) {
        let es = choose|es: Seq<FileEntryView>| #[trigger]
            model::lists_files(es, v, files_at(v, i)) && row == snapshot_row(
                seq!['%', 'b'],
                pack,
                v.tags[i],
                algo::sum_of(sizes_in(es)) as u64,
                es.len(),
            );
        let total = algo::sum_of(sizes_in(es)) as u64;
        law_snapshot_placeholders(none, none, pack, v.tags[i], total, es.len());
        let shown = text::decimal_of(total as nat);
        assert(none + shown + none =~= shown);
        assert(sizes_in(es) =~= Seq::new(es.len(), |k: int| es[k].metadata.size));
        assert(es.to_set() == model::content_after(v.deltas, i + 1).map(
            |h: packidx::FileHandle| model::entry_of(v, h),
        ));
    }
}

/// The rows of a list are those of its items, one for each, in order.
pub proof fn law_every_item_has_a_row(
    fmt: Seq<char>,
    es: Seq<FileEntryView>,
    packs: Seq<ListedPack>,
    i: int,
)
    ensures
        file_rows_of(fmt, es).len() == es.len(),
        0 <= i < es.len() ==> file_rows_of(fmt, es)[i] == file_row(fmt, es[i]),
        pack_rows_of(fmt, packs).len() == packs.len(),
        0 <= i < packs.len() ==> pack_rows_of(fmt, packs)[i] == pack_row(
            fmt,
            packs[i].id@,
            packs[i].snapshot_count as nat,
            packs[i].size,
        ),
{
}

} // verus!
