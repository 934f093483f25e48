//! The difference between two lists of files.

use super::pack;
use super::repository::Repository;
use crate::lookup;
use crate::lookup::PositionTable;
use crate::packidx::packidx;
use crate::packidx::packidx::FileEntryView;
use crate::packidx::{FileEntry, FileMetadata};
use vstd::prelude::*;

verus! {

/// What two entries have in common if they are the same file: the path, the
/// content and the file metadata, but not where the object is in its pack.
#[verifier::ext_equal]
pub struct FileKey {
    pub path: Seq<u8>,
    pub checksum: Seq<u8>,
    pub file_metadata: FileMetadata,
}

/// The file that an entry is for.
pub open spec fn key_of(e: FileEntryView) -> FileKey {
    FileKey { path: e.path, checksum: e.checksum, file_metadata: e.file_metadata }
}

/// The files that entries are for.
pub open spec fn keys_of(entries: Seq<FileEntryView>) -> Seq<FileKey> {
    entries.map_values(|e: FileEntryView| key_of(e))
}

/// The entries for files that are not among `others`, in order. Of several
/// entries for one file only the last counts.
pub open spec fn only_in(entries: Seq<FileEntryView>, others: Seq<FileEntryView>) -> Seq<
    FileEntryView,
> {
    only_in_first(entries, others, entries.len() as int)
}

/// The part of [`only_in`] that is from the first `n` entries.
pub open spec fn only_in_first(
    entries: Seq<FileEntryView>,
    others: Seq<FileEntryView>,
    n: int,
) -> Seq<FileEntryView>
    decreases n,
{
    if n <= 0 {
        Seq::empty()
    } else if counts(entries, others, n - 1) {
        only_in_first(entries, others, n - 1).push(entries[n - 1])
    } else {
        only_in_first(entries, others, n - 1)
    }
}

/// The entry at `i` is the last one for its file, and the file is not among
/// `others`.
pub open spec fn counts(entries: Seq<FileEntryView>, others: Seq<FileEntryView>, i: int) -> bool {
    lookup::is_last(keys_of(entries), i) && !keys_of(others).contains(key_of(entries[i]))
}

/// A byte string that stands for the file of an entry.
pub closed spec fn key_bytes(k: FileKey) -> Seq<u8> {
    k.checksum + pack::le32_bytes(k.file_metadata.mode) + k.path
}

/// Different files have different byte strings.
proof fn lemma_key_bytes(a: FileKey, b: FileKey)
    requires
        a.checksum.len() == 20,
        b.checksum.len() == 20,
    ensures
        key_bytes(a) == key_bytes(b) <==> a == b,
{
    if key_bytes(a) == key_bytes(b) {
        let x = key_bytes(a);
        let y = key_bytes(b);
        assert(x.take(20) =~= a.checksum);
        assert(y.take(20) =~= b.checksum);
        assert(x.subrange(20, 24) =~= pack::le32_bytes(a.file_metadata.mode));
        assert(y.subrange(20, 24) =~= pack::le32_bytes(b.file_metadata.mode));
        assert(x.skip(24) =~= a.path);
        assert(y.skip(24) =~= b.path);
        pack::lemma_le32(a.file_metadata.mode);
        pack::lemma_le32(b.file_metadata.mode);
        assert(a =~= b);
    }
}

/// Computes the byte string that stands for the file of an entry.
fn file_key(e: &FileEntry) -> (r: Vec<u8>)
    ensures
        r@ == key_bytes(key_of(e@)),
{
    let mode = e.file_metadata.mode;
    let mut r: Vec<u8> = Vec::new();
    r.extend_from_slice(e.checksum.as_slice());
    r.push((mode % 0x100) as u8);
    r.push((mode / 0x100 % 0x100) as u8);
    r.push((mode / 0x1_0000 % 0x100) as u8);
    r.push((mode / 0x100_0000) as u8);
    r.extend_from_slice(e.path.as_slice());
    assert(r@ =~= key_bytes(key_of(e@)));
    r
}

/// The byte strings for the files of entries.
spec fn table_keys(entries: Seq<FileEntryView>) -> Seq<Seq<u8>> {
    entries.map_values(|e: FileEntryView| key_bytes(key_of(e)))
}

/// Builds a table of the files of entries.
fn key_table(entries: &[FileEntry]) -> (r: PositionTable)
    ensures
        r.wf(),
        r@ == table_keys(packidx::entry_views(entries@)),
{
    let mut r = PositionTable::new();
    let mut i: usize = 0;
    while i < entries.len()
        invariant
            i <= entries.len(),
            r.wf(),
            r@ == table_keys(packidx::entry_views(entries@)).take(i as int),
        decreases entries.len() - i,
    {
        r.push(file_key(&entries[i]));
        assert(r@ =~= table_keys(packidx::entry_views(entries@)).take(i + 1));
        i += 1;
    }
    assert(r@ =~= table_keys(packidx::entry_views(entries@)));
    r
}

/// All checksums have their full length.
spec fn full_checksums(entries: Seq<FileEntryView>) -> bool {
    forall|i: int| 0 <= i < entries.len() ==> (#[trigger] entries[i]).checksum.len() == 20
}

/// What the table says of byte strings holds of files.
proof fn lemma_counts(
    entries: Seq<FileEntryView>,
    others: Seq<FileEntryView>,
    i: int,
)
    requires
        full_checksums(entries),
        full_checksums(others),
        0 <= i < entries.len(),
    ensures
        lookup::is_last(table_keys(entries), i) <==> lookup::is_last(keys_of(entries), i),
        table_keys(others).contains(table_keys(entries)[i]) <==> keys_of(others).contains(
            key_of(entries[i]),
        ),
{
    let k = key_of(entries[i]);
    assert(keys_of(entries)[i] == k);
    assert forall|j: int| 0 <= j < entries.len() implies (#[trigger] table_keys(entries)[j]
        == table_keys(entries)[i] <==> keys_of(entries)[j] == k) by {
        lemma_key_bytes(key_of(entries[j]), k);
    }
    assert forall|j: int| 0 <= j < others.len() implies (#[trigger] table_keys(others)[j]
        == table_keys(entries)[i] <==> keys_of(others)[j] == k) by {
        lemma_key_bytes(key_of(others[j]), k);
    }
    if lookup::is_last(table_keys(entries), i) {
        assert forall|j: int| i < j < entries.len() implies #[trigger] keys_of(entries)[j] != k by {
            assert(table_keys(entries)[j] != table_keys(entries)[i]);
        }
    }
    if table_keys(others).contains(table_keys(entries)[i]) {
        let j = table_keys(others).index_of(table_keys(entries)[i]);
        assert(keys_of(others)[j] == k);
    }
    if keys_of(others).contains(k) {
        let j = keys_of(others).index_of(k);
        assert(table_keys(others)[j] == table_keys(entries)[i]);
    }
}

/// Collects the entries for files that are not in the table of the others.
fn collect_only_in(entries: &[FileEntry], own: &PositionTable, others: &PositionTable, Ghost(
    other_views,
): Ghost<Seq<FileEntryView>>) -> (r: Vec<FileEntry>)
    requires
        own.wf(),
        others.wf(),
        full_checksums(other_views),
        own@ == table_keys(packidx::entry_views(entries@)),
        others@ == table_keys(other_views),
    ensures
        packidx::entry_views(r@) == only_in(packidx::entry_views(entries@), other_views),
{
    let ghost views = packidx::entry_views(entries@);
    let mut r: Vec<FileEntry> = Vec::new();
    let mut i: usize = 0;
    assert(packidx::entry_views(r@) =~= only_in_first(views, other_views, 0));
    while i < entries.len()
        invariant
            own.wf(),
            others.wf(),
            views == packidx::entry_views(entries@),
            full_checksums(views),
            full_checksums(other_views),
            own@ == table_keys(views),
            others@ == table_keys(other_views),
            i <= entries.len(),
            packidx::entry_views(r@) == only_in_first(views, other_views, i as int),
        decreases entries.len() - i,
    {
        let key = file_key(&entries[i]);
        proof {
            lemma_counts(views, other_views, i as int);
            assert(table_keys(views)[i as int] == key@);
        }
        let last = own.find_last(key.as_slice());
        let is_last = match last {
            Some(at) => at == i,
            None => false,
        };
        assert(is_last == lookup::is_last(own@, i as int));
        if is_last && !others.contains(key.as_slice()) {
            let ghost before = packidx::entry_views(r@);
            r.push(entries[i].clone());
            assert(packidx::entry_views(r@) =~= before.push(views[i as int]));
        }
        i += 1;
    }
    r
}

impl Repository {
    /// Returns the pair of lists (`added`, `removed`). `added` contains the entries from
    /// `to_entries` which are not present in `from_entries`. `removed` contains the entries
    /// from `from_entries` which are not present in `to_entries`.
    pub fn compute_entry_diff(from_entries: &[FileEntry], to_entries: &[FileEntry]) -> (r: (
        Vec<FileEntry>,
        Vec<FileEntry>,
    ))
        ensures
            packidx::entry_views(r.0@) == only_in(
                packidx::entry_views(to_entries@),
                packidx::entry_views(from_entries@),
            ),
            packidx::entry_views(r.1@) == only_in(
                packidx::entry_views(from_entries@),
                packidx::entry_views(to_entries@),
            ),
    {
        let from_table = key_table(from_entries);
        let to_table = key_table(to_entries);
        let removed = collect_only_in(
            from_entries,
            &from_table,
            &to_table,
            Ghost(packidx::entry_views(to_entries@)),
        );
        let added = collect_only_in(
            to_entries,
            &to_table,
            &from_table,
            Ghost(packidx::entry_views(from_entries@)),
        );
        (added, removed)
    }
}

/// A file is among the entries that are only in one list if and only if it is in
/// that list and not in the other, and it is there once.
pub proof fn law_diff_lists_missing_files(
    entries: Seq<FileEntryView>,
    others: Seq<FileEntryView>,
    k: FileKey,
)
    ensures
        keys_of(only_in(entries, others)).contains(k) <==> keys_of(entries).contains(k)
            && !keys_of(others).contains(k),
        keys_of(only_in(entries, others)).no_duplicates(),
{
    let n = entries.len() as int;
    let keys = keys_of(entries);
    lemma_only_in_first(entries, others, n, k);
    if keys.contains(k) && !keys_of(others).contains(k) {
        assert(keys.take(n) =~= keys);
        lemma_last_exists(keys, k, n);
        let i = choose|i: int| #[trigger] lookup::is_last(keys, i) && keys[i] == k;
        assert(counts(entries, others, i));
    }
    if keys_of(only_in(entries, others)).contains(k) {
        let i = choose|i: int|
            0 <= i < n && #[trigger] counts(entries, others, i) && key_of(entries[i]) == k;
        assert(keys[i] == k);
    }
}

/// Applying the difference of two lists of files to the first gives the second.
pub proof fn law_diff_leads_to_target(from: Seq<FileEntryView>, to: Seq<FileEntryView>)
    ensures
        keys_of(from).to_set().difference(keys_of(only_in(from, to)).to_set()).union(
            keys_of(only_in(to, from)).to_set(),
        ) == keys_of(to).to_set(),
{
    let result = keys_of(from).to_set().difference(keys_of(only_in(from, to)).to_set()).union(
        keys_of(only_in(to, from)).to_set(),
    );
    assert forall|k: FileKey| result.contains(k) <==> keys_of(to).to_set().contains(k) by {
        law_diff_lists_missing_files(from, to, k);
        law_diff_lists_missing_files(to, from, k);
    }
    assert(result =~= keys_of(to).to_set());
}

/// Two lists of the same files do not differ.
pub proof fn law_same_files_no_diff(entries: Seq<FileEntryView>, others: Seq<FileEntryView>)
    requires
        keys_of(entries).to_set() == keys_of(others).to_set(),
    ensures
        only_in(entries, others).len() == 0,
        only_in(others, entries).len() == 0,
{
    lemma_no_diff(entries, others);
    lemma_no_diff(others, entries);
}

proof fn lemma_no_diff(entries: Seq<FileEntryView>, others: Seq<FileEntryView>)
    requires
        keys_of(entries).to_set() == keys_of(others).to_set(),
    ensures
        only_in(entries, others).len() == 0,
{
    let diff = only_in(entries, others);
    if diff.len() > 0 {
        let k = key_of(diff[0]);
        law_diff_lists_missing_files(entries, others, k);
        assert(keys_of(diff)[0] == k);
        assert(keys_of(entries).to_set().contains(k));
        assert(keys_of(others).to_set().contains(k));
    }
}

proof fn lemma_last_exists(keys: Seq<FileKey>, k: FileKey, n: int)
    requires
        0 <= n <= keys.len(),
        keys.take(n).contains(k),
        forall|j: int| n <= j < keys.len() ==> #[trigger] keys[j] != k,
    ensures
        exists|i: int| #[trigger] lookup::is_last(keys, i) && keys[i] == k,
    decreases n,
{
    let at = keys.take(n).index_of(k);
    if keys[n - 1] == k {
        assert(lookup::is_last(keys, n - 1));
    } else {
        assert(keys.take(n - 1)[at] == k);
        lemma_last_exists(keys, k, n - 1);
    }
}

/// What is among the entries that are only in one list, as far as they are from
/// its first `n` entries.
proof fn lemma_only_in_first(
    entries: Seq<FileEntryView>,
    others: Seq<FileEntryView>,
    n: int,
    k: FileKey,
)
    requires
        0 <= n <= entries.len(),
    ensures
        keys_of(only_in_first(entries, others, n)).contains(k) <==> exists|i: int|
            0 <= i < n && #[trigger] counts(entries, others, i) && key_of(entries[i]) == k,
        keys_of(only_in_first(entries, others, n)).no_duplicates(),
    decreases n,
{
    let now = only_in_first(entries, others, n);
    if n > 0 {
        let before = only_in_first(entries, others, n - 1);
        let e = entries[n - 1];
        lemma_only_in_first(entries, others, n - 1, k);
        if counts(entries, others, n - 1) {
            assert(keys_of(now) =~= keys_of(before).push(key_of(e)));
            lemma_only_in_first(entries, others, n - 1, key_of(e));
            if keys_of(before).contains(key_of(e)) {
                let i = choose|i: int|
                    0 <= i < n - 1 && #[trigger] counts(entries, others, i) && key_of(entries[i])
                        == key_of(e);
                assert(keys_of(entries)[n - 1] == keys_of(entries)[i]);
            }
            if keys_of(before).contains(k) {
                let j = keys_of(before).index_of(k);
                assert(keys_of(now)[j] == k);
            }
            if key_of(e) == k {
                assert(keys_of(now)[before.len() as int] == k);
            }
            if keys_of(now).contains(k) && key_of(e) != k {
                let j = keys_of(now).index_of(k);
                assert(keys_of(before)[j] == k);
            }
        }
    }
}

/// Two files count as the same if and only if their paths, checksums and modes
/// are.
pub proof fn law_same_file(a: FileEntryView, b: FileEntryView)
    ensures
        key_of(a) == key_of(b) <==> a.path == b.path && a.checksum == b.checksum
            && a.file_metadata.mode == b.file_metadata.mode,
{
}

} // verus!
