//! Finding packs and snapshots.

use super::error::Error;
use super::fs::Timestamp;
use super::id;
use super::id::{PackId, SnapshotId};
use super::id::SnapshotIdView;
use super::repository;
use super::repository::{is_loose_name, Repository};
use crate::bytes;
use crate::bytes::{bytes_equal, bytes_less};
use crate::digest::ObjectChecksum;
use crate::packidx::model;
use crate::packidx::model::IndexView;
use crate::packidx::packidxv1;
use crate::packidx::{FileHandle, PackError, PackIndexV1};
use crate::select;
use crate::sort;
use crate::sort::{sort_bytes, sort_positions};
use crate::split;
use crate::text;
use crate::text::{text_bytes, text_equal};
use vstd::prelude::*;

verus! {

/// What is found on a walk through the directory of packs.
#[derive(Debug)]
pub enum WalkedEntry {
    /// A path relative to the directory.
    Path(String),
    /// A path that is not text, as it is displayed.
    NotText(String),
    /// The text of a failure.
    Failed(String),
}

/// The pack whose index has the given path.
pub open spec fn pack_of_index(path: Seq<char>) -> Option<Seq<char>> {
    let n = path.len() - id::index_suffix().len();
    if n >= 0 && path.skip(n) == id::index_suffix() {
        Some(path.take(n))
    } else {
        None
    }
}

/// The packs whose indexes are among the first `n` entries, in the order in
/// which they were found.
pub open spec fn walked_packs(entries: Seq<WalkedEntry>, n: int) -> Seq<Seq<char>>
    decreases n,
{
    if n <= 0 {
        Seq::empty()
    } else {
        let before = walked_packs(entries, n - 1);
        match entries[n - 1] {
            WalkedEntry::Path(p) => match pack_of_index(p@) {
                Some(id) => before.push(id),
                None => before,
            },
            _ => before,
        }
    }
}

/// What packs are called.
pub open spec fn pack_names(packs: Seq<PackId>) -> Seq<Seq<char>> {
    packs.map_values(|p: PackId| p@)
}

/// The UTF-8 forms of names.
pub open spec fn name_bytes(names: Seq<Seq<char>>) -> Seq<Seq<u8>> {
    names.map_values(|s: Seq<char>| text::bytes_of(s))
}

/// Names in the order of their UTF-8 forms.
pub open spec fn sorted_names(names: Seq<Seq<char>>) -> Seq<Seq<char>> {
    let p = sort::sorting_of(sort::bytes_order(name_bytes(names)), names.len() as int);
    Seq::new(names.len(), |i: int| names[p[i] as int])
}

/// Sorting keeps names, and puts them in order.
pub proof fn lemma_sorted_names(names: Seq<Seq<char>>)
    requires
        names.len() <= usize::MAX,
    ensures
        sorted_names(names).len() == names.len(),
        sorted_names(names).to_set() == names.to_set(),
        forall|i: int, j: int|
            0 <= i < j < names.len() ==> !bytes::lex_less(
                text::bytes_of(#[trigger] sorted_names(names)[j]),
                text::bytes_of(#[trigger] sorted_names(names)[i]),
            ),
{
    let keys = name_bytes(names);
    let n = names.len() as int;
    let lt = sort::bytes_order(keys);
    sort::lemma_bytes_order(keys);
    sort::lemma_sorting_exists(lt, n);
    let p = sort::sorting_of(lt, n);
    let s = sorted_names(names);
    assert forall|t: Seq<char>| s.to_set().contains(t) <==> names.to_set().contains(t) by {
        if s.contains(t) {
            let i = s.index_of(t);
            assert(names[p[i] as int] == t);
        }
        if names.contains(t) {
            let x = names.index_of(t);
            sort::lemma_sorting_lists_all(p, n, x as usize);
            let i = p.index_of(x as usize);
            assert(s[i] == t);
        }
    }
    assert(s.to_set() =~= names.to_set());
    assert forall|i: int, j: int| 0 <= i < j < n implies !bytes::lex_less(
        text::bytes_of(#[trigger] s[j]),
        text::bytes_of(#[trigger] s[i]),
    ) by {
        let a = p[i] as int;
        let b = p[j] as int;
        assert(sort::comes_before(lt, a, b));
        assert(lt(a, b) ==> !lt(b, a));
        assert(keys[a] == text::bytes_of(s[i]) && keys[b] == text::bytes_of(s[j]));
    }
}

proof fn lemma_pack_of_index(path: Seq<char>, r: Option<PackId>)
    requires
        match r {
            Some(id) => path == id@ + id::index_suffix(),
            None => !exists|s: Seq<char>| path == #[trigger] (s + id::index_suffix()),
        },
    ensures
        match r {
            Some(id) => pack_of_index(path) == Some(id@),
            None => pack_of_index(path) is None,
        },
{
    let n = path.len() - id::index_suffix().len();
    match r {
        Some(id) => {
            assert(path.skip(n) =~= id::index_suffix());
            assert(path.take(n) =~= id@);
        },
        None => {
            if n >= 0 && path.skip(n) == id::index_suffix() {
                assert(path =~= path.take(n) + id::index_suffix());
            }
        },
    }
}

/// Lists packs by the given positions.
fn pick(packs: &[PackId], p: &[usize]) -> (r: Vec<PackId>)
    requires
        forall|i: int| 0 <= i < p@.len() ==> (#[trigger] p@[i]) < packs@.len(),
    ensures
        r@.len() == p@.len(),
        forall|i: int| 0 <= i < p@.len() ==> (#[trigger] r@[i])@ == packs@[p@[i] as int]@,
{
    let mut r: Vec<PackId> = Vec::new();
    let mut i: usize = 0;
    while i < p.len()
        invariant
            i <= p.len(),
            forall|i: int| 0 <= i < p@.len() ==> (#[trigger] p@[i]) < packs@.len(),
            r@.len() == i,
            forall|j: int| 0 <= j < i ==> (#[trigger] r@[j])@ == packs@[p@[j] as int]@,
        decreases p.len() - i,
    {
        r.push(packs[p[i]].clone());
        i += 1;
    }
    r
}

/// The UTF-8 forms of the names of packs.
fn pack_keys(packs: &[PackId]) -> (r: Vec<Vec<u8>>)
    ensures
        split::byte_views(r@) == name_bytes(pack_names(packs@)),
{
    let ghost all = name_bytes(pack_names(packs@));
    let mut r: Vec<Vec<u8>> = Vec::new();
    let mut i: usize = 0;
    while i < packs.len()
        invariant
            i <= packs.len(),
            all == name_bytes(pack_names(packs@)),
            split::byte_views(r@) == all.take(i as int),
        decreases packs.len() - i,
    {
        let ghost before = split::byte_views(r@);
        let key = text_bytes(packs[i].as_str());
        r.push(key);
        proof {
            assert(pack_names(packs@)[i as int] == packs@[i as int]@);
            assert(all[i as int] == key@);
            assert(split::byte_views(r@) =~= before.push(key@));
            assert(all.take(i + 1) =~= all.take(i as int).push(all[i as int]));
        }
        i += 1;
    }
    assert(all.take(i as int) =~= all);
    r
}

impl Repository {
    /// Lists the packs of a repository in order, given what is in the directory of
    /// packs. The first failure on the walk is the failure of the listing.
    pub fn packs(&self, entries: &[WalkedEntry]) -> (r: Result<Vec<PackId>, Error>)
        ensures
            match r {
                Ok(packs) => {
                    &&& forall|i: int| 0 <= i < entries@.len() ==> (#[trigger] entries@[i]) is Path
                    &&& pack_names(packs@) == sorted_names(
                        walked_packs(entries@, entries@.len() as int),
                    )
                },
                Err(e) => exists|i: int|
                    {
                        &&& 0 <= i < entries@.len()
                        &&& forall|j: int| 0 <= j < i ==> (#[trigger] entries@[j]) is Path
                        &&& match #[trigger] entries@[i] {
                            WalkedEntry::Path(_) => false,
                            WalkedEntry::NotText(p) => e matches Error::Utf8Error(q) && q@ == p@,
                            WalkedEntry::Failed(p) => e matches Error::WalkDirError(q) && q@ == p@,
                        }
                    },
            },
    {
        let mut found: Vec<PackId> = Vec::new();
        let mut i: usize = 0;
        assert(pack_names(found@) =~= Seq::empty());
        while i < entries.len()
            invariant
                i <= entries.len(),
                forall|j: int| 0 <= j < i ==> (#[trigger] entries@[j]) is Path,
                pack_names(found@) == walked_packs(entries@, i as int),
            decreases entries.len() - i,
        {
            match &entries[i] {
                WalkedEntry::Path(p) => {
                    let ghost before = pack_names(found@);
                    let result = PackId::from_index_path(p.clone());
                    proof {
                        lemma_pack_of_index(p@, result);
                    }
                    if let Some(id) = result {
                        found.push(id);
                        assert(pack_names(found@) =~= before.push(id@));
                    }
                },
                WalkedEntry::NotText(p) => {
                    assert(entries@[i as int] is NotText);
                    return Err(Error::Utf8Error(p.clone()));
                },
                WalkedEntry::Failed(p) => {
                    assert(entries@[i as int] is Failed);
                    return Err(Error::WalkDirError(p.clone()));
                },
            }
            i += 1;
        }
        let keys = pack_keys(found.as_slice());
        assert(split::byte_views(keys@).len() == keys@.len());
        let p = sort_bytes(keys.as_slice());
        let r = pick(found.as_slice(), p.as_slice());
        assert(pack_names(r@) =~= sorted_names(walked_packs(entries@, entries@.len() as int)));
        Ok(r)
    }
}

/// A pack, and what is known of its index file.
#[derive(Debug)]
pub struct IndexedPack {
    pub id: PackId,
    pub index_exists: bool,
    pub index_time: Option<Timestamp>,
}

/// When the index of the pack was modified. Where that is not known, the epoch
/// stands in for it.
pub open spec fn time_of(p: IndexedPack) -> Timestamp {
    match p.index_time {
        Some(t) => t,
        None => Timestamp { secs: 0, nanos: 0 },
    }
}

/// The loose ones among the first `n` packs.
pub open spec fn loose_among(packs: Seq<IndexedPack>, n: int) -> Seq<(Timestamp, Seq<char>)>
    decreases n,
{
    if n <= 0 {
        Seq::empty()
    } else {
        let before = loose_among(packs, n - 1);
        let p = packs[n - 1];
        if repository::has_loose_name(p.id@) && p.index_exists {
            before.push((time_of(p), p.id@))
        } else {
            before
        }
    }
}

/// The order of packs by the time of their indexes, and by name for the same
/// time.
pub open spec fn is_older(a: (Timestamp, Seq<char>), b: (Timestamp, Seq<char>)) -> bool {
    a.0.precedes(b.0) || (a.0 == b.0 && bytes::lex_less(text::bytes_of(a.1), text::bytes_of(b.1)))
}

/// The order of packs by age, by their positions.
pub open spec fn age_order(packs: Seq<(Timestamp, Seq<char>)>) -> spec_fn(int, int) -> bool {
    |a: int, b: int| is_older(packs[a], packs[b])
}

/// The names of packs, the oldest first.
pub open spec fn by_age(packs: Seq<(Timestamp, Seq<char>)>) -> Seq<Seq<char>> {
    let p = sort::sorting_of(age_order(packs), packs.len() as int);
    Seq::new(packs.len(), |i: int| packs[p[i] as int].1)
}

proof fn lemma_age_order(packs: Seq<(Timestamp, Seq<char>)>)
    ensures
        sort::is_weak_order(age_order(packs), packs.len() as int),
{
    let lt = age_order(packs);
    let n = packs.len() as int;
    let key = |i: int| text::bytes_of(packs[i].1);
    assert forall|a: int, b: int| #![trigger lt(a, b)] 0 <= a < n && 0 <= b < n && lt(
        a,
        b,
    ) implies !lt(b, a) by {
        if lt(b, a) {
            bytes::lemma_lex_transitive(key(a), key(b), key(a));
            bytes::lemma_lex_irreflexive(key(a));
        }
    }
    assert forall|a: int, b: int, c: int|
        #![trigger lt(a, b), lt(b, c)]
        0 <= a < n && 0 <= b < n && 0 <= c < n && !lt(a, b) && !lt(b, c) implies !lt(a, c) by {
        if lt(a, c) && packs[a].0 == packs[b].0 && packs[b].0 == packs[c].0 {
            if !bytes::lex_less(key(b), key(a)) {
                bytes::lemma_lex_total(key(a), key(b));
            } else {
                bytes::lemma_lex_transitive(key(b), key(a), key(c));
            }
        }
    }
}

impl Repository {
    /// Lists the loose packs, the oldest first.
    pub fn loose_packs(&self, packs: &[IndexedPack]) -> (r: Vec<PackId>)
        ensures
            pack_names(r@) == by_age(loose_among(packs@, packs@.len() as int)),
    {
        let ghost all = loose_among(packs@, packs@.len() as int);
        let mut ids: Vec<PackId> = Vec::new();
        let mut times: Vec<Timestamp> = Vec::new();
        let mut i: usize = 0;
        let ghost mut found: Seq<(Timestamp, Seq<char>)> = Seq::empty();
        while i < packs.len()
            invariant
                i <= packs.len(),
                found == loose_among(packs@, i as int),
                ids@.len() == found.len(),
                times@.len() == found.len(),
                forall|k: int|
                    0 <= k < found.len() ==> #[trigger] found[k] == (times@[k], ids@[k]@),
            decreases packs.len() - i,
        {
            if is_loose_name(&packs[i].id) && packs[i].index_exists {
                ids.push(packs[i].id.clone());
                times.push(
                    match packs[i].index_time {
                        Some(t) => t,
                        None => Timestamp { secs: 0, nanos: 0 },
                    },
                );
                proof {
                    found = found.push((time_of(packs@[i as int]), packs@[i as int].id@));
                }
            }
            i += 1;
        }
        let keys = pack_keys(ids.as_slice());
        assert(split::byte_views(keys@).len() == keys@.len());
        let less = |a: usize, b: usize| -> (r: bool)
            requires
                a < keys@.len(),
                b < keys@.len(),
                keys@.len() == times@.len(),
            ensures
                r == (times@[a as int].precedes(times@[b as int]) || (times@[a as int]
                    == times@[b as int] && bytes::lex_less(keys@[a as int]@, keys@[b as int]@))),
            {
                times[a].is_before(&times[b]) || (times[a].secs == times[b].secs && times[a].nanos
                    == times[b].nanos && bytes_less(keys[a].as_slice(), keys[b].as_slice()))
            };
        let ghost lt = age_order(found);
        proof {
            lemma_age_order(found);
            assert forall|k: int| 0 <= k < found.len() implies #[trigger] keys@[k]@ == text::bytes_of(
                found[k].1,
            ) by {
                assert(split::byte_views(keys@)[k] == keys@[k]@);
            }
            assert(found =~= all);
        }
        let p = sort_positions(keys.len(), &less, Ghost(lt));
        proof {
            sort::lemma_sorting_exists(lt, keys@.len() as int);
            sort::lemma_sorting_unique(
                lt,
                p@,
                sort::sorting_of(lt, keys@.len() as int),
                keys@.len() as int,
            );
        }
        let r = pick(ids.as_slice(), p.as_slice());
        proof {
            assert forall|k: int| 0 <= k < r@.len() implies #[trigger] pack_names(r@)[k] == by_age(
                all,
            )[k] by {
                assert(r@[k]@ == ids@[p@[k] as int]@);
                assert(found[p@[k] as int].1 == ids@[p@[k] as int]@);
            }
            assert(pack_names(r@) =~= by_age(all));
        }
        r
    }
}

/// A pack and the tags of its snapshots.
#[derive(Debug)]
pub struct TaggedPack {
    pub id: PackId,
    pub tags: Vec<String>,
}

/// The names of those among the first `n` packs that have a snapshot with the
/// given tag.
pub open spec fn holders(packs: Seq<TaggedPack>, tag: Seq<char>, n: int) -> Seq<Seq<char>>
    decreases n,
{
    if n <= 0 {
        Seq::empty()
    } else {
        let before = holders(packs, tag, n - 1);
        if packidxv1::text_views(packs[n - 1].tags@).contains(tag) {
            before.push(packs[n - 1].id@)
        } else {
            before
        }
    }
}

/// Tells whether the text is one of the given ones.
pub fn contains_text(list: &[String], s: &str) -> (r: bool)
    ensures
        r == packidxv1::text_views(list@).contains(s@),
{
    let mut i: usize = 0;
    while i < list.len()
        invariant
            i <= list.len(),
            forall|j: int| 0 <= j < i ==> (#[trigger] list@[j])@ != s@,
        decreases list.len() - i,
    {
        if text_equal(list[i].as_str(), s) {
            assert(packidxv1::text_views(list@)[i as int] == s@);
            return true;
        }
        i += 1;
    }
    proof {
        if packidxv1::text_views(list@).contains(s@) {
            let j = packidxv1::text_views(list@).index_of(s@);
            assert(list@[j]@ == s@);
        }
    }
    false
}

/// Lists the packs that have a snapshot with the given tag.
pub fn packs_with_snapshot(packs: &[TaggedPack], snapshot: &str) -> (r: Vec<PackId>)
    ensures
        pack_names(r@) == holders(packs@, snapshot@, packs@.len() as int),
        forall|name: Seq<char>| #[trigger]
            pack_names(r@).contains(name) <==> exists|i: int, j: int|
                0 <= i < packs@.len() && 0 <= j < packs@[i].tags@.len() && packs@[i].id@ == name
                    && #[trigger] packs@[i].tags@[j]@ == snapshot@,
{
    let mut r: Vec<PackId> = Vec::new();
    let mut i: usize = 0;
    assert(pack_names(r@) =~= Seq::empty());
    while i < packs.len()
        invariant
            i <= packs.len(),
            pack_names(r@) == holders(packs@, snapshot@, i as int),
        decreases packs.len() - i,
    {
        let ghost before = pack_names(r@);
        if contains_text(packs[i].tags.as_slice(), snapshot) {
            r.push(packs[i].id.clone());
            assert(pack_names(r@) =~= before.push(packs@[i as int].id@));
        }
        i += 1;
    }
    assert forall|name: Seq<char>| #[trigger] pack_names(r@).contains(name) <==> exists|
        i: int,
        j: int,
    |
        0 <= i < packs@.len() && 0 <= j < packs@[i].tags@.len() && packs@[i].id@ == name
            && #[trigger] packs@[i].tags@[j]@ == snapshot@ by {
        law_pack_is_found_by_any_tag(packs@, snapshot@, name);
    }
    r
}

/// The packs with a snapshot are those in whose list of tags the tag is at any
/// position, each once, in the order of the packs.
pub proof fn law_packs_with_snapshot_are_selected(packs: Seq<TaggedPack>, tag: Seq<char>, n: int) -> (at: Seq<
    int,
>)
    requires
        0 <= n <= packs.len(),
    ensures
        select::is_selected(
            holders(packs, tag, n),
            packs,
            n,
            |p: TaggedPack| exists|j: int| 0 <= j < p.tags@.len() && (#[trigger] p.tags@[j])@ == tag,
            |p: TaggedPack| p.id@,
            at,
        ),
    decreases n,
{
    let wanted = |p: TaggedPack|
        exists|j: int| 0 <= j < p.tags@.len() && (#[trigger] p.tags@[j])@ == tag;
    let value = |p: TaggedPack| p.id@;
    if n == 0 {
        select::lemma_none_selected(packs, wanted, value);
        Seq::empty()
    } else {
        let at = law_packs_with_snapshot_are_selected(packs, tag, n - 1);
        let before = holders(packs, tag, n - 1);
        let p = packs[n - 1];
        let tags = packidxv1::text_views(p.tags@);
        if wanted(p) {
            let j = choose|j: int| 0 <= j < p.tags@.len() && (#[trigger] p.tags@[j])@ == tag;
            assert(tags[j] == tag);
            select::lemma_select_next(before, packs, n - 1, wanted, value, at);
            at.push(n - 1)
        } else {
            if tags.contains(tag) {
                let j = tags.index_of(tag);
                assert(p.tags@[j]@ == tag);
            }
            select::lemma_pass_over(before, packs, n - 1, wanted, value, at);
            at
        }
    }
}

/// A pack is among those with a snapshot if and only if it is one of the given
/// packs and the tag is at some position of its list of tags.
pub proof fn law_pack_is_found_by_any_tag(packs: Seq<TaggedPack>, tag: Seq<char>, name: Seq<char>)
    ensures
        holders(packs, tag, packs.len() as int).contains(name) <==> exists|i: int, j: int|
            0 <= i < packs.len() && 0 <= j < packs[i].tags@.len() && packs[i].id@ == name
                && #[trigger] packs[i].tags@[j]@ == tag,
{
    let n = packs.len() as int;
    let wanted = |p: TaggedPack|
        exists|j: int| 0 <= j < p.tags@.len() && (#[trigger] p.tags@[j])@ == tag;
    let value = |p: TaggedPack| p.id@;
    let at = law_packs_with_snapshot_are_selected(packs, tag, n);
    select::lemma_selected_values(holders(packs, tag, n), packs, n, wanted, value, at, name);
    if holders(packs, tag, n).contains(name) {
        let i = choose|i: int|
            0 <= i < n && wanted(#[trigger] packs[i]) && value(packs[i]) == name;
        let j = choose|j: int| 0 <= j < packs[i].tags@.len() && (#[trigger] packs[i].tags@[j])@ == tag;
        assert(packs[i].tags@[j]@ == tag);
    }
    if exists|i: int, j: int|
        0 <= i < packs.len() && 0 <= j < packs[i].tags@.len() && packs[i].id@ == name
            && #[trigger] packs[i].tags@[j]@ == tag {
        let (i, j) = choose|i: int, j: int|
            0 <= i < packs.len() && 0 <= j < packs[i].tags@.len() && packs[i].id@ == name
                && #[trigger] packs[i].tags@[j]@ == tag;
        assert(wanted(packs[i]));
        assert(value(packs[i]) == name);
    }
}

/// The content checksum of a snapshot, if it is in the index and its files are
/// described there.
pub open spec fn snapshot_checksum(v: IndexView, tag: Seq<char>) -> Option<Seq<u8>> {
    match model::snapshot_files(v, tag) {
        Some(files) => if model::faultless(v, files) {
            Some(model::files_digest(model::pairs_of(v, files)))
        } else {
            None
        },
        None => None,
    }
}

/// The content checksum of a snapshot can be computed from the index.
pub open spec fn can_checksum(index: PackIndexV1, tag: Seq<char>) -> bool {
    &&& index.wf()
    &&& model::resolvable(index@, tag)
    &&& model::snapshot_files(index@, tag) matches Some(files) ==> model::files_described(
        index@,
        files,
    )
    &&& model::snapshot_files(index@, tag) matches Some(files) ==> model::listing_bytes(
        model::listing_of(model::pairs_of(index@, files)),
    ).len() < 0x2000_0000_0000_0000
}

/// Tells whether two checksums are both missing, or both there and equal.
fn checksums_equal(a: &Option<ObjectChecksum>, b: &Option<ObjectChecksum>) -> (r: bool)
    ensures
        r == match (*a, *b) {
            (Some(x), Some(y)) => x@ == y@,
            (None, None) => true,
            _ => false,
        },
{
    match (a, b) {
        (Some(x), Some(y)) => bytes_equal(x.as_slice(), y.as_slice()),
        (None, None) => true,
        _ => false,
    }
}

/// The snapshots with the given tag have the same content checksum in all
/// indexes.
pub open spec fn same_in_all(indexes: Seq<PackIndexV1>, tag: Seq<char>) -> bool {
    forall|i: int|
        0 <= i < indexes.len() ==> snapshot_checksum((#[trigger] indexes[i])@, tag)
            == snapshot_checksum(indexes[0]@, tag)
}

impl Repository {
    /// Checks whether the snapshots have the same content checksum.
    pub fn are_snapshots_equal(&self, indexes: &[PackIndexV1], snapshot: &str) -> (r: bool)
        requires
            indexes@.len() > 0,
            forall|i: int| 0 <= i < indexes@.len() ==> can_checksum(#[trigger] indexes@[i], snapshot@),
        ensures
            r == same_in_all(indexes@, snapshot@),
    {
        let first = indexes[0].compute_snapshot_checksum(snapshot);
        let mut i: usize = 1;
        while i < indexes.len()
            invariant
                1 <= i <= indexes.len(),
                forall|i: int|
                    0 <= i < indexes@.len() ==> can_checksum(#[trigger] indexes@[i], snapshot@),
                match first {
                    Some(c) => snapshot_checksum(indexes@[0]@, snapshot@) == Some(c@),
                    None => snapshot_checksum(indexes@[0]@, snapshot@) is None,
                },
                forall|j: int|
                    0 <= j < i ==> snapshot_checksum((#[trigger] indexes@[j])@, snapshot@)
                        == snapshot_checksum(indexes@[0]@, snapshot@),
            decreases indexes.len() - i,
        {
            let checksum = indexes[i].compute_snapshot_checksum(snapshot);
            if !checksums_equal(&checksum, &first) {
                assert(snapshot_checksum(indexes@[i as int]@, snapshot@) != snapshot_checksum(
                    indexes@[0]@,
                    snapshot@,
                ));
                return false;
            }
            i += 1;
        }
        true
    }
}

/// The position of the first loose pack, or of the first pack.
pub open spec fn preferred(loose: Seq<bool>, from: int) -> int
    decreases loose.len() - from,
{
    if from >= loose.len() {
        0
    } else if loose[from] {
        from
    } else {
        preferred(loose, from + 1)
    }
}

/// Copies a list of packs.
fn copy_packs(packs: &[PackId]) -> (r: Vec<PackId>)
    ensures
        pack_names(r@) == pack_names(packs@),
{
    let mut r: Vec<PackId> = Vec::new();
    let mut i: usize = 0;
    while i < packs.len()
        invariant
            i <= packs.len(),
            pack_names(r@) == pack_names(packs@).take(i as int),
        decreases packs.len() - i,
    {
        let ghost before = pack_names(r@);
        r.push(packs[i].clone());
        proof {
            let all = pack_names(packs@);
            assert(pack_names(r@) =~= before.push(packs@[i as int]@));
            assert(all.take(i + 1) =~= all.take(i as int).push(all[i as int]));
        }
        i += 1;
    }
    assert(pack_names(r@) =~= pack_names(packs@));
    r
}

impl Repository {
    /// Takes a set of packs which contain the given snapshot name. If the
    /// snapshot in each pack is identical according to content checksum,
    /// return a pack, preferring a loose one if available.
    pub fn disambiguate_snapshot(
        &self,
        packs: &[PackId],
        loose: &[bool],
        indexes: &[PackIndexV1],
        snapshot: &str,
    ) -> (r: Result<PackId, Error>)
        requires
            packs@.len() > 0,
            loose@.len() == packs@.len(),
            indexes@.len() == packs@.len(),
            forall|i: int| 0 <= i < indexes@.len() ==> can_checksum(#[trigger] indexes@[i], snapshot@),
        ensures
            match r {
                Ok(id) => same_in_all(indexes@, snapshot@) && id@ == packs@[preferred(loose@, 0)]@,
                Err(e) => !same_in_all(indexes@, snapshot@) && (e matches Error::AmbiguousSnapshotMatch(
                    s,
                    ps,
                ) && s@ == snapshot@ && pack_names(ps@) == pack_names(packs@)),
            },
    {
        if !self.are_snapshots_equal(indexes, snapshot) {
            return Err(Error::AmbiguousSnapshotMatch(snapshot.to_owned(), copy_packs(packs)));
        }
        // The snapshots have the same checksums, so we could use either one
        // but we prefer picking a loose one over a packed for performance.
        let mut i: usize = 0;
        while i < packs.len()
            invariant
                i <= packs.len(),
                loose@.len() == packs@.len(),
                same_in_all(indexes@, snapshot@),
                preferred(loose@, 0) == preferred(loose@, i as int),
            decreases packs.len() - i,
        {
            if loose[i] {
                return Ok(packs[i].clone());
            }
            i += 1;
        }
        Ok(packs[0].clone())
    }
}

/// The outcome of a search for the pack with a snapshot.
pub open spec fn is_search_result(
    packs: Seq<PackId>,
    loose: Seq<bool>,
    indexes: Seq<PackIndexV1>,
    snapshot: Seq<char>,
    r: Result<PackId, Error>,
) -> bool {
    match r {
        Ok(id) => {
            &&& packs.len() > 0
            &&& packs.len() > 1 ==> same_in_all(indexes, snapshot)
            &&& id@ == packs[if packs.len() == 1 {
                0
            } else {
                preferred(loose, 0)
            }]@
        },
        Err(Error::PackError(PackError::SnapshotNotFound(s))) => packs.len() == 0 && s@ == snapshot,
        Err(Error::AmbiguousSnapshotMatch(s, ps)) => {
            &&& packs.len() > 1
            &&& !same_in_all(indexes, snapshot)
            &&& s@ == snapshot
            &&& pack_names(ps@) == pack_names(packs)
        },
        Err(_) => false,
    }
}

impl Repository {
    /// Decides which of the packs that have a snapshot with the given name is meant.
    /// It is an error if there is no such pack, or if there is more than one and the
    /// snapshots differ (in which case the snapshot is ambiguous). Only where there
    /// is more than one pack it matters which of them are loose and what is in
    /// their indexes.
    pub fn find_pack_with_snapshot(
        &self,
        packs: &[PackId],
        loose: &[bool],
        indexes: &[PackIndexV1],
        snapshot: &str,
    ) -> (r: Result<PackId, Error>)
        requires
            packs@.len() > 1 ==> {
                &&& loose@.len() == packs@.len()
                &&& indexes@.len() == packs@.len()
                &&& forall|i: int|
                    0 <= i < indexes@.len() ==> can_checksum(#[trigger] indexes@[i], snapshot@)
            },
        ensures
            is_search_result(packs@, loose@, indexes@, snapshot@, r),
    {
        if packs.len() == 0 {
            Err(Error::PackError(PackError::SnapshotNotFound(snapshot.to_owned())))
        } else if packs.len() == 1 {
            Ok(packs[0].clone())
        } else {
            self.disambiguate_snapshot(packs, loose, indexes, snapshot)
        }
    }
}

impl Repository {
    /// Finds the snapshot that a string `[pack_id:]snapshot_tag` stands for, where
    /// the pack is optional. If it is not given, the packs with a snapshot of that
    /// name decide.
    pub fn find_snapshot(
        &self,
        maybe_canonical_snapshot_tag: &str,
        packs: &[PackId],
        loose: &[bool],
        indexes: &[PackIndexV1],
    ) -> (r: Result<SnapshotId, Error>)
        requires
            id::parsed_id(maybe_canonical_snapshot_tag@) is None && packs@.len() > 1 ==> {
                &&& loose@.len() == packs@.len()
                &&& indexes@.len() == packs@.len()
                &&& forall|i: int|
                    0 <= i < indexes@.len() ==> can_checksum(
                        #[trigger] indexes@[i],
                        maybe_canonical_snapshot_tag@,
                    )
            },
        ensures
            match id::parsed_id(maybe_canonical_snapshot_tag@) {
                Some(v) => r matches Ok(found) && found@ == v,
                None => exists|found: Result<PackId, Error>| #[trigger]
                    is_search_result(packs@, loose@, indexes@, maybe_canonical_snapshot_tag@, found)
                        && match (found, r) {
                        (Ok(pack), Ok(found_id)) => id::is_id(maybe_canonical_snapshot_tag@)
                            && found_id@ == (SnapshotIdView {
                            pack: pack@,
                            tag: maybe_canonical_snapshot_tag@,
                        }),
                        (Ok(_), Err(e)) => !id::is_id(maybe_canonical_snapshot_tag@) && (
                        e matches Error::IdError(id::IdError::InvalidSnapshot(t)) && t@
                            == maybe_canonical_snapshot_tag@),
                        (Err(e), Err(f)) => e == f,
                        (Err(_), Ok(_)) => false,
                    },
            },
    {
        match SnapshotId::from_str(maybe_canonical_snapshot_tag) {
            // Given string specified the pack.
            Ok(s) => Ok(s),
            Err(_) => {
                // Search packs.
                let tag = maybe_canonical_snapshot_tag;
                let found = self.find_pack_with_snapshot(packs, loose, indexes, tag);
                let ghost outcome = found;
                assert(is_search_result(packs@, loose@, indexes@, tag@, outcome));
                match found {
                    Ok(pack) => match SnapshotId::new(pack, tag) {
                        Ok(id) => Ok(id),
                        Err(e) => Err(Error::IdError(e)),
                    },
                    Err(e) => Err(e),
                }
            },
        }
    }
}

/// The pack of an index is what stands before the ending of its path.
pub proof fn law_index_path_names_pack(path: Seq<char>, pack: Seq<char>)
    ensures
        pack_of_index(path) == Some(pack) <==> path == pack + seq![
            '.',
            'p',
            'a',
            'c',
            'k',
            '.',
            'i',
            'd',
            'x',
        ],
{
    reveal_strlit(".pack.idx");
    let end = seq!['.', 'p', 'a', 'c', 'k', '.', 'i', 'd', 'x'];
    assert(id::index_suffix() =~= end);
    let n = path.len() - 9;
    if pack_of_index(path) == Some(pack) {
        assert(path =~= path.take(n) + path.skip(n));
    }
    if path == pack + end {
        assert(path.skip(n) =~= end);
        assert(path.take(n) =~= pack);
    }
}

/// The packs that a walk finds are those of the paths that end as the paths of
/// indexes do, each once, in the order in which they were found.
pub proof fn law_walk_finds_every_index(entries: Seq<WalkedEntry>, n: int) -> (at: Seq<int>)
    requires
        0 <= n <= entries.len(),
    ensures
        select::is_selected(
            walked_packs(entries, n),
            entries,
            n,
            |e: WalkedEntry|
                e matches WalkedEntry::Path(p) && p@.len() >= 9 && p@.skip(p@.len() - 9)
                    == ".pack.idx"@,
            |e: WalkedEntry| e->Path_0@.take(e->Path_0@.len() - 9),
            at,
        ),
    decreases n,
{
    let wanted = |e: WalkedEntry|
        e matches WalkedEntry::Path(p) && p@.len() >= 9 && p@.skip(p@.len() - 9) == ".pack.idx"@;
    let value = |e: WalkedEntry| e->Path_0@.take(e->Path_0@.len() - 9);
    reveal_strlit(".pack.idx");
    if n == 0 {
        select::lemma_none_selected(entries, wanted, value);
        Seq::empty()
    } else {
        let at = law_walk_finds_every_index(entries, n - 1);
        let before = walked_packs(entries, n - 1);
        if wanted(entries[n - 1]) {
            select::lemma_select_next(before, entries, n - 1, wanted, value, at);
            at.push(n - 1)
        } else {
            select::lemma_pass_over(before, entries, n - 1, wanted, value, at);
            at
        }
    }
}

/// Sorting lists the same names, each as often as before, and none after one
/// whose UTF-8 form comes later.
pub proof fn law_names_are_sorted(names: Seq<Seq<char>>) -> (p: Seq<usize>)
    requires
        names.len() <= usize::MAX,
    ensures
        sorted_names(names).len() == names.len(),
        p.len() == names.len(),
        p.no_duplicates(),
        forall|i: int|
            0 <= i < p.len() ==> (#[trigger] p[i]) < names.len() && sorted_names(names)[i]
                == names[p[i] as int],
        forall|i: int, j: int|
            0 <= i < j < names.len() ==> !bytes::lex_less(
                text::bytes_of(#[trigger] sorted_names(names)[j]),
                text::bytes_of(#[trigger] sorted_names(names)[i]),
            ),
{
    lemma_sorted_names(names);
    let lt = sort::bytes_order(name_bytes(names));
    sort::lemma_bytes_order(name_bytes(names));
    sort::lemma_sorting_exists(lt, names.len() as int);
    sort::sorting_of(lt, names.len() as int)
}

/// The loose packs are those whose names are in the directory of loose packs and
/// whose indexes exist, each once, in the order of the packs.
pub proof fn law_loose_packs_are_selected(packs: Seq<IndexedPack>, n: int) -> (at: Seq<int>)
    requires
        0 <= n <= packs.len(),
    ensures
        select::is_selected(
            loose_among(packs, n),
            packs,
            n,
            |p: IndexedPack|
                seq!['l', 'o', 'o', 's', 'e', '/'].is_prefix_of(p.id@) && p.index_exists,
            |p: IndexedPack|
                (
                    if p.index_time is Some {
                        p.index_time->0
                    } else {
                        Timestamp { secs: 0, nanos: 0 }
                    },
                    p.id@,
                ),
            at,
        ),
    decreases n,
{
    let wanted = |p: IndexedPack|
        seq!['l', 'o', 'o', 's', 'e', '/'].is_prefix_of(p.id@) && p.index_exists;
    let value = |p: IndexedPack|
        (
            if p.index_time is Some {
                p.index_time->0
            } else {
                Timestamp { secs: 0, nanos: 0 }
            },
            p.id@,
        );
    if n == 0 {
        select::lemma_none_selected(packs, wanted, value);
        Seq::empty()
    } else {
        let at = law_loose_packs_are_selected(packs, n - 1);
        let before = loose_among(packs, n - 1);
        repository::law_loose_names(packs[n - 1].id@);
        if wanted(packs[n - 1]) {
            select::lemma_select_next(before, packs, n - 1, wanted, value, at);
            at.push(n - 1)
        } else {
            select::lemma_pass_over(before, packs, n - 1, wanted, value, at);
            at
        }
    }
}

/// Sorting packs by age lists the same packs, each as often as before, and none
/// after one whose index was modified later.
pub proof fn law_oldest_packs_come_first(packs: Seq<(Timestamp, Seq<char>)>) -> (p: Seq<usize>)
    requires
        packs.len() <= usize::MAX,
        forall|i: int| 0 <= i < packs.len() ==> (#[trigger] packs[i]).0.nanos < 1_000_000_000,
    ensures
        by_age(packs).len() == packs.len(),
        p.len() == packs.len(),
        p.no_duplicates(),
        forall|i: int|
            0 <= i < p.len() ==> (#[trigger] p[i]) < packs.len() && by_age(packs)[i]
                == packs[p[i] as int].1,
        forall|i: int, j: int|
            0 <= i < j < p.len() ==> packs[#[trigger] p[i] as int].0.secs * 1_000_000_000
                + packs[p[i] as int].0.nanos <= packs[#[trigger] p[j] as int].0.secs * 1_000_000_000
                + packs[p[j] as int].0.nanos,
{
    let n = packs.len() as int;
    let lt = age_order(packs);
    lemma_age_order(packs);
    sort::lemma_sorting_exists(lt, n);
    let p = sort::sorting_of(lt, n);
    assert forall|i: int, j: int| 0 <= i < j < p.len() implies packs[#[trigger] p[i] as int].0.secs
        * 1_000_000_000 + packs[p[i] as int].0.nanos <= packs[#[trigger] p[j] as int].0.secs
        * 1_000_000_000 + packs[p[j] as int].0.nanos by {
        let a = p[i] as int;
        let b = p[j] as int;
        assert(sort::comes_before(lt, a, b));
        assert(lt(a, b) ==> !lt(b, a));
        assert(!is_older(packs[b], packs[a]));
        assert(packs[a].0.nanos < 1_000_000_000 && packs[b].0.nanos < 1_000_000_000);
    }
    p
}

/// The preferred pack is the first loose one, or the first one if none is loose.
pub proof fn law_first_loose_pack_is_preferred(loose: Seq<bool>)
    requires
        loose.len() > 0,
    ensures
        0 <= preferred(loose, 0) < loose.len(),
        loose.contains(true) ==> loose[preferred(loose, 0)],
        !loose.contains(true) ==> preferred(loose, 0) == 0,
        forall|j: int| 0 <= j < preferred(loose, 0) ==> !#[trigger] loose[j],
{
    lemma_preferred(loose, 0);
}

proof fn lemma_preferred(loose: Seq<bool>, from: int)
    requires
        0 <= from <= loose.len(),
        forall|j: int| 0 <= j < from ==> !#[trigger] loose[j],
        loose.len() > 0,
    ensures
        0 <= preferred(loose, from) < loose.len(),
        loose.contains(true) ==> loose[preferred(loose, from)],
        !loose.contains(true) ==> preferred(loose, from) == 0,
        forall|j: int| 0 <= j < preferred(loose, from) ==> !#[trigger] loose[j],
    decreases loose.len() - from,
{
    if from < loose.len() {
        if loose[from] {
            assert(loose.contains(loose[from]));
        } else {
            lemma_preferred(loose, from + 1);
        }
    } else if loose.contains(true) {
        let j = loose.index_of(true);
        assert(loose[j]);
    }
}

/// A search succeeds if and only if there is one pack, or there are more and
/// their snapshots have the same checksum. It finds one of the packs: the first
/// loose one among several, or else the first one. Without a pack, the snapshot
/// is not found, and with different snapshots, it is ambiguous.
pub proof fn law_search_finds_one_of_the_packs(
    packs: Seq<PackId>,
    loose: Seq<bool>,
    indexes: Seq<PackIndexV1>,
    snapshot: Seq<char>,
    r: Result<PackId, Error>,
)
    requires
        is_search_result(packs, loose, indexes, snapshot, r),
        packs.len() > 1 ==> loose.len() == packs.len() && indexes.len() == packs.len(),
    ensures
        packs.len() == 0 ==> (r matches Err(Error::PackError(PackError::SnapshotNotFound(s))) && s@
            == snapshot),
        packs.len() == 1 ==> r is Ok && r->Ok_0@ == packs[0]@,
        packs.len() > 1 ==> (r is Ok <==> forall|i: int, j: int|
            0 <= i < indexes.len() && 0 <= j < indexes.len() ==> snapshot_checksum(
                (#[trigger] indexes[i])@,
                snapshot,
            ) == snapshot_checksum((#[trigger] indexes[j])@, snapshot)),
        packs.len() > 1 && r is Ok ==> exists|k: int|
            {
                &&& 0 <= k < packs.len()
                &&& r->Ok_0@ == #[trigger] packs[k]@
                &&& forall|j: int| 0 <= j < k ==> !#[trigger] loose[j]
                &&& loose[k] || (k == 0 && !loose.contains(true))
            },
        packs.len() > 1 && r is Err ==> (r->Err_0 matches Error::AmbiguousSnapshotMatch(s, ps) && s@
            == snapshot && pack_names(ps@) == pack_names(packs)),
{
    if packs.len() > 1 {
        law_first_loose_pack_is_preferred(loose);
        if r is Ok {
            let k = preferred(loose, 0);
            assert(r->Ok_0@ == packs[k]@);
        } else {
            let i = choose|i: int|
                0 <= i < indexes.len() && snapshot_checksum((#[trigger] indexes[i])@, snapshot)
                    != snapshot_checksum(indexes[0]@, snapshot);
            assert(snapshot_checksum(indexes[i]@, snapshot) != snapshot_checksum(
                indexes[0]@,
                snapshot,
            ));
        }
    }
}

/// The checksum of a snapshot is the digest of the paths and checksums of its
/// files, where all of them are known.
pub proof fn law_snapshot_checksum_is_of_its_files(v: IndexView, tag: Seq<char>)
    ensures
        match model::snapshot_files(v, tag) {
            Some(files) => if forall|h: FileHandle| #[trigger]
                files.contains(h) ==> h.path < v.paths.len() && h.object < v.objects.len() {
                snapshot_checksum(v, tag) == Some(model::files_digest(model::pairs_of(v, files)))
            } else {
                snapshot_checksum(v, tag) is None
            },
            None => snapshot_checksum(v, tag) is None,
        },
{
    if let Some(files) = model::snapshot_files(v, tag) {
        if forall|h: FileHandle| #[trigger]
            files.contains(h) ==> h.path < v.paths.len() && h.object < v.objects.len() {
            assert(model::faultless(v, files));
        } else {
            let h = choose|h: FileHandle| #[trigger]
                files.contains(h) && !(h.path < v.paths.len() && h.object < v.objects.len());
            assert(model::handle_fault(v, h) is Some);
        }
    }
}

} // verus!
