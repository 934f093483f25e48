//! Repositories with one index of all snapshots: the index says in which packs a
//! snapshot is, and a pack is one stream of objects.

use crate::bytes;
use crate::bytes::bytes_less;
use crate::ioerror::IoError;
use crate::lookup;
use crate::lookup::PositionTable;
use crate::packidx::error;
use crate::packidx::packidx;
use crate::packidx::packidx::FileEntryView;
use crate::packidx::packidxv1;
use crate::packidx::{FileEntry, FileMetadata, ObjectMetadata, PackError};
use crate::digest::ObjectChecksum;
use crate::repo::checkout;
use crate::repo::checkout::{distinct_paths, path_table};
use crate::repo::constants::REPO_DIR;
use crate::repo::extract;
use crate::repo::extract::{extract_files, FrameExtraction};
use crate::sort;
use crate::sort::sort_positions;
use crate::split;
use crate::text;
use crate::text::{decode_text, find_last, from_char_range, text_bytes, text_equal, to_chars, trimmed_len};
use std::collections::BTreeMap;
use vstd::prelude::*;
use vstd::slice::{slice_subrange, slice_to_vec};
use vstd::string::StringExecFns;

verus! {

/// Error used when parsing a [`SnapshotId`] fails.
#[derive(Clone, Copy, Debug, PartialEq, Eq, Structural)]
pub struct ParseSnapshotIdError {}

impl ParseSnapshotIdError {
    /// The message for the error.
    pub fn message(&self) -> (r: String)
        ensures
            r@ == "Failed to parse the snapshot spec!"@,
    {
        "Failed to parse the snapshot spec!".to_owned()
    }
}

/// Identifies a snapshot using a pack base filename and a snapshot tag.
#[derive(Debug, PartialEq, Eq)]
pub struct SnapshotId {
    pack: String,
    tag: String,
}

/// What a [`SnapshotId`] says.
#[verifier::ext_equal]
pub struct IdView {
    pub pack: Seq<char>,
    pub tag: Seq<char>,
}

impl View for SnapshotId {
    type V = IdView;

    closed spec fn view(&self) -> IdView {
        IdView { pack: self.pack@, tag: self.tag@ }
    }
}

impl Clone for SnapshotId {
    fn clone(&self) -> (r: Self)
        ensures
            r@ == self@,
    {
        SnapshotId { pack: self.pack.clone(), tag: self.tag.clone() }
    }
}

/// The canonical form of a [`SnapshotId`].
pub open spec fn canonical(id: IdView) -> Seq<char> {
    id.pack + "/"@ + id.tag
}

/// The snapshot that a text in canonical form identifies. Neither the snapshot
/// pack filename nor the snapshot tag are allowed to contain forward slashes.
/// Whitespace at the end is ignored.
pub open spec fn parsed_id(s: Seq<char>) -> Option<IdView> {
    match text::last_position(s, '/') {
        Some(i) => {
            let pack = s.take(i);
            let tag = text::trim_end_of(s.skip(i + 1));
            if pack.contains('/') || pack.len() == 0 || tag.len() == 0 {
                None
            } else {
                Some(IdView { pack, tag })
            }
        },
        None => None,
    }
}

impl SnapshotId {
    /// Creates a [`SnapshotId`] from a pack and a snapshot tag
    pub fn new(pack: &str, tag: &str) -> (r: Self)
        ensures
            r@ == (IdView { pack: pack@, tag: tag@ }),
    {
        SnapshotId { pack: pack.to_owned(), tag: tag.to_owned() }
    }

    /// The pack that holds the snapshot.
    pub fn pack(&self) -> (r: &str)
        ensures
            r@ == self@.pack,
    {
        self.pack.as_str()
    }

    /// The tag of the snapshot.
    pub fn tag(&self) -> (r: &str)
        ensures
            r@ == self@.tag,
    {
        self.tag.as_str()
    }

    /// The canonical form.
    pub fn to_text(&self) -> (r: String)
        ensures
            r@ == canonical(self@),
    {
        let mut r = self.pack.clone();
        r.append("/");
        r.append(self.tag.as_str());
        r
    }

    /// Parses a [`SnapshotId`] from a canonical form string.
    pub fn from_str(s: &str) -> (r: Result<Self, ParseSnapshotIdError>)
        ensures
            match r {
                Ok(id) => parsed_id(s@) == Some(id@),
                Err(_) => parsed_id(s@) is None,
            },
    {
        let chars = to_chars(s);
        match find_last(chars.as_slice(), '/') {
            Some(i) => {
                assert(i < chars.len());
                let first = slice_subrange(chars.as_slice(), 0, i);
                let second = slice_subrange(chars.as_slice(), i + 1, chars.len());
                proof {
                    assert(first@ =~= s@.take(i as int));
                    assert(second@ =~= s@.skip(i + 1));
                    text::lemma_last_position(first@, '/');
                    if text::last_position(first@, '/') is Some {
                        let j = text::last_position(first@, '/')->0;
                        assert(first@[j] == '/');
                        assert(first@.contains('/'));
                    }
                }
                if find_last(first, '/').is_some() {
                    return Err(ParseSnapshotIdError {  });
                }
                if i == 0 {
                    return Err(ParseSnapshotIdError {  });
                }
                let n = trimmed_len(second);
                if n == 0 {
                    return Err(ParseSnapshotIdError {  });
                }
                let pack = from_char_range(first, 0, i);
                let tag = from_char_range(second, 0, n);
                proof {
                    assert(pack@ =~= first@);
                    assert(tag@ =~= second@.take(n as int));
                }
                Ok(SnapshotId { pack, tag })
            },
            None => Err(ParseSnapshotIdError {  }),
        }
    }

    /// Tells whether two IDs are the same.
    pub fn same(&self, other: &SnapshotId) -> (r: bool)
        ensures
            r == (self@ == other@),
    {
        text_equal(self.pack.as_str(), other.pack.as_str()) && text_equal(
            self.tag.as_str(),
            other.tag.as_str(),
        )
    }
}

/// The canonical form of an ID without slashes and without white space at its
/// end identifies the same snapshot, whatever white space follows it.
pub proof fn law_canonical_form_round_trip(id: IdView, space: Seq<char>)
    requires
        id.pack.len() > 0,
        !id.pack.contains('/'),
        id.tag.len() > 0,
        !id.tag.contains('/'),
        !text::is_white_space(id.tag.last()),
        text::is_blank(space),
    ensures
        parsed_id(canonical(id) + space) == Some(id),
{
    reveal_strlit("/");
    let s = canonical(id) + space;
    let n = id.pack.len() as int;
    text::lemma_last_position(s, '/');
    assert(s[n] == '/');
    assert(s.contains('/'));
    let i = text::last_position(s, '/')->0;
    if i > n {
        if i - n - 1 < id.tag.len() {
            assert(s[i] == id.tag[i - n - 1]);
            assert(id.tag.contains('/'));
        } else {
            assert(s[i] == space[i - n - 1 - id.tag.len()]);
        }
    }
    assert(i == n);
    assert(s.take(n) =~= id.pack);
    assert(s.skip(n + 1) =~= id.tag + space);
    text::lemma_trim_blank(id.tag, space);
    assert(text::trim_end_of(id.tag) == id.tag);
}

/// The type of error used by repository operations.
#[derive(Debug)]
pub enum Error {
    IOError(IoError),
    PackError(PackError),
    /// Bad top-level index
    CorruptRepositoryIndex,
    /// Bad HEAD (missing HEAD is okay and means that nothing has been extracted so far)
    CorruptHead,
    /// The .pack.idx is corrupt
    CorruptPackIndex,
    /// Multiple or none snapshots match the specified description
    AmbiguousSnapshotMatch,
    /// The working directory contains unexpected files
    DirtyWorkDir,
}

/// The message for an error.
pub open spec fn error_text(e: Error) -> Seq<char> {
    match e {
        Error::IOError(e) => e.message@,
        Error::PackError(e) => error::pack_error_text(e),
        Error::CorruptHead => "HEAD is corrupt!"@,
        Error::CorruptRepositoryIndex => "The repository index is corrupt or missing!"@,
        Error::CorruptPackIndex => "The pack index is corrupt!"@,
        Error::AmbiguousSnapshotMatch => "Found multiple snapshots matching the description!"@,
        Error::DirtyWorkDir => "Some files in the repository have been removed or modified unexpectedly!"@,
    }
}

impl Error {
    /// The message for the error.
    pub fn message(&self) -> (r: String)
        ensures
            r@ == error_text(*self),
    {
        match self {
            Error::IOError(e) => e.message.clone(),
            Error::PackError(e) => e.message(),
            Error::CorruptHead => "HEAD is corrupt!".to_owned(),
            Error::CorruptRepositoryIndex => {
                "The repository index is corrupt or missing!".to_owned()
            },
            Error::CorruptPackIndex => "The pack index is corrupt!".to_owned(),
            Error::AmbiguousSnapshotMatch => {
                "Found multiple snapshots matching the description!".to_owned()
            },
            Error::DirtyWorkDir => {
                "Some files in the repository have been removed or modified unexpectedly!".to_owned()
            },
        }
    }
}

/// A struct specifying the the extract options.
#[derive(Clone, Copy, Debug, PartialEq, Eq, Structural)]
pub struct ExtractOptions {
    /// Toggle checksum verification.
    verify: bool,
    /// Toggle reset mode on/off.
    reset: bool,
    /// Toggle checks guarding against overwriting user-modified files.
    force: bool,
}

/// What [`ExtractOptions`] say.
pub struct OptionsView {
    pub verify: bool,
    pub reset: bool,
    pub force: bool,
}

impl View for ExtractOptions {
    type V = OptionsView;

    closed spec fn view(&self) -> OptionsView {
        OptionsView { verify: self.verify, reset: self.reset, force: self.force }
    }
}

impl ExtractOptions {
    /// Toggle checksum verification.
    pub fn verify(&self) -> (r: bool)
        ensures
            r == self@.verify,
    {
        self.verify
    }

    /// Toggle checksum verification.
    pub fn set_verify(&mut self, value: bool)
        ensures
            final(self)@ == (OptionsView { verify: value, ..old(self)@ }),
    {
        self.verify = value;
    }

    /// Toggle reset mode on/off.
    pub fn reset(&self) -> (r: bool)
        ensures
            r == self@.reset,
    {
        self.reset
    }

    /// Toggle reset mode on/off.
    pub fn set_reset(&mut self, value: bool)
        ensures
            final(self)@ == (OptionsView { reset: value, ..old(self)@ }),
    {
        self.reset = value;
    }

    /// Toggle checks guarding against overwriting user-modified files.
    pub fn force(&self) -> (r: bool)
        ensures
            r == self@.force,
    {
        self.force
    }

    /// Toggle checks guarding against overwriting user-modified files.
    pub fn set_force(&mut self, value: bool)
        ensures
            final(self)@ == (OptionsView { force: value, ..old(self)@ }),
    {
        self.force = value;
    }
}

impl Default for ExtractOptions {
    fn default() -> (r: Self)
        ensures
            r@ == (OptionsView { verify: true, reset: false, force: false }),
    {
        ExtractOptions {
            // Verification might be expensive, but makes a good default to have
            // since it can help make sure that the pack contents has not been tampered with.
            verify: true,
            reset: false,
            // Safety checks on by default is safer :)
            force: false,
        }
    }
}

/// Where the content of a file is in a pack.
#[derive(Clone, Copy, Debug, PartialEq, Eq)]
pub struct ObjectIndex {
    pub checksum: ObjectChecksum,
    pub offset: u64,
    pub size: u64,
}

/// A file in a pack.
#[derive(Debug)]
pub struct PackEntry {
    path: String,
    object: ObjectIndex,
}

/// What a [`PackEntry`] says.
#[verifier::ext_equal]
pub struct PackEntryView {
    pub path: Seq<char>,
    pub checksum: Seq<u8>,
    pub offset: u64,
    pub size: u64,
}

impl View for PackEntry {
    type V = PackEntryView;

    closed spec fn view(&self) -> PackEntryView {
        PackEntryView {
            path: self.path@,
            checksum: self.object.checksum@,
            offset: self.object.offset,
            size: self.object.size,
        }
    }
}

impl Clone for PackEntry {
    fn clone(&self) -> (r: Self)
        ensures
            r@ == self@,
    {
        PackEntry { path: self.path.clone(), object: self.object }
    }
}

impl PackEntry {
    /// Creates an entry for a file.
    pub fn new(path: &str, object: ObjectIndex) -> (r: Self)
        ensures
            r@ == (PackEntryView {
                path: path@,
                checksum: object.checksum@,
                offset: object.offset,
                size: object.size,
            }),
    {
        PackEntry { path: path.to_owned(), object }
    }

    /// The path of the file.
    pub fn path(&self) -> (r: &str)
        ensures
            r@ == self@.path,
    {
        self.path.as_str()
    }

    /// Where the content of the file is.
    pub fn object_index(&self) -> (r: &ObjectIndex)
        ensures
            r.checksum@ == self@.checksum,
            r.offset == self@.offset,
            r.size == self@.size,
    {
        &self.object
    }
}

/// What entries say.
pub open spec fn views_of(entries: Seq<PackEntry>) -> Seq<PackEntryView> {
    entries.map_values(|e: PackEntry| e@)
}

/// The files that entries are for: path and checksum.
pub open spec fn keys_of(es: Seq<PackEntryView>) -> Seq<(Seq<char>, Seq<u8>)> {
    es.map_values(|e: PackEntryView| (e.path, e.checksum))
}

/// The order of entries by path, and by checksum for the same path.
pub open spec fn entry_less(a: PackEntryView, b: PackEntryView) -> bool {
    let x = text::bytes_of(a.path);
    let y = text::bytes_of(b.path);
    bytes::lex_less(x, y) || (x == y && bytes::lex_less(a.checksum, b.checksum))
}

/// The entry at `i` is the last one for its file, and the file is not among the
/// others.
pub open spec fn counts(es: Seq<PackEntryView>, others: Seq<PackEntryView>, i: int) -> bool {
    lookup::is_last(keys_of(es), i) && !keys_of(others).contains(keys_of(es)[i])
}

/// The list has the entries for files that are not among the others, in order.
/// Of several entries for one file only the last counts.
pub open spec fn is_diff(
    list: Seq<PackEntryView>,
    es: Seq<PackEntryView>,
    others: Seq<PackEntryView>,
) -> bool {
    &&& forall|i: int, j: int|
        0 <= i < j < list.len() ==> entry_less(#[trigger] list[i], #[trigger] list[j])
    &&& forall|e: PackEntryView| #[trigger]
        list.contains(e) <==> exists|i: int| #[trigger] counts(es, others, i) && es[i] == e
}

/// A byte string that stands for a file.
spec fn key_bytes(k: (Seq<char>, Seq<u8>)) -> Seq<u8> {
    k.1 + text::bytes_of(k.0)
}

proof fn lemma_key_bytes(a: (Seq<char>, Seq<u8>), b: (Seq<char>, Seq<u8>))
    requires
        a.1.len() == 20,
        b.1.len() == 20,
    ensures
        key_bytes(a) == key_bytes(b) <==> a == b,
{
    if key_bytes(a) == key_bytes(b) {
        assert(key_bytes(a).take(20) =~= a.1);
        assert(key_bytes(b).take(20) =~= b.1);
        assert(key_bytes(a).skip(20) =~= text::bytes_of(a.0));
        assert(key_bytes(b).skip(20) =~= text::bytes_of(b.0));
        text::lemma_text_bytes(a.0);
        text::lemma_text_bytes(b.0);
    }
}

fn entry_key(e: &PackEntry) -> (r: Vec<u8>)
    ensures
        r@ == key_bytes((e@.path, e@.checksum)),
{
    let mut r = slice_to_vec(e.object.checksum.as_slice());
    r.extend_from_slice(e.path.as_str().as_bytes());
    assert(r@ =~= key_bytes((e@.path, e@.checksum)));
    r
}

/// The byte strings for the files of entries.
spec fn table_keys(es: Seq<PackEntryView>) -> Seq<Seq<u8>> {
    es.map_values(|e: PackEntryView| key_bytes((e.path, e.checksum)))
}

fn key_table(entries: &[PackEntry]) -> (r: PositionTable)
    ensures
        r.wf(),
        r@ == table_keys(views_of(entries@)),
{
    let ghost all = table_keys(views_of(entries@));
    let mut r = PositionTable::new();
    let mut i: usize = 0;
    while i < entries.len()
        invariant
            i <= entries.len(),
            all == table_keys(views_of(entries@)),
            r.wf(),
            r@ == all.take(i as int),
        decreases entries.len() - i,
    {
        let key = entry_key(&entries[i]);
        r.push(key);
        proof {
            assert(views_of(entries@)[i as int] == entries@[i as int]@);
            assert(all[i as int] == key@);
            assert(all.take(i + 1) =~= all.take(i as int).push(all[i as int]));
        }
        i += 1;
    }
    assert(all.take(i as int) =~= all);
    r
}

spec fn full_checksums(es: Seq<PackEntryView>) -> bool {
    forall|i: int| 0 <= i < es.len() ==> (#[trigger] es[i]).checksum.len() == 20
}

proof fn lemma_counts(es: Seq<PackEntryView>, others: Seq<PackEntryView>, i: int)
    requires
        full_checksums(es),
        full_checksums(others),
        0 <= i < es.len(),
    ensures
        counts(es, others, i) <==> lookup::is_last(table_keys(es), i) && !table_keys(
            others,
        ).contains(table_keys(es)[i]),
{
    let k = keys_of(es)[i];
    assert forall|j: int| 0 <= j < es.len() implies (#[trigger] table_keys(es)[j] == table_keys(
        es,
    )[i] <==> keys_of(es)[j] == k) by {
        lemma_key_bytes(keys_of(es)[j], k);
    }
    assert forall|j: int| 0 <= j < others.len() implies (#[trigger] table_keys(others)[j]
        == table_keys(es)[i] <==> keys_of(others)[j] == k) by {
        lemma_key_bytes(keys_of(others)[j], k);
    }
    if lookup::is_last(table_keys(es), i) {
        assert forall|j: int| i < j < es.len() implies #[trigger] keys_of(es)[j] != k by {
            assert(table_keys(es)[j] != table_keys(es)[i]);
        }
    }
    if table_keys(others).contains(table_keys(es)[i]) {
        let j = table_keys(others).index_of(table_keys(es)[i]);
        assert(keys_of(others)[j] == k);
    }
    if keys_of(others).contains(k) {
        let j = keys_of(others).index_of(k);
        assert(table_keys(others)[j] == table_keys(es)[i]);
    }
}

/// The order of entries, by the positions of some of them.
spec fn picked_order(es: Seq<PackEntryView>, picked: Seq<usize>) -> spec_fn(int, int) -> bool {
    |a: int, b: int| entry_less(es[picked[a] as int], es[picked[b] as int])
}

proof fn lemma_picked_order(es: Seq<PackEntryView>, picked: Seq<usize>)
    ensures
        sort::is_weak_order(picked_order(es, picked), picked.len() as int),
{
    let lt = picked_order(es, picked);
    let n = picked.len() as int;
    let x = |i: int| text::bytes_of(es[picked[i] as int].path);
    let y = |i: int| es[picked[i] as int].checksum;
    assert forall|a: int, b: int| #![trigger lt(a, b)] 0 <= a < n && 0 <= b < n && lt(
        a,
        b,
    ) implies !lt(b, a) by {
        lemma_entry_order(x(a), y(a), x(b), y(b), x(a), y(a));
    }
    assert forall|a: int, b: int, c: int|
        #![trigger lt(a, b), lt(b, c)]
        0 <= a < n && 0 <= b < n && 0 <= c < n && !lt(a, b) && !lt(b, c) implies !lt(a, c) by {
        lemma_entry_order(x(a), y(a), x(b), y(b), x(c), y(c));
    }
}

spec fn pair_less(x: Seq<u8>, y: Seq<u8>, u: Seq<u8>, v: Seq<u8>) -> bool {
    bytes::lex_less(x, u) || (x == u && bytes::lex_less(y, v))
}

proof fn lemma_entry_order(
    x1: Seq<u8>,
    y1: Seq<u8>,
    x2: Seq<u8>,
    y2: Seq<u8>,
    x3: Seq<u8>,
    y3: Seq<u8>,
)
    ensures
        pair_less(x1, y1, x2, y2) ==> !pair_less(x2, y2, x1, y1),
        !pair_less(x1, y1, x2, y2) && !pair_less(x2, y2, x3, y3) ==> !pair_less(x1, y1, x3, y3),
{
    bytes::lemma_lex_irreflexive(x1);
    bytes::lemma_lex_irreflexive(y1);
    if bytes::lex_less(x1, x2) && bytes::lex_less(x2, x1) {
        bytes::lemma_lex_transitive(x1, x2, x1);
    }
    if bytes::lex_less(y1, y2) && bytes::lex_less(y2, y1) {
        bytes::lemma_lex_transitive(y1, y2, y1);
    }
    if !pair_less(x1, y1, x2, y2) && !pair_less(x2, y2, x3, y3) && pair_less(x1, y1, x3, y3) {
        if !bytes::lex_less(x2, x1) {
            bytes::lemma_lex_total(x1, x2);
        }
        if !bytes::lex_less(x3, x2) {
            bytes::lemma_lex_total(x2, x3);
        }
        if bytes::lex_less(x2, x1) && bytes::lex_less(x3, x2) {
            bytes::lemma_lex_transitive(x3, x2, x1);
        }
        if bytes::lex_less(x3, x1) && bytes::lex_less(x1, x3) {
            bytes::lemma_lex_transitive(x1, x3, x1);
        }
        if x1 == x2 && x2 == x3 {
            if !bytes::lex_less(y2, y1) {
                bytes::lemma_lex_total(y1, y2);
            } else {
                bytes::lemma_lex_transitive(y2, y1, y3);
            }
        }
    }
}

/// Lists the entries that count, in order.
fn list_diff(entries: &[PackEntry], own: &PositionTable, others: &PositionTable, Ghost(
    other_views,
): Ghost<Seq<PackEntryView>>) -> (r: Vec<PackEntry>)
    requires
        own.wf(),
        others.wf(),
        full_checksums(other_views),
        own@ == table_keys(views_of(entries@)),
        others@ == table_keys(other_views),
    ensures
        is_diff(views_of(r@), views_of(entries@), other_views),
{
    let ghost es = views_of(entries@);
    let mut picked: Vec<usize> = Vec::new();
    let mut i: usize = 0;
    while i < entries.len()
        invariant
            own.wf(),
            others.wf(),
            es == views_of(entries@),
            full_checksums(es),
            full_checksums(other_views),
            own@ == table_keys(es),
            others@ == table_keys(other_views),
            i <= entries.len(),
            forall|k: int|
                0 <= k < picked@.len() ==> (#[trigger] picked@[k]) < i && counts(
                    es,
                    other_views,
                    picked@[k] as int,
                ),
            forall|k: int, l: int|
                0 <= k < l < picked@.len() ==> #[trigger] picked@[k] < #[trigger] picked@[l],
            forall|j: int|
                0 <= j < i && #[trigger] counts(es, other_views, j) ==> picked@.contains(
                    j as usize,
                ),
        decreases entries.len() - i,
    {
        let key = entry_key(&entries[i]);
        proof {
            lemma_counts(es, other_views, i as int);
            assert(es[i as int] == entries@[i as int]@);
            assert(table_keys(es)[i as int] == key@);
        }
        let last = own.find_last(key.as_slice());
        let is_last = match last {
            Some(at) => at == i,
            None => false,
        };
        assert(is_last == lookup::is_last(own@, i as int));
        let ghost before = picked@;
        if is_last && !others.contains(key.as_slice()) {
            picked.push(i);
            proof {
                assert(picked@[before.len() as int] == i);
                assert forall|j: int|
                    0 <= j < i + 1 && #[trigger] counts(
                        es,
                        other_views,
                        j,
                    ) implies picked@.contains(j as usize) by {
                    if j < i {
                        let k = before.index_of(j as usize);
                        assert(picked@[k] == j);
                    }
                }
            }
        }
        i += 1;
    }
    let ghost lt = picked_order(es, picked@);
    let less = |a: usize, b: usize| -> (r: bool)
        requires
            a < picked@.len(),
            b < picked@.len(),
            forall|k: int| 0 <= k < picked@.len() ==> (#[trigger] picked@[k]) < entries@.len(),
        ensures
            r == entry_less(entries@[picked@[a as int] as int]@, entries@[picked@[b as int] as int]@),
        {
            let x = &entries[picked[a]];
            let y = &entries[picked[b]];
            bytes_less(x.path.as_str().as_bytes(), y.path.as_str().as_bytes()) || (
            crate::bytes::bytes_equal(x.path.as_str().as_bytes(), y.path.as_str().as_bytes())
                && bytes_less(x.object.checksum.as_slice(), y.object.checksum.as_slice()))
        };
    proof {
        lemma_picked_order(es, picked@);
    }
    let p = sort_positions(picked.len(), &less, Ghost(lt));
    let mut r: Vec<PackEntry> = Vec::new();
    let mut i: usize = 0;
    while i < p.len()
        invariant
            i <= p.len(),
            es == views_of(entries@),
            sort::is_sorting(lt, p@, picked@.len() as int),
            forall|k: int| 0 <= k < picked@.len() ==> (#[trigger] picked@[k]) < entries@.len(),
            r@.len() == i,
            forall|k: int|
                0 <= k < i ==> (#[trigger] r@[k])@ == es[picked@[p@[k] as int] as int],
        decreases p.len() - i,
    {
        r.push(entries[picked[p[i]]].clone());
        i += 1;
    }
    proof {
        let list = views_of(r@);
        assert forall|a: int, b: int| 0 <= a < b < list.len() implies entry_less(
            #[trigger] list[a],
            #[trigger] list[b],
        ) by {
            assert(sort::comes_before(lt, p@[a] as int, p@[b] as int));
            let i = picked@[p@[a] as int] as int;
            let j = picked@[p@[b] as int] as int;
            assert(list[a] == es[i] && list[b] == es[j]);
            if !lt(p@[a] as int, p@[b] as int) {
                lemma_same_key(es, i, j);
                assert(counts(es, other_views, i) && counts(es, other_views, j));
                assert(keys_of(es)[i] == keys_of(es)[j]);
                assert(p@[a] != p@[b]);
                if i < j {
                    assert(keys_of(es)[j] != keys_of(es)[i]);
                } else if j < i {
                    assert(keys_of(es)[i] != keys_of(es)[j]);
                } else {
                    if p@[a] < p@[b] {
                        assert(picked@[p@[a] as int] < picked@[p@[b] as int]);
                    } else {
                        assert(picked@[p@[b] as int] < picked@[p@[a] as int]);
                    }
                }
            }
        }
        assert forall|e: PackEntryView| #[trigger] list.contains(e) <==> exists|i: int| #[trigger]
            counts(es, other_views, i) && es[i] == e by {
            if list.contains(e) {
                let k = list.index_of(e);
                let i = picked@[p@[k] as int] as int;
                assert(r@[k]@ == es[i]);
                assert(counts(es, other_views, i));
            }
            if exists|i: int| #[trigger] counts(es, other_views, i) && es[i] == e {
                let i = choose|i: int| #[trigger] counts(es, other_views, i) && es[i] == e;
                assert(0 <= i < es.len());
                assert(picked@.contains(i as usize));
                let q = picked@.index_of(i as usize);
                sort::lemma_sorting_lists_all(p@, picked@.len() as int, q as usize);
                let k = p@.index_of(q as usize);
                assert(r@[k]@ == es[i]);
                assert(list[k] == e);
            }
        }
    }
    r
}

/// Entries of which neither comes first are for the same file.
proof fn lemma_same_key(es: Seq<PackEntryView>, i: int, j: int)
    requires
        0 <= i < es.len(),
        0 <= j < es.len(),
        !entry_less(es[i], es[j]),
        !entry_less(es[j], es[i]),
    ensures
        keys_of(es)[i] == keys_of(es)[j],
{
    let x = text::bytes_of(es[i].path);
    let y = text::bytes_of(es[j].path);
    bytes::lemma_lex_total(x, y);
    bytes::lemma_lex_total(es[i].checksum, es[j].checksum);
    text::lemma_text_bytes(es[i].path);
    text::lemma_text_bytes(es[j].path);
}

/// The entry for a file in a pack, as it is extracted.
pub open spec fn file_entry_of(e: PackEntryView) -> FileEntryView {
    FileEntryView {
        path: text::bytes_of(e.path),
        checksum: e.checksum,
        metadata: ObjectMetadata { offset: e.offset, size: e.size },
        file_metadata: FileMetadata { mode: 0 },
    }
}

/// The entries for files in a pack, as they are extracted.
pub open spec fn file_entries_of(es: Seq<PackEntryView>) -> Seq<FileEntryView> {
    es.map_values(|e: PackEntryView| file_entry_of(e))
}

/// Converts entries for extraction.
fn to_file_entries(entries: &[PackEntry]) -> (r: Vec<FileEntry>)
    ensures
        packidx::entry_views(r@) == file_entries_of(views_of(entries@)),
{
    let ghost all = file_entries_of(views_of(entries@));
    let mut r: Vec<FileEntry> = Vec::new();
    let mut i: usize = 0;
    while i < entries.len()
        invariant
            i <= entries.len(),
            all == file_entries_of(views_of(entries@)),
            packidx::entry_views(r@) == all.take(i as int),
        decreases entries.len() - i,
    {
        let ghost before = packidx::entry_views(r@);
        let e = &entries[i];
        let entry = FileEntry::new(
            text_bytes(e.path.as_str()),
            e.object.checksum,
            ObjectMetadata { offset: e.object.offset, size: e.object.size },
        );
        r.push(entry);
        proof {
            assert(views_of(entries@)[i as int] == e@);
            assert(entry@ =~= all[i as int]);
            assert(packidx::entry_views(r@) =~= before.push(entry@));
            assert(all.take(i + 1) =~= all.take(i as int).push(all[i as int]));
        }
        i += 1;
    }
    assert(all.take(i as int) =~= all);
    r
}

/// Represents a pack file: one stream of objects.
#[derive(Debug)]
pub struct Pack {
    /// The base filename of the pack.
    name: String,
    /// The compressed stream.
    stream: Vec<u8>,
}

impl Pack {
    /// The base filename of the pack.
    pub closed spec fn named(&self) -> Seq<char> {
        self.name@
    }

    /// The compressed stream.
    pub closed spec fn compressed(&self) -> Seq<u8> {
        self.stream@
    }

    /// Opens a pack file, given its content.
    pub fn open(pack_name: &str, stream: Vec<u8>) -> (r: Self)
        ensures
            r.named() == pack_name@,
            r.compressed() == stream@,
    {
        Pack { name: pack_name.to_owned(), stream }
    }

    /// The base filename of the pack.
    pub fn name(&self) -> (r: &str)
        ensures
            r@ == self.named(),
    {
        self.name.as_str()
    }

    /// Extracts the specified entries from the pack. This operation consumes the
    /// pack, whose stream is read once, in the order of the offsets of the
    /// objects.
    ///
    /// # Arguments
    ///
    /// * `entries` - The list of entries to extract.
    /// * `verify` - Enable/disable checksum verification.
    pub fn extract(self, entries: &[PackEntry], verify: bool) -> (r: FrameExtraction)
        requires
            extract::ends_fit(file_entries_of(views_of(entries@)), verify),
        ensures
            exists|failure: Option<IoError>| #[trigger]
                extract::is_extraction(
                    r,
                    failure,
                    self.compressed(),
                    file_entries_of(views_of(entries@)),
                    verify,
                ),
            r.result is Ok ==> extract::is_extracted(
                r,
                self.compressed(),
                file_entries_of(views_of(entries@)),
                verify,
            ),
    {
        let list = to_file_entries(entries);
        let r = extract_files(self.stream.as_slice(), list.as_slice(), verify);
        proof {
            let es = packidx::entry_views(list@);
            let failure = choose|failure: Option<IoError>| #[trigger]
                extract::is_extraction(r, failure, self.stream@, es, verify);
            assert(extract::is_extraction(r, failure, self.compressed(), es, verify));
        }
        r
    }
}

/// Which packs hold each snapshot.
#[derive(Debug)]
pub struct SnapshotPacks {
    pub snapshot: String,
    pub packs: Vec<String>,
}

/// What a [`SnapshotPacks`] says.
#[verifier::ext_equal]
pub struct SnapshotPacksView {
    pub snapshot: Seq<char>,
    pub packs: Seq<Seq<char>>,
}

impl View for SnapshotPacks {
    type V = SnapshotPacksView;

    open spec fn view(&self) -> SnapshotPacksView {
        SnapshotPacksView {
            snapshot: self.snapshot@,
            packs: packidxv1::text_views(self.packs@),
        }
    }
}

/// What a list of snapshots and their packs says.
pub open spec fn list_views(list: Seq<SnapshotPacks>) -> Seq<SnapshotPacksView> {
    list.map_values(|s: SnapshotPacks| s@)
}

/// The map from snapshots to packs that the MessagePack decoder reads from the
/// bytes, as a list in the order of the snapshots.
pub uninterp spec fn decoded_repository_index(bytes: Seq<u8>) -> Option<Seq<SnapshotPacksView>>;

/// Wraps `rmp_serde::decode::from_slice` for a map from texts to lists of
/// texts. What is read is a function of the bytes, and no text is twice in the
/// map.
#[verifier::external_body]
fn decode_repository_index(bytes: &[u8]) -> (r: Option<Vec<SnapshotPacks>>)
    ensures
        match r {
            Some(list) => decoded_repository_index(bytes@) == Some(list_views(list@)),
            None => decoded_repository_index(bytes@) is None,
        },
        r matches Some(list) ==> forall|i: int, j: int|
            0 <= i < j < list@.len() ==> (#[trigger] list@[i])@.snapshot != (
            #[trigger] list@[j])@.snapshot,
{
    let map: BTreeMap<String, Vec<String>> = rmp_serde::decode::from_slice(bytes).ok()?;
    Some(map.into_iter().map(|(snapshot, packs)| SnapshotPacks { snapshot, packs }).collect())
}

/// A repository with one index of all snapshots.
#[derive(Debug)]
pub struct Repository {
    /// The path containing the data directory.
    path: Vec<u8>,
    /// The ID of the currently extracted snapshot or None, if nothing has been
    /// extracted yet.
    head: Option<SnapshotId>,
    /// Which packs hold each snapshot.
    index: Vec<SnapshotPacks>,
}

/// What a [`Repository`] says.
#[verifier::ext_equal]
pub struct RepositoryView {
    pub path: Seq<u8>,
    pub head: Option<IdView>,
    pub index: Seq<SnapshotPacksView>,
}

impl View for Repository {
    type V = RepositoryView;

    closed spec fn view(&self) -> RepositoryView {
        RepositoryView {
            path: self.path@,
            head: match self.head {
                Some(id) => Some(id@),
                None => None,
            },
            index: list_views(self.index@),
        }
    }
}

/// The snapshot that the content of HEAD names.
pub open spec fn head_of(content: Seq<u8>) -> Option<IdView> {
    match text::text_of(content) {
        Some(s) => parsed_id(s),
        None => None,
    }
}

/// Reads the content of HEAD.
fn parse_head(content: Vec<u8>) -> (r: Option<SnapshotId>)
    ensures
        match r {
            Some(id) => head_of(content@) == Some(id@),
            None => head_of(content@) is None,
        },
{
    match decode_text(content) {
        Some(s) => match SnapshotId::from_str(s.as_str()) {
            Ok(id) => Some(id),
            Err(_) => None,
        },
        None => None,
    }
}

/// The files to check, to delete and to write for an extraction.
pub struct ExtractPlan {
    /// The entries that are extracted.
    pub new_entries: Vec<PackEntry>,
    /// The paths of files that are replaced.
    pub updated_paths: Vec<Vec<u8>>,
    /// The paths of files that are deleted.
    pub removed_paths: Vec<Vec<u8>>,
}

/// The paths of entries.
pub open spec fn paths_in(es: Seq<PackEntryView>) -> Set<Seq<u8>> {
    es.map_values(|e: PackEntryView| text::bytes_of(e.path)).to_set()
}

/// The plan writes the new entries in place of the old ones.
pub open spec fn is_plan_for(
    plan: ExtractPlan,
    new_entries: Seq<PackEntryView>,
    old_entries: Seq<PackEntryView>,
) -> bool {
    &&& views_of(plan.new_entries@) == new_entries
    &&& split::byte_views(plan.updated_paths@).no_duplicates()
    &&& split::byte_views(plan.updated_paths@).to_set() == paths_in(new_entries).intersect(
        paths_in(old_entries),
    )
    &&& split::byte_views(plan.removed_paths@).no_duplicates()
    &&& split::byte_views(plan.removed_paths@).to_set() == paths_in(old_entries).difference(
        paths_in(new_entries),
    )
}

proof fn lemma_paths(es: Seq<PackEntryView>, p: Seq<u8>)
    ensures
        checkout::paths_in(file_entries_of(es)).contains(p) <==> paths_in(es).contains(p),
{
    let a = checkout::paths_in(file_entries_of(es));
    let b = es.map_values(|e: PackEntryView| text::bytes_of(e.path));
    assert(a =~= b);
}

/// Plans to write the new entries in place of the old ones.
fn plan_update(new_entries: Vec<PackEntry>, old_entries: Vec<PackEntry>) -> (r: ExtractPlan)
    ensures
        is_plan_for(r, views_of(new_entries@), views_of(old_entries@)),
{
    let ghost news = views_of(new_entries@);
    let ghost olds = views_of(old_entries@);
    let new_files = to_file_entries(new_entries.as_slice());
    let old_files = to_file_entries(old_entries.as_slice());
    let table = path_table(new_files.as_slice());
    let updated_paths = distinct_paths(old_files.as_slice(), &table, true);
    let removed_paths = distinct_paths(old_files.as_slice(), &table, false);
    proof {
        let u = split::byte_views(updated_paths@);
        let r = split::byte_views(removed_paths@);
        assert forall|p: Seq<u8>| u.to_set().contains(p) <==> paths_in(news).intersect(
            paths_in(olds),
        ).contains(p) by {
            lemma_paths(news, p);
            lemma_paths(olds, p);
            assert(u.contains(p) <==> u.to_set().contains(p));
        }
        assert forall|p: Seq<u8>| r.to_set().contains(p) <==> paths_in(olds).difference(
            paths_in(news),
        ).contains(p) by {
            lemma_paths(news, p);
            lemma_paths(olds, p);
            assert(r.contains(p) <==> r.to_set().contains(p));
        }
        assert(u.to_set() =~= paths_in(news).intersect(paths_in(olds)));
        assert(r.to_set() =~= paths_in(olds).difference(paths_in(news)));
    }
    ExtractPlan { new_entries, updated_paths, removed_paths }
}

impl Repository {
    /// Opens a repository, given the content of its HEAD, if there is one, and
    /// of its index.
    ///
    /// # Arguments
    ///
    /// * `path` - The path containing the [`Repository::data_dir`] directory.
    pub fn open(path: Vec<u8>, head_file: Option<Vec<u8>>, index_file: Option<Vec<u8>>) -> (r:
        Result<Self, Error>)
        ensures
            match r {
                Ok(repo) => {
                    &&& repo@.path == path@
                    &&& match head_file {
                        Some(content) => head_of(content@) is Some && repo@.head == head_of(
                            content@,
                        ),
                        None => repo@.head is None,
                    }
                    &&& index_file matches Some(bytes) && decoded_repository_index(bytes@) == Some(
                        repo@.index,
                    )
                },
                Err(Error::CorruptHead) => head_file matches Some(content) && head_of(
                    content@,
                ) is None,
                Err(Error::CorruptRepositoryIndex) => {
                    &&& head_file matches Some(content) ==> head_of(content@) is Some
                    &&& index_file matches Some(bytes) ==> decoded_repository_index(bytes@) is None
                },
                Err(_) => false,
            },
    {
        let head = match head_file {
            Some(content) => match parse_head(content) {
                Some(id) => Some(id),
                None => {
                    return Err(Error::CorruptHead);
                },
            },
            None => None,
        };
        let index = match index_file {
            Some(bytes) => decode_repository_index(bytes.as_slice()),
            None => None,
        };
        match index {
            Some(index) => Ok(Repository { path, head, index }),
            None => Err(Error::CorruptRepositoryIndex),
        }
    }

    /// The currently extracted snapshot.
    pub fn head(&self) -> (r: &Option<SnapshotId>)
        ensures
            match *r {
                Some(id) => self@.head == Some(id@),
                None => self@.head is None,
            },
    {
        &self.head
    }

    /// Returns the names of the packs containing the snapshot.
    pub fn find_packs(&self, snapshot: &str) -> (r: Vec<String>)
        ensures
            ({
                let found = packidxv1::text_views(r@);
                ||| exists|i: int|
                    {
                        &&& 0 <= i < self@.index.len()
                        &&& (#[trigger] self@.index[i]).snapshot == snapshot@
                        &&& self@.index[i].packs == found
                        &&& forall|j: int|
                            0 <= j < i ==> (#[trigger] self@.index[j]).snapshot != snapshot@
                    }
                ||| found.len() == 0 && forall|j: int|
                    0 <= j < self@.index.len() ==> (#[trigger] self@.index[j]).snapshot != snapshot@
            }),
    {
        let mut i: usize = 0;
        while i < self.index.len()
            invariant
                i <= self.index.len(),
                self@.index.len() == self.index@.len(),
                forall|j: int|
                    0 <= j < i ==> (#[trigger] self@.index[j]).snapshot != snapshot@,
            decreases self.index.len() - i,
        {
            assert(self@.index[i as int] == self.index@[i as int]@);
            if text_equal(self.index[i].snapshot.as_str(), snapshot) {
                let r = self.index[i].packs.clone();
                assert(packidxv1::text_views(r@) =~= packidxv1::text_views(
                    self.index@[i as int].packs@,
                ));
                return r;
            }
            i += 1;
        }
        Vec::new()
    }

    /// Plans the extraction of a snapshot with the given entries, over the
    /// current one, if that matters.
    pub fn extract(&self, entries: Vec<PackEntry>, head_entries: &[PackEntry], opts: &ExtractOptions) -> (r:
        ExtractPlan)
        ensures
            if opts@.reset || self@.head is None {
                is_plan_for(r, views_of(entries@), Seq::empty())
            } else {
                exists|added: Seq<PackEntryView>, removed: Seq<PackEntryView>|
                    {
                        &&& #[trigger] is_diff(added, views_of(entries@), views_of(head_entries@))
                        &&& #[trigger] is_diff(removed, views_of(head_entries@), views_of(entries@))
                        &&& is_plan_for(r, added, removed)
                    }
            },
    {
        if !opts.reset && self.head.is_some() {
            let (added, removed) = Self::compute_entry_diff(head_entries, entries.as_slice());
            let ghost a = views_of(added@);
            let ghost d = views_of(removed@);
            let r = plan_update(added, removed);
            assert(is_diff(a, views_of(entries@), views_of(head_entries@)));
            assert(is_diff(d, views_of(head_entries@), views_of(entries@)));
            r
        } else {
            // Extract all, remove nothing
            let none: Vec<PackEntry> = Vec::new();
            assert(views_of(none@) =~= Seq::empty());
            plan_update(entries, none)
        }
    }

    /// The name of the directory containing the repository data.
    pub fn data_dir() -> (r: &'static str)
        ensures
            r@ == REPO_DIR@,
    {
        REPO_DIR
    }

    /// Updates the HEAD snapshot id. Returns the new content of HEAD.
    pub fn update_head(&mut self, snapshot_id: &SnapshotId) -> (r: Vec<u8>)
        ensures
            r@ == text::bytes_of(canonical(snapshot_id@)),
            final(self)@ == (RepositoryView { head: Some(snapshot_id@), ..old(self)@ }),
    {
        let s = snapshot_id.to_text();
        self.head = Some(snapshot_id.clone());
        text_bytes(s.as_str())
    }

    /// Returns the pair of lists (`added`, `removed`). `added` contains the entries from
    /// `to_entries` which are not present in `from_entries`. `removed` contains the entries
    /// from `from_entries` which are not present in `to_entries`.
    pub fn compute_entry_diff(from_entries: &[PackEntry], to_entries: &[PackEntry]) -> (r: (
        Vec<PackEntry>,
        Vec<PackEntry>,
    ))
        ensures
            is_diff(views_of(r.0@), views_of(to_entries@), views_of(from_entries@)),
            is_diff(views_of(r.1@), views_of(from_entries@), views_of(to_entries@)),
    {
        let from_table = key_table(from_entries);
        let to_table = key_table(to_entries);
        let removed = list_diff(
            from_entries,
            &from_table,
            &to_table,
            Ghost(views_of(to_entries@)),
        );
        let added = list_diff(
            to_entries,
            &to_table,
            &from_table,
            Ghost(views_of(from_entries@)),
        );
        (added, removed)
    }

    /// Checks that a file can be deleted or replaced, given whether it is
    /// read-only, if it is there.
    pub fn ensure_safe_to_delete(readonly: Option<bool>) -> (r: Result<(), Error>)
        ensures
            match r {
                Ok(_) => readonly == Some(true),
                Err(e) => readonly != Some(true) && e == Error::DirtyWorkDir,
            },
    {
        match readonly {
            // If the file is not readonly that means that the repo has been modified unexpectedly!
            Some(is_readonly) => if is_readonly {
                Ok(())
            } else {
                Err(Error::DirtyWorkDir)
            },
            // If the file is missing that also means it has been modified!
            None => Err(Error::DirtyWorkDir),
        }
    }
}

/// The current snapshot is the one that it was updated to.
pub proof fn law_head_round_trip(id: IdView)
    requires
        id.pack.len() > 0,
        !id.pack.contains('/'),
        id.tag.len() > 0,
        !id.tag.contains('/'),
        !text::is_white_space(id.tag.last()),
    ensures
        head_of(text::bytes_of(canonical(id))) == Some(id),
{
    law_canonical_form_round_trip(id, Seq::empty());
    assert(canonical(id) + Seq::empty() =~= canonical(id));
    text::lemma_text_bytes(canonical(id));
}

/// One of the entries is for a file with the given path and checksum.
pub open spec fn has_file(es: Seq<PackEntryView>, path: Seq<u8>, checksum: Seq<u8>) -> bool {
    exists|i: int|
        0 <= i < es.len() && text::bytes_of((#[trigger] es[i]).path) == path && es[i].checksum
            == checksum
}

/// One of the entries has the given path.
pub open spec fn has_path(es: Seq<PackEntryView>, path: Seq<u8>) -> bool {
    exists|checksum: Seq<u8>| #[trigger] has_file(es, path, checksum)
}

/// The checksums of files by their paths.
pub open spec fn files_of(es: Seq<PackEntryView>) -> Map<Seq<u8>, Seq<u8>> {
    Map::new(
        |path: Seq<u8>| has_path(es, path),
        |path: Seq<u8>| choose|checksum: Seq<u8>| #[trigger] has_file(es, path, checksum),
    )
}

/// No two entries have the same path.
pub open spec fn has_distinct_paths(es: Seq<PackEntryView>) -> bool {
    forall|i: int, j: int|
        0 <= i < j < es.len() ==> (#[trigger] es[i]).path != (#[trigger] es[j]).path
}

/// Where paths are distinct, a path has one file.
proof fn lemma_one_file(es: Seq<PackEntryView>, path: Seq<u8>, a: Seq<u8>, b: Seq<u8>)
    requires
        has_distinct_paths(es),
        has_file(es, path, a),
        has_file(es, path, b),
    ensures
        a == b,
{
    let i = choose|i: int|
        0 <= i < es.len() && text::bytes_of((#[trigger] es[i]).path) == path && es[i].checksum
            == a;
    let j = choose|j: int|
        0 <= j < es.len() && text::bytes_of((#[trigger] es[j]).path) == path && es[j].checksum
            == b;
    text::lemma_text_bytes(es[i].path);
    text::lemma_text_bytes(es[j].path);
    assert(es[i].path == es[j].path);
}

/// The difference has the files that are not among the others.
proof fn lemma_diff_files(
    list: Seq<PackEntryView>,
    es: Seq<PackEntryView>,
    others: Seq<PackEntryView>,
    path: Seq<u8>,
    checksum: Seq<u8>,
)
    requires
        is_diff(list, es, others),
        has_distinct_paths(es),
    ensures
        has_file(list, path, checksum) <==> has_file(es, path, checksum) && !has_file(
            others,
            path,
            checksum,
        ),
{
    if has_file(list, path, checksum) {
        let a = choose|a: int|
            0 <= a < list.len() && text::bytes_of((#[trigger] list[a]).path) == path
                && list[a].checksum == checksum;
        assert(list.contains(list[a]));
        let i = choose|i: int| #[trigger] counts(es, others, i) && es[i] == list[a];
        if has_file(others, path, checksum) {
            let j = choose|j: int|
                0 <= j < others.len() && text::bytes_of((#[trigger] others[j]).path) == path
                    && others[j].checksum == checksum;
            text::lemma_text_bytes(es[i].path);
            text::lemma_text_bytes(others[j].path);
            assert(keys_of(others)[j] == keys_of(es)[i]);
        }
    }
    if has_file(es, path, checksum) && !has_file(others, path, checksum) {
        let i = choose|i: int|
            0 <= i < es.len() && text::bytes_of((#[trigger] es[i]).path) == path && es[i].checksum
                == checksum;
        let k = keys_of(es)[i];
        if keys_of(others).contains(k) {
            let j = keys_of(others).index_of(k);
            assert(keys_of(others)[j] == (others[j].path, others[j].checksum));
        }
        assert forall|j: int| i < j < es.len() implies #[trigger] keys_of(es)[j] != k by {
            assert(es[i].path != es[j].path);
        }
        assert(counts(es, others, i));
        assert(list.contains(es[i]));
        let a = list.index_of(es[i]);
        assert(list[a] == es[i]);
    }
}

/// The paths of entries are those that entries have.
proof fn lemma_has_path(es: Seq<PackEntryView>, path: Seq<u8>)
    ensures
        paths_in(es).contains(path) <==> has_path(es, path),
{
    let list = es.map_values(|e: PackEntryView| text::bytes_of(e.path));
    if paths_in(es).contains(path) {
        let i = list.index_of(path);
        assert(list[i] == text::bytes_of(es[i].path));
        assert(has_file(es, path, es[i].checksum));
    }
    if has_path(es, path) {
        let c = choose|c: Seq<u8>| #[trigger] has_file(es, path, c);
        let i = choose|i: int|
            0 <= i < es.len() && text::bytes_of((#[trigger] es[i]).path) == path && es[i].checksum
                == c;
        assert(list[i] == path);
    }
}

/// Carrying out an extraction, that is, first deleting the removed files and
/// then writing the new ones, leaves exactly the files of the snapshot.
pub proof fn law_extraction_leads_to_target(
    plan: ExtractPlan,
    from: Seq<PackEntryView>,
    to: Seq<PackEntryView>,
    added: Seq<PackEntryView>,
    removed: Seq<PackEntryView>,
)
    requires
        has_distinct_paths(from),
        has_distinct_paths(to),
        is_diff(added, to, from),
        is_diff(removed, from, to),
        is_plan_for(plan, added, removed),
    ensures
        files_of(from).remove_keys(
            split::byte_views(plan.removed_paths@).to_set(),
        ).union_prefer_right(files_of(views_of(plan.new_entries@))) == files_of(to),
{
    let gone = split::byte_views(plan.removed_paths@).to_set();
    let result = files_of(from).remove_keys(gone).union_prefer_right(files_of(added));
    let target = files_of(to);
    assert forall|p: Seq<u8>|
        (#[trigger] result.contains_key(p) <==> target.contains_key(p)) && (target.contains_key(p)
            ==> result[p] == target[p]) by {
        lemma_has_path(added, p);
        lemma_has_path(removed, p);
        assert(gone.contains(p) <==> has_path(removed, p) && !has_path(added, p));
        assert forall|c: Seq<u8>| #[trigger] has_file(added, p, c) <==> has_file(to, p, c)
            && !has_file(from, p, c) by {
            lemma_diff_files(added, to, from, p, c);
        }
        assert forall|c: Seq<u8>| #[trigger] has_file(removed, p, c) <==> has_file(from, p, c)
            && !has_file(to, p, c) by {
            lemma_diff_files(removed, from, to, p, c);
        }
        if has_path(added, p) {
            let c = files_of(added)[p];
            assert(has_file(added, p, c));
            assert(has_file(to, p, c));
            lemma_one_file(to, p, c, target[p]);
        } else if has_path(to, p) {
            let c = target[p];
            assert(has_file(to, p, c));
            assert(!has_file(added, p, c));
            assert(has_file(from, p, c));
            lemma_one_file(from, p, c, files_of(from)[p]);
            if has_path(removed, p) {
                let d = choose|d: Seq<u8>| #[trigger] has_file(removed, p, d);
                lemma_one_file(from, p, c, d);
            }
        } else if has_path(from, p) {
            let c = files_of(from)[p];
            assert(has_file(from, p, c));
            assert(!has_file(to, p, c));
            assert(has_file(removed, p, c));
        }
    }
    assert(result =~= target);
}

/// A file with a path and a checksum is among the entries.
pub open spec fn lists(es: Seq<PackEntryView>, path: Seq<char>, checksum: Seq<u8>) -> bool {
    exists|i: int|
        0 <= i < es.len() && (#[trigger] es[i]).path == path && es[i].checksum == checksum
}

/// A difference lists exactly the files that are in the one list and not in the
/// other, each once.
pub proof fn law_diff_lists_missing_files(
    list: Seq<PackEntryView>,
    es: Seq<PackEntryView>,
    others: Seq<PackEntryView>,
    path: Seq<char>,
    checksum: Seq<u8>,
)
    requires
        is_diff(list, es, others),
    ensures
        lists(list, path, checksum) <==> lists(es, path, checksum) && !lists(
            others,
            path,
            checksum,
        ),
        forall|i: int, j: int|
            0 <= i < j < list.len() ==> (#[trigger] list[i]).path != (#[trigger] list[j]).path
                || list[i].checksum != list[j].checksum,
{
    assert forall|i: int, j: int| 0 <= i < j < list.len() implies (#[trigger] list[i]).path != (
    #[trigger] list[j]).path || list[i].checksum != list[j].checksum by {
        assert(entry_less(list[i], list[j]));
        bytes::law_first_difference_decides(
            text::bytes_of(list[i].path),
            text::bytes_of(list[i].path),
        );
        bytes::law_first_difference_decides(list[i].checksum, list[i].checksum);
    }
    let key = (path, checksum);
    let keys = keys_of(es);
    if lists(list, path, checksum) {
        let x = choose|i: int|
            0 <= i < list.len() && (#[trigger] list[i]).path == path && list[i].checksum
                == checksum;
        assert(list.contains(list[x]));
        let i = choose|i: int| #[trigger] counts(es, others, i) && es[i] == list[x];
        assert(es[i].path == path && es[i].checksum == checksum);
        if lists(others, path, checksum) {
            let j = choose|j: int|
                0 <= j < others.len() && (#[trigger] others[j]).path == path && others[j].checksum
                    == checksum;
            assert(keys_of(others)[j] == key);
        }
    }
    if lists(es, path, checksum) && !lists(others, path, checksum) {
        let i = choose|i: int|
            0 <= i < es.len() && (#[trigger] es[i]).path == path && es[i].checksum == checksum;
        assert(keys[i] == key);
        let x = lemma_last_key(keys, key, keys.len() as int);
        assert(es[x].path == path && es[x].checksum == checksum);
        if keys_of(others).contains(key) {
            let j = keys_of(others).index_of(key);
            assert(others[j].path == path && others[j].checksum == checksum);
        }
        assert(counts(es, others, x));
        assert(list.contains(es[x]));
        let y = list.index_of(es[x]);
        assert(list[y].path == path && list[y].checksum == checksum);
    }
}

proof fn lemma_last_key(
    keys: Seq<(Seq<char>, Seq<u8>)>,
    key: (Seq<char>, Seq<u8>),
    n: int,
) -> (x: int)
    requires
        0 <= n <= keys.len(),
        keys.contains(key),
        forall|i: int| n <= i < keys.len() ==> #[trigger] keys[i] != key,
    ensures
        lookup::is_last(keys, x),
        keys[x] == key,
    decreases n,
{
    let at = keys.index_of(key);
    assert(at < n);
    if keys[n - 1] == key {
        n - 1
    } else {
        lemma_last_key(keys, key, n - 1)
    }
}

/// What is parsed is written back as it was, but for white space at the end.
pub proof fn law_parsed_id_is_written_back(s: Seq<char>)
    ensures
        parsed_id(s) matches Some(id) ==> {
            &&& canonical(id).is_prefix_of(s)
            &&& text::is_blank(s.skip(canonical(id).len() as int))
            &&& id.pack.len() > 0 && id.tag.len() > 0
            &&& !id.pack.contains('/') && !id.tag.contains('/')
        },
{
    reveal_strlit("/");
    text::lemma_last_position(s, '/');
    if let Some(id) = parsed_id(s) {
        let i = text::last_position(s, '/')->0;
        let rest = s.skip(i + 1);
        text::law_only_white_space_is_trimmed(rest);
        let n = canonical(id).len() as int;
        assert(id.tag == rest.subrange(0, id.tag.len() as int));
        assert(canonical(id) =~= s.subrange(0, n));
        assert(s.skip(n) =~= rest.skip(id.tag.len() as int));
        if id.tag.contains('/') {
            let j = id.tag.index_of('/');
            assert(s[i + 1 + j] == '/');
        }
    }
}

/// The entries to extract are those of the pack, in order, each with its path, its
/// checksum, and where its object is.
pub proof fn law_every_entry_is_extracted(es: Seq<PackEntryView>, i: int)
    requires
        0 <= i < es.len(),
    ensures
        file_entries_of(es).len() == es.len(),
        file_entries_of(es)[i].path == text::bytes_of(es[i].path),
        file_entries_of(es)[i].checksum == es[i].checksum,
        file_entries_of(es)[i].metadata.offset == es[i].offset,
        file_entries_of(es)[i].metadata.size == es[i].size,
{
}

} // verus!
