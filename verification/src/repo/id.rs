//! Names of packs and snapshots.

use crate::text;
use crate::text::{find_last, from_char_range, text_equal, to_chars, trimmed_len};
use vstd::prelude::*;
use vstd::slice::slice_subrange;
use vstd::string::StringExecFns;

verus! {

/// Error used when parsing a [`SnapshotId`] fails.
#[derive(Debug)]
pub enum IdError {
    BadFormat(String),
    InvalidPack(String),
    InvalidSnapshot(String),
}

/// The message for an error.
pub open spec fn id_error_text(e: IdError) -> Seq<char> {
    match e {
        IdError::BadFormat(s) => "Unrecognized identifier format '"@ + s@ + "'!"@,
        IdError::InvalidPack(s) => "Invalid pack identifier '"@ + s@
            + "'! Latin letters, digits, -, _ and / are allowed!"@,
        IdError::InvalidSnapshot(s) => "Invalid snapshot identifier '"@ + s@
            + "'! Latin letters, digits, - and _ are allowed!"@,
    }
}

impl IdError {
    /// The message for the error.
    pub fn message(&self) -> (r: String)
        ensures
            r@ == id_error_text(*self),
    {
        match self {
            IdError::BadFormat(s) => {
                let mut r = "Unrecognized identifier format '".to_owned();
                r.append(s.as_str());
                r.append("'!");
                r
            },
            IdError::InvalidPack(s) => {
                let mut r = "Invalid pack identifier '".to_owned();
                r.append(s.as_str());
                r.append("'! Latin letters, digits, -, _ and / are allowed!");
                r
            },
            IdError::InvalidSnapshot(s) => {
                let mut r = "Invalid snapshot identifier '".to_owned();
                r.append(s.as_str());
                r.append("'! Latin letters, digits, - and _ are allowed!");
                r
            },
        }
    }
}

/// Pack and snapshots IDs can contain latin letter, digits or some further
/// characters.
pub open spec fn is_id_char(c: char) -> bool {
    ||| 'a' <= c <= 'z'
    ||| 'A' <= c <= 'Z'
    ||| '0' <= c <= '9'
    ||| c == '-'
    ||| c == '_'
    ||| c == '/'
}

/// All characters are allowed in an ID.
pub open spec fn is_id(s: Seq<char>) -> bool {
    forall|i: int| 0 <= i < s.len() ==> is_id_char(#[trigger] s[i])
}

/// Tells whether all characters are allowed in an ID.
fn has_id_chars(s: &[char]) -> (r: bool)
    ensures
        r == is_id(s@),
{
    let mut i: usize = 0;
    while i < s.len()
        invariant
            i <= s.len(),
            forall|j: int| 0 <= j < i ==> is_id_char(#[trigger] s@[j]),
        decreases s.len() - i,
    {
        let c = s[i];
        if !(('a' <= c && c <= 'z') || ('A' <= c && c <= 'Z') || ('0' <= c && c <= '9') || c == '-'
            || c == '_' || c == '/') {
            assert(!is_id_char(s@[i as int]));
            return false;
        }
        i += 1;
    }
    true
}

/// The ending of the names of pack index files.
pub open spec fn index_suffix() -> Seq<char> {
    ".pack.idx"@
}

/// Identifies a pack file.
#[derive(Debug, PartialEq, Eq, PartialOrd, Ord, Hash)]
pub enum PackId {
    Pack(String),
}

impl View for PackId {
    type V = Seq<char>;

    open spec fn view(&self) -> Seq<char> {
        match self {
            PackId::Pack(s) => s@,
        }
    }
}

impl Clone for PackId {
    fn clone(&self) -> (r: Self)
        ensures
            r@ == self@,
    {
        match self {
            PackId::Pack(s) => PackId::Pack(s.clone()),
        }
    }
}

impl PackId {
    /// from_index_path returns Some(PackId::Pack(index_path)) with the pack
    /// index extension trimmed, if the input ends in it.
    pub fn from_index_path(index_path: String) -> (r: Option<PackId>)
        ensures
            match r {
                Some(id) => index_path@ == id@ + index_suffix(),
                None => !exists|s: Seq<char>| index_path@ == #[trigger] (s + index_suffix()),
            },
    {
        let name = to_chars(index_path.as_str());
        let suffix = to_chars(".pack.idx");
        proof {
            reveal_strlit(".pack.idx");
        }
        if name.len() < suffix.len() {
            assert forall|s: Seq<char>| index_path@ != #[trigger] (s + index_suffix()) by {
                assert((s + index_suffix()).len() >= index_suffix().len());
            }
            return None;
        }
        let n = name.len() - suffix.len();
        let mut i: usize = 0;
        while i < suffix.len()
            invariant
                name@ == index_path@,
                suffix@ == index_suffix(),
                n + suffix.len() == name.len(),
                i <= suffix.len(),
                forall|j: int| 0 <= j < i ==> name@[n + j] == suffix@[j],
            decreases suffix.len() - i,
        {
            if name[n + i] != suffix[i] {
                assert forall|s: Seq<char>| index_path@ != #[trigger] (s + index_suffix()) by {
                    let t = s + index_suffix();
                    if t == index_path@ {
                        assert(s.len() == n);
                        assert(t[n + i] == index_suffix()[i as int]);
                    }
                }
                return None;
            }
            i += 1;
        }
        let id = from_char_range(name.as_slice(), 0, n);
        assert(index_path@ =~= id@ + index_suffix());
        Some(PackId::Pack(id))
    }

    /// Tells whether the string can be the name of a pack.
    pub fn is_valid(s: &str) -> (r: bool)
        ensures
            r == is_id(s@),
    {
        has_id_chars(to_chars(s).as_slice())
    }

    /// Parses the name of a pack.
    pub fn from_str(s: &str) -> (r: Result<PackId, IdError>)
        ensures
            match r {
                Ok(id) => is_id(s@) && id@ == s@,
                Err(e) => !is_id(s@) && (e matches IdError::InvalidPack(t) && t@ == s@),
            },
    {
        if !PackId::is_valid(s) {
            return Err(IdError::InvalidPack(s.to_owned()));
        }
        Ok(PackId::Pack(s.to_owned()))
    }

    /// The name of the pack.
    pub fn as_str(&self) -> (r: &str)
        ensures
            r@ == self@,
    {
        match self {
            PackId::Pack(s) => s.as_str(),
        }
    }

    /// Tells whether two packs have the same name.
    pub fn same(&self, other: &PackId) -> (r: bool)
        ensures
            r == (self@ == other@),
    {
        text_equal(self.as_str(), other.as_str())
    }
}

/// Identifies a snapshot using a pack base filename and a snapshot tag.
#[derive(Debug, PartialEq, Eq)]
pub struct SnapshotId {
    pack: PackId,
    tag: String,
}

/// What a [`SnapshotId`] says.
#[verifier::ext_equal]
pub struct SnapshotIdView {
    pub pack: Seq<char>,
    pub tag: Seq<char>,
}

impl View for SnapshotId {
    type V = SnapshotIdView;

    closed spec fn view(&self) -> SnapshotIdView {
        SnapshotIdView { pack: self.pack@, tag: self.tag@ }
    }
}

impl Clone for SnapshotId {
    fn clone(&self) -> (r: Self)
        ensures
            r@ == self@,
    {
        SnapshotId { pack: self.pack.clone(), tag: self.tag.clone() }
    }
}

/// The canonical form of a [`SnapshotId`].
pub open spec fn canonical(id: SnapshotIdView) -> Seq<char> {
    id.pack + ":"@ + id.tag
}

/// What is before the last colon of the text, without white space at its end.
pub open spec fn pack_part(s: Seq<char>) -> Option<Seq<char>> {
    let t = text::trim_end_of(s);
    match text::last_position(t, ':') {
        Some(i) => Some(t.take(i)),
        None => None,
    }
}

/// What is after the last colon of the text, without white space at its end.
pub open spec fn tag_part(s: Seq<char>) -> Option<Seq<char>> {
    let t = text::trim_end_of(s);
    match text::last_position(t, ':') {
        Some(i) => Some(t.skip(i + 1)),
        None => None,
    }
}

/// The snapshot that a text in canonical form identifies.
pub open spec fn parsed_id(s: Seq<char>) -> Option<SnapshotIdView> {
    match (pack_part(s), tag_part(s)) {
        (Some(pack), Some(tag)) => if pack.len() > 0 && tag.len() > 0 && is_id(pack) && is_id(tag) {
            Some(SnapshotIdView { pack, tag })
        } else {
            None
        },
        _ => None,
    }
}

/// The error is the one for a text that is not in canonical form.
pub open spec fn is_id_error(s: Seq<char>, e: IdError) -> bool {
    match (pack_part(s), tag_part(s)) {
        (Some(pack), Some(tag)) => if pack.len() == 0 {
            e matches IdError::InvalidPack(t) && t@ == pack
        } else if tag.len() == 0 {
            e matches IdError::InvalidSnapshot(t) && t@ == tag
        } else if !is_id(pack) {
            e matches IdError::InvalidPack(t) && t@ == pack
        } else {
            !is_id(tag) && (e matches IdError::InvalidSnapshot(t) && t@ == tag)
        },
        _ => e matches IdError::BadFormat(t) && t@ == s,
    }
}

impl SnapshotId {
    /// Creates a [`SnapshotId`] from a pack and a snapshot tag
    pub fn new(pack: PackId, tag: &str) -> (r: Result<Self, IdError>)
        ensures
            match r {
                Ok(id) => is_id(tag@) && id@ == (SnapshotIdView { pack: pack@, tag: tag@ }),
                Err(e) => !is_id(tag@) && (e matches IdError::InvalidSnapshot(t) && t@ == tag@),
            },
    {
        if !Self::is_valid(tag) {
            return Err(IdError::InvalidSnapshot(tag.to_owned()));
        }
        Ok(SnapshotId { pack, tag: tag.to_owned() })
    }

    /// The pack that holds the snapshot.
    pub fn pack(&self) -> (r: &PackId)
        ensures
            r@ == self@.pack,
    {
        &self.pack
    }

    /// The tag of the snapshot.
    pub fn tag(&self) -> (r: &str)
        ensures
            r@ == self@.tag,
    {
        self.tag.as_str()
    }

    /// Tells whether the string can be the tag of a new snapshot.
    pub fn is_valid(tag: &str) -> (r: bool)
        ensures
            r == is_id(tag@),
    {
        has_id_chars(to_chars(tag).as_slice())
    }

    /// The canonical form.
    pub fn to_text(&self) -> (r: String)
        ensures
            r@ == canonical(self@),
    {
        let mut r = self.pack.as_str().to_owned();
        r.append(":");
        r.append(self.tag.as_str());
        r
    }

    /// Parses a [`SnapshotId`] from a canonical form string
    /// 'pack_name:snapshot_name'.
    pub fn from_str(s: &str) -> (r: Result<Self, IdError>)
        ensures
            match r {
                Ok(id) => parsed_id(s@) == Some(id@),
                Err(e) => parsed_id(s@) is None && is_id_error(s@, e),
            },
    {
        let chars = to_chars(s);
        let n = trimmed_len(chars.as_slice());
        let trimmed = slice_subrange(chars.as_slice(), 0, n);
        assert(trimmed@ =~= text::trim_end_of(s@));
        match find_last(trimmed, ':') {
            Some(i) => {
                let pack = from_char_range(trimmed, 0, i);
                let tag = from_char_range(trimmed, i + 1, n);
                proof {
                    assert(pack@ =~= trimmed@.take(i as int));
                    assert(tag@ =~= trimmed@.skip(i + 1));
                }
                if i == 0 {
                    return Err(IdError::InvalidPack(pack));
                }
                if i + 1 == n {
                    return Err(IdError::InvalidSnapshot(tag));
                }
                match PackId::from_str(pack.as_str()) {
                    Ok(pack) => SnapshotId::new(pack, tag.as_str()),
                    Err(e) => Err(e),
                }
            },
            None => Err(IdError::BadFormat(s.to_owned())),
        }
    }

    /// Tells whether two IDs are the same.
    pub fn same(&self, other: &SnapshotId) -> (r: bool)
        ensures
            r == (self@ == other@),
    {
        self.pack.same(&other.pack) && text_equal(self.tag.as_str(), other.tag.as_str())
    }
}

/// The canonical form of a valid ID identifies the same snapshot, whatever
/// white space follows it.
pub proof fn law_canonical_form_round_trip(id: SnapshotIdView, space: Seq<char>)
    requires
        id.pack.len() > 0,
        is_id(id.pack),
        id.tag.len() > 0,
        is_id(id.tag),
        text::is_blank(space),
    ensures
        parsed_id(canonical(id) + space) == Some(id),
{
    reveal_strlit(":");
    let s = canonical(id);
    let n = id.pack.len() as int;
    assert(s.last() == id.tag.last());
    assert(is_id_char(id.tag[id.tag.len() - 1]));
    assert(text::trim_end_of(s) == s);
    text::lemma_trim_blank(s, space);
    text::lemma_last_position(s, ':');
    assert(s[n] == ':');
    assert(s.contains(':'));
    let i = text::last_position(s, ':')->0;
    if i > n {
        assert(s[i] == id.tag[i - n - 1]);
        assert(is_id_char(id.tag[i - n - 1]));
    }
    assert(i == n);
    assert(s.take(n) =~= id.pack);
    assert(s.skip(n + 1) =~= id.tag);
}

/// What is parsed is written back as it was, but for white space at the end.
pub proof fn law_parsed_id_is_written_back(s: Seq<char>)
    ensures
        parsed_id(s) matches Some(id) ==> {
            &&& canonical(id).is_prefix_of(s)
            &&& text::is_blank(s.skip(canonical(id).len() as int))
            &&& id.pack.len() > 0 && id.tag.len() > 0
            &&& !id.tag.contains(':')
        },
{
    reveal_strlit(":");
    let t = text::trim_end_of(s);
    text::law_only_white_space_is_trimmed(s);
    text::lemma_last_position(t, ':');
    if let Some(id) = parsed_id(s) {
        let i = text::last_position(t, ':')->0;
        assert(canonical(id) =~= t);
        if id.tag.contains(':') {
            let j = id.tag.index_of(':');
            assert(t[i + 1 + j] == ':');
        }
    }
}

/// The names of packs and snapshots are made of Latin letters, digits, dashes,
/// underscores and slashes.
pub proof fn law_id_characters(c: char)
    ensures
        is_id(seq![c]) <==> ('a' <= c && c <= 'z') || ('A' <= c && c <= 'Z') || ('0' <= c && c
            <= '9') || c == '-' || c == '_' || c == '/',
{
    assert(seq![c][0] == c);
}

/// A name is valid if and only if both of its parts are.
pub proof fn law_parts_of_ids_are_ids(a: Seq<char>, b: Seq<char>)
    ensures
        is_id(a + b) <==> is_id(a) && is_id(b),
        is_id(Seq::empty()),
{
    let s = a + b;
    if is_id(s) {
        assert forall|i: int| 0 <= i < a.len() implies is_id_char(#[trigger] a[i]) by {
            assert(s[i] == a[i]);
        }
        assert forall|i: int| 0 <= i < b.len() implies is_id_char(#[trigger] b[i]) by {
            assert(s[a.len() + i] == b[i]);
        }
    }
}

} // verus!
