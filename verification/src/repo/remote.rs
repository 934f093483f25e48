//! Remote indexes: which packs a remote offers, where, and with which
//! checksums.

use super::error::{Error, RemoteIndexFormatError};
use crate::bytes::{bytes_equal, ByteString};
use crate::digest;
use crate::digest::{hex_decode, sha1, ObjectChecksum};
use crate::ioerror::{IoError, IoErrorKind};
use crate::packidx::file;
use crate::packidx::PackIndexV1;
use crate::paths;
use crate::paths::{extension, file_stem};
use crate::split;
use crate::split::{split_fields, split_lines};
use crate::text;
use crate::text::{
    decimal, decode_lossy, decode_text, find_last, from_char_range, from_chars, text_equal, to_chars,
};
use chrono::{DateTime, Utc};
use std::fmt::Write;
use url::Url;
use vstd::prelude::*;
use vstd::slice::slice_to_vec;
use vstd::string::StringExecFns;

verus! {

/// The text is a URL.
pub uninterp spec fn is_url(s: Seq<char>) -> bool;

/// The URL that a reference stands for, relative to a base URL.
pub uninterp spec fn joined_url(base: Seq<char>, reference: Seq<char>) -> Option<Seq<char>>;

/// The last segment of the path of a URL.
pub uninterp spec fn last_segment(url: Seq<char>) -> Option<Seq<char>>;

/// Wraps `Url::parse`. Whether a text is a URL is a function of the text.
#[verifier::external_body]
fn check_url(s: &str) -> (r: bool)
    ensures
        r == is_url(s@),
{
    Url::parse(s).is_ok()
}

/// Wraps `Url::join` on the parsed base. The URL, in its normalized form, is a
/// function of the two texts.
#[verifier::external_body]
fn join_url(base: &str, reference: &str) -> (r: Option<String>)
    ensures
        match r {
            Some(url) => joined_url(base@, reference@) == Some(url@),
            None => joined_url(base@, reference@) is None,
        },
{
    let url = Url::parse(base).ok()?.join(reference).ok()?;
    Some(url.as_str().to_owned())
}

/// Wraps `Url::path_segments` on the parsed URL, of which the last segment is
/// taken. It is a function of the text. There is none where the text is not a
/// URL, or is one that has no path with segments.
#[verifier::external_body]
fn url_file_name(url: &str) -> (r: Option<String>)
    ensures
        match r {
            Some(name) => last_segment(url@) == Some(name@),
            None => last_segment(url@) is None,
        },
{
    let url = Url::parse(url).ok()?;
    let name = url.path_segments()?.last()?;
    Some(name.to_owned())
}

/// A pack that a remote offers.
#[derive(Debug)]
pub struct RemotePack {
    pub index_checksum: ObjectChecksum,
    pub pack_checksum: ObjectChecksum,
    pub url: String,
}

/// What a [`RemotePack`] says.
#[verifier::ext_equal]
pub struct RemotePackView {
    pub index_checksum: Seq<u8>,
    pub pack_checksum: Seq<u8>,
    pub url: Seq<char>,
}

impl View for RemotePack {
    type V = RemotePackView;

    open spec fn view(&self) -> RemotePackView {
        RemotePackView {
            index_checksum: self.index_checksum@,
            pack_checksum: self.pack_checksum@,
            url: self.url@,
        }
    }
}

/// What follows the last slash of a URL.
pub open spec fn file_name_in(url: Seq<char>) -> Seq<char> {
    url.skip(text::last_position(url, '/')->0 + 1)
}

impl RemotePack {
    /// The file name of the pack: what follows the last slash of its URL.
    pub fn file_name(&self) -> (r: String)
        requires
            self@.url.contains('/'),
        ensures
            r@ == file_name_in(self@.url),
    {
        let url = to_chars(self.url.as_str());
        proof {
            text::lemma_last_position(url@, '/');
        }
        match find_last(url.as_slice(), '/') {
            Some(i) => {
                let name = from_char_range(url.as_slice(), i + 1, url.len());
                assert(name@ =~= url@.skip(i + 1));
                name
            },
            None => String::new(),
        }
    }
}

/// The packs that a remote offers, and where its index is.
#[derive(Debug)]
pub struct RemoteIndex {
    /// Set when the index was loaded from a file.
    pub path: Option<Vec<u8>>,
    pub meta: String,
    pub url: String,
    pub packs: Vec<RemotePack>,
}

/// What a [`RemoteIndex`] says.
#[verifier::ext_equal]
pub struct RemoteView {
    pub path: Option<Seq<u8>>,
    pub meta: Seq<char>,
    pub url: Seq<char>,
    pub packs: Seq<RemotePackView>,
}

/// What a list of packs says.
pub open spec fn pack_views(packs: Seq<RemotePack>) -> Seq<RemotePackView> {
    packs.map_values(|p: RemotePack| p@)
}

impl View for RemoteIndex {
    type V = RemoteView;

    open spec fn view(&self) -> RemoteView {
        RemoteView {
            path: match self.path {
                Some(p) => Some(p@),
                None => None,
            },
            meta: self.meta@,
            url: self.url@,
            packs: pack_views(self.packs@),
        }
    }
}

/// What reading a part of a remote index gives.
pub enum Parsed<T> {
    /// The part was read.
    Value(T),
    /// The part is not in the format, for the reason that the message says.
    Bad(Seq<char>),
    /// The part is not text.
    NotText,
}

/// What the line at position `i` says, which is to have a key and a value.
pub open spec fn keyed_line(lines: Seq<Seq<u8>>, i: int, key: Seq<char>) -> Parsed<Seq<char>> {
    if i >= lines.len() {
        Parsed::Bad("Expected '"@ + key + " ...', but end of file was reached!"@)
    } else {
        match text::text_of(lines[i]) {
            None => Parsed::NotText,
            Some(line) => {
                let fields = split::fields_of(line);
                if fields.len() == 0 || fields[0] != key {
                    Parsed::Bad("Expected '"@ + key + " ...': '"@ + line + "'"@)
                } else if fields.len() < 2 {
                    Parsed::Bad("Expected a value after '"@ + key + "': '"@ + line + "'"@)
                } else if fields.len() > 2 {
                    Parsed::Bad("Too many values: '"@ + line + "'"@)
                } else {
                    Parsed::Value(fields[1])
                }
            },
        }
    }
}

/// A message about a line.
pub open spec fn on_line(message: Seq<char>, line_no: nat) -> Seq<char> {
    message + text::decimal_of(line_no)
}

/// What a line says that is to have two checksums and a URL.
pub open spec fn pack_line(line: Seq<u8>, url: Seq<char>, line_no: nat) -> Parsed<RemotePackView> {
    match text::text_of(line) {
        None => Parsed::NotText,
        Some(line) => {
            let fields = split::fields_of(line);
            if fields.len() < 1 {
                Parsed::Bad(
                    on_line("Expected pack index checksum, reached end of line "@, line_no),
                )
            } else if fields.len() < 2 {
                Parsed::Bad(on_line("Expected pack checksum, reached end of line "@, line_no))
            } else if fields.len() < 3 {
                Parsed::Bad(on_line("Expected pack URL, reached end of line "@, line_no))
            } else if joined_url(url, fields[2]) is None {
                Parsed::Bad(
                    on_line("Expected a valid pack URL, found "@ + url + " on line "@, line_no),
                )
            } else if fields.len() > 3 {
                Parsed::Bad(on_line("Too many values on line "@, line_no))
            } else {
                match (digest::unhex(fields[0]), digest::unhex(fields[1])) {
                    (None, _) => Parsed::Bad(
                        on_line("Bad pack index checksum format on line "@, line_no),
                    ),
                    (Some(index_checksum), second) => if index_checksum.len() != 20 {
                        Parsed::Bad(
                            on_line("The value for pack index checksum on line "@, line_no)
                                + " is not the right length"@,
                        )
                    } else {
                        match second {
                            None => Parsed::Bad(
                                on_line("Bad pack checksum format on line "@, line_no),
                            ),
                            Some(pack_checksum) => if pack_checksum.len() != 20 {
                                Parsed::Bad(
                                    on_line("The value for pack checksum on line "@, line_no)
                                        + " is not the right length"@,
                                )
                            } else {
                                Parsed::Value(
                                    RemotePackView {
                                        index_checksum,
                                        pack_checksum,
                                        url: joined_url(url, fields[2])->0,
                                    },
                                )
                            },
                        }
                    },
                }
            }
        },
    }
}

/// What the lines from position `i` on say, which are to be packs.
pub open spec fn pack_lines(lines: Seq<Seq<u8>>, i: int, url: Seq<char>) -> Parsed<
    Seq<RemotePackView>,
>
    decreases lines.len() - i,
{
    if i >= lines.len() {
        Parsed::Value(Seq::empty())
    } else {
        match pack_line(lines[i], url, (i + 2) as nat) {
            Parsed::Value(p) => match pack_lines(lines, i + 1, url) {
                Parsed::Value(rest) => Parsed::Value(seq![p] + rest),
                Parsed::Bad(m) => Parsed::Bad(m),
                Parsed::NotText => Parsed::NotText,
            },
            Parsed::Bad(m) => Parsed::Bad(m),
            Parsed::NotText => Parsed::NotText,
        }
    }
}

/// What a remote index file says.
pub open spec fn parsed_remote(data: Seq<u8>) -> Parsed<RemoteView> {
    let lines = split::lines_of(data);
    match keyed_line(lines, 0, "meta"@) {
        Parsed::Bad(m) => Parsed::Bad(m),
        Parsed::NotText => Parsed::NotText,
        Parsed::Value(meta) => match keyed_line(lines, 1, "url"@) {
            Parsed::Bad(m) => Parsed::Bad(m),
            Parsed::NotText => Parsed::NotText,
            Parsed::Value(url) => if !is_url(url) {
                Parsed::Bad(
                    on_line(
                        "Expected a valid elfshaker index URL, found "@ + url + " on line "@,
                        2,
                    ),
                )
            } else {
                match pack_lines(lines, 2, url) {
                    Parsed::Bad(m) => Parsed::Bad(m),
                    Parsed::NotText => Parsed::NotText,
                    Parsed::Value(packs) => Parsed::Value(
                        RemoteView { path: None, meta, url, packs },
                    ),
                }
            },
        },
    }
}

/// The error is the one for what could not be read.
pub open spec fn is_parse_error<T>(p: Parsed<T>, e: Error) -> bool {
    match p {
        Parsed::Value(_) => false,
        Parsed::Bad(m) => e matches Error::BadRemoteIndexFormat(f) && f.message@ == m
            && f.source is None,
        Parsed::NotText => e matches Error::IOError(f) && f.kind == IoErrorKind::InvalidData
            && f.message@ == "stream did not contain valid UTF-8"@,
    }
}

/// The error for a part that is not in the format.
fn bad_format(message: String) -> (r: Error)
    ensures
        r matches Error::BadRemoteIndexFormat(f) && f.message@ == message@ && f.source is None,
{
    Error::BadRemoteIndexFormat(RemoteIndexFormatError::new(message))
}

/// The error for a part that is not text.
fn not_text() -> (r: Error)
    ensures
        r matches Error::IOError(f) && f.kind == IoErrorKind::InvalidData && f.message@
            == "stream did not contain valid UTF-8"@,
{
    Error::IOError(IoError::new(IoErrorKind::InvalidData, "stream did not contain valid UTF-8"))
}

/// The error for a line.
fn bad_line(message: &str, line_no: u64) -> (r: Error)
    ensures
        r matches Error::BadRemoteIndexFormat(f) && f.message@ == on_line(
            message@,
            line_no as nat,
        ) && f.source is None,
{
    let mut m = message.to_owned();
    m.append(decimal(line_no).as_str());
    bad_format(m)
}

/// The error for a value of the wrong length on a line.
fn bad_length(message: &str, line_no: u64) -> (r: Error)
    ensures
        r matches Error::BadRemoteIndexFormat(f) && f.message@ == on_line(
            message@,
            line_no as nat,
        ) + " is not the right length"@ && f.source is None,
{
    let mut m = message.to_owned();
    m.append(decimal(line_no).as_str());
    m.append(" is not the right length");
    bad_format(m)
}

/// Copies a checksum, if it has the right length.
fn checksum_from(bytes: &[u8]) -> (r: Option<ObjectChecksum>)
    ensures
        match r {
            Some(c) => c@ == bytes@,
            None => bytes@.len() != 20,
        },
{
    if bytes.len() != 20 {
        return None;
    }
    let mut c: ObjectChecksum = [0; 20];
    let mut i: usize = 0;
    while i < 20
        invariant
            bytes@.len() == 20,
            i <= 20,
            forall|j: int| 0 <= j < i ==> c@[j] == bytes@[j],
        decreases 20 - i,
    {
        c[i] = bytes[i];
        i += 1;
    }
    assert(c@ =~= bytes@);
    Some(c)
}

/// Reads the line at position `i`, which is to have a key and a value.
fn read_keyed_line(lines: &[Vec<u8>], i: usize, key: &str) -> (r: Result<String, Error>)
    ensures
        match r {
            Ok(value) => keyed_line(split::byte_views(lines@), i as int, key@) == Parsed::Value(
                value@,
            ),
            Err(e) => is_parse_error(
                keyed_line(split::byte_views(lines@), i as int, key@),
                e,
            ),
        },
{
    if i >= lines.len() {
        let mut m = "Expected '".to_owned();
        m.append(key);
        m.append(" ...', but end of file was reached!");
        return Err(bad_format(m));
    }
    assert(split::byte_views(lines@)[i as int] == lines@[i as int]@);
    let line = match decode_text(lines[i].duplicate()) {
        Some(line) => line,
        None => {
            return Err(not_text());
        },
    };
    let fields = split_fields(line.as_str());
    let ghost views = split::fields_of(line@);
    assert(forall|j: int| 0 <= j < fields@.len() ==> views[j] == fields@[j]@);
    if fields.len() == 0 || !text_equal(from_chars(fields[0].as_slice()).as_str(), key) {
        let mut m = "Expected '".to_owned();
        m.append(key);
        m.append(" ...': '");
        m.append(line.as_str());
        m.append("'");
        return Err(bad_format(m));
    }
    if fields.len() < 2 {
        let mut m = "Expected a value after '".to_owned();
        m.append(key);
        m.append("': '");
        m.append(line.as_str());
        m.append("'");
        return Err(bad_format(m));
    }
    if fields.len() > 2 {
        let mut m = "Too many values: '".to_owned();
        m.append(line.as_str());
        m.append("'");
        return Err(bad_format(m));
    }
    Ok(from_chars(fields[1].as_slice()))
}

/// Reads a line that is to have two checksums and a URL.
fn read_pack_line(line: &Vec<u8>, url: &str, line_no: u64) -> (r: Result<RemotePack, Error>)
    ensures
        match r {
            Ok(p) => pack_line(line@, url@, line_no as nat) == Parsed::Value(p@),
            Err(e) => is_parse_error(pack_line(line@, url@, line_no as nat), e),
        },
{
    let line = match decode_text(line.duplicate()) {
        Some(line) => line,
        None => {
            return Err(not_text());
        },
    };
    let fields = split_fields(line.as_str());
    let ghost views = split::fields_of(line@);
    assert(forall|j: int| 0 <= j < fields@.len() ==> views[j] == fields@[j]@);
    if fields.len() < 1 {
        return Err(bad_line("Expected pack index checksum, reached end of line ", line_no));
    }
    if fields.len() < 2 {
        return Err(bad_line("Expected pack checksum, reached end of line ", line_no));
    }
    // Pack URL (possibly relative)
    if fields.len() < 3 {
        return Err(bad_line("Expected pack URL, reached end of line ", line_no));
    }
    // Always provide the index URL as base URL. If the pack URL is absolute, the
    // `join` will use it as-is.
    let relative_url = from_chars(fields[2].as_slice());
    let absolute_url = match join_url(url, relative_url.as_str()) {
        Some(absolute_url) => absolute_url,
        None => {
            let mut m = "Expected a valid pack URL, found ".to_owned();
            m.append(url);
            m.append(" on line ");
            return Err(bad_line(m.as_str(), line_no));
        },
    };
    if fields.len() > 3 {
        return Err(bad_line("Too many values on line ", line_no));
    }
    let index_bytes = match hex_decode(from_chars(fields[0].as_slice()).as_str()) {
        Some(b) => b,
        None => {
            return Err(bad_line("Bad pack index checksum format on line ", line_no));
        },
    };
    let index_checksum = match checksum_from(index_bytes.as_slice()) {
        Some(c) => c,
        None => {
            return Err(bad_length("The value for pack index checksum on line ", line_no));
        },
    };
    let pack_bytes = match hex_decode(from_chars(fields[1].as_slice()).as_str()) {
        Some(b) => b,
        None => {
            return Err(bad_line("Bad pack checksum format on line ", line_no));
        },
    };
    let pack_checksum = match checksum_from(pack_bytes.as_slice()) {
        Some(c) => c,
        None => {
            return Err(bad_length("The value for pack checksum on line ", line_no));
        },
    };
    let p = RemotePack { url: absolute_url, index_checksum, pack_checksum };
    assert(index_checksum@.len() == 20 && pack_checksum@.len() == 20);
    Ok(p)
}

/// Whether all lines from position `i` on are packs is decided by the next one
/// and by the rest.
proof fn lemma_pack_lines_step(
    lines: Seq<Seq<u8>>,
    i: int,
    url: Seq<char>,
    done: Seq<RemotePackView>,
    all: Parsed<Seq<RemotePackView>>,
)
    requires
        0 <= i < lines.len(),
        match pack_lines(lines, i, url) {
            Parsed::Value(rest) => all == Parsed::Value(done + rest),
            Parsed::Bad(m) => all == Parsed::<Seq<RemotePackView>>::Bad(m),
            Parsed::NotText => all == Parsed::<Seq<RemotePackView>>::NotText,
        },
    ensures
        match pack_line(lines[i], url, (i + 2) as nat) {
            Parsed::Value(p) => match pack_lines(lines, i + 1, url) {
                Parsed::Value(rest) => all == Parsed::Value(done.push(p) + rest),
                Parsed::Bad(m) => all == Parsed::<Seq<RemotePackView>>::Bad(m),
                Parsed::NotText => all == Parsed::<Seq<RemotePackView>>::NotText,
            },
            Parsed::Bad(m) => all == Parsed::<Seq<RemotePackView>>::Bad(m),
            Parsed::NotText => all == Parsed::<Seq<RemotePackView>>::NotText,
        },
{
    match pack_line(lines[i], url, (i + 2) as nat) {
        Parsed::Value(p) => {
            match pack_lines(lines, i + 1, url) {
                Parsed::Value(rest) => {
                    assert(done + (seq![p] + rest) =~= done.push(p) + rest);
                },
                _ => {},
            }
        },
        _ => {},
    }
}

impl RemoteIndex {
    /// Creates an index without packs.
    pub fn new(url: String) -> (r: Self)
        ensures
            r@ == (RemoteView { path: None, meta: "v1"@, url: url@, packs: Seq::empty() }),
    {
        let r = RemoteIndex { path: None, meta: "v1".to_owned(), url, packs: Vec::new() };
        assert(r@.packs =~= Seq::empty());
        r
    }

    /// The packs that the remote offers.
    pub fn packs(&self) -> (r: &[RemotePack])
        ensures
            pack_views(r@) == self@.packs,
    {
        self.packs.as_slice()
    }

    /// The path of the file from which the index was loaded.
    pub fn path(&self) -> (r: Option<&[u8]>)
        ensures
            match r {
                Some(p) => self@.path == Some(p@),
                None => self@.path is None,
            },
    {
        match &self.path {
            Some(p) => Some(p.as_slice()),
            None => None,
        }
    }

    /// The name of the remote: that of the file from which its index was
    /// loaded, without the extension.
    pub fn name(&self) -> (r: Option<String>)
        ensures
            match r {
                Some(name) => self@.path matches Some(p) && paths::file_stem_of(p) matches Some(
                    stem,
                ) && name@ == text::lossy_text(stem),
                None => self@.path matches Some(p) ==> paths::file_stem_of(p) is None,
            },
    {
        match &self.path {
            Some(p) => match file_stem(p.as_slice()) {
                Some(stem) => Some(decode_lossy(stem.as_slice())),
                None => None,
            },
            None => None,
        }
    }

    /// Finds the first pack with the given name.
    pub fn find_pack(&self, pack_name: &str) -> (r: Option<&RemotePack>)
        requires
            forall|i: int|
                0 <= i < self@.packs.len() ==> (#[trigger] self@.packs[i]).url.contains('/'),
        ensures
            match r {
                Some(p) => exists|i: int|
                    0 <= i < self@.packs.len() && #[trigger] self@.packs[i] == p@ && file_name_in(
                        p@.url,
                    ) == pack_name@ + ".pack"@ && forall|j: int|
                        0 <= j < i ==> file_name_in((#[trigger] self@.packs[j]).url) != pack_name@
                            + ".pack"@,
                None => forall|j: int|
                    0 <= j < self@.packs.len() ==> file_name_in((#[trigger] self@.packs[j]).url)
                        != pack_name@ + ".pack"@,
            },
    {
        let mut file_name = pack_name.to_owned();
        file_name.append(".pack");
        let mut i: usize = 0;
        while i < self.packs.len()
            invariant
                i <= self.packs.len(),
                file_name@ == pack_name@ + ".pack"@,
                forall|i: int|
                    0 <= i < self@.packs.len() ==> (#[trigger] self@.packs[i]).url.contains('/'),
                forall|j: int|
                    0 <= j < i ==> file_name_in((#[trigger] self@.packs[j]).url) != pack_name@
                        + ".pack"@,
            decreases self.packs.len() - i,
        {
            let p = &self.packs[i];
            assert(self@.packs[i as int] == p@);
            if text_equal(p.file_name().as_str(), file_name.as_str()) {
                return Some(p);
            }
            i += 1;
        }
        None
    }

    /// Reads a remote index from the bytes of a file.
    pub fn read(data: &[u8]) -> (r: Result<RemoteIndex, Error>)
        requires
            data@.len() <= isize::MAX,
        ensures
            match r {
                Ok(index) => parsed_remote(data@) == Parsed::Value(index@),
                Err(e) => is_parse_error(parsed_remote(data@), e),
            },
    {
        let lines = split_lines(data);
        let ghost views = split::byte_views(lines@);
        proof {
            split::lemma_line_count(data@, 0);
            assert(lines@.len() == views.len());
        }
        let meta = match read_keyed_line(lines.as_slice(), 0, "meta") {
            Ok(meta) => meta,
            Err(e) => {
                return Err(e);
            },
        };
        let url = match read_keyed_line(lines.as_slice(), 1, "url") {
            Ok(url) => url,
            Err(e) => {
                return Err(e);
            },
        };
        if !check_url(url.as_str()) {
            let mut m = "Expected a valid elfshaker index URL, found ".to_owned();
            m.append(url.as_str());
            m.append(" on line ");
            return Err(bad_line(m.as_str(), 2));
        }
        let ghost all = pack_lines(views, 2, url@);
        let mut packs: Vec<RemotePack> = Vec::new();
        let mut i: usize = 2;
        proof {
            assert(lines@.len() >= 2);
            match all {
                Parsed::Value(rest) => {
                    assert(pack_views(packs@) + rest =~= rest);
                },
                _ => {},
            }
        }
        while i < lines.len()
            invariant
                2 <= i <= lines.len() <= isize::MAX,
                views == split::byte_views(lines@),
                all == pack_lines(views, 2, url@),
                parsed_remote(data@) == (match all {
                    Parsed::Bad(m) => Parsed::Bad(m),
                    Parsed::NotText => Parsed::NotText,
                    Parsed::Value(packs) => Parsed::Value(
                        RemoteView { path: None, meta: meta@, url: url@, packs },
                    ),
                }),
                match pack_lines(views, i as int, url@) {
                    Parsed::Value(rest) => all == Parsed::Value(pack_views(packs@) + rest),
                    Parsed::Bad(m) => all == Parsed::<Seq<RemotePackView>>::Bad(m),
                    Parsed::NotText => all == Parsed::<Seq<RemotePackView>>::NotText,
                },
            decreases lines.len() - i,
        {
            let ghost before = pack_views(packs@);
            proof {
                assert(views[i as int] == lines@[i as int]@);
                lemma_pack_lines_step(views, i as int, url@, before, all);
            }
            match read_pack_line(&lines[i], url.as_str(), (i as u64) + 2) {
                Ok(p) => {
                    packs.push(p);
                    assert(pack_views(packs@) =~= before.push(p@));
                },
                Err(e) => {
                    return Err(e);
                },
            }
            i += 1;
        }
        let r = RemoteIndex { path: None, meta, url, packs };
        assert(pack_views(packs@) + Seq::<RemotePackView>::empty() =~= pack_views(packs@));
        Ok(r)
    }

    /// Reads a remote index from the bytes of the file at the given path.
    pub fn load(path: &[u8], data: &[u8], display_name: &str) -> (r: Result<RemoteIndex, Error>)
        requires
            data@.len() <= isize::MAX,
        ensures
            match r {
                Ok(index) => parsed_remote(data@) matches Parsed::Value(v) && index@ == (
                RemoteView { path: Some(path@), ..v }),
                Err(e) => is_parse_error(parsed_remote(data@), e),
            },
    {
        match RemoteIndex::read(data) {
            Ok(index) => Ok(
                RemoteIndex {
                    path: Some(slice_to_vec(path)),
                    meta: index.meta,
                    url: index.url,
                    packs: index.packs,
                },
            ),
            Err(e) => Err(reify(e, display_name)),
        }
    }
}

/// Says where a corrupted remote index is from, if that was said before.
pub fn reify(e: Error, display_name: &str) -> (r: Error)
    ensures
        match e {
            Error::BadRemoteIndexFormat(f) => r matches Error::BadRemoteIndexFormat(g)
                && g.message == f.message && (match f.source {
                None => g.source is None,
                Some(_) => g.source matches Some(s) && s@ == display_name@,
            }),
            _ => r == e,
        },
{
    match e {
        Error::BadRemoteIndexFormat(f) => Error::BadRemoteIndexFormat(f.reify(display_name)),
        e => e,
    }
}

/// The name of a remote index, with its URL.
pub open spec fn remote_text(v: RemoteView) -> Seq<char> {
    let stem = match v.path {
        Some(p) => paths::file_stem_of(p),
        None => None,
    };
    let name = match stem {
        Some(stem) => text::lossy_text(stem),
        None => v.url.take(text::last_position(v.url, '/')->0),
    };
    name + " ("@ + v.url + ")"@
}

impl RemoteIndex {
    /// The name of the remote index, with its URL. Without a file it is named by
    /// the part of its URL before the last slash.
    pub fn to_text(&self) -> (r: String)
        requires
            self@.url.contains('/'),
        ensures
            r@ == remote_text(self@),
    {
        let stem = match &self.path {
            Some(p) => file_stem(p.as_slice()),
            None => None,
        };
        let mut s = match stem {
            Some(stem) => decode_lossy(stem.as_slice()),
            None => {
                let url = to_chars(self.url.as_str());
                proof {
                    text::lemma_last_position(url@, '/');
                }
                match find_last(url.as_slice(), '/') {
                    Some(i) => {
                        let name = from_char_range(url.as_slice(), 0, i);
                        assert(name@ =~= url@.take(i as int));
                        name
                    },
                    None => String::new(),
                }
            },
        };
        s.append(" (");
        s.append(self.url.as_str());
        s.append(")");
        s
    }
}

/// The file extension of remote index files.
pub open spec fn remote_extension() -> Seq<u8> {
    seq![0x65u8, 0x73u8, 0x69u8]
}

/// Tells whether a file is a remote index, going by its extension.
pub fn is_remote_index(path: &[u8]) -> (r: bool)
    ensures
        r == (paths::extension_of(path@) == Some(remote_extension())),
{
    let expected: [u8; 3] = [0x65, 0x73, 0x69];
    assert(expected@ =~= remote_extension());
    match extension(path) {
        Some(e) => bytes_equal(e.as_slice(), expected.as_slice()),
        None => false,
    }
}

/// The number that a text stands for: digits, after a plus sign if there is
/// one. There is none where it does not fit.
pub open spec fn number_of(s: Seq<char>) -> Option<nat> {
    number_of_digits(
        if s.len() > 0 && s[0] == '+' {
            s.skip(1)
        } else {
            s
        },
    )
}

/// The number that a list of digits stands for.
pub open spec fn number_of_digits(digits: Seq<char>) -> Option<nat> {
    if digits.len() > 0 && (forall|i: int|
        0 <= i < digits.len() ==> '0' <= #[trigger] digits[i] <= '9') && digits_value(digits)
        <= usize::MAX {
        Some(digits_value(digits))
    } else {
        None
    }
}

/// The value of a list of digits.
pub open spec fn digits_value(digits: Seq<char>) -> nat
    decreases digits.len(),
{
    if digits.len() == 0 {
        0
    } else {
        10 * digits_value(digits.drop_last()) + ((digits.last() as u32) - ('0' as u32)) as nat
    }
}

proof fn lemma_digits_grow(digits: Seq<char>, n: int)
    requires
        0 <= n <= digits.len(),
    ensures
        digits_value(digits.take(n)) <= digits_value(digits),
    decreases digits.len() - n,
{
    if n < digits.len() {
        lemma_digits_grow(digits, n + 1);
        assert(digits.take(n + 1).drop_last() =~= digits.take(n));
    } else {
        assert(digits.take(n) =~= digits);
    }
}

/// Reads a number.
fn parse_number(s: &str) -> (r: Option<usize>)
    ensures
        match r {
            Some(n) => number_of(s@) == Some(n as nat),
            None => number_of(s@) is None,
        },
{
    let chars = to_chars(s);
    let from: usize = if chars.len() > 0 && chars[0] == '+' {
        1
    } else {
        0
    };
    let ghost digits = if s@.len() > 0 && s@[0] == '+' {
        s@.skip(1)
    } else {
        s@
    };
    assert(digits =~= chars@.skip(from as int));
    if chars.len() == from {
        return None;
    }
    let mut n: usize = 0;
    let mut i: usize = from;
    assert(digits.take(0) =~= Seq::empty());
    while i < chars.len()
        invariant
            from <= i <= chars.len(),
            from <= 1,
            digits == chars@.skip(from as int),
            forall|j: int| 0 <= j < i - from ==> '0' <= #[trigger] digits[j] <= '9',
            n == digits_value(digits.take(i - from)),
            number_of(s@) == number_of_digits(digits),
            digits.len() > 0,
        decreases chars.len() - i,
    {
        let c = chars[i];
        assert(digits[i - from] == c);
        if c < '0' || c > '9' {
            return None;
        }
        let d = ((c as u32) - 48) as usize;
        proof {
            let k = i - from;
            assert(digits.take(k + 1).drop_last() =~= digits.take(k));
            assert(digits.take(k + 1).last() == c);
            lemma_digits_grow(digits, k + 1);
        }
        if n > usize::MAX / 10 || n * 10 > usize::MAX - d {
            return None;
        }
        n = n * 10 + d;
        i += 1;
    }
    assert(digits.take(digits.len() as int) =~= digits);
    Some(n)
}

/// The length of the content of a response, by its header. Without a header,
/// or where it is not a number, the length is taken to be zero.
pub fn content_length(header: Option<&str>) -> (r: usize)
    ensures
        r == (match header {
            Some(h) => match number_of(h@) {
                Some(n) => n as int,
                None => 0,
            },
            None => 0,
        }),
{
    match header {
        Some(h) => match parse_number(h) {
            Some(n) => n,
            None => 0,
        },
        None => 0,
    }
}

/// What a response is for.
#[derive(Clone, Copy, Debug, PartialEq, Eq, Structural)]
pub enum ResourceStatus {
    /// The resource is in the response.
    Content,
    /// The resource did not change since it was last fetched.
    NotModified,
}

/// Decides what a response is for, by its status.
pub fn resource_status(status: u16) -> (r: Result<ResourceStatus, Error>)
    ensures
        match r {
            Ok(ResourceStatus::Content) => status == 200,
            Ok(ResourceStatus::NotModified) => status == 304,
            Err(e) => status != 200 && status != 304 && (e matches Error::HttpError(m) && m@
                == "Response status code "@ + text::decimal_of(status as nat)
                + " indicates failure!"@),
        },
{
    if status == 200 {
        Ok(ResourceStatus::Content)
    } else if status == 304 {
        Ok(ResourceStatus::NotModified)
    } else {
        let mut m = "Response status code ".to_owned();
        m.append(decimal(status as u64).as_str());
        m.append(" indicates failure!");
        Err(Error::HttpError(m))
    }
}

/// Tells whether data has the given checksum.
pub fn matches_checksum(data: &[u8], checksum: &ObjectChecksum) -> (r: bool)
    requires
        data@.len() < 0x2000_0000_0000_0000,
    ensures
        r == (digest::sha1_of(data@) == checksum@),
{
    bytes_equal(sha1(data).as_slice(), checksum.as_slice())
}

/// Tells whether a file that was read, if there is one, is up to date: whether
/// it has the given checksum.
pub fn is_up_to_date(content: Option<&Vec<u8>>, checksum: &ObjectChecksum) -> (r: bool)
    requires
        content matches Some(c) ==> c@.len() < 0x2000_0000_0000_0000,
    ensures
        r == (content matches Some(c) && digest::sha1_of(c@) == checksum@),
{
    match content {
        Some(c) => matches_checksum(c.as_slice(), checksum),
        None => false,
    }
}

/// Accepts a downloaded pack if it has the checksum that the remote says.
pub fn accept_pack(remote_pack: &RemotePack, data: &[u8]) -> (r: Result<(), Error>)
    requires
        data@.len() < 0x2000_0000_0000_0000,
    ensures
        match r {
            Ok(_) => digest::sha1_of(data@) == remote_pack@.pack_checksum,
            Err(e) => digest::sha1_of(data@) != remote_pack@.pack_checksum && e
                == Error::CorruptPack,
        },
{
    if matches_checksum(data, &remote_pack.pack_checksum) {
        Ok(())
    } else {
        Err(Error::CorruptPack)
    }
}

/// Tells whether downloaded data is a pack index, so that it may be written.
pub fn accept_pack_index(data: &[u8]) -> (r: bool)
    ensures
        r == (file::index_of_file(data@) is Some),
{
    match PackIndexV1::parse(data) {
        Ok(_) => true,
        Err(_) => false,
    }
}

/// The URL of the index of a pack.
pub open spec fn index_url(p: RemotePackView) -> Seq<char> {
    p.url + ".idx"@
}

/// Where the index of a pack is, and the name of the file for it. There is none
/// where the URL has no path with segments.
pub fn pack_index_target(p: &RemotePack) -> (r: Option<(String, String)>)
    ensures
        match r {
            Some(t) => t.0@ == index_url(p@) && last_segment(index_url(p@)) == Some(t.1@),
            None => last_segment(index_url(p@)) is None,
        },
{
    let mut url = p.url.clone();
    url.append(".idx");
    match url_file_name(url.as_str()) {
        Some(name) => Some((url, name)),
        None => None,
    }
}

/// The text that chrono makes of a time in UTC, given in seconds since the
/// epoch, and a format. There is none where the time is outside of the range of
/// the calendar, or where the format is not valid.
pub uninterp spec fn formatted_time(seconds: i64, format: Seq<char>) -> Option<Seq<char>>;

/// Wraps `chrono::DateTime::<Utc>::from_timestamp` and `DateTime::format`. The
/// text is a function of the time and of the format.
#[verifier::external_body]
fn format_time(seconds: i64, format: &str) -> (r: Option<String>)
    ensures
        match r {
            Some(s) => formatted_time(seconds, format@) == Some(s@),
            None => formatted_time(seconds, format@) is None,
        },
{
    let datetime = DateTime::<Utc>::from_timestamp(seconds, 0)?;
    let mut text = String::new();
    write!(text, "{}", datetime.format(format)).ok()?;
    Some(text)
}

/// Formats a time, in seconds since the epoch, as an HTTP date string. HTTP
/// dates are always in GMT, never in local time.
///
/// HTTP date format: `<day-name>, <day> <month> <year> <hour>:<minute>:<second>
/// GMT`
pub fn format_http_date(seconds: i64) -> (r: Option<String>)
    ensures
        match r {
            Some(s) => formatted_time(seconds, "%a, %d %h %Y %H:%M:%S GMT"@) == Some(s@),
            None => formatted_time(seconds, "%a, %d %h %Y %H:%M:%S GMT"@) is None,
        },
{
    format_time(seconds, "%a, %d %h %Y %H:%M:%S GMT")
}

/// The file name in a URL is what stands behind its last slash.
pub proof fn law_file_name_is_behind_last_slash(start: Seq<char>, name: Seq<char>)
    requires
        !name.contains('/'),
    ensures
        file_name_in(start.push('/') + name) == name,
{
    let url = start.push('/') + name;
    let n = start.len() as int;
    text::lemma_last_position(url, '/');
    assert(url[n] == '/');
    assert(url.contains('/'));
    let i = text::last_position(url, '/')->0;
    if i > n {
        assert(name[i - n - 1] == '/');
        assert(name.contains('/'));
    }
    assert(url.skip(n + 1) =~= name);
}

/// Digits, with or without a plus sign before them, are read as the number that
/// they stand for.
pub proof fn law_number_is_read_back(n: nat)
    requires
        n <= usize::MAX,
    ensures
        number_of(text::decimal_of(n)) == Some(n),
        number_of(seq!['+'] + text::decimal_of(n)) == Some(n),
{
    let d = text::decimal_of(n);
    text::law_decimal_stands_for_number(n);
    lemma_same_value(d);
    assert(d[0] != '+');
    assert((seq!['+'] + d).skip(1) =~= d);
}

proof fn lemma_same_value(d: Seq<char>)
    requires
        forall|i: int| 0 <= i < d.len() ==> '0' <= #[trigger] d[i] <= '9',
    ensures
        digits_value(d) == text::value_of_digits(d),
    decreases d.len(),
{
    if d.len() > 0 {
        let init = d.drop_last();
        assert forall|i: int| 0 <= i < init.len() implies '0' <= #[trigger] init[i] <= '9' by {
            assert(init[i] == d[i]);
        }
        lemma_same_value(init);
        assert('0' <= d[d.len() - 1] <= '9');
    }
}

/// What is not digits alone behind at most one plus sign is no number.
pub proof fn law_only_digits_are_a_number(s: Seq<char>, i: int)
    requires
        s.len() == 0 || (0 <= i < s.len() && !('0' <= s[i] <= '9') && !(i == 0 && s[0] == '+')),
    ensures
        number_of(s) is None,
{
    if s.len() > 0 && s[0] == '+' {
        assert(s.skip(1)[i - 1] == s[i]);
    }
}

/// The packs of a remote index are those of its lines, one for each, in order.
pub proof fn law_every_line_is_a_pack(lines: Seq<Seq<u8>>, from: int, url: Seq<char>)
    requires
        0 <= from <= lines.len(),
    ensures
        pack_lines(lines, from, url) matches Parsed::Value(packs) ==> {
            &&& packs.len() == lines.len() - from
            &&& forall|k: int|
                0 <= k < packs.len() ==> pack_line(lines[from + k], url, (from + k + 2) as nat)
                    == Parsed::Value(#[trigger] packs[k])
        },
    decreases lines.len() - from,
{
    if from < lines.len() {
        law_every_line_is_a_pack(lines, from + 1, url);
        if let Parsed::Value(packs) = pack_lines(lines, from, url) {
            let rest = pack_lines(lines, from + 1, url)->Value_0;
            assert forall|k: int| 0 <= k < packs.len() implies pack_line(
                lines[from + k],
                url,
                (from + k + 2) as nat,
            ) == Parsed::Value(#[trigger] packs[k]) by {
                if k > 0 {
                    assert(packs[k] == rest[k - 1]);
                    assert(lines[from + 1 + (k - 1)] == lines[from + k]);
                }
            }
        }
    }
}

/// A line describes a pack by exactly three fields: the checksum of its index and
/// its own, both with 40 digits, and its URL, which counts from that of the index.
pub proof fn law_pack_line_has_three_fields(line: Seq<u8>, url: Seq<char>, line_no: nat)
    ensures
        pack_line(line, url, line_no) matches Parsed::Value(p) ==> {
            let fields = split::fields_of(text::text_of(line)->0);
            &&& text::text_of(line) is Some
            &&& fields.len() == 3
            &&& digest::unhex(fields[0]) == Some(p.index_checksum) && p.index_checksum.len() == 20
            &&& digest::unhex(fields[1]) == Some(p.pack_checksum) && p.pack_checksum.len() == 20
            &&& joined_url(url, fields[2]) == Some(p.url)
        },
        text::text_of(line) matches Some(s) ==> {
            let fields = split::fields_of(s);
            fields.len() == 3 && joined_url(url, fields[2]) is Some && (digest::unhex(
                fields[0],
            ) matches Some(a) && a.len() == 20) && (digest::unhex(fields[1]) matches Some(b)
                && b.len() == 20) ==> pack_line(line, url, line_no) is Value
        },
{
}

/// A remote index is read from a line with its version, a line with its URL, and
/// lines with its packs.
pub proof fn law_remote_index_has_its_lines(data: Seq<u8>)
    ensures
        parsed_remote(data) matches Parsed::Value(v) ==> {
            let lines = split::lines_of(data);
            &&& lines.len() >= 2
            &&& v.path is None
            &&& v.packs.len() == lines.len() - 2
            &&& text::text_of(lines[0]) is Some && split::fields_of(text::text_of(lines[0])->0)
                == seq![seq!['m', 'e', 't', 'a'], v.meta]
            &&& text::text_of(lines[1]) is Some && split::fields_of(text::text_of(lines[1])->0)
                == seq![seq!['u', 'r', 'l'], v.url]
            &&& is_url(v.url)
        },
{
    reveal_strlit("meta");
    reveal_strlit("url");
    assert("meta"@ =~= seq!['m', 'e', 't', 'a']);
    assert("url"@ =~= seq!['u', 'r', 'l']);
    if let Parsed::Value(v) = parsed_remote(data) {
        let lines = split::lines_of(data);
        law_every_line_is_a_pack(lines, 2, v.url);
        let a = split::fields_of(text::text_of(lines[0])->0);
        let b = split::fields_of(text::text_of(lines[1])->0);
        assert(a =~= seq![seq!['m', 'e', 't', 'a'], v.meta]);
        assert(b =~= seq![seq!['u', 'r', 'l'], v.url]);
    }
}

} // verus!
