//! Paths, as byte strings in which names are separated by slashes.

use crate::bytes;
use crate::bytes::{bytes_equal, bytes_less, ByteString};
use crate::select;
use crate::split;
use crate::split::split_bytes;
use vstd::prelude::*;
use vstd::slice::{slice_subrange, slice_to_vec};

verus! {

/// The byte that separates names.
pub open spec fn slash() -> u8 {
    47
}

/// The path of the current directory.
pub open spec fn dot() -> Seq<u8> {
    seq![46u8]
}

/// The path of the parent directory.
pub open spec fn dot_dot() -> Seq<u8> {
    seq![46u8, 46u8]
}

/// The path of the root directory.
pub open spec fn root() -> Seq<u8> {
    seq![47u8]
}

/// The path starts at the root.
pub open spec fn is_absolute(p: Seq<u8>) -> bool {
    p.len() > 0 && p[0] == slash()
}

/// The pieces that are names: those that are not empty and are not the current
/// directory.
pub open spec fn names_of(pieces: Seq<Seq<u8>>) -> Seq<Seq<u8>>
    decreases pieces.len(),
{
    if pieces.len() == 0 {
        Seq::empty()
    } else {
        let before = names_of(pieces.drop_last());
        if pieces.last().len() == 0 || pieces.last() == dot() {
            before
        } else {
            before.push(pieces.last())
        }
    }
}

/// The components of a path: its names, after the root for an absolute path,
/// or after the current directory for a path that starts with it.
pub open spec fn components_of(p: Seq<u8>) -> Seq<Seq<u8>> {
    let pieces = split::pieces_of(p, slash());
    let names = names_of(pieces);
    if is_absolute(p) {
        seq![root()] + names
    } else if pieces[0] == dot() {
        seq![dot()] + names
    } else {
        names
    }
}

/// Splits a path into its components.
pub fn components(p: &[u8]) -> (r: Vec<Vec<u8>>)
    ensures
        split::byte_views(r@) == components_of(p@),
{
    let pieces = split_bytes(p, 47);
    let ghost views = split::byte_views(pieces@);
    let here: [u8; 1] = [46];
    assert(here@ =~= dot());
    let mut r: Vec<Vec<u8>> = Vec::new();
    proof {
        split::lemma_pieces(p@, slash());
        assert(views[0] == pieces@[0]@);
    }
    if p.len() > 0 && p[0] == 47 {
        let mut first: Vec<u8> = Vec::new();
        first.push(47);
        assert(first@ =~= root());
        r.push(first);
    } else if bytes_equal(pieces[0].as_slice(), here.as_slice()) {
        let mut first: Vec<u8> = Vec::new();
        first.push(46);
        assert(first@ =~= dot());
        r.push(first);
    }
    let ghost start = split::byte_views(r@);
    proof {
        if is_absolute(p@) {
            assert(start =~= seq![root()]);
        } else if views[0] == dot() {
            assert(start =~= seq![dot()]);
        } else {
            assert(start =~= Seq::empty());
        }
    }
    let mut i: usize = 0;
    assert(views.take(0) =~= Seq::empty());
    assert(split::byte_views(r@) =~= start + names_of(views.take(0)));
    while i < pieces.len()
        invariant
            i <= pieces.len(),
            here@ == dot(),
            views == split::byte_views(pieces@),
            split::byte_views(r@) == start + names_of(views.take(i as int)),
        decreases pieces.len() - i,
    {
        let ghost before = split::byte_views(r@);
        assert(views.take(i + 1).drop_last() =~= views.take(i as int));
        assert(views[i as int] == pieces@[i as int]@);
        if pieces[i].len() > 0 && !bytes_equal(pieces[i].as_slice(), here.as_slice()) {
            let name = pieces[i].duplicate();
            r.push(name);
            proof {
                assert(split::byte_views(r@) =~= before.push(name@));
                assert(split::byte_views(r@) =~= start + names_of(views.take(i + 1)));
            }
        }
        i += 1;
    }
    proof {
        assert(views.take(i as int) =~= views);
        assert(split::byte_views(r@) =~= components_of(p@));
    }
    r
}

/// A path within another: `b` itself if it is absolute, and else the two with a
/// slash between them, if there is not one already.
pub open spec fn join_of(a: Seq<u8>, b: Seq<u8>) -> Seq<u8> {
    if is_absolute(b) {
        b
    } else if a.len() > 0 && a.last() != slash() {
        a.push(slash()) + b
    } else {
        a + b
    }
}

/// Joins two paths.
pub fn join(a: &[u8], b: &[u8]) -> (r: Vec<u8>)
    ensures
        r@ == join_of(a@, b@),
{
    if b.len() > 0 && b[0] == 47 {
        return slice_to_vec(b);
    }
    let mut r = slice_to_vec(a);
    if a.len() > 0 && a[a.len() - 1] != 47 {
        r.push(47);
    }
    r.extend_from_slice(b);
    r
}

/// The path with the given components.
pub open spec fn path_of(components: Seq<Seq<u8>>) -> Seq<u8>
    decreases components.len(),
{
    if components.len() == 0 {
        Seq::empty()
    } else {
        join_of(path_of(components.drop_last()), components.last())
    }
}

/// Makes a path of the components from `from` up to `to`.
pub fn join_components(list: &[Vec<u8>], from: usize, to: usize) -> (r: Vec<u8>)
    requires
        from <= to <= list@.len(),
    ensures
        r@ == path_of(split::byte_views(list@).subrange(from as int, to as int)),
{
    let ghost views = split::byte_views(list@);
    let mut r: Vec<u8> = Vec::new();
    let mut i: usize = from;
    assert(views.subrange(from as int, from as int) =~= Seq::empty());
    while i < to
        invariant
            from <= i <= to <= list@.len(),
            views == split::byte_views(list@),
            r@ == path_of(views.subrange(from as int, i as int)),
        decreases to - i,
    {
        proof {
            let now = views.subrange(from as int, i + 1);
            assert(now.drop_last() =~= views.subrange(from as int, i as int));
            assert(now.last() == list@[i as int]@);
        }
        r = join(r.as_slice(), list[i].as_slice());
        i += 1;
    }
    r
}

/// The path is the other one, or is within it.
pub open spec fn is_within(p: Seq<u8>, dir: Seq<u8>) -> bool {
    components_of(dir).is_prefix_of(components_of(p))
}

/// Tells whether a list of components starts with another.
pub fn starts_with(list: &[Vec<u8>], prefix: &[Vec<u8>]) -> (r: bool)
    ensures
        r == split::byte_views(prefix@).is_prefix_of(split::byte_views(list@)),
{
    if prefix.len() > list.len() {
        return false;
    }
    let ghost a = split::byte_views(list@);
    let ghost b = split::byte_views(prefix@);
    let mut i: usize = 0;
    while i < prefix.len()
        invariant
            prefix.len() <= list.len(),
            i <= prefix.len(),
            a == split::byte_views(list@),
            b == split::byte_views(prefix@),
            forall|j: int| 0 <= j < i ==> a[j] == b[j],
        decreases prefix.len() - i,
    {
        assert(a[i as int] == list@[i as int]@);
        assert(b[i as int] == prefix@[i as int]@);
        if !bytes_equal(list[i].as_slice(), prefix[i].as_slice()) {
            assert(b != a.take(b.len() as int));
            return false;
        }
        i += 1;
    }
    assert(b =~= a.take(b.len() as int));
    true
}

/// The path without what follows its last name: slashes, and slashes with the
/// current directory.
pub open spec fn trim_end_of(p: Seq<u8>) -> Seq<u8>
    decreases p.len(),
{
    if p.len() >= 1 && p.last() == slash() {
        trim_end_of(p.drop_last())
    } else if p.len() >= 2 && p.last() == 46 && p[p.len() - 2] == slash() {
        trim_end_of(p.take(p.len() - 2))
    } else {
        p
    }
}

/// Where the last name of a path starts: after the last slash.
pub open spec fn name_start(p: Seq<u8>) -> int
    decreases p.len(),
{
    if p.len() == 0 || p.last() == slash() {
        p.len() as int
    } else {
        name_start(p.drop_last())
    }
}

/// The last name of a path, if it is that of a file.
pub open spec fn file_name_of(p: Seq<u8>) -> Option<Seq<u8>> {
    let t = trim_end_of(p);
    let name = t.skip(name_start(t));
    if name.len() == 0 || name == dot() || name == dot_dot() {
        None
    } else {
        Some(name)
    }
}

/// The length of the part of a file name before its last dot. A dot at the
/// start of the name does not count.
pub open spec fn stem_len(name: Seq<u8>) -> int {
    match last_dot(name) {
        Some(i) => if i > 0 {
            i
        } else {
            name.len() as int
        },
        None => name.len() as int,
    }
}

/// The position of the last dot of a name.
pub open spec fn last_dot(name: Seq<u8>) -> Option<int>
    decreases name.len(),
{
    if name.len() == 0 {
        None
    } else if name.last() == 46 {
        Some(name.len() - 1)
    } else {
        last_dot(name.drop_last())
    }
}

/// The file name of a path without its extension.
pub open spec fn file_stem_of(p: Seq<u8>) -> Option<Seq<u8>> {
    match file_name_of(p) {
        Some(name) => Some(name.take(stem_len(name))),
        None => None,
    }
}

/// The extension of the file name of a path.
pub open spec fn extension_of(p: Seq<u8>) -> Option<Seq<u8>> {
    match file_name_of(p) {
        Some(name) => if stem_len(name) < name.len() {
            Some(name.skip(stem_len(name) + 1))
        } else {
            None
        },
        None => None,
    }
}

/// The path with another extension. A path without a file name stays.
pub open spec fn with_extension_of(p: Seq<u8>, extension: Seq<u8>) -> Seq<u8> {
    match file_stem_of(p) {
        Some(stem) => {
            let t = trim_end_of(p);
            let base = t.take(name_start(t)) + stem;
            if extension.len() == 0 {
                base
            } else {
                base.push(46) + extension
            }
        },
        None => p,
    }
}

/// The number of bytes up to the end of the last name.
fn trimmed_len(p: &[u8]) -> (r: usize)
    ensures
        r <= p@.len(),
        p@.take(r as int) == trim_end_of(p@),
{
    let mut n: usize = p.len();
    assert(p@.take(n as int) =~= p@);
    loop
        invariant
            n <= p.len(),
            trim_end_of(p@.take(n as int)) == trim_end_of(p@),
        ensures
            n <= p.len(),
            p@.take(n as int) == trim_end_of(p@),
        decreases n,
    {
        if n >= 1 && p[n - 1] == 47 {
            assert(p@.take(n as int).drop_last() =~= p@.take(n - 1));
            n -= 1;
        } else if n >= 2 && p[n - 1] == 46 && p[n - 2] == 47 {
            assert(p@.take(n as int).take(n - 2) =~= p@.take(n - 2));
            n -= 2;
        } else {
            break;
        }
    }
    n
}

/// Finds where the last name starts.
fn find_name_start(p: &[u8]) -> (r: usize)
    ensures
        r <= p@.len(),
        r == name_start(p@),
{
    let mut n: usize = p.len();
    assert(p@.take(n as int) =~= p@);
    while n > 0 && p[n - 1] != 47
        invariant
            n <= p.len(),
            name_start(p@.take(n as int)) == name_start(p@),
        decreases n,
    {
        assert(p@.take(n as int).drop_last() =~= p@.take(n - 1));
        n -= 1;
    }
    n
}

/// Finds the end of the stem of a file name.
fn find_stem_len(name: &[u8]) -> (r: usize)
    ensures
        r <= name@.len(),
        r == stem_len(name@),
{
    let mut n: usize = name.len();
    assert(name@.take(n as int) =~= name@);
    while n > 0 && name[n - 1] != 46
        invariant
            n <= name.len(),
            last_dot(name@.take(n as int)) == last_dot(name@),
        decreases n,
    {
        assert(name@.take(n as int).drop_last() =~= name@.take(n - 1));
        n -= 1;
    }
    if n > 1 {
        n - 1
    } else {
        name.len()
    }
}

/// Where the file name of a path starts and ends, if it has one.
fn file_name_range(p: &[u8]) -> (r: Option<(usize, usize)>)
    ensures
        match r {
            Some((from, to)) => {
                &&& from <= to <= p@.len()
                &&& p@.take(to as int) == trim_end_of(p@)
                &&& from == name_start(trim_end_of(p@))
                &&& file_name_of(p@) == Some(p@.subrange(from as int, to as int))
            },
            None => file_name_of(p@) is None,
        },
{
    let to = trimmed_len(p);
    let t = slice_subrange(p, 0, to);
    assert(t@ =~= trim_end_of(p@));
    let from = find_name_start(t);
    let name = slice_subrange(t, from, to);
    assert(name@ =~= t@.skip(from as int));
    assert(p@.subrange(from as int, to as int) =~= name@);
    if name.len() == 0 {
        return None;
    }
    let here: [u8; 1] = [46];
    assert(here@ =~= dot());
    let up: [u8; 2] = [46, 46];
    assert(up@ =~= dot_dot());
    if bytes_equal(name, here.as_slice()) || bytes_equal(name, up.as_slice()) {
        return None;
    }
    Some((from, to))
}

/// The file name of a path.
pub fn file_name(p: &[u8]) -> (r: Option<Vec<u8>>)
    ensures
        match r {
            Some(name) => file_name_of(p@) == Some(name@),
            None => file_name_of(p@) is None,
        },
{
    match file_name_range(p) {
        Some((from, to)) => Some(slice_to_vec(slice_subrange(p, from, to))),
        None => None,
    }
}

/// The file name of a path without its extension.
pub fn file_stem(p: &[u8]) -> (r: Option<Vec<u8>>)
    ensures
        match r {
            Some(stem) => file_stem_of(p@) == Some(stem@),
            None => file_stem_of(p@) is None,
        },
{
    match file_name(p) {
        Some(name) => {
            let n = find_stem_len(name.as_slice());
            let stem = slice_to_vec(slice_subrange(name.as_slice(), 0, n));
            assert(stem@ =~= name@.take(n as int));
            Some(stem)
        },
        None => None,
    }
}

/// The extension of the file name of a path.
pub fn extension(p: &[u8]) -> (r: Option<Vec<u8>>)
    ensures
        match r {
            Some(e) => extension_of(p@) == Some(e@),
            None => extension_of(p@) is None,
        },
{
    match file_name(p) {
        Some(name) => {
            let n = find_stem_len(name.as_slice());
            if n < name.len() {
                let e = slice_to_vec(slice_subrange(name.as_slice(), n + 1, name.len()));
                assert(e@ =~= name@.skip(n + 1));
                Some(e)
            } else {
                None
            }
        },
        None => None,
    }
}

/// Replaces the extension of a path.
pub fn with_extension(p: &[u8], extension: &[u8]) -> (r: Vec<u8>)
    ensures
        r@ == with_extension_of(p@, extension@),
{
    match file_name_range(p) {
        Some((from, to)) => {
            let name = slice_subrange(p, from, to);
            let n = find_stem_len(name);
            let mut r = slice_to_vec(slice_subrange(p, 0, from + n));
            proof {
                let t = trim_end_of(p@);
                assert(r@ =~= t.take(from as int) + name@.take(n as int));
            }
            if extension.len() > 0 {
                r.push(46);
                r.extend_from_slice(extension);
            }
            r
        },
        None => slice_to_vec(p),
    }
}

/// The path without its last component, if that is not the root.
pub open spec fn parent_of(p: Seq<u8>) -> Option<Seq<u8>> {
    let parts = components_of(p);
    if parts.len() == 0 || parts.last() == root() {
        None
    } else {
        Some(path_of(parts.drop_last()))
    }
}

/// Removes the last component of a path.
pub fn parent(p: &[u8]) -> (r: Option<Vec<u8>>)
    ensures
        match r {
            Some(q) => parent_of(p@) == Some(q@),
            None => parent_of(p@) is None,
        },
{
    let parts = components(p);
    let ghost views = components_of(p@);
    let n = parts.len();
    if n == 0 {
        return None;
    }
    assert(views.last() == parts@[n - 1]@);
    let mut top: Vec<u8> = Vec::new();
    top.push(47);
    assert(top@ =~= root());
    if bytes_equal(parts[n - 1].as_slice(), top.as_slice()) {
        return None;
    }
    assert(views.subrange(0, n - 1) =~= views.drop_last());
    Some(join_components(parts.as_slice(), 0, n - 1))
}

/// A name of a file or a directory: not empty, without a slash, and not the
/// current directory.
pub open spec fn is_name(s: Seq<u8>) -> bool {
    s.len() > 0 && s != dot() && !s.contains(slash())
}

proof fn lemma_pieces_of_name(a: Seq<u8>, name: Seq<u8>)
    requires
        !name.contains(slash()),
    ensures
        ({
            let before = split::pieces_of(a, slash());
            split::pieces_of(a + name, slash()) == before.drop_last().push(before.last() + name)
        }),
    decreases name.len(),
{
    split::lemma_pieces(a, slash());
    let before = split::pieces_of(a, slash());
    if name.len() == 0 {
        assert(a + name =~= a);
        assert(before.drop_last().push(before.last() + name) =~= before);
    } else {
        let s = a + name;
        let short = name.drop_last();
        assert forall|i: int| 0 <= i < short.len() implies short[i] != slash() by {
            assert(short[i] == name[i]);
        }
        lemma_pieces_of_name(a, short);
        assert(s.drop_last() =~= a + short);
        assert(name.contains(name.last()));
        let whole = split::pieces_of(a + short, slash());
        assert(whole.drop_last() =~= before.drop_last());
        assert((before.last() + short).push(name.last()) =~= before.last() + name);
    }
}

/// Joining a name to a path adds a component.
pub proof fn lemma_join_name(a: Seq<u8>, name: Seq<u8>)
    requires
        is_name(name),
    ensures
        components_of(join_of(a, name)) == components_of(a).push(name),
{
    let before = split::pieces_of(a, slash());
    split::lemma_pieces(a, slash());
    assert(name.contains(name[0]));
    if a.len() > 0 && a.last() != slash() {
        let b = a.push(slash());
        assert(b.drop_last() =~= a);
        let pieces = split::pieces_of(b, slash());
        assert(pieces == before.push(Seq::empty()));
        lemma_pieces_of_name(b, name);
        assert(pieces.drop_last() =~= before);
        assert(Seq::<u8>::empty() + name =~= name);
        assert(split::pieces_of(b + name, slash()) == before.push(name));
        assert(before.push(name).drop_last() =~= before);
        assert(components_of(b + name) =~= components_of(a).push(name));
    } else {
        lemma_pieces_of_name(a, name);
        assert(Seq::<u8>::empty() + name =~= name);
        let rest = before.drop_last();
        assert(before.last() == Seq::<u8>::empty());
        assert(before =~= rest.push(Seq::empty()));
        assert(split::pieces_of(a + name, slash()) == rest.push(name));
        assert(rest.push(name).drop_last() =~= rest);
        assert(components_of(a + name) =~= components_of(a).push(name));
    }
}

/// The path in normal form: its components, joined.
pub open spec fn normalized(p: Seq<u8>) -> Seq<u8> {
    path_of(components_of(p))
}

/// Brings a path into normal form.
pub fn normalize(p: &[u8]) -> (r: Vec<u8>)
    ensures
        r@ == normalized(p@),
{
    let parts = components(p);
    let ghost views = split::byte_views(parts@);
    assert(views.subrange(0, views.len() as int) =~= views);
    join_components(parts.as_slice(), 0, parts.len())
}

proof fn lemma_pieces_without_slash(s: Seq<u8>, i: int)
    requires
        0 <= i < split::pieces_of(s, slash()).len(),
    ensures
        !split::pieces_of(s, slash())[i].contains(slash()),
    decreases s.len(),
{
    if s.len() > 0 {
        let before = split::pieces_of(s.drop_last(), slash());
        let now = split::pieces_of(s, slash());
        split::lemma_pieces(s.drop_last(), slash());
        if i < before.len() {
            lemma_pieces_without_slash(s.drop_last(), i);
        }
        if s.last() != slash() && i == now.len() - 1 {
            lemma_pieces_without_slash(s.drop_last(), before.len() - 1);
            assert(now[i] == before.last().push(s.last()));
            assert forall|k: int| 0 <= k < now[i].len() implies now[i][k] != slash() by {
                if k < before.last().len() {
                    assert(before.last()[k] == now[i][k]);
                    assert(before.last().contains(before.last()[k]));
                }
            }
        }
    }
}

proof fn lemma_names(pieces: Seq<Seq<u8>>, i: int)
    requires
        forall|k: int| 0 <= k < pieces.len() ==> !(#[trigger] pieces[k]).contains(slash()),
        0 <= i < names_of(pieces).len(),
    ensures
        is_name(names_of(pieces)[i]),
    decreases pieces.len(),
{
    if pieces.len() > 0 {
        let init = pieces.drop_last();
        assert forall|k: int| 0 <= k < init.len() implies !(#[trigger] init[k]).contains(slash()) by {
            assert(init[k] == pieces[k]);
        }
        assert(!pieces[pieces.len() - 1].contains(slash()));
        if i < names_of(init).len() {
            lemma_names(init, i);
        }
    }
}

proof fn lemma_joined_names(start: Seq<Seq<u8>>, names: Seq<Seq<u8>>)
    requires
        components_of(path_of(start)) == start,
        forall|k: int| 0 <= k < names.len() ==> is_name(#[trigger] names[k]),
    ensures
        components_of(path_of(start + names)) == start + names,
    decreases names.len(),
{
    if names.len() == 0 {
        assert(start + names =~= start);
    } else {
        let init = names.drop_last();
        assert forall|k: int| 0 <= k < init.len() implies is_name(#[trigger] init[k]) by {
            assert(init[k] == names[k]);
        }
        lemma_joined_names(start, init);
        assert(is_name(names[names.len() - 1]));
        assert((start + names).drop_last() =~= start + init);
        lemma_join_name(path_of(start + init), names.last());
        assert((start + init).push(names.last()) =~= start + names);
    }
}

/// The normal form of a path has the same components.
pub proof fn lemma_normalized(p: Seq<u8>)
    ensures
        components_of(normalized(p)) == components_of(p),
{
    let pieces = split::pieces_of(p, slash());
    let names = names_of(pieces);
    split::lemma_pieces(p, slash());
    assert forall|k: int| 0 <= k < pieces.len() implies !(#[trigger] pieces[k]).contains(slash()) by {
        lemma_pieces_without_slash(p, k);
    }
    assert forall|k: int| 0 <= k < names.len() implies is_name(#[trigger] names[k]) by {
        lemma_names(pieces, k);
    }
    let none = Seq::<Seq<u8>>::empty();
    let empty = Seq::<u8>::empty();
    reveal_with_fuel(split::pieces_of, 3);
    reveal_with_fuel(names_of, 3);
    reveal_with_fuel(path_of, 2);
    if is_absolute(p) {
        let start = seq![root()];
        assert(start.drop_last() =~= none);
        assert(path_of(start) =~= root());
        assert(root().drop_last() =~= empty);
        assert(split::pieces_of(root(), slash()) =~= seq![empty, empty]);
        assert(seq![empty, empty].drop_last() =~= seq![empty]);
        assert(seq![empty].drop_last() =~= none);
        assert(components_of(root()) =~= start);
        lemma_joined_names(start, names);
    } else if pieces[0] == dot() {
        let start = seq![dot()];
        assert(start.drop_last() =~= none);
        assert(path_of(start) =~= dot());
        assert(dot().drop_last() =~= empty);
        assert(seq![empty].drop_last().push(empty.push(46u8)) =~= seq![dot()]);
        assert(split::pieces_of(dot(), slash()) =~= seq![dot()]);
        assert(components_of(dot()) =~= start);
        lemma_joined_names(start, names);
    } else {
        assert(components_of(empty) =~= none) by {
            assert(split::pieces_of(empty, slash()) =~= seq![empty]);
            assert(seq![empty].drop_last() =~= none);
        }
        lemma_joined_names(none, names);
        assert(none + names =~= names);
    }
}

/// Two paths have the same normal form if and only if they have the same
/// components.
pub proof fn law_normal_form_decides(p: Seq<u8>, q: Seq<u8>)
    ensures
        normalized(p) == normalized(q) <==> components_of(p) == components_of(q),
{
    lemma_normalized(p);
    lemma_normalized(q);
}

/// The kind of a component, by which components are ordered first: the root, the
/// current directory, the parent directory, and names.
pub open spec fn component_rank(c: Seq<u8>) -> int {
    if c == root() {
        0
    } else if c == dot() {
        1
    } else if c == dot_dot() {
        2
    } else {
        3
    }
}

/// A component comes before another.
pub open spec fn component_less(a: Seq<u8>, b: Seq<u8>) -> bool {
    component_rank(a) < component_rank(b) || (component_rank(a) == 3 && component_rank(b) == 3
        && bytes::lex_less(a, b))
}

/// A list of components comes before another.
pub open spec fn parts_less(a: Seq<Seq<u8>>, b: Seq<Seq<u8>>) -> bool
    decreases a.len(),
{
    if b.len() == 0 {
        false
    } else if a.len() == 0 {
        true
    } else if a[0] != b[0] {
        component_less(a[0], b[0])
    } else {
        parts_less(a.drop_first(), b.drop_first())
    }
}

proof fn lemma_component_order(a: Seq<u8>, b: Seq<u8>, c: Seq<u8>)
    ensures
        !component_less(a, a),
        component_less(a, b) && component_less(b, c) ==> component_less(a, c),
        a != b ==> component_less(a, b) || component_less(b, a),
{
    bytes::lemma_lex_irreflexive(a);
    if bytes::lex_less(a, b) && bytes::lex_less(b, c) {
        bytes::lemma_lex_transitive(a, b, c);
    }
    if !bytes::lex_less(a, b) && !bytes::lex_less(b, a) {
        bytes::lemma_lex_total(a, b);
    }
}

/// The order of lists of components is an order.
pub proof fn lemma_parts_order(a: Seq<Seq<u8>>, b: Seq<Seq<u8>>, c: Seq<Seq<u8>>)
    ensures
        parts_less(a, b) ==> !parts_less(b, a),
        !parts_less(a, b) && !parts_less(b, c) ==> !parts_less(a, c),
    decreases a.len() + b.len() + c.len(),
{
    if a.len() > 0 && b.len() > 0 {
        lemma_component_order(a[0], b[0], a[0]);
        lemma_component_order(b[0], a[0], b[0]);
        if c.len() > 0 {
            lemma_component_order(a[0], c[0], b[0]);
            lemma_component_order(c[0], b[0], a[0]);
            lemma_component_order(b[0], c[0], b[0]);
            lemma_component_order(b[0], a[0], c[0]);
            lemma_parts_order(a.drop_first(), b.drop_first(), c.drop_first());
        } else {
            lemma_parts_order(a.drop_first(), b.drop_first(), Seq::empty());
        }
    }
}

/// Tells whether a component comes before another.
fn is_component_less(a: &[u8], b: &[u8]) -> (r: bool)
    ensures
        r == component_less(a@, b@),
{
    let x = rank_component(a);
    let y = rank_component(b);
    x < y || (x == 3 && y == 3 && bytes_less(a, b))
}

/// Finds the kind of a component.
fn rank_component(c: &[u8]) -> (r: u8)
    ensures
        r == component_rank(c@),
{
    if c.len() == 1 && c[0] == 47 {
        assert(c@ =~= root());
        0
    } else if c.len() == 1 && c[0] == 46 {
        assert(c@ =~= dot());
        1
    } else if c.len() == 2 && c[0] == 46 && c[1] == 46 {
        assert(c@ =~= dot_dot());
        2
    } else {
        3
    }
}

/// Tells whether a list of components comes before another.
pub fn is_parts_less(a: &[Vec<u8>], b: &[Vec<u8>]) -> (r: bool)
    ensures
        r == parts_less(split::byte_views(a@), split::byte_views(b@)),
{
    let ghost x = split::byte_views(a@);
    let ghost y = split::byte_views(b@);
    let mut i: usize = 0;
    assert(x.skip(0) =~= x);
    assert(y.skip(0) =~= y);
    while i < a.len() && i < b.len()
        invariant
            x == split::byte_views(a@),
            y == split::byte_views(b@),
            i <= a.len(),
            i <= b.len(),
            parts_less(x, y) == parts_less(x.skip(i as int), y.skip(i as int)),
        decreases a.len() - i,
    {
        assert(x.skip(i as int)[0] == a@[i as int]@);
        assert(y.skip(i as int)[0] == b@[i as int]@);
        if !bytes_equal(a[i].as_slice(), b[i].as_slice()) {
            return is_component_less(a[i].as_slice(), b[i].as_slice());
        }
        assert(x.skip(i as int).drop_first() =~= x.skip(i + 1));
        assert(y.skip(i as int).drop_first() =~= y.skip(i + 1));
        i += 1;
    }
    i < b.len()
}

/// Joining relative names to a path adds them as components.
pub proof fn law_join_adds_components(a: Seq<u8>, names: Seq<Seq<u8>>)
    requires
        forall|k: int| 0 <= k < names.len() ==> is_name(#[trigger] names[k]),
    ensures
        components_of(path_of(names)) == names,
        components_of(join_of(a, path_of(names))) == components_of(a) + names,
    decreases names.len(),
{
    let none = Seq::<Seq<u8>>::empty();
    let empty = Seq::<u8>::empty();
    assert(components_of(empty) =~= none) by {
        reveal_with_fuel(split::pieces_of, 2);
        reveal_with_fuel(names_of, 2);
        assert(split::pieces_of(empty, slash()) =~= seq![empty]);
        assert(seq![empty].drop_last() =~= none);
    }
    lemma_joined_names(none, names);
    assert(none + names =~= names);
    if names.len() == 0 {
        assert(path_of(names) =~= empty);
        assert(components_of(a) + names =~= components_of(a));
        if a.len() > 0 && a.last() != slash() {
            let b = a.push(slash());
            let before = split::pieces_of(a, slash());
            split::lemma_pieces(a, slash());
            assert(b + empty =~= b);
            assert(b.drop_last() =~= a);
            assert(split::pieces_of(b, slash()) == before.push(empty));
            assert(before.push(empty).drop_last() =~= before);
        } else {
            assert(a + empty =~= a);
        }
    } else {
        let init = names.drop_last();
        let name = names.last();
        assert forall|k: int| 0 <= k < init.len() implies is_name(#[trigger] init[k]) by {
            assert(init[k] == names[k]);
        }
        assert(is_name(names[names.len() - 1]));
        law_join_adds_components(a, init);
        lemma_relative(init);
        lemma_relative(names);
        let p = path_of(init);
        assert(name.contains(name[0]));
        assert(path_of(names) == join_of(p, name));
        if init.len() == 0 {
            assert(p =~= empty);
            assert(path_of(names) =~= name);
            lemma_join_name(a, name);
            assert(components_of(a).push(name) =~= components_of(a) + names);
        } else {
            assert(p.len() > 0 && p.last() != slash());
            let q = join_of(a, p);
            assert(q.last() == p.last());
            assert(join_of(a, path_of(names)) =~= join_of(q, name));
            lemma_join_name(q, name);
            assert((components_of(a) + init).push(name) =~= components_of(a) + names);
        }
    }
}

/// A path of names is relative, and does not end in a slash.
proof fn lemma_relative(names: Seq<Seq<u8>>)
    requires
        forall|k: int| 0 <= k < names.len() ==> is_name(#[trigger] names[k]),
    ensures
        !is_absolute(path_of(names)),
        names.len() > 0 ==> path_of(names).len() > 0 && path_of(names).last() != slash(),
        names.len() == 0 ==> path_of(names).len() == 0,
    decreases names.len(),
{
    if names.len() > 0 {
        let init = names.drop_last();
        let name = names.last();
        assert forall|k: int| 0 <= k < init.len() implies is_name(#[trigger] init[k]) by {
            assert(init[k] == names[k]);
        }
        assert(is_name(names[names.len() - 1]));
        lemma_relative(init);
        assert(name.contains(name[0]));
        assert(name.contains(name[name.len() - 1]));
    }
}

/// Every component after the first one is a name.
pub proof fn lemma_components_are_names(p: Seq<u8>, i: int)
    requires
        0 < i < components_of(p).len(),
    ensures
        is_name(components_of(p)[i]),
{
    let pieces = split::pieces_of(p, slash());
    let names = names_of(pieces);
    assert forall|k: int| 0 <= k < pieces.len() implies !(#[trigger] pieces[k]).contains(slash()) by {
        lemma_pieces_without_slash(p, k);
    }
    let k = i - (components_of(p).len() - names.len());
    assert(components_of(p)[i] == names[k]);
    lemma_names(pieces, k);
}

/// The names in a path are its pieces between slashes, in order, without the
/// empty ones and those that stand for the directory itself.
pub proof fn law_names_are_pieces(pieces: Seq<Seq<u8>>) -> (at: Seq<int>)
    ensures
        select::is_selected(
            names_of(pieces),
            pieces,
            pieces.len() as int,
            |s: Seq<u8>| s.len() > 0 && s != seq![46u8],
            |s: Seq<u8>| s,
            at,
        ),
    decreases pieces.len(),
{
    let wanted = |s: Seq<u8>| s.len() > 0 && s != seq![46u8];
    let value = |s: Seq<u8>| s;
    if pieces.len() == 0 {
        select::lemma_none_selected(pieces, wanted, value);
        Seq::empty()
    } else {
        let init = pieces.drop_last();
        let n = init.len() as int;
        let at = law_names_are_pieces(init);
        let before = names_of(init);
        assert(select::is_selected(before, pieces, n, wanted, value, at)) by {
            assert forall|i: int| 0 <= i < n && wanted(#[trigger] pieces[i]) implies at.contains(
                i,
            ) by {
                assert(init[i] == pieces[i]);
            }
        }
        if wanted(pieces[n]) {
            select::lemma_select_next(before, pieces, n, wanted, value, at);
            at.push(n)
        } else {
            select::lemma_pass_over(before, pieces, n, wanted, value, at);
            at
        }
    }
}

proof fn lemma_name_start(dir: Seq<u8>, name: Seq<u8>)
    requires
        dir.len() == 0 || dir.last() == slash(),
        !name.contains(slash()),
    ensures
        name_start(dir + name) == dir.len(),
    decreases name.len(),
{
    let p = dir + name;
    if name.len() == 0 {
        assert(p =~= dir);
    } else {
        let init = name.drop_last();
        assert(!init.contains(slash())) by {
            if init.contains(slash()) {
                assert(name[init.index_of(slash())] == slash());
            }
        }
        assert(name[name.len() - 1] == p.last());
        assert(p.last() != slash());
        assert(p.drop_last() =~= dir + init);
        lemma_name_start(dir, init);
    }
}

/// What stands before the name in a path that ends in it.
spec fn before_name(dir: Seq<u8>) -> Seq<u8> {
    if dir.len() > 0 && dir.last() != slash() {
        dir.push(slash())
    } else {
        dir
    }
}

proof fn lemma_path_with_name(dir: Seq<u8>, name: Seq<u8>)
    requires
        is_name(name),
    ensures
        ({
            let p = join_of(dir, name);
            let d = before_name(dir);
            &&& p == d + name
            &&& trim_end_of(p) == p
            &&& name_start(p) == d.len()
            &&& p.skip(name_start(p)) == name
            &&& p.take(name_start(p)) == d
        }),
{
    let p = join_of(dir, name);
    let d = before_name(dir);
    assert(name.contains(name[0]));
    assert(!is_absolute(name));
    assert(p =~= d + name);
    lemma_name_start(d, name);
    assert(p.skip(d.len() as int) =~= name);
    assert(p.take(d.len() as int) =~= d);
    assert(p.last() == name[name.len() - 1]);
    assert(name.contains(name[name.len() - 1]));
    if name.len() >= 2 {
        assert(p[p.len() - 2] == name[name.len() - 2]);
        assert(name.contains(name[name.len() - 2]));
    } else if p.last() == 46 {
        assert(name =~= dot());
    }
}

/// The file name of a path is the name that was joined last, unless that leads up.
pub proof fn law_joined_name_is_file_name(dir: Seq<u8>, name: Seq<u8>)
    requires
        is_name(name),
    ensures
        file_name_of(join_of(dir, name)) == (if name == seq![46u8, 46u8] {
            None
        } else {
            Some(name)
        }),
{
    lemma_path_with_name(dir, name);
}

/// Slashes at the end of a path, and a dot behind a slash there, do not change
/// its file name. An empty path and a single dot have none.
pub proof fn law_end_of_path_does_not_count(p: Seq<u8>)
    ensures
        file_name_of(p.push(47)) == file_name_of(p),
        file_name_of(p + seq![47u8, 46u8]) == file_name_of(p),
        p.len() == 0 ==> file_name_of(p) is None,
        p == seq![46u8] ==> file_name_of(p) is None,
{
    let a = p.push(47);
    assert(a.drop_last() =~= p);
    let b = p + seq![47u8, 46u8];
    assert(b.take(b.len() - 2) =~= p);
    if p.len() == 0 {
        assert(p.skip(0).len() == 0);
    }
    if p == seq![46u8] {
        let empty = Seq::<u8>::empty();
        assert(empty + p =~= p);
        assert(!p.contains(slash()));
        lemma_name_start(empty, p);
        assert(p.skip(0) =~= p);
    }
}

proof fn lemma_last_dot(name: Seq<u8>)
    ensures
        match last_dot(name) {
            Some(i) => 0 <= i < name.len() && name[i] == 46 && forall|j: int|
                i < j < name.len() ==> #[trigger] name[j] != 46,
            None => forall|j: int| 0 <= j < name.len() ==> #[trigger] name[j] != 46,
        },
    decreases name.len(),
{
    if name.len() > 0 && name.last() != 46 {
        let init = name.drop_last();
        lemma_last_dot(init);
        assert forall|j: int| 0 <= j < init.len() implies init[j] == #[trigger] name[j] by {}
    }
}

/// A file name is its stem, followed by a dot and its extension if it has one. A
/// stem is not empty. An extension holds no dot. A name without an extension has
/// no dot but at its start.
pub proof fn law_stem_and_extension(p: Seq<u8>)
    ensures
        match file_name_of(p) {
            Some(name) => match (file_stem_of(p), extension_of(p)) {
                (Some(stem), Some(extension)) => {
                    &&& name == stem + seq![46u8] + extension
                    &&& stem.len() > 0
                    &&& !extension.contains(46)
                },
                (Some(stem), None) => stem == name && forall|j: int|
                    0 < j < name.len() ==> #[trigger] name[j] != 46,
                _ => false,
            },
            None => file_stem_of(p) is None && extension_of(p) is None,
        },
{
    if let Some(name) = file_name_of(p) {
        lemma_last_dot(name);
        let n = stem_len(name);
        if n < name.len() {
            assert(name =~= name.take(n) + seq![46u8] + name.skip(n + 1));
            let extension = name.skip(n + 1);
            if extension.contains(46) {
                let j = extension.index_of(46);
                assert(name[n + 1 + j] == 46);
            }
        } else {
            assert(name.take(n) =~= name);
        }
    }
}

/// A path with another extension has the same stem in the same directory. With an
/// empty one, nothing follows the stem.
pub proof fn law_extension_is_replaced(dir: Seq<u8>, name: Seq<u8>, extension: Seq<u8>)
    requires
        is_name(name),
        name != seq![46u8, 46u8],
    ensures
        ({
            let p = join_of(dir, name);
            let stem = file_stem_of(p);
            &&& stem is Some
            &&& with_extension_of(p, extension) == join_of(
                dir,
                if extension.len() == 0 {
                    stem->0
                } else {
                    stem->0 + seq![46u8] + extension
                },
            )
        }),
{
    let p = join_of(dir, name);
    lemma_path_with_name(dir, name);
    law_joined_name_is_file_name(dir, name);
    law_stem_and_extension(p);
    let stem = file_stem_of(p)->0;
    assert(stem.len() > 0);
    assert(stem[0] == name[0]);
    assert(name.contains(name[0]));
    let d = before_name(dir);
    let now = stem + seq![46u8] + extension;
    assert(now[0] == name[0]);
    if extension.len() == 0 {
        assert(with_extension_of(p, extension) =~= join_of(dir, stem));
    } else {
        assert(with_extension_of(p, extension) =~= join_of(dir, now));
    }
}

/// The parent of a path is where its last name was joined to. Neither an empty
/// path nor the root has a parent.
pub proof fn law_parent_is_without_last_name(dir: Seq<u8>, name: Seq<u8>)
    requires
        is_name(name),
    ensures
        parent_of(join_of(dir, name)) is Some,
        components_of(parent_of(join_of(dir, name))->0) == components_of(dir),
        components_of(dir).len() == 0 || components_of(dir) == seq![root()] ==> parent_of(
            dir,
        ) is None,
{
    lemma_join_name(dir, name);
    let parts = components_of(join_of(dir, name));
    assert(parts.drop_last() =~= components_of(dir));
    assert(root()[0] == slash());
    assert(root().contains(slash()));
    lemma_normalized(dir);
}

/// The first components of a path make up a path with just these.
pub proof fn lemma_first_components(p: Seq<u8>, k: int)
    requires
        0 <= k <= components_of(p).len(),
    ensures
        components_of(path_of(components_of(p).take(k))) == components_of(p).take(k),
{
    let parts = components_of(p);
    let pieces = split::pieces_of(p, slash());
    let names = names_of(pieces);
    split::lemma_pieces(p, slash());
    let none = Seq::<Seq<u8>>::empty();
    let empty = Seq::<u8>::empty();
    law_join_adds_components(empty, none);
    assert(path_of(none) =~= empty);
    if k == 0 {
        assert(parts.take(0) =~= none);
    } else {
        let start = parts.take(1);
        let rest = parts.subrange(1, k);
        assert(start =~= seq![parts[0]]);
        assert(start.drop_last() =~= none);
        assert(path_of(start) == join_of(path_of(none), parts[0]));
        assert(path_of(start) =~= parts[0]);
        assert(components_of(parts[0]) =~= start) by {
            if is_absolute(p) {
                lemma_root_alone();
            } else if pieces[0] == dot() {
                lemma_dot_alone();
            } else {
                assert forall|i: int| 0 <= i < pieces.len() implies !(
                #[trigger] pieces[i]).contains(slash()) by {
                    lemma_pieces_without_slash(p, i);
                }
                lemma_names(pieces, 0);
                lemma_join_name(empty, parts[0]);
                assert(join_of(empty, parts[0]) =~= parts[0]);
                assert(none.push(parts[0]) =~= start);
            }
        }
        assert forall|i: int| 0 <= i < rest.len() implies is_name(#[trigger] rest[i]) by {
            lemma_components_are_names(p, i + 1);
        }
        lemma_joined_names(start, rest);
        assert(start + rest =~= parts.take(k));
    }
}

proof fn lemma_root_alone()
    ensures
        components_of(root()) == seq![root()],
{
    let none = Seq::<Seq<u8>>::empty();
    let empty = Seq::<u8>::empty();
    reveal_with_fuel(split::pieces_of, 3);
    reveal_with_fuel(names_of, 3);
    assert(root().drop_last() =~= empty);
    assert(split::pieces_of(root(), slash()) =~= seq![empty, empty]);
    assert(seq![empty, empty].drop_last() =~= seq![empty]);
    assert(seq![empty].drop_last() =~= none);
    assert(components_of(root()) =~= seq![root()]);
}

proof fn lemma_dot_alone()
    ensures
        components_of(dot()) == seq![dot()],
{
    let none = Seq::<Seq<u8>>::empty();
    let empty = Seq::<u8>::empty();
    reveal_with_fuel(split::pieces_of, 3);
    reveal_with_fuel(names_of, 3);
    assert(dot().drop_last() =~= empty);
    assert(seq![empty].drop_last().push(empty.push(46u8)) =~= seq![dot()]);
    assert(split::pieces_of(dot(), slash()) =~= seq![dot()]);
    assert(seq![dot()].drop_last() =~= none);
    assert(components_of(dot()) =~= seq![dot()]);
}

/// Paths are ordered by the first component in which they differ, and a path
/// comes before those that go on from it.
pub proof fn law_first_component_decides(a: Seq<Seq<u8>>, b: Seq<Seq<u8>>, k: int)
    requires
        0 <= k <= a.len(),
        k <= b.len(),
        forall|i: int| 0 <= i < k ==> a[i] == b[i],
    ensures
        k == a.len() ==> (parts_less(a, b) <==> k < b.len()),
        k == b.len() ==> !parts_less(a, b),
        k < a.len() && k < b.len() && a[k] != b[k] ==> (parts_less(a, b) <==> component_less(
            a[k],
            b[k],
        )),
    decreases k,
{
    if k > 0 {
        let c = a.drop_first();
        let d = b.drop_first();
        assert forall|i: int| 0 <= i < k - 1 implies c[i] == d[i] by {
            assert(a[i + 1] == b[i + 1]);
        }
        law_first_component_decides(c, d, k - 1);
        if k < a.len() && k < b.len() {
            assert(c[k - 1] == a[k] && d[k - 1] == b[k]);
        }
    }
}

/// The root comes before a dot, that before two dots, and those before names,
/// which are ordered by their bytes.
pub proof fn law_components_are_ordered(a: Seq<u8>, b: Seq<u8>)
    requires
        is_name(a),
        is_name(b),
        a != seq![46u8, 46u8],
        b != seq![46u8, 46u8],
    ensures
        component_less(a, b) <==> bytes::lex_less(a, b),
        component_less(seq![47u8], seq![46u8]),
        component_less(seq![46u8], seq![46u8, 46u8]),
        component_less(seq![46u8, 46u8], a),
        !component_less(a, seq![46u8, 46u8]),
{
    assert(root()[0] == slash());
    assert(root().contains(slash()));
    assert(root()[0] != dot()[0]);
    assert(dot().len() != dot_dot().len());
    assert(root().len() != dot_dot().len());
}

proof fn lemma_name_is_last_part(p: Seq<u8>)
    ensures
        0 <= name_start(p) <= p.len(),
        forall|i: int| name_start(p) <= i < p.len() ==> #[trigger] p[i] != slash(),
        name_start(p) > 0 ==> p[name_start(p) - 1] == slash(),
    decreases p.len(),
{
    if p.len() > 0 && p.last() != slash() {
        let init = p.drop_last();
        lemma_name_is_last_part(init);
        assert forall|i: int| 0 <= i < init.len() implies init[i] == #[trigger] p[i] by {}
    }
}

/// A path without a dot in what was joined last gets the extension behind a dot at
/// its end.
pub proof fn law_extension_is_added(dir: Seq<u8>, rest: Seq<u8>, extension: Seq<u8>)
    requires
        rest.len() > 0,
        rest.last() != 47,
        !rest.contains(46),
        extension.len() > 0,
    ensures
        with_extension_of(join_of(dir, rest), extension) == join_of(dir, rest) + seq![46u8]
            + extension,
{
    let p = join_of(dir, rest);
    let d = if is_absolute(rest) {
        Seq::empty()
    } else {
        before_name(dir)
    };
    assert(p =~= d + rest);
    assert(p.last() == rest.last());
    assert(rest.contains(rest[rest.len() - 1]));
    assert(trim_end_of(p) == p);
    lemma_name_is_last_part(p);
    let n = name_start(p);
    if d.len() > 0 {
        assert(p[d.len() - 1] == slash());
    }
    assert(n >= d.len());
    assert(n < p.len());
    let name = p.skip(n);
    assert forall|j: int| 0 <= j < name.len() implies #[trigger] name[j] != 46 by {
        assert(name[j] == rest[n + j - d.len()]);
        assert(rest.contains(rest[n + j - d.len()]));
    }
    lemma_last_dot(name);
    assert(name[0] != 46);
    assert(stem_len(name) == name.len());
    assert(name.take(name.len() as int) =~= name);
    assert(p.take(n) + name =~= p);
    assert(with_extension_of(p, extension) =~= p + seq![46u8] + extension);
}

} // verus!
