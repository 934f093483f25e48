//! Splitting of byte strings and texts into pieces.

use crate::bytes::ByteString;
use crate::text::to_chars;
use crate::select;
use vstd::prelude::*;
use vstd::slice::{slice_subrange, slice_to_vec};

verus! {

/// The pieces between separators. There is one more piece than separators.
pub open spec fn pieces_of(s: Seq<u8>, separator: u8) -> Seq<Seq<u8>>
    decreases s.len(),
{
    if s.len() == 0 {
        seq![Seq::empty()]
    } else {
        let before = pieces_of(s.drop_last(), separator);
        if s.last() == separator {
            before.push(Seq::empty())
        } else {
            before.drop_last().push(before.last().push(s.last()))
        }
    }
}

/// There is always a piece.
pub proof fn lemma_pieces(s: Seq<u8>, separator: u8)
    ensures
        pieces_of(s, separator).len() > 0,
    decreases s.len(),
{
    if s.len() > 0 {
        lemma_pieces(s.drop_last(), separator);
    }
}

/// The views of a list of byte strings.
pub open spec fn byte_views(list: Seq<Vec<u8>>) -> Seq<Seq<u8>> {
    list.map_values(|b: Vec<u8>| b@)
}

/// Splits a byte string at each separator.
pub fn split_bytes(s: &[u8], separator: u8) -> (r: Vec<Vec<u8>>)
    ensures
        byte_views(r@) == pieces_of(s@, separator),
{
    let mut r: Vec<Vec<u8>> = Vec::new();
    let mut piece: Vec<u8> = Vec::new();
    let mut i: usize = 0;
    assert(s@.take(0) =~= Seq::empty());
    assert(byte_views(r@).push(piece@) =~= pieces_of(s@.take(0), separator));
    while i < s.len()
        invariant
            i <= s.len(),
            byte_views(r@).push(piece@) == pieces_of(s@.take(i as int), separator),
        decreases s.len() - i,
    {
        let ghost before = byte_views(r@).push(piece@);
        let ghost listed = byte_views(r@);
        let ghost last = piece@;
        assert(s@.take(i + 1).drop_last() =~= s@.take(i as int));
        if s[i] == separator {
            r.push(piece);
            piece = Vec::new();
            assert(byte_views(r@) =~= before);
            assert(byte_views(r@).push(piece@) =~= pieces_of(s@.take(i + 1), separator));
        } else {
            piece.push(s[i]);
            assert(before.drop_last() =~= listed);
            assert(byte_views(r@).push(piece@) =~= pieces_of(s@.take(i + 1), separator));
        }
        i += 1;
    }
    assert(s@.take(i as int) =~= s@);
    let ghost listed = byte_views(r@);
    let ghost last = piece@;
    r.push(piece);
    assert(byte_views(r@) =~= listed.push(last));
    r
}

/// The pieces that are not empty.
pub open spec fn without_empty(pieces: Seq<Seq<u8>>) -> Seq<Seq<u8>>
    decreases pieces.len(),
{
    if pieces.len() == 0 {
        Seq::empty()
    } else {
        let before = without_empty(pieces.drop_last());
        if pieces.last().len() == 0 {
            before
        } else {
            before.push(pieces.last())
        }
    }
}

/// Splits a list at each separator, and leaves out what is empty.
pub fn split_list(s: &[u8], separator: u8) -> (r: Vec<Vec<u8>>)
    ensures
        byte_views(r@) == without_empty(pieces_of(s@, separator)),
{
    let pieces = split_bytes(s, separator);
    let ghost views = byte_views(pieces@);
    let mut r: Vec<Vec<u8>> = Vec::new();
    let mut i: usize = 0;
    assert(views.take(0) =~= Seq::empty());
    assert(byte_views(r@) =~= Seq::empty());
    while i < pieces.len()
        invariant
            i <= pieces.len(),
            views == byte_views(pieces@),
            byte_views(r@) == without_empty(views.take(i as int)),
        decreases pieces.len() - i,
    {
        let ghost before = byte_views(r@);
        assert(views.take(i + 1).drop_last() =~= views.take(i as int));
        assert(views[i as int] == pieces@[i as int]@);
        if pieces[i].len() > 0 {
            let piece = pieces[i].duplicate();
            r.push(piece);
            assert(byte_views(r@) =~= before.push(piece@));
        }
        i += 1;
    }
    assert(views.take(i as int) =~= views);
    r
}

/// The line without a carriage return at its end.
pub open spec fn without_cr(line: Seq<u8>) -> Seq<u8> {
    if line.len() > 0 && line.last() == 13 {
        line.drop_last()
    } else {
        line
    }
}

/// The position of the first line feed from `from` on, or the end.
pub open spec fn line_end(data: Seq<u8>, from: int) -> int
    decreases data.len() - from,
{
    if from >= data.len() || data[from] == 10 {
        from
    } else {
        line_end(data, from + 1)
    }
}

proof fn lemma_line_end(data: Seq<u8>, from: int)
    requires
        0 <= from <= data.len(),
    ensures
        from <= line_end(data, from) <= data.len(),
    decreases data.len() - from,
{
    if from < data.len() && data[from] != 10 {
        lemma_line_end(data, from + 1);
    }
}

/// The lines of a file from position `from` on: what is between line feeds.
/// A carriage return before a line feed is not part of the line, and after the
/// last line feed there is a line only if anything follows.
pub open spec fn lines_from(data: Seq<u8>, from: int) -> Seq<Seq<u8>>
    decreases data.len() - from,
    when 0 <= from <= data.len()
    via lines_from_decreases
{
    if from >= data.len() {
        Seq::empty()
    } else {
        let end = line_end(data, from);
        if end < data.len() {
            seq![without_cr(data.subrange(from, end))] + lines_from(data, end + 1)
        } else {
            seq![data.subrange(from, end)]
        }
    }
}

#[via_fn]
proof fn lines_from_decreases(data: Seq<u8>, from: int) {
    lemma_line_end(data, from);
}

/// The lines of a file.
pub open spec fn lines_of(data: Seq<u8>) -> Seq<Seq<u8>> {
    lines_from(data, 0)
}

/// There are at most as many lines as bytes.
pub proof fn lemma_line_count(data: Seq<u8>, from: int)
    requires
        0 <= from <= data.len(),
    ensures
        lines_from(data, from).len() <= data.len() - from,
    decreases data.len() - from,
{
    if from < data.len() {
        lemma_line_end(data, from);
        let end = line_end(data, from);
        if end < data.len() {
            lemma_line_count(data, end + 1);
        }
    }
}

/// Splits a file into lines.
pub fn split_lines(data: &[u8]) -> (r: Vec<Vec<u8>>)
    ensures
        byte_views(r@) == lines_of(data@),
{
    let mut r: Vec<Vec<u8>> = Vec::new();
    let mut from: usize = 0;
    assert(byte_views(r@) + lines_from(data@, 0) =~= lines_of(data@));
    while from < data.len()
        invariant
            from <= data.len(),
            byte_views(r@) + lines_from(data@, from as int) == lines_of(data@),
        decreases data.len() - from,
    {
        let mut end: usize = from;
        while end < data.len() && data[end] != 10
            invariant
                from <= end <= data.len(),
                line_end(data@, end as int) == line_end(data@, from as int),
            decreases data.len() - end,
        {
            end += 1;
        }
        let ghost before = byte_views(r@);
        if end < data.len() {
            let stop: usize = if end > from && data[end - 1] == 13 {
                end - 1
            } else {
                end
            };
            let line = slice_to_vec(slice_subrange(data, from, stop));
            proof {
                assert(line@ =~= without_cr(data@.subrange(from as int, end as int)));
            }
            r.push(line);
            proof {
                let rest = lines_from(data@, end + 1);
                assert(byte_views(r@) =~= before.push(line@));
                assert(before + (seq![line@] + rest) =~= before.push(line@) + rest);
            }
            from = end + 1;
        } else {
            let line = slice_to_vec(slice_subrange(data, from, end));
            r.push(line);
            proof {
                assert(byte_views(r@) =~= before.push(line@));
                assert(before + seq![line@] =~= before.push(line@));
                assert(lines_from(data@, end as int) =~= Seq::empty());
                assert(byte_views(r@) + Seq::<Seq<u8>>::empty() =~= byte_views(r@));
            }
            from = end;
        }
    }
    assert(byte_views(r@) + Seq::<Seq<u8>>::empty() =~= byte_views(r@));
    r
}

/// The characters between which the fields of a line stand.
pub open spec fn is_field_separator(c: char) -> bool {
    c == ' ' || c == '\t'
}

/// The fields of a line: what is between separators, without what is empty.
/// The last field is still open if the line does not end in a separator.
pub open spec fn fields_of(s: Seq<char>) -> Seq<Seq<char>>
    decreases s.len(),
{
    if s.len() == 0 {
        Seq::empty()
    } else {
        let before = fields_of(s.drop_last());
        if is_field_separator(s.last()) {
            before
        } else if s.len() >= 2 && !is_field_separator(s[s.len() - 2]) {
            before.drop_last().push(before.last().push(s.last()))
        } else {
            before.push(seq![s.last()])
        }
    }
}

/// The views of a list of texts.
pub open spec fn char_views(list: Seq<Vec<char>>) -> Seq<Seq<char>> {
    list.map_values(|t: Vec<char>| t@)
}

/// Splits a line into fields.
pub fn split_fields(s: &str) -> (r: Vec<Vec<char>>)
    ensures
        char_views(r@) == fields_of(s@),
{
    let line = to_chars(s);
    let mut r: Vec<Vec<char>> = Vec::new();
    let mut field: Vec<char> = Vec::new();
    let mut i: usize = 0;
    assert(line@.take(0) =~= Seq::empty());
    assert(char_views(r@) =~= Seq::empty());
    while i < line.len()
        invariant
            i <= line.len(),
            field@.len() > 0 <==> i > 0 && !is_field_separator(line@[i - 1]),
            fields_of(line@.take(i as int)) == (if field@.len() > 0 {
                char_views(r@).push(field@)
            } else {
                char_views(r@)
            }),
        decreases line.len() - i,
    {
        let ghost now = line@.take(i + 1);
        let ghost listed = char_views(r@);
        assert(now.drop_last() =~= line@.take(i as int));
        assert(now.last() == line@[i as int]);
        if i > 0 {
            assert(now[now.len() - 2] == line@[i - 1]);
        }
        if line[i] == ' ' || line[i] == '\t' {
            if field.len() > 0 {
                let ghost last = field@;
                r.push(field);
                field = Vec::new();
                assert(char_views(r@) =~= listed.push(last));
            }
        } else {
            let ghost last = field@;
            field.push(line[i]);
            assert(last.len() > 0 ==> listed.push(last).drop_last() =~= listed);
            assert(last.len() == 0 ==> field@ =~= seq![line@[i as int]]);
        }
        i += 1;
    }
    assert(line@.take(i as int) =~= line@);
    if field.len() > 0 {
        let ghost listed = char_views(r@);
        let ghost last = field@;
        r.push(field);
        assert(char_views(r@) =~= listed.push(last));
    }
    r
}

/// Byte strings with a separator between any two that follow one another.
pub open spec fn with_separators(pieces: Seq<Seq<u8>>, separator: u8) -> Seq<u8>
    decreases pieces.len(),
{
    if pieces.len() == 0 {
        Seq::empty()
    } else if pieces.len() == 1 {
        pieces[0]
    } else {
        with_separators(pieces.drop_last(), separator).push(separator) + pieces.last()
    }
}

/// The pieces of a byte string hold no separator, and give the string back with
/// separators between them.
pub proof fn law_pieces_make_up_the_string(s: Seq<u8>, separator: u8)
    ensures
        pieces_of(s, separator).len() > 0,
        forall|i: int|
            0 <= i < pieces_of(s, separator).len() ==> !(#[trigger] pieces_of(
                s,
                separator,
            )[i]).contains(separator),
        with_separators(pieces_of(s, separator), separator) == s,
    decreases s.len(),
{
    let now = pieces_of(s, separator);
    if s.len() > 0 {
        let before = pieces_of(s.drop_last(), separator);
        law_pieces_make_up_the_string(s.drop_last(), separator);
        assert(s =~= s.drop_last().push(s.last()));
        if s.last() == separator {
            assert(now.drop_last() =~= before);
            assert(with_separators(now, separator) =~= s);
        } else {
            let last = before.last().push(s.last());
            assert(now.drop_last() =~= before.drop_last());
            assert(!before.last().contains(separator));
            assert(!last.contains(separator)) by {
                if last.contains(separator) {
                    let i = last.index_of(separator);
                    assert(before.last()[i] == separator);
                }
            }
            assert(with_separators(now, separator) =~= with_separators(before, separator).push(
                s.last(),
            ));
        }
    } else {
        assert(now[0].len() == 0);
    }
}

/// Only empty byte strings are left out.
pub proof fn law_only_empty_pieces_are_left_out(pieces: Seq<Seq<u8>>) -> (at: Seq<int>)
    ensures
        select::is_selected(
            without_empty(pieces),
            pieces,
            pieces.len() as int,
            |p: Seq<u8>| p.len() > 0,
            |p: Seq<u8>| p,
            at,
        ),
    decreases pieces.len(),
{
    let wanted = |p: Seq<u8>| p.len() > 0;
    let value = |p: Seq<u8>| p;
    if pieces.len() == 0 {
        select::lemma_none_selected(pieces, wanted, value);
        Seq::empty()
    } else {
        let init = pieces.drop_last();
        let n = init.len() as int;
        let at = law_only_empty_pieces_are_left_out(init);
        let before = without_empty(init);
        assert(select::is_selected(before, pieces, n, wanted, value, at)) by {
            assert forall|i: int| 0 <= i < n && wanted(#[trigger] pieces[i]) implies at.contains(
                i,
            ) by {
                assert(init[i] == pieces[i]);
            }
        }
        if wanted(pieces[n]) {
            select::lemma_select_next(before, pieces, n, wanted, value, at);
            at.push(n)
        } else {
            select::lemma_pass_over(before, pieces, n, wanted, value, at);
            at
        }
    }
}

/// Where the line at position `k` starts, given where the lines end.
pub open spec fn line_start(from: int, ends: Seq<int>, k: int) -> int {
    if k == 0 {
        from
    } else {
        ends[k - 1] + 1
    }
}

/// A line from `start` holds what stands before its line feed, which is the first
/// one there, without a carriage return right before that.
pub open spec fn is_line(line: Seq<u8>, data: Seq<u8>, start: int, end: int) -> bool {
    &&& 0 <= start <= end <= data.len()
    &&& start < data.len()
    &&& forall|j: int| start <= j < end ==> data[j] != 10
    &&& if end < data.len() {
        &&& data[end] == 10
        &&& line == (if end > start && data[end - 1] == 13 {
            data.subrange(start, end - 1)
        } else {
            data.subrange(start, end)
        })
    } else {
        line == data.subrange(start, end)
    }
}

/// The lines follow one another without a gap up to the end of the data. The
/// last line may lack a line feed.
pub open spec fn are_line_ends(
    lines: Seq<Seq<u8>>,
    data: Seq<u8>,
    from: int,
    ends: Seq<int>,
) -> bool {
    &&& ends.len() == lines.len()
    &&& lines.len() == 0 ==> from == data.len()
    &&& lines.len() > 0 ==> ends.last() >= data.len() - 1
    &&& forall|k: int|
        0 <= k < ends.len() ==> is_line(lines[k], data, line_start(from, ends, k), #[trigger] ends[k])
}

proof fn lemma_line_feed_ends_line(data: Seq<u8>, from: int)
    requires
        0 <= from <= data.len(),
    ensures
        from <= line_end(data, from) <= data.len(),
        forall|j: int| from <= j < line_end(data, from) ==> data[j] != 10,
        line_end(data, from) < data.len() ==> data[line_end(data, from)] == 10,
    decreases data.len() - from,
{
    if from < data.len() && data[from] != 10 {
        lemma_line_feed_ends_line(data, from + 1);
    }
}

/// The lines make up the data.
pub proof fn law_lines_make_up_the_data(data: Seq<u8>) -> (ends: Seq<int>)
    ensures
        are_line_ends(lines_of(data), data, 0, ends),
{
    lemma_lines_from(data, 0)
}

proof fn lemma_line_before(
    line: Seq<u8>,
    tail: Seq<Seq<u8>>,
    data: Seq<u8>,
    from: int,
    end: int,
    rest: Seq<int>,
)
    requires
        is_line(line, data, from, end),
        end < data.len(),
        are_line_ends(tail, data, end + 1, rest),
    ensures
        are_line_ends(seq![line] + tail, data, from, seq![end] + rest),
{
    let lines = seq![line] + tail;
    let ends = seq![end] + rest;
    assert(rest.len() > 0 ==> ends.last() == rest.last());
    assert forall|k: int| 0 <= k < ends.len() implies is_line(
        lines[k],
        data,
        line_start(from, ends, k),
        #[trigger] ends[k],
    ) by {
        if k > 0 {
            assert(ends[k] == rest[k - 1]);
            assert(lines[k] == tail[k - 1]);
            assert(line_start(from, ends, k) == line_start(end + 1, rest, k - 1));
        }
    }
}

proof fn lemma_first_line(data: Seq<u8>, from: int)
    requires
        0 <= from < data.len(),
    ensures
        ({
            let end = line_end(data, from);
            let line = data.subrange(from, end);
            is_line(
                if end < data.len() {
                    without_cr(line)
                } else {
                    line
                },
                data,
                from,
                end,
            )
        }),
{
    lemma_line_feed_ends_line(data, from);
    let end = line_end(data, from);
    let line = data.subrange(from, end);
    if line.len() > 0 {
        assert(line.last() == data[end - 1]);
        assert(line.drop_last() =~= data.subrange(from, end - 1));
    }
}

proof fn lemma_lines_from(data: Seq<u8>, from: int) -> (ends: Seq<int>)
    requires
        0 <= from <= data.len(),
    ensures
        are_line_ends(lines_from(data, from), data, from, ends),
    decreases data.len() - from,
{
    if from >= data.len() {
        Seq::empty()
    } else {
        let end = line_end(data, from);
        lemma_line_feed_ends_line(data, from);
        lemma_first_line(data, from);
        let line = data.subrange(from, end);
        if end < data.len() {
            let tail = lines_from(data, end + 1);
            let rest = lemma_lines_from(data, end + 1);
            lemma_line_before(without_cr(line), tail, data, from, end, rest);
            seq![end] + rest
        } else {
            let lines = seq![line];
            assert(lines_from(data, from) == lines);
            seq![end]
        }
    }
}

/// The ranges are where the fields stand: one after the other, each with a
/// separator between it and the next. They hold all characters but the
/// separators.
pub open spec fn are_fields_at(
    fields: Seq<Seq<char>>,
    s: Seq<char>,
    at: Seq<(int, int)>,
) -> bool {
    &&& at.len() == fields.len()
    &&& forall|k: int|
        0 <= k < at.len() ==> 0 <= (#[trigger] at[k]).0 < at[k].1 <= s.len() && fields[k]
            == s.subrange(at[k].0, at[k].1) && forall|j: int|
            at[k].0 <= j < at[k].1 ==> s[j] != ' ' && s[j] != '\t'
    &&& forall|k: int, l: int| 0 <= k < l < at.len() ==> (#[trigger] at[k]).1 < (#[trigger] at[l]).0
    &&& forall|j: int|
        0 <= j < s.len() && #[trigger] s[j] != ' ' && s[j] != '\t' ==> exists|k: int|
            0 <= k < at.len() && (#[trigger] at[k]).0 <= j < at[k].1
}

/// The fields of a line are the longest runs of characters between spaces and
/// tabs, in order.
pub proof fn law_fields_are_between_separators(s: Seq<char>) -> (at: Seq<(int, int)>)
    ensures
        are_fields_at(fields_of(s), s, at),
    decreases s.len(),
{
    if s.len() == 0 {
        Seq::empty()
    } else {
        let init = s.drop_last();
        let n = init.len() as int;
        let before = law_fields_are_between_separators(init);
        let old_fields = fields_of(init);
        let now = fields_of(s);
        assert(s =~= init.push(s.last()));
        assert forall|k: int| 0 <= k < before.len() implies init.subrange(
            (#[trigger] before[k]).0,
            before[k].1,
        ) == s.subrange(before[k].0, before[k].1) by {
            assert(init.subrange(before[k].0, before[k].1) =~= s.subrange(
                before[k].0,
                before[k].1,
            ));
        }
        assert forall|j: int| 0 <= j < n && #[trigger] s[j] != ' ' && s[j] != '\t' implies exists|
            k: int,
        | 0 <= k < before.len() && (#[trigger] before[k]).0 <= j < before[k].1 by {
            assert(init[j] == s[j]);
        }
        if is_field_separator(s.last()) {
            before
        } else if s.len() >= 2 && !is_field_separator(s[s.len() - 2]) {
            let m = before.len() - 1;
            assert(s[n - 1] != ' ' && s[n - 1] != '\t');
            let k = choose|k: int|
                0 <= k < before.len() && (#[trigger] before[k]).0 <= n - 1 < before[k].1;
            assert(k == m) by {
                if k < m {
                    assert(before[k].1 < before[m].0);
                }
            }
            assert(before[m].1 == n);
            let at = before.drop_last().push((before[m].0, n + 1));
            assert(s.subrange(before[m].0, n + 1) =~= init.subrange(before[m].0, n).push(s.last()));
            assert(now[m] == s.subrange(at[m].0, at[m].1));
            assert forall|j: int| 0 <= j < s.len() && #[trigger] s[j] != ' ' && s[j]
                != '\t' implies exists|k: int|
                0 <= k < at.len() && (#[trigger] at[k]).0 <= j < at[k].1 by {
                if j < n {
                    let k = choose|k: int|
                        0 <= k < before.len() && (#[trigger] before[k]).0 <= j < before[k].1;
                    assert(at[k].0 <= j < at[k].1);
                } else {
                    assert(at[m].0 <= j < at[m].1);
                }
            }
            at
        } else {
            let m = before.len() as int;
            let at = before.push((n, n + 1));
            assert(s.subrange(n, n + 1) =~= seq![s.last()]);
            if m > 0 {
                assert(before[m - 1].1 <= n);
                if before[m - 1].1 == n {
                    assert(s[n - 1] != ' ' && s[n - 1] != '\t');
                }
            }
            assert forall|k: int, l: int| 0 <= k < l < at.len() implies (#[trigger] at[k]).1 < (
            #[trigger] at[l]).0 by {
                if l == m && k < m - 1 {
                    assert(before[k].1 < before[m - 1].0);
                }
            }
            assert forall|j: int| 0 <= j < s.len() && #[trigger] s[j] != ' ' && s[j]
                != '\t' implies exists|k: int|
                0 <= k < at.len() && (#[trigger] at[k]).0 <= j < at[k].1 by {
                if j < n {
                    let k = choose|k: int|
                        0 <= k < before.len() && (#[trigger] before[k]).0 <= j < before[k].1;
                    assert(at[k].0 <= j < at[k].1);
                } else {
                    assert(at[m].0 <= j < at[m].1);
                }
            }
            at
        }
    }
}

} // verus!
