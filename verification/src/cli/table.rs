//! Tables with aligned columns.

use crate::packidx::packidxv1;
use crate::text;
use crate::text::push_repeated;
use vstd::prelude::*;
use vstd::string::StringExecFns;

verus! {

/// The texts of the items of rows.
pub open spec fn row_views(rows: Seq<Vec<String>>) -> Seq<Seq<Seq<char>>> {
    rows.map_values(|row: Vec<String>| packidxv1::text_views(row@))
}

/// The texts of the items of a header.
pub open spec fn header_view_of(header: Option<Vec<String>>) -> Option<Seq<Seq<char>>> {
    match header {
        Some(h) => Some(packidxv1::text_views(h@)),
        None => None,
    }
}

/// The length of a text in bytes.
pub open spec fn width_of(s: Seq<char>) -> nat {
    text::bytes_of(s).len()
}

/// The width of a column: the length of its longest item.
pub open spec fn column_width(rows: Seq<Seq<Seq<char>>>, column: int) -> nat
    decreases rows.len(),
{
    if rows.len() == 0 {
        0
    } else {
        let before = column_width(rows.drop_last(), column);
        let width = width_of(rows.last()[column]);
        if before < width {
            width
        } else {
            before
        }
    }
}

/// The first `n` items of a row, each with a space behind it and filled up to
/// the width of its column.
pub open spec fn row_text(row: Seq<Seq<char>>, widths: Seq<usize>, n: int) -> Seq<char>
    decreases n,
{
    if n <= 0 {
        Seq::empty()
    } else {
        row_text(row, widths, n - 1) + row[n - 1] + " "@ + text::spaces_of(
            (widths[n - 1] - width_of(row[n - 1])) as nat,
        )
    }
}

/// The rows as lines.
pub open spec fn lines_text(rows: Seq<Seq<Seq<char>>>, widths: Seq<usize>) -> Seq<char>
    decreases rows.len(),
{
    if rows.len() == 0 {
        Seq::empty()
    } else {
        lines_text(rows.drop_last(), widths) + row_text(
            rows.last(),
            widths,
            rows.last().len() as int,
        ) + "\n"@
    }
}

/// All rows have the given number of columns.
pub open spec fn is_table(rows: Seq<Seq<Seq<char>>>, columns: int) -> bool {
    forall|i: int| 0 <= i < rows.len() ==> (#[trigger] rows[i]).len() == columns
}

/// The widths are those of the columns.
pub open spec fn are_widths(widths: Seq<usize>, rows: Seq<Seq<Seq<char>>>, columns: int) -> bool {
    &&& widths.len() == columns
    &&& forall|c: int| 0 <= c < columns ==> (#[trigger] widths[c]) == column_width(rows, c)
}

/// The rows of the table, after the header, if there is one.
pub open spec fn with_header(header: Option<Seq<Seq<char>>>, rows: Seq<Seq<Seq<char>>>) -> Seq<
    Seq<Seq<char>>,
> {
    match header {
        Some(h) => seq![h] + rows,
        None => rows,
    }
}

/// The items of a header without rows, each with a space behind it.
pub open spec fn plain_text(row: Seq<Seq<char>>, n: int) -> Seq<char>
    decreases n,
{
    if n <= 0 {
        Seq::empty()
    } else {
        plain_text(row, n - 1) + row[n - 1] + " "@
    }
}

/// What is printed for a header.
pub open spec fn is_header_text(
    header: Option<Seq<Seq<char>>>,
    rows: Seq<Seq<Seq<char>>>,
    printed: Seq<char>,
) -> bool {
    match header {
        None => printed.len() == 0,
        Some(h) => if rows.len() == 0 {
            printed == plain_text(h, h.len() as int) + "\n"@
        } else {
            exists|widths: Seq<usize>| #[trigger]
                are_widths(widths, with_header(header, rows), h.len() as int) && printed
                    == row_text(h, widths, h.len() as int) + "\n"@
        },
    }
}

/// What is printed for rows.
pub open spec fn is_rows_text(
    header: Option<Seq<Seq<char>>>,
    rows: Seq<Seq<Seq<char>>>,
    printed: Seq<char>,
) -> bool {
    if rows.len() == 0 {
        printed.len() == 0
    } else {
        exists|widths: Seq<usize>| #[trigger]
            are_widths(widths, with_header(header, rows), rows[0].len() as int) && printed
                == lines_text(rows, widths)
    }
}

proof fn lemma_wide_enough(rows: Seq<Seq<Seq<char>>>, i: int, column: int)
    requires
        0 <= i < rows.len(),
    ensures
        width_of(rows[i][column]) <= column_width(rows, column),
    decreases rows.len(),
{
    if i < rows.len() - 1 {
        lemma_wide_enough(rows.drop_last(), i, column);
    }
}

/// Makes the widths of the columns at least those of the items of a row.
fn widen(widths: &mut Vec<usize>, row: &Vec<String>, Ghost(rows): Ghost<Seq<Seq<Seq<char>>>>)
    requires
        are_widths(old(widths)@, rows, row@.len() as int),
    ensures
        are_widths(
            final(widths)@,
            rows.push(packidxv1::text_views(row@)),
            row@.len() as int,
        ),
{
    let ghost views = packidxv1::text_views(row@);
    let ghost now = rows.push(views);
    assert(now.drop_last() =~= rows);
    let mut c: usize = 0;
    while c < row.len()
        invariant
            c <= row.len(),
            views == packidxv1::text_views(row@),
            now == rows.push(views),
            now.drop_last() == rows,
            widths@.len() == row@.len(),
            forall|d: int| 0 <= d < c ==> (#[trigger] widths@[d]) == column_width(now, d),
            forall|d: int|
                c <= d < widths@.len() ==> (#[trigger] widths@[d]) == column_width(rows, d),
        decreases row.len() - c,
    {
        let width = row[c].as_str().as_bytes().len();
        assert(views[c as int] == row@[c as int]@);
        assert(width == width_of(views[c as int]));
        if widths[c] < width {
            widths.set(c, width);
        }
        assert(widths@[c as int] == column_width(now, c as int));
        c += 1;
    }
}

/// Formats a row with aligned columns.
fn format_row(row: &Vec<String>, widths: &Vec<usize>) -> (r: String)
    requires
        widths@.len() == row@.len(),
        forall|c: int|
            0 <= c < row@.len() ==> width_of((#[trigger] row@[c])@) <= widths@[c],
    ensures
        r@ == row_text(packidxv1::text_views(row@), widths@, row@.len() as int) + "\n"@,
{
    let ghost views = packidxv1::text_views(row@);
    let mut r = String::new();
    let mut c: usize = 0;
    assert(r@ =~= row_text(views, widths@, 0));
    while c < row.len()
        invariant
            c <= row.len(),
            views == packidxv1::text_views(row@),
            widths@.len() == row@.len(),
            forall|c: int|
                0 <= c < row@.len() ==> width_of((#[trigger] row@[c])@) <= widths@[c],
            r@ == row_text(views, widths@, c as int),
        decreases row.len() - c,
    {
        assert(views[c as int] == row@[c as int]@);
        let pad = widths[c] - row[c].as_str().as_bytes().len();
        r.append(row[c].as_str());
        r.append(" ");
        push_repeated(&mut r, ' ', pad);
        assert(r@ =~= row_text(views, widths@, c + 1));
        c += 1;
    }
    r.append("\n");
    r
}

/// Formats the values as a table. Returns the text of the table header, which is
/// printed to stderr, and of the rows.
pub fn print_table(header: Option<Vec<String>>, rows: &[Vec<String>]) -> (r: (String, String))
    requires
        rows@.len() > 0 ==> {
            &&& is_table(row_views(rows@), rows@[0]@.len() as int)
            &&& header matches Some(h) ==> h@.len() == rows@[0]@.len()
        },
    ensures
        ({
            let h = header_view_of(header);
            &&& is_header_text(h, row_views(rows@), r.0@)
            &&& is_rows_text(h, row_views(rows@), r.1@)
        }),
{
    let ghost views = row_views(rows@);
    let ghost header_view = header_view_of(header);
    let mut header_text = String::new();
    let mut text = String::new();
    if rows.len() == 0 {
        if let Some(header) = &header {
            let ghost h = packidxv1::text_views(header@);
            let mut i: usize = 0;
            assert(header_text@ =~= plain_text(h, 0));
            while i < header.len()
                invariant
                    i <= header.len(),
                    h == packidxv1::text_views(header@),
                    header_text@ == plain_text(h, i as int),
                decreases header.len() - i,
            {
                header_text.append(header[i].as_str());
                header_text.append(" ");
                assert(h[i as int] == header@[i as int]@);
                i += 1;
            }
            header_text.append("\n");
        }
        return (header_text, text);
    }
    let columns = rows[0].len();
    let ghost all = with_header(header_view, views);
    // Measure all columns
    let mut widths: Vec<usize> = Vec::new();
    let ghost none: Seq<Seq<Seq<char>>> = Seq::empty();
    while widths.len() < columns
        invariant
            widths@.len() <= columns,
            none.len() == 0,
            forall|c: int| 0 <= c < widths@.len() ==> (#[trigger] widths@[c]) == column_width(none, c),
        decreases columns - widths.len(),
    {
        widths.push(0);
    }
    let ghost mut measured = none;
    if let Some(header) = &header {
        widen(&mut widths, header, Ghost(measured));
        proof {
            measured = measured.push(packidxv1::text_views(header@));
        }
    }
    assert(measured + views.take(0) =~= measured);
    let ghost start = measured;
    let mut i: usize = 0;
    while i < rows.len()
        invariant
            i <= rows.len(),
            views == row_views(rows@),
            is_table(views, columns as int),
            are_widths(widths@, start + views.take(i as int), columns as int),
        decreases rows.len() - i,
    {
        assert(views[i as int] == packidxv1::text_views(rows@[i as int]@));
        widen(&mut widths, &rows[i], Ghost(start + views.take(i as int)));
        assert((start + views.take(i as int)).push(views[i as int]) =~= start + views.take(i + 1));
        i += 1;
    }
    proof {
        assert(views.take(i as int) =~= views);
        assert(start + views =~= all);
        assert(are_widths(widths@, all, columns as int));
    }
    // Print header to stderr
    if let Some(header) = &header {
        proof {
            let h = packidxv1::text_views(header@);
            assert forall|c: int| 0 <= c < header@.len() implies width_of((#[trigger] header@[c])@)
                <= widths@[c] by {
                lemma_wide_enough(all, 0, c);
                assert(all[0][c] == header@[c]@);
            }
        }
        header_text = format_row(header, &widths);
        proof {
            let h = packidxv1::text_views(header@);
            assert(h.len() == header@.len());
            assert(header_view == Some(h));
            assert(are_widths(widths@, with_header(header_view, views), h.len() as int));
            assert(header_text@ == row_text(h, widths@, h.len() as int) + "\n"@);
            assert(views.len() == rows@.len());
            assert(is_header_text(header_view, views, header_text@));
        }
    }
    assert(is_header_text(header_view, views, header_text@));
    // Print rows to stdout
    let mut i: usize = 0;
    assert(views.take(0) =~= Seq::empty());
    assert(text@ =~= lines_text(views.take(0), widths@));
    while i < rows.len()
        invariant
            i <= rows.len(),
            views == row_views(rows@),
            all == with_header(header_view, views),
            is_table(views, columns as int),
            are_widths(widths@, all, columns as int),
            is_header_text(header_view, views, header_text@),
            text@ == lines_text(views.take(i as int), widths@),
        decreases rows.len() - i,
    {
        proof {
            let row = rows@[i as int];
            assert(views[i as int] == packidxv1::text_views(row@));
            let at = i + (all.len() - views.len());
            assert(all[at] == views[i as int]);
            assert forall|c: int| 0 <= c < row@.len() implies width_of((#[trigger] row@[c])@)
                <= widths@[c] by {
                lemma_wide_enough(all, at, c);
                assert(all[at][c] == row@[c]@);
            }
            assert(views.take(i + 1).drop_last() =~= views.take(i as int));
        }
        let ghost before = text@;
        let line = format_row(&rows[i], &widths);
        text.append(line.as_str());
        assert(text@ =~= lines_text(views.take(i + 1), widths@));
        i += 1;
    }
    proof {
        assert(views.take(i as int) =~= views);
        assert(are_widths(widths@, with_header(header_view, views), views[0].len() as int));
    }
    (header_text, text)
}

/// A column is as wide as its widest cell.
pub proof fn law_column_fits_widest_cell(rows: Seq<Seq<Seq<char>>>, column: int) -> (i: int)
    requires
        rows.len() > 0,
    ensures
        0 <= i < rows.len(),
        column_width(rows, column) == text::bytes_of(rows[i][column]).len(),
        forall|j: int|
            0 <= j < rows.len() ==> text::bytes_of((#[trigger] rows[j])[column]).len()
                <= column_width(rows, column),
    decreases rows.len(),
{
    let init = rows.drop_last();
    assert forall|j: int| 0 <= j < rows.len() implies text::bytes_of(
        (#[trigger] rows[j])[column],
    ).len() <= column_width(rows, column) by {
        lemma_wide_enough(rows, j, column);
    }
    if init.len() > 0 {
        let i = law_column_fits_widest_cell(init, column);
        assert(init[i] == rows[i]);
        if column_width(init, column) < width_of(rows.last()[column]) {
            rows.len() - 1
        } else {
            i
        }
    } else {
        assert(column_width(init, column) == 0);
        0
    }
}

/// A row shows each of its cells in turn, followed by at least one space and by
/// nothing but spaces up to the next column.
pub proof fn law_row_shows_every_cell(row: Seq<Seq<char>>, widths: Seq<usize>, n: int, c: int)
    requires
        0 <= c < n <= row.len(),
        forall|i: int| 0 <= i < n ==> text::bytes_of(#[trigger] row[i]).len() <= widths[i],
    ensures
        row_text(row, widths, 0).len() == 0,
        row_text(row, widths, c + 1).is_prefix_of(row_text(row, widths, n)),
        (row_text(row, widths, c) + row[c] + seq![' ']).is_prefix_of(row_text(row, widths, c + 1)),
        forall|j: int|
            row_text(row, widths, c).len() + row[c].len() <= j < row_text(row, widths, c + 1).len()
                ==> #[trigger] row_text(row, widths, c + 1)[j] == ' ',
        row_text(row, widths, c + 1).len() == row_text(row, widths, c).len() + row[c].len() + 1
            + widths[c] - text::bytes_of(row[c]).len(),
    decreases n,
{
    reveal_strlit(" ");
    let before = row_text(row, widths, c);
    let now = row_text(row, widths, c + 1);
    assert(" "@ =~= seq![' ']);
    let start = before + row[c] + seq![' '];
    let rest = text::spaces_of((widths[c] - width_of(row[c])) as nat);
    assert(text::bytes_of(row[c]).len() <= widths[c]);
    assert(now == start + rest);
    assert(start =~= now.subrange(0, start.len() as int));
    if c + 1 < n {
        law_row_shows_every_cell(row, widths, n - 1, c);
        let all = row_text(row, widths, n);
        let most = row_text(row, widths, n - 1);
        assert(now =~= all.subrange(0, now.len() as int)) by {
            assert(now == most.subrange(0, now.len() as int));
        }
    } else {
        assert(now =~= now.subrange(0, now.len() as int));
    }
}

/// The lines of a table show its rows one after the other, each on a line of its
/// own.
pub proof fn law_every_row_has_its_line(rows: Seq<Seq<Seq<char>>>, widths: Seq<usize>, i: int)
    requires
        0 <= i < rows.len(),
    ensures
        lines_text(rows.take(0), widths).len() == 0,
        (lines_text(rows.take(i), widths) + row_text(rows[i], widths, rows[i].len() as int)
            + seq!['\n']).is_prefix_of(lines_text(rows, widths)),
        i == rows.len() - 1 ==> lines_text(rows, widths) == lines_text(rows.take(i), widths)
            + row_text(rows[i], widths, rows[i].len() as int) + seq!['\n'],
    decreases rows.len(),
{
    reveal_strlit("\n");
    assert("\n"@ =~= seq!['\n']);
    let n = rows.len() - 1;
    let all = lines_text(rows, widths);
    let start = lines_text(rows.take(i), widths) + row_text(rows[i], widths, rows[i].len() as int)
        + seq!['\n'];
    assert(rows.take(0) =~= Seq::empty());
    assert(rows.drop_last() =~= rows.take(n));
    if i < n {
        law_every_row_has_its_line(rows.drop_last(), widths, i);
        assert(rows.drop_last().take(i) =~= rows.take(i));
        let most = lines_text(rows.drop_last(), widths);
        assert(start == most.subrange(0, start.len() as int));
        assert(start =~= all.subrange(0, start.len() as int));
    } else {
        assert(all == start);
        assert(start =~= all.subrange(0, start.len() as int));
    }
}

/// Without rows, a header shows each of its cells in turn, followed by a space.
pub proof fn law_plain_header_shows_every_cell(row: Seq<Seq<char>>, n: int, c: int)
    requires
        0 <= c < n <= row.len(),
    ensures
        plain_text(row, 0).len() == 0,
        (plain_text(row, c) + row[c] + seq![' ']).is_prefix_of(plain_text(row, n)),
        c == n - 1 ==> plain_text(row, n) == plain_text(row, c) + row[c] + seq![' '],
    decreases n,
{
    reveal_strlit(" ");
    assert(" "@ =~= seq![' ']);
    let start = plain_text(row, c) + row[c] + seq![' '];
    let all = plain_text(row, n);
    if c < n - 1 {
        law_plain_header_shows_every_cell(row, n - 1, c);
        let most = plain_text(row, n - 1);
        assert(start == most.subrange(0, start.len() as int));
        assert(start =~= all.subrange(0, start.len() as int));
    } else {
        assert(all == start);
        assert(start =~= all.subrange(0, start.len() as int));
    }
}

/// Nothing but the header and the rows decides how wide the columns are: the
/// header counts like a row.
pub proof fn law_header_counts_for_widths(
    header: Option<Seq<Seq<char>>>,
    rows: Seq<Seq<Seq<char>>>,
    columns: int,
    widths: Seq<usize>,
    c: int,
)
    requires
        are_widths(widths, with_header(header, rows), columns),
        rows.len() > 0,
        0 <= c < columns,
    ensures
        header matches Some(h) ==> text::bytes_of(h[c]).len() <= widths[c],
        forall|j: int|
            0 <= j < rows.len() ==> text::bytes_of((#[trigger] rows[j])[c]).len() <= widths[c],
        (header matches Some(h) && text::bytes_of(h[c]).len() == widths[c]) || exists|j: int|
            0 <= j < rows.len() && text::bytes_of((#[trigger] rows[j])[c]).len() == widths[c],
{
    let all = with_header(header, rows);
    let i = law_column_fits_widest_cell(all, c);
    match header {
        Some(h) => {
            assert(all[0] == h);
            assert forall|j: int| 0 <= j < rows.len() implies text::bytes_of(
                (#[trigger] rows[j])[c],
            ).len() <= widths[c] by {
                assert(all[j + 1] == rows[j]);
            }
            if i > 0 {
                assert(all[i] == rows[i - 1]);
            }
        },
        None => {
            assert(all[i] == rows[i]);
        },
    }
}

} // verus!
