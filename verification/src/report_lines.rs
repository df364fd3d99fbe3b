//! What stands on the lines of a printed table, and what is said beside it.

use vstd::prelude::*;

use crate::collections;
use crate::collections::PackageVersions;
use crate::order;
use crate::report;
use crate::text;
use crate::text_writing;

verus! {

/// A line of a table has three columns, with a bar in front of each and behind the last.
pub proof fn rows_have_three_columns(first: Seq<char>, second: Seq<char>, third: Seq<char>)
    ensures
        report::row_line(seq![first, second, third]) == seq!['|', ' '] + first + seq![
            ' ',
            '|',
            ' ',
        ] + second + seq![' ', '|', ' '] + third + seq![' ', '|', '\n'],
{
    reveal_strlit("| ");
    reveal_strlit(" | ");
    reveal_strlit(" |\n");
    assert("| "@ =~= seq!['|', ' ']);
    assert(" | "@ =~= seq![' ', '|', ' ']);
    assert(" |\n"@ =~= seq![' ', '|', '\n']);
}

/// A table without rows is its header and the line below it.
pub proof fn tables_begin_with_their_headers(package_label: Seq<char>)
    ensures
        report::plain_table(seq![], package_label) == report::row_line(
            seq![package_label, "old"@, "new"@],
        ) + report::row_line(seq!["---"@, "---"@, "---"@]),
{
    let none = Seq::<Seq<Seq<char>>>::empty();
    assert(report::plain_table(none, package_label) =~= report::row_line(
        seq![package_label, "old"@, "new"@],
    ) + report::row_line(seq!["---"@, "---"@, "---"@]));
}

/// One more row is one more line at the end of a table, and changes nothing before it.
pub proof fn tables_grow_by_the_line_of_a_row(
    rows: Seq<Seq<Seq<char>>>,
    row: Seq<Seq<char>>,
    package_label: Seq<char>,
)
    ensures
        report::plain_table(rows.push(row), package_label) == report::plain_table(
            rows,
            package_label,
        ) + report::row_line(row),
{
    assert(rows.push(row).drop_last() =~= rows);
    assert(report::plain_table(rows.push(row), package_label) =~= report::plain_table(
        rows,
        package_label,
    ) + report::row_line(row));
}

/// Whether a text holds no line feed.
pub open spec fn fits_on_a_line(s: Seq<char>) -> bool {
    forall|j: int| 0 <= j < s.len() ==> s[j] != '\n'
}

/// Whether each row has three cells, none of which holds a line feed.
pub open spec fn rows_fit_on_lines(rows: Seq<Seq<Seq<char>>>) -> bool {
    forall|i: int| 0 <= i < rows.len() ==> row_fits(#[trigger] rows[i])
}

/// Whether a row has three cells, none of which holds a line feed.
pub open spec fn row_fits(row: Seq<Seq<char>>) -> bool {
    row.len() == 3 && fits_on_a_line(row[0]) && fits_on_a_line(row[1]) && fits_on_a_line(row[2])
}

/// The line of a row without its end.
pub open spec fn bare_row_line(row: Seq<Seq<char>>) -> Seq<char> {
    seq!['|', ' '] + row[0] + seq![' ', '|', ' '] + row[1] + seq![' ', '|', ' '] + row[2] + seq![
        ' ',
        '|',
    ]
}

/// The line of a row is a line.
proof fn lemma_bare_row_line(row: Seq<Seq<char>>)
    requires
        row_fits(row),
    ensures
        text_writing::is_line(bare_row_line(row)),
        report::row_line(row) == bare_row_line(row) + seq!['\n'],
{
    assert(row =~= seq![row[0], row[1], row[2]]);
    rows_have_three_columns(row[0], row[1], row[2]);
    assert(report::row_line(row) =~= bare_row_line(row) + seq!['\n']);
    assert(bare_row_line(row).last() == '|');
}

/// The lines of rows.
pub open spec fn bare_row_lines(rows: Seq<Seq<Seq<char>>>) -> Seq<Seq<char>> {
    rows.map_values(|row: Seq<Seq<char>>| bare_row_line(row))
}

/// Rows one below the other are their lines.
proof fn lemma_row_lines(rows: Seq<Seq<Seq<char>>>)
    requires
        rows_fit_on_lines(rows),
    ensures
        report::row_lines(rows) == text_writing::lines_text(bare_row_lines(rows), seq!['\n']),
        text::lines_of(report::row_lines(rows)) == bare_row_lines(rows),
    decreases rows.len(),
{
    let lines = bare_row_lines(rows);
    assert forall|i: int| 0 <= i < lines.len() implies text_writing::is_line(
        #[trigger] lines[i],
    ) by {
        assert(row_fits(rows[i]));
        lemma_bare_row_line(rows[i]);
    }
    text_writing::written_lines_read_back(lines, seq!['\n']);
    if rows.len() > 0 {
        let rest = rows.drop_last();
        assert forall|i: int| 0 <= i < rest.len() implies row_fits(#[trigger] rest[i]) by {
            assert(rest[i] == rows[i]);
        }
        lemma_row_lines(rest);
        assert(row_fits(rows[rows.len() - 1]));
        lemma_bare_row_line(rows.last());
        assert(lines.drop_last() =~= bare_row_lines(rest));
        assert(report::row_lines(rows) =~= text_writing::lines_text(lines, seq!['\n']));
    }
}

/// Two lines and rows below them.
proof fn lemma_table_lines(
    first: Seq<Seq<char>>,
    second: Seq<Seq<char>>,
    rows: Seq<Seq<Seq<char>>>,
)
    requires
        row_fits(first),
        row_fits(second),
        rows_fit_on_lines(rows),
    ensures
        text::lines_of(
            report::row_line(first) + report::row_line(second) + report::row_lines(rows),
        ) == seq![bare_row_line(first), bare_row_line(second)] + bare_row_lines(rows),
{
    let all = report::row_line(first) + report::row_line(second) + report::row_lines(rows);
    lemma_bare_row_line(first);
    lemma_bare_row_line(second);
    lemma_row_lines(rows);
    let one = bare_row_line(first);
    let two = bare_row_line(second);
    let rest = two + seq!['\n'] + report::row_lines(rows);
    assert(all =~= one + seq!['\n'] + rest);
    text::lemma_line_in_front(one, rest);
    text::lemma_line_in_front(two, report::row_lines(rows));
    assert(text::lines_of(all) =~= seq![one, two] + bare_row_lines(rows));
}

/// A plain table has two lines and one for each of its rows, in their order.
pub proof fn plain_tables_have_one_line_per_row(
    rows: Seq<Seq<Seq<char>>>,
    package_label: Seq<char>,
)
    requires
        rows_fit_on_lines(rows),
        fits_on_a_line(package_label),
    ensures
        ({
            let lines = text::lines_of(report::plain_table(rows, package_label));
            &&& lines.len() == rows.len() + 2
            &&& lines[0] == bare_row_line(seq![package_label, "old"@, "new"@])
            &&& lines[1] == bare_row_line(seq!["---"@, "---"@, "---"@])
            &&& forall|i: int|
                0 <= i < rows.len() ==> #[trigger] lines[i + 2] == bare_row_line(rows[i])
        }),
{
    reveal_strlit("old");
    reveal_strlit("new");
    reveal_strlit("---");
    lemma_table_lines(
        seq![package_label, "old"@, "new"@],
        seq!["---"@, "---"@, "---"@],
        rows,
    );
    let lines = text::lines_of(report::plain_table(rows, package_label));
    assert forall|i: int| 0 <= i < rows.len() implies #[trigger] lines[i + 2] == bare_row_line(
        rows[i],
    ) by {
        assert(lines[i + 2] == bare_row_lines(rows)[i]);
    }
}

/// Whether a cell holds a text with blanks behind it, up to a width.
pub open spec fn left_aligned(cell: Seq<char>, value: Seq<char>, width: nat) -> bool {
    &&& cell.len() == width
    &&& value.len() <= width
    &&& cell.take(value.len() as int) == value
    &&& forall|j: int| value.len() <= j < width ==> cell[j] == ' '
}

/// Whether a cell holds a text with blanks in front of it, up to a width.
pub open spec fn right_aligned(cell: Seq<char>, value: Seq<char>, width: nat) -> bool {
    &&& cell.len() == width
    &&& value.len() <= width
    &&& cell.skip(width - value.len()) == value
    &&& forall|j: int| 0 <= j < width - value.len() ==> cell[j] == ' '
}

/// Whether a row of cells shows a row of texts in columns of the given widths: the first
/// on the left of its column, the others on the right.
pub open spec fn in_columns(
    shown: Seq<Seq<char>>,
    row: Seq<Seq<char>>,
    widths: Seq<nat>,
) -> bool {
    &&& shown.len() == 3
    &&& left_aligned(shown[0], row[0], widths[0])
    &&& right_aligned(shown[1], row[1], widths[1])
    &&& right_aligned(shown[2], row[2], widths[2])
}

/// Whether a line of a table shows a row of texts in columns of the given widths.
pub open spec fn shows(line: Seq<char>, row: Seq<Seq<char>>, widths: Seq<nat>) -> bool {
    exists|shown: Seq<Seq<char>>|
        in_columns(shown, row, widths) && line == #[trigger] bare_row_line(shown)
}

/// Aligning a row that fits its columns shows all of its cells.
proof fn lemma_aligned(row: Seq<Seq<char>>, widths: Seq<nat>)
    requires
        row.len() == 3,
        widths.len() == 3,
        row[0].len() <= widths[0],
        row[1].len() <= widths[1],
        row[2].len() <= widths[2],
    ensures
        in_columns(report::aligned(row, widths), row, widths),
        row_fits(row) ==> row_fits(report::aligned(row, widths)),
{
    let shown = report::aligned(row, widths);
    assert(shown[0].take(row[0].len() as int) =~= row[0]);
    assert(shown[1].skip(widths[1] - row[1].len()) =~= row[1]);
    assert(shown[2].skip(widths[2] - row[2].len()) =~= row[2]);
}

/// A column is as wide as its header and its widest cell, and no wider.
pub proof fn columns_are_as_wide_as_needed(
    rows: Seq<Seq<Seq<char>>>,
    package_label: Seq<char>,
    column: int,
)
    requires
        0 <= column < 3,
    ensures
        ({
            let header = seq![package_label, "old"@, "new"@][column];
            let width = report::column_widths(rows, package_label)[column];
            &&& header.len() <= width
            &&& forall|i: int| 0 <= i < rows.len() ==> (#[trigger] rows[i])[column].len() <= width
            &&& width == header.len() || exists|i: int|
                0 <= i < rows.len() && (#[trigger] rows[i])[column].len() == width
        }),
{
    lemma_column_width(seq![package_label, "old"@, "new"@][column], rows, column);
}

proof fn lemma_column_width(header: Seq<char>, rows: Seq<Seq<Seq<char>>>, column: int)
    ensures
        ({
            let width = report::column_width(header, rows, column);
            &&& header.len() <= width
            &&& forall|i: int| 0 <= i < rows.len() ==> (#[trigger] rows[i])[column].len() <= width
            &&& width == header.len() || exists|i: int|
                0 <= i < rows.len() && (#[trigger] rows[i])[column].len() == width
        }),
    decreases rows.len(),
{
    if rows.len() > 0 {
        let rest = rows.drop_last();
        lemma_column_width(header, rest, column);
        let before = report::column_width(header, rest, column);
        let width = report::column_width(header, rows, column);
        assert forall|i: int| 0 <= i < rows.len() implies (#[trigger] rows[i])[column].len()
            <= width by {
            if i < rest.len() {
                assert(rest[i] == rows[i]);
            }
        }
        if width == before {
            if width != header.len() {
                let i = choose|i: int|
                    0 <= i < rest.len() && (#[trigger] rest[i])[column].len() == before;
                assert(rows[i][column].len() == width);
            }
        } else {
            assert(rows[rows.len() - 1][column].len() == width);
        }
    }
}

/// The mark below a header is as wide as its column and at least one character: dashes
/// with a colon on the side to which the column is aligned.
pub proof fn marks_are_as_wide_as_their_column(width: nat, j: int)
    requires
        0 <= j < width || j == 0,
    ensures
        report::alignment_mark(width, false).len() == if width == 0 {
            1
        } else {
            width
        },
        report::alignment_mark(width, true).len() == report::alignment_mark(width, false).len(),
        report::alignment_mark(width, false)[j] == if j == 0 {
            ':'
        } else {
            '-'
        },
        report::alignment_mark(width, true)[j] == if j + 1 >= width {
            ':'
        } else {
            '-'
        },
{
}

/// An aligned table has two lines and one for each of its rows, in their order, each of
/// which shows the cells of its row in columns that are as wide as needed. The line below
/// the headers marks the first column as aligned left and the others as aligned right.
pub proof fn aligned_tables_have_one_line_per_row(
    rows: Seq<Seq<Seq<char>>>,
    package_label: Seq<char>,
)
    requires
        rows_fit_on_lines(rows),
        fits_on_a_line(package_label),
    ensures
        ({
            let lines = text::lines_of(report::pretty_table(rows, package_label));
            let widths = report::column_widths(rows, package_label);
            let header = seq![package_label, "old"@, "new"@];
            &&& lines.len() == rows.len() + 2
            &&& shows(lines[0], header, widths)
            &&& lines[1] == bare_row_line(
                seq![
                    report::alignment_mark(widths[0], false),
                    report::alignment_mark(widths[1], true),
                    report::alignment_mark(widths[2], true),
                ],
            )
            &&& forall|i: int|
                0 <= i < rows.len() ==> shows(#[trigger] lines[i + 2], rows[i], widths)
        }),
{
    let widths = report::column_widths(rows, package_label);
    let header = seq![package_label, "old"@, "new"@];
    let marks = report::alignment_marks(widths);
    let shown_rows = report::aligned_rows(rows, widths);
    let lines = text::lines_of(report::pretty_table(rows, package_label));
    assert(row_fits(header)) by {
        reveal_strlit("old");
        reveal_strlit("new");
    }
    columns_are_as_wide_as_needed(rows, package_label, 0);
    columns_are_as_wide_as_needed(rows, package_label, 1);
    columns_are_as_wide_as_needed(rows, package_label, 2);
    lemma_aligned(header, widths);
    assert forall|i: int| 0 <= i < rows.len() implies row_fits(#[trigger] shown_rows[i])
        && in_columns(shown_rows[i], rows[i], widths) by {
        assert(row_fits(rows[i]));
        lemma_aligned(rows[i], widths);
    }
    lemma_table_lines(report::aligned(header, widths), marks, shown_rows);
    assert(lines == seq![bare_row_line(report::aligned(header, widths)), bare_row_line(marks)]
        + bare_row_lines(shown_rows));
    assert(lines[0] == bare_row_line(report::aligned(header, widths)));
    assert(shows(lines[0], header, widths));
    assert(lines[1] == bare_row_line(marks));
    assert forall|i: int| 0 <= i < rows.len() implies shows(
        #[trigger] lines[i + 2],
        rows[i],
        widths,
    ) by {
        assert(lines[i + 2] == bare_row_lines(shown_rows)[i]);
        assert(in_columns(shown_rows[i], rows[i], widths));
        assert(lines[i + 2] == bare_row_line(shown_rows[i]));
    }
}

/// The line of each row stands somewhere among the lines of rows.
proof fn lemma_row_stands(rows: Seq<Seq<Seq<char>>>, i: int) -> (parts: (Seq<char>, Seq<char>))
    requires
        0 <= i < rows.len(),
    ensures
        report::row_lines(rows) == parts.0 + report::row_line(rows[i]) + parts.1,
    decreases rows.len(),
{
    let rest = rows.drop_last();
    if i == rows.len() - 1 {
        let none = Seq::<char>::empty();
        assert(report::row_lines(rows) =~= report::row_lines(rest) + report::row_line(rows[i])
            + none);
        (report::row_lines(rest), none)
    } else {
        let (front, behind) = lemma_row_stands(rest, i);
        let more = behind + report::row_line(rows.last());
        assert(report::row_lines(rows) =~= front + report::row_line(rows[i]) + more);
        (front, more)
    }
}

/// The line of each row stands in a plain table.
proof fn lemma_plain_stands(rows: Seq<Seq<Seq<char>>>, package_label: Seq<char>, i: int) -> (parts: (
    Seq<char>,
    Seq<char>,
))
    requires
        0 <= i < rows.len(),
    ensures
        report::plain_table(rows, package_label) == parts.0 + report::row_line(rows[i]) + parts.1,
{
    let (front, behind) = lemma_row_stands(rows, i);
    let head = report::row_line(report::headers(package_label)) + report::row_line(
        seq!["---"@, "---"@, "---"@],
    );
    let row = report::row_line(rows[i]);
    assert(head + (front + row + behind) =~= (head + front) + row + behind);
    (head + front, behind)
}

/// The line of each row stands in an aligned table, in the columns of the table.
proof fn lemma_aligned_stands(
    rows: Seq<Seq<Seq<char>>>,
    package_label: Seq<char>,
    i: int,
) -> (parts: (Seq<char>, Seq<char>))
    requires
        0 <= i < rows.len(),
        rows[i].len() == 3,
    ensures
        ({
            let widths = report::column_widths(rows, package_label);
            let shown = report::aligned(rows[i], widths);
            &&& report::pretty_table(rows, package_label) == parts.0 + report::row_line(shown)
                + parts.1
            &&& in_columns(shown, rows[i], widths)
        }),
{
    let widths = report::column_widths(rows, package_label);
    let shown_rows = report::aligned_rows(rows, widths);
    columns_are_as_wide_as_needed(rows, package_label, 0);
    columns_are_as_wide_as_needed(rows, package_label, 1);
    columns_are_as_wide_as_needed(rows, package_label, 2);
    assert(rows[i][0].len() <= widths[0] && rows[i][1].len() <= widths[1] && rows[i][2].len()
        <= widths[2]);
    lemma_aligned(rows[i], widths);
    let (front, behind) = lemma_row_stands(shown_rows, i);
    let row = report::row_line(shown_rows[i]);
    let head = report::row_line(report::aligned(report::headers(package_label), widths))
        + report::row_line(report::alignment_marks(widths));
    assert(head + (front + row + behind) =~= (head + front) + row + behind);
    (head + front, behind)
}

/// Every package that is shown has its line on the standard output, with its name and
/// its versions on both sides, whatever they are: in a plain table as they stand, in an
/// aligned one with blanks beside them.
pub proof fn shown_packages_are_printed(
    old: PackageVersions,
    new: PackageVersions,
    direct: Set<Seq<char>>,
    include_transitive: bool,
    package_label: Seq<char>,
    name: Seq<char>,
)
    requires
        old.dom().finite(),
        new.dom().finite(),
        report::shown(old, new, direct, include_transitive).contains(name),
    ensures
        exists|front: Seq<char>, behind: Seq<char>|
            report::printed_diff(
                old,
                new,
                direct,
                include_transitive,
                false,
                package_label,
            ).stdout == #[trigger] (front + report::row_line(report::row_of(old, new, name))
                + behind),
        exists|front: Seq<char>, shown: Seq<Seq<char>>, behind: Seq<char>, widths: Seq<nat>|
            report::printed_diff(
                old,
                new,
                direct,
                include_transitive,
                true,
                package_label,
            ).stdout == #[trigger] (front + report::row_line(shown) + behind)
                && #[trigger] in_columns(shown, report::row_of(old, new, name), widths),
{
    let visible = report::shown(old, new, direct, include_transitive);
    let names = collections::listed(visible);
    let rows = report::rows_of(old, new, visible);
    let row = report::row_of(old, new, name);
    report::each_shown_package_has_one_row(old, new, direct, include_transitive);
    assert(names.to_set().contains(name));
    let i = choose|i: int| 0 <= i < names.len() && names[i] == name;
    assert(rows[i] == row);
    let (front, behind) = lemma_plain_stands(rows, package_label, i);
    let (front2, behind2) = lemma_aligned_stands(rows, package_label, i);
    let widths = report::column_widths(rows, package_label);
    let shown = report::aligned(row, widths);
    let aligned = report::printed_diff(old, new, direct, include_transitive, true, package_label);
    assert(aligned.stdout == front2 + report::row_line(shown) + behind2);
    assert(in_columns(shown, row, widths));
}

/// The standard output has two lines and one for each shown package, or none where no
/// package is shown.
pub proof fn output_has_one_line_per_shown_package(
    old: PackageVersions,
    new: PackageVersions,
    direct: Set<Seq<char>>,
    include_transitive: bool,
    pretty: bool,
    package_label: Seq<char>,
)
    requires
        old.dom().finite(),
        new.dom().finite(),
        rows_fit_on_lines(
            report::rows_of(old, new, report::shown(old, new, direct, include_transitive)),
        ),
        fits_on_a_line(package_label),
    ensures
        ({
            let visible = report::shown(old, new, direct, include_transitive);
            let stdout = report::printed_diff(
                old,
                new,
                direct,
                include_transitive,
                pretty,
                package_label,
            ).stdout;
            text::lines_of(stdout).len() == if visible.len() == 0 {
                0
            } else {
                visible.len() + 2
            }
        }),
{
    let visible = report::shown(old, new, direct, include_transitive);
    let rows = report::rows_of(old, new, visible);
    report::each_shown_package_has_one_row(old, new, direct, include_transitive);
    plain_tables_have_one_line_per_row(rows, package_label);
    aligned_tables_have_one_line_per_row(rows, package_label);
    assert(text::lines_of(seq![]) =~= seq![]);
}

/// The order of texts is decided by the first character in which they differ, or else a
/// text stands before those that begin with it.
pub proof fn texts_differ_at_a_first_character(
    common: Seq<char>,
    a: Seq<char>,
    b: Seq<char>,
)
    ensures
        order::text_before(common + a, common + b) <==> order::text_before(a, b),
        a.len() > 0 && b.len() > 0 && a[0] != b[0] ==> (order::text_before(a, b) <==> a[0] < b[0]),
        b.len() == 0 ==> !order::text_before(a, b),
        a.len() == 0 && b.len() > 0 ==> order::text_before(a, b),
    decreases common.len(),
{
    if common.len() > 0 {
        texts_differ_at_a_first_character(common.skip(1), a, b);
        assert((common + a).skip(1) =~= common.skip(1) + a);
        assert((common + b).skip(1) =~= common.skip(1) + b);
        assert((common + a)[0] == common[0] && (common + b)[0] == common[0]);
    } else {
        assert(common + a =~= a);
        assert(common + b =~= b);
    }
}

/// The cell of a package with one version is that version.
pub proof fn single_versions_fill_the_cell(version: Seq<char>)
    ensures
        report::version_cell(Some(Set::empty().insert(version))) == report::escaped(version),
{
    let listing = seq![version];
    order::text_order_is_strict();
    order::lemma_in_order(listing, order::text_order());
    assert(listing.to_set() =~= Set::empty().insert(version)) by {
        assert(listing[0] == version);
    }
    assert(report::escaped_listing(Set::empty().insert(version)) =~= seq![
        report::escaped(version),
    ]);
}

/// A version that is later in the order of texts stands behind all others in the cell of
/// a package, with a comma between.
pub proof fn later_versions_stand_behind(versions: Set<Seq<char>>, version: Seq<char>)
    requires
        versions.finite(),
        versions.len() > 0,
        forall|other: Seq<char>|
            versions.contains(other) ==> #[trigger] order::text_before(other, version),
    ensures
        report::version_cell(Some(versions.insert(version))) == report::version_cell(
            Some(versions),
        ) + seq![',', ' '] + report::escaped(version),
{
    let before = order::text_order();
    let listing = collections::listed(versions);
    let longer = listing.push(version);
    order::text_order_is_strict();
    collections::lemma_listed(versions);
    assert forall|i: int| 0 <= i < listing.len() implies order::text_before(
        #[trigger] listing[i],
        version,
    ) by {
        assert(listing.to_set().contains(listing[i]));
    }
    assert(order::increasing(longer, before));
    order::lemma_in_order(longer, before);
    assert(longer.to_set() =~= versions.insert(version)) by {
        assert forall|v: Seq<char>| #[trigger] longer.to_set().contains(v) == versions.insert(
            version,
        ).contains(v) by {
            if versions.contains(v) {
                assert(listing.to_set().contains(v));
                let i = choose|i: int| 0 <= i < listing.len() && listing[i] == v;
                assert(longer[i] == v);
            }
            if v == version {
                assert(longer[listing.len() as int] == v);
            }
            if longer.contains(v) && v != version {
                let i = choose|i: int| 0 <= i < longer.len() && longer[i] == v;
                assert(listing[i] == v);
                assert(listing.to_set().contains(v));
            }
        }
    }
    let shorter_cells = report::escaped_listing(versions);
    let cells = report::escaped_listing(versions.insert(version));
    assert(cells =~= shorter_cells.push(report::escaped(version)));
    assert(cells.drop_last() =~= shorter_cells);
    assert(listing.len() > 0) by {
        if listing.len() == 0 {
            assert(listing.to_set() =~= Set::empty());
        }
    }
    reveal_strlit(", ");
    assert(", "@ =~= seq![',', ' ']);
}

/// A row shows the name of its package, and on each side the versions of that side only.
pub proof fn rows_show_both_sides(
    old: PackageVersions,
    new: PackageVersions,
    other: PackageVersions,
    name: Seq<char>,
)
    ensures
        report::row_of(old, new, name).len() == 3,
        report::shown_in_cell(report::row_of(old, new, name)[0]) == name,
        old.dom().contains(name) ==> report::row_of(old, new, name)[1] == report::version_cell(
            Some(old[name]),
        ),
        new.dom().contains(name) ==> report::row_of(old, new, name)[2] == report::version_cell(
            Some(new[name]),
        ),
        report::row_of(old, new, name)[1] == report::row_of(old, other, name)[1],
        report::row_of(old, new, name)[2] == report::row_of(other, new, name)[2],
{
    report::escaped_text_is_shown_unchanged(name);
}

/// A package changed exactly where it is on one side only, or has other versions on the
/// other side.
pub proof fn changes_are_differences(
    old: PackageVersions,
    new: PackageVersions,
    name: Seq<char>,
)
    ensures
        report::changed(old, new).contains(name) <==> (old.dom().contains(name)
            != new.dom().contains(name)) || (old.dom().contains(name) && new.dom().contains(name)
            && old[name] != new[name]),
{
}

/// What is said beside the table begins with the number of the changes that are not
/// shown, where there are any. Nothing is said where all changes are shown and there are
/// some.
pub proof fn hidden_changes_are_counted(
    old: PackageVersions,
    new: PackageVersions,
    direct: Set<Seq<char>>,
    include_transitive: bool,
    pretty: bool,
    package_label: Seq<char>,
)
    requires
        old.dom().finite(),
        new.dom().finite(),
    ensures
        ({
            let hidden = report::changed(old, new).difference(direct).len();
            let printed = report::printed_diff(
                old,
                new,
                direct,
                include_transitive,
                pretty,
                package_label,
            );
            &&& !include_transitive && hidden > 1 ==> printed.stderr == text::decimal(hidden)
                + " additional transitive dependency changes not shown; use --all to show them\n"@
            &&& !include_transitive && hidden == 1 ==> printed.stderr == text::decimal(1)
                + " additional transitive dependency change not shown; use --all to show it\n"@
            &&& (include_transitive || hidden == 0) && old != new ==> printed.stderr == Seq::<
                char,
            >::empty()
        }),
{
    let visible = report::shown(old, new, direct, include_transitive);
    let hidden = report::hidden(old, new, direct, include_transitive);
    let names = old.dom().union(new.dom());
    assert(report::changed(old, new) =~= names.intersect(report::changed(old, new)));
    report::each_shown_package_has_one_row(old, new, direct, include_transitive);
    report::nothing_is_hidden_with_transitive_changes(old, new, direct);
    report::only_direct_changes_are_shown_by_default(old, new, direct);
    report::every_change_is_shown_or_hidden(old, new, direct, include_transitive);
    report::no_changes_is_said_of_equal_packages_only(
        old,
        new,
        direct,
        include_transitive,
        pretty,
        package_label,
    );
}

} // verus!
