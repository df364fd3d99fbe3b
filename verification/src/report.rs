//! Comparing packages and showing the changes as a Markdown table.

use vstd::prelude::*;
use vstd::string::*;

use crate::collections;
use crate::collections::{Packages, PackageVersions, TextSet};
use crate::order;
use crate::text;
use crate::text::{characters, concat2, format_decimal, join};

verus! {

/// A character as it stands in a table cell.
pub open spec fn cell_char(c: char) -> Seq<char> {
    if c == '\\' || c == '|' {
        seq!['\\', c]
    } else {
        seq![c]
    }
}

/// A text as it stands in a table cell: backslashes and bars are escaped.
pub open spec fn escaped(value: Seq<char>) -> Seq<char>
    decreases value.len(),
{
    if value.len() == 0 {
        seq![]
    } else {
        escaped(value.drop_last()) + cell_char(value.last())
    }
}

/// A text as it stands in a table cell.
pub fn escape_markdown(value: &str) -> (cell: String)
    ensures
        cell@ == escaped(value@),
{
    let chars = characters(value);
    let mut cell = String::new();
    assert(value@.take(0) =~= seq![]);
    for i in 0..chars.len()
        invariant
            chars@ == value@,
            cell@ == escaped(value@.take(i as int)),
    {
        let c: char = chars[i];
        let ghost before = cell@;
        proof {
            assert(value@.take(i + 1).drop_last() =~= value@.take(i as int));
        }
        if c == '\\' || c == '|' {
            cell.push('\\');
        }
        cell.push(c);
        assert(cell@ =~= before + cell_char(c));
    }
    assert(value@.take(chars.len() as int) =~= value@);
    cell
}

/// What separates the columns of a row that `cell` is part of: the bars that no
/// backslash escapes. `escape` tells whether a backslash stands before the text.
pub open spec fn column_bars(cell: Seq<char>, escape: bool) -> nat
    decreases cell.len(),
{
    if cell.len() == 0 {
        0
    } else if escape {
        column_bars(cell.skip(1), false)
    } else if cell[0] == '|' {
        1 + column_bars(cell.skip(1), false)
    } else {
        column_bars(cell.skip(1), cell[0] == '\\')
    }
}

/// The text that a cell shows.
pub open spec fn shown_in_cell(cell: Seq<char>) -> Seq<char>
    decreases cell.len(),
{
    if cell.len() == 0 {
        seq![]
    } else if cell[0] == '\\' && cell.len() > 1 {
        seq![cell[1]] + shown_in_cell(cell.skip(2))
    } else {
        seq![cell[0]] + shown_in_cell(cell.skip(1))
    }
}

/// Escaping goes through a text from the front as well.
proof fn lemma_escaped_front(value: Seq<char>)
    requires
        value.len() > 0,
    ensures
        escaped(value) == cell_char(value[0]) + escaped(value.skip(1)),
    decreases value.len(),
{
    if value.len() == 1 {
        assert(value.drop_last() =~= seq![]);
        assert(value.skip(1) =~= seq![]);
        assert(escaped(value) =~= cell_char(value[0]) + escaped(value.skip(1)));
    } else {
        lemma_escaped_front(value.drop_last());
        assert(value.skip(1).drop_last() =~= value.drop_last().skip(1));
        assert(escaped(value) =~= cell_char(value[0]) + escaped(value.skip(1)));
    }
}

/// An escaped text stays within its cell: none of its bars separates columns.
pub proof fn escaped_text_stays_in_its_cell(value: Seq<char>)
    ensures
        column_bars(escaped(value), false) == 0,
    decreases value.len(),
{
    if value.len() > 0 {
        lemma_escaped_front(value);
        let cell = escaped(value);
        let rest = escaped(value.skip(1));
        escaped_text_stays_in_its_cell(value.skip(1));
        if value[0] == '\\' || value[0] == '|' {
            assert(cell.skip(1).skip(1) =~= rest);
            assert(column_bars(cell, false) == column_bars(cell.skip(1), true));
        } else {
            assert(cell.skip(1) =~= rest);
        }
    }
}

/// A cell shows the text that was escaped.
pub proof fn escaped_text_is_shown_unchanged(value: Seq<char>)
    ensures
        shown_in_cell(escaped(value)) == value,
    decreases value.len(),
{
    if value.len() > 0 {
        lemma_escaped_front(value);
        let cell = escaped(value);
        let rest = escaped(value.skip(1));
        escaped_text_is_shown_unchanged(value.skip(1));
        if value[0] == '\\' || value[0] == '|' {
            assert(cell.skip(2) =~= rest);
        } else {
            assert(cell.skip(1) =~= rest);
        }
        assert(value =~= seq![value[0]] + value.skip(1));
    } else {
        assert(shown_in_cell(escaped(value)) =~= value);
    }
}

/// The escaped texts of a set, in text order.
pub open spec fn escaped_listing(texts: Set<Seq<char>>) -> Seq<Seq<char>> {
    collections::listed(texts).map_values(|t: Seq<char>| escaped(t))
}

/// The cell of a package's versions, empty when the package does not occur.
pub open spec fn version_cell(versions: Option<Set<Seq<char>>>) -> Seq<char> {
    match versions {
        Some(versions) => text::joined(escaped_listing(versions), ", "@),
        None => seq![],
    }
}

/// The cell of a package's versions, empty when the package does not occur.
pub fn versions(set: Option<&TextSet>) -> (cell: String)
    ensures
        cell@ == version_cell(set.deep_view()),
{
    match set {
        Some(set) => {
            let mut cells: Vec<String> = Vec::new();
            let count: usize = set.len();
            let ghost meant = escaped_listing(set@);
            assert(cells.deep_view() =~= meant.take(0));
            for i in 0..count
                invariant
                    count == collections::listed(set@).len(),
                    meant == escaped_listing(set@),
                    cells.deep_view() == meant.take(i as int),
            {
                let ghost before = cells.deep_view();
                cells.push(escape_markdown(set.at(i).as_str()));
                assert(cells.deep_view() =~= before.push(meant[i as int]));
                assert(cells.deep_view() =~= meant.take(i + 1));
            }
            assert(meant.take(count as int) =~= meant);
            join(&cells, ", ")
        },
        None => String::new(),
    }
}

/// The value of a key, when it occurs.
pub open spec fn lookup(packages: PackageVersions, name: Seq<char>) -> Option<Set<Seq<char>>> {
    if packages.dom().contains(name) {
        Some(packages[name])
    } else {
        None
    }
}

/// The packages whose versions differ.
pub open spec fn changed(old: PackageVersions, new: PackageVersions) -> Set<Seq<char>> {
    Set::new(|name: Seq<char>| lookup(old, name) != lookup(new, name))
}

/// The changed packages to show: the direct dependencies, or all of them.
pub open spec fn shown(
    old: PackageVersions,
    new: PackageVersions,
    direct: Set<Seq<char>>,
    include_transitive: bool,
) -> Set<Seq<char>> {
    changed(old, new).filter(|name: Seq<char>| include_transitive || direct.contains(name))
}

/// The changed packages that are not shown.
pub open spec fn hidden(
    old: PackageVersions,
    new: PackageVersions,
    direct: Set<Seq<char>>,
    include_transitive: bool,
) -> Set<Seq<char>> {
    changed(old, new).filter(|name: Seq<char>| !include_transitive && !direct.contains(name))
}

/// A row of the table: a package with its old and its new versions.
pub open spec fn row_of(old: PackageVersions, new: PackageVersions, name: Seq<char>) -> Seq<
    Seq<char>,
> {
    seq![escaped(name), version_cell(lookup(old, name)), version_cell(lookup(new, name))]
}

/// The rows for packages, in text order.
pub open spec fn rows_of(old: PackageVersions, new: PackageVersions, names: Set<Seq<char>>) -> Seq<
    Seq<Seq<char>>,
> {
    collections::listed(names).map_values(|name: Seq<char>| row_of(old, new, name))
}

/// The cells of a row.
pub open spec fn cells(row: [String; 3]) -> Seq<Seq<char>> {
    seq![row@[0]@, row@[1]@, row@[2]@]
}

/// The cells of all rows.
pub open spec fn table_cells(rows: Seq<[String; 3]>) -> Seq<Seq<Seq<char>>> {
    rows.map_values(|row: [String; 3]| cells(row))
}

/// The changes between two sets of packages.
pub struct Changes {
    pub rows: Vec<[String; 3]>,
    pub hidden: usize,
}

/// All names that occur on either side.
fn all_names(old: &Packages, new: &Packages) -> (names: TextSet)
    ensures
        names@ == old@.dom().union(new@.dom()),
{
    let mut names = TextSet::new();
    let count: usize = old.len();
    let ghost listing = old.listing();
    assert(names@ =~= listing.take(0).to_set());
    for i in 0..count
        invariant
            count == old.listing().len(),
            listing == old.listing(),
            names@ == listing.take(i as int).to_set(),
    {
        names.insert(old.key(i).clone());
        proof {
            order::lemma_take_more(listing, i as int);
        }
    }
    assert(listing.take(count as int) =~= listing);
    let ghost first = names@;
    let count: usize = new.len();
    let ghost listing = new.listing();
    assert(names@ =~= first.union(listing.take(0).to_set()));
    for i in 0..count
        invariant
            count == new.listing().len(),
            listing == new.listing(),
            names@ == first.union(listing.take(i as int).to_set()),
    {
        names.insert(new.key(i).clone());
        proof {
            order::lemma_take_more(listing, i as int);
            assert(names@ =~= first.union(listing.take(i + 1).to_set()));
        }
    }
    proof {
        assert(listing.take(count as int) =~= listing);
        assert(old@.dom() =~= old.entries().dom());
        assert(new@.dom() =~= new.entries().dom());
    }
    names
}

/// Tells whether a package has the same versions on both sides.
fn same_versions(old: Option<&TextSet>, new: Option<&TextSet>) -> (same: bool)
    ensures
        same == (old.deep_view() == new.deep_view()),
{
    match (old, new) {
        (Some(old), Some(new)) => old.same(new),
        (None, None) => true,
        _ => false,
    }
}

/// A part of a listing, in its order.
proof fn lemma_listing_grows(part: Seq<Seq<char>>, listing: Seq<Seq<char>>, i: int)
    requires
        order::increasing(listing, order::text_order()),
        order::increasing(part, order::text_order()),
        0 <= i < listing.len(),
        forall|k: int| 0 <= k < part.len() ==> listing.take(i).contains(#[trigger] part[k]),
    ensures
        order::increasing(part.push(listing[i]), order::text_order()),
        forall|k: int|
            0 <= k < part.push(listing[i]).len() ==> listing.take(i + 1).contains(
                #[trigger] part.push(listing[i])[k],
            ),
        part.push(listing[i]).to_set() == part.to_set().insert(listing[i]),
{
    let before = order::text_order();
    let grown = part.push(listing[i]);
    assert forall|a: int, b: int|
        #![trigger grown[a], grown[b]]
        0 <= a < b < grown.len() implies before(grown[a], grown[b]) by {
        if b == part.len() {
            assert(listing.take(i).contains(part[a]));
            let k = choose|k: int| 0 <= k < i && listing.take(i)[k] == part[a];
            assert(before(listing[k], listing[i]));
        } else {
            assert(before(part[a], part[b]));
        }
    }
    assert forall|k: int| 0 <= k < grown.len() implies listing.take(i + 1).contains(
        #[trigger] grown[k],
    ) by {
        if k < part.len() {
            assert(listing.take(i).contains(part[k]));
            let m = choose|m: int| 0 <= m < i && listing.take(i)[m] == part[k];
            assert(listing.take(i + 1)[m] == part[k]);
        } else {
            assert(listing.take(i + 1)[i] == listing[i]);
        }
    }
    assert forall|t: Seq<char>| #[trigger] grown.to_set().contains(t) == part.to_set().insert(
        listing[i],
    ).contains(t) by {
        if grown.contains(t) {
            let k = choose|k: int| 0 <= k < grown.len() && grown[k] == t;
            if k < part.len() {
                assert(part[k] == t);
            }
        }
        if part.contains(t) {
            let k = choose|k: int| 0 <= k < part.len() && part[k] == t;
            assert(grown[k] == t);
        }
        assert(grown[part.len() as int] == listing[i]);
    }
    assert(grown.to_set() =~= part.to_set().insert(listing[i]));
}

proof fn lemma_listing_passes(part: Seq<Seq<char>>, listing: Seq<Seq<char>>, i: int)
    requires
        0 <= i < listing.len(),
        forall|k: int| 0 <= k < part.len() ==> listing.take(i).contains(#[trigger] part[k]),
    ensures
        forall|k: int| 0 <= k < part.len() ==> listing.take(i + 1).contains(#[trigger] part[k]),
{
    assert forall|k: int| 0 <= k < part.len() implies listing.take(i + 1).contains(
        #[trigger] part[k],
    ) by {
        assert(listing.take(i).contains(part[k]));
        let m = choose|m: int| 0 <= m < i && listing.take(i)[m] == part[k];
        assert(listing.take(i + 1)[m] == part[k]);
    }
}

/// The changes between two sets of packages.
pub fn compare_packages(
    old: &Packages,
    new: &Packages,
    direct: &TextSet,
    include_transitive: bool,
) -> (changes: Changes)
    ensures
        table_cells(changes.rows@) == rows_of(
            old@,
            new@,
            shown(old@, new@, direct@, include_transitive),
        ),
        changes.hidden == hidden(old@, new@, direct@, include_transitive).len(),
{
    let names = all_names(old, new);
    let mut rows: Vec<[String; 3]> = Vec::new();
    let mut hidden_count: usize = 0;
    let count: usize = names.len();
    let ghost listing = collections::listed(names@);
    let ghost mut kept: Seq<Seq<char>> = seq![];
    let ghost mut dropped: Seq<Seq<char>> = seq![];
    let ghost visible = shown(old@, new@, direct@, include_transitive);
    let ghost invisible = hidden(old@, new@, direct@, include_transitive);
    proof {
        assert(kept.to_set() =~= visible.intersect(listing.take(0).to_set()));
        assert(dropped.to_set() =~= invisible.intersect(listing.take(0).to_set()));
    }
    for i in 0..count
        invariant
            count == listing.len(),
            listing == collections::listed(names@),
            order::increasing(listing, order::text_order()),
            visible == shown(old@, new@, direct@, include_transitive),
            invisible == hidden(old@, new@, direct@, include_transitive),
            order::increasing(kept, order::text_order()),
            order::increasing(dropped, order::text_order()),
            forall|k: int| 0 <= k < kept.len() ==> listing.take(i as int).contains(#[trigger] kept[k]),
            forall|k: int|
                0 <= k < dropped.len() ==> listing.take(i as int).contains(#[trigger] dropped[k]),
            kept.to_set() == visible.intersect(listing.take(i as int).to_set()),
            dropped.to_set() == invisible.intersect(listing.take(i as int).to_set()),
            rows.len() == kept.len(),
            forall|k: int|
                0 <= k < kept.len() ==> cells(#[trigger] rows@[k]) == row_of(old@, new@, kept[k]),
            hidden_count == dropped.len(),
            dropped.len() <= i,
    {
        let name = names.at(i);
        let before = old.get(name.as_str());
        let after = new.get(name.as_str());
        proof {
            order::lemma_take_more(listing, i as int);
            assert(lookup(old@, name@) == before.deep_view());
            assert(lookup(new@, name@) == after.deep_view());
            lemma_listing_passes(kept, listing, i as int);
            lemma_listing_passes(dropped, listing, i as int);
        }
        if !same_versions(before, after) {
            if include_transitive || direct.contains(name.as_str()) {
                proof {
                    lemma_listing_grows(kept, listing, i as int);
                }
                let row = [escape_markdown(name.as_str()), versions(before), versions(after)];
                assert(cells(row) =~= row_of(old@, new@, name@));
                rows.push(row);
                proof {
                    kept = kept.push(name@);
                }
            } else {
                proof {
                    lemma_listing_grows(dropped, listing, i as int);
                    dropped = dropped.push(name@);
                }
                hidden_count += 1;
            }
        }
        proof {
            assert(kept.to_set() =~= visible.intersect(listing.take(i + 1).to_set()));
            assert(dropped.to_set() =~= invisible.intersect(listing.take(i + 1).to_set()));
        }
    }
    proof {
        order::text_order_is_strict();
        assert(listing.take(count as int) =~= listing);
        assert forall|name: Seq<char>| changed(old@, new@).contains(name) implies names@.contains(
            name,
        ) by {}
        assert(visible.intersect(names@) =~= visible);
        assert(invisible.intersect(names@) =~= invisible);
        order::lemma_in_order(kept, order::text_order());
        order::lemma_increasing_is_unique(dropped, order::text_order());
        dropped.unique_seq_to_set();
        assert(table_cells(rows@) =~= rows_of(old@, new@, visible));
    }
    Changes { rows, hidden: hidden_count }
}

/// A row of a table, with the line's end.
pub open spec fn row_line(cells: Seq<Seq<char>>) -> Seq<char> {
    "| "@ + cells[0] + " | "@ + cells[1] + " | "@ + cells[2] + " |\n"@
}

/// A row of a table, with the line's end.
fn row_text(first: &str, second: &str, third: &str) -> (line: String)
    ensures
        line@ == row_line(seq![first@, second@, third@]),
{
    let mut line = "| ".to_owned();
    line.append(first);
    line.append(" | ");
    line.append(second);
    line.append(" | ");
    line.append(third);
    line.append(" |\n");
    line
}

/// Rows one below the other.
pub open spec fn row_lines(rows: Seq<Seq<Seq<char>>>) -> Seq<char>
    decreases rows.len(),
{
    if rows.len() == 0 {
        seq![]
    } else {
        row_lines(rows.drop_last()) + row_line(rows.last())
    }
}

/// The headers of the columns.
pub open spec fn headers(package_label: Seq<char>) -> Seq<Seq<char>> {
    seq![package_label, "old"@, "new"@]
}

/// The table without alignment.
pub open spec fn plain_table(rows: Seq<Seq<Seq<char>>>, package_label: Seq<char>) -> Seq<char> {
    row_line(headers(package_label)) + row_line(seq!["---"@, "---"@, "---"@]) + row_lines(rows)
}

/// The table without alignment.
pub fn print_plain(rows: &Vec<[String; 3]>, package_label: &str) -> (table: String)
    ensures
        table@ == plain_table(table_cells(rows@), package_label@),
{
    let mut table = row_text(package_label, "old", "new");
    table.append(row_text("---", "---", "---").as_str());
    let ghost head = table@;
    let ghost all = table_cells(rows@);
    assert(table@ =~= head + row_lines(all.take(0)));
    for i in 0..rows.len()
        invariant
            all == table_cells(rows@),
            table@ == head + row_lines(all.take(i as int)),
    {
        let row = &rows[i];
        table.append(row_text(row[0].as_str(), row[1].as_str(), row[2].as_str()).as_str());
        proof {
            assert(all.take(i + 1).drop_last() =~= all.take(i as int));
            assert(table@ =~= head + row_lines(all.take(i + 1)));
        }
    }
    assert(all.take(rows.len() as int) =~= all);
    table
}

/// A character over and over.
pub open spec fn repeated(c: char, count: nat) -> Seq<char> {
    Seq::new(count, |i: int| c)
}

/// A character over and over.
fn repeat(c: char, count: usize) -> (text: String)
    ensures
        text@ == repeated(c, count as nat),
{
    let mut text = String::new();
    assert(text@ =~= repeated(c, 0));
    for i in 0..count
        invariant
            text@ == repeated(c, i as nat),
    {
        text.push(c);
        assert(text@ =~= repeated(c, (i + 1) as nat));
    }
    text
}

/// The spaces that widen a cell to `width` characters.
pub open spec fn padding(cell: Seq<char>, width: nat) -> Seq<char> {
    repeated(
        ' ',
        if cell.len() < width {
            (width - cell.len()) as nat
        } else {
            0
        },
    )
}

/// The spaces that widen a cell to `width` characters.
fn padding_for(cell: &str, width: usize) -> (spaces: String)
    ensures
        spaces@ == padding(cell@, width as nat),
{
    let length: usize = characters(cell).len();
    if length < width {
        repeat(' ', width - length)
    } else {
        repeat(' ', 0)
    }
}

/// A row whose first cell is aligned left and whose other cells are aligned right.
pub open spec fn aligned(cells: Seq<Seq<char>>, widths: Seq<nat>) -> Seq<Seq<char>> {
    seq![
        cells[0] + padding(cells[0], widths[0]),
        padding(cells[1], widths[1]) + cells[1],
        padding(cells[2], widths[2]) + cells[2],
    ]
}

/// A row whose first cell is aligned left and whose other cells are aligned right.
fn aligned_row(
    first: &str,
    second: &str,
    third: &str,
    first_width: usize,
    second_width: usize,
    third_width: usize,
) -> (line: String)
    ensures
        line@ == row_line(
            aligned(
                seq![first@, second@, third@],
                seq![first_width as nat, second_width as nat, third_width as nat],
            ),
        ),
{
    row_text(
        concat2(first, padding_for(first, first_width).as_str()).as_str(),
        concat2(padding_for(second, second_width).as_str(), second).as_str(),
        concat2(padding_for(third, third_width).as_str(), third).as_str(),
    )
}

/// The width of the widest cell of a column.
pub open spec fn column_width(header: Seq<char>, rows: Seq<Seq<Seq<char>>>, column: int) -> nat
    decreases rows.len(),
{
    if rows.len() == 0 {
        header.len()
    } else {
        let before = column_width(header, rows.drop_last(), column);
        let cell = rows.last()[column];
        if before < cell.len() {
            cell.len()
        } else {
            before
        }
    }
}

/// The widths of the three columns.
pub open spec fn column_widths(rows: Seq<Seq<Seq<char>>>, package_label: Seq<char>) -> Seq<nat> {
    seq![
        column_width(headers(package_label)[0], rows, 0),
        column_width(headers(package_label)[1], rows, 1),
        column_width(headers(package_label)[2], rows, 2),
    ]
}

/// The mark under a column's header that tells how the column is aligned.
pub open spec fn alignment_mark(width: nat, right_aligned: bool) -> Seq<char> {
    let dashes = repeated(
        '-',
        if width > 0 {
            (width - 1) as nat
        } else {
            0
        },
    );
    if right_aligned {
        dashes + seq![':']
    } else {
        seq![':'] + dashes
    }
}

/// The mark under a column's header that tells how the column is aligned.
pub fn separator(width: usize, right_aligned: bool) -> (mark: String)
    ensures
        mark@ == alignment_mark(width as nat, right_aligned),
{
    let dashes = repeat(
        '-',
        if width > 0 {
            width - 1
        } else {
            0
        },
    );
    proof {
        reveal_strlit(":");
        assert(":"@ =~= seq![':']);
    }
    if right_aligned {
        concat2(dashes.as_str(), ":")
    } else {
        concat2(":", dashes.as_str())
    }
}

/// The marks under the headers of the three columns.
pub open spec fn alignment_marks(widths: Seq<nat>) -> Seq<Seq<char>> {
    seq![
        alignment_mark(widths[0], false),
        alignment_mark(widths[1], true),
        alignment_mark(widths[2], true),
    ]
}

/// The rows with aligned cells.
pub open spec fn aligned_rows(rows: Seq<Seq<Seq<char>>>, widths: Seq<nat>) -> Seq<Seq<Seq<char>>> {
    rows.map_values(|row: Seq<Seq<char>>| aligned(row, widths))
}

/// The table with aligned columns.
pub open spec fn pretty_table(rows: Seq<Seq<Seq<char>>>, package_label: Seq<char>) -> Seq<char> {
    let widths = column_widths(rows, package_label);
    row_line(aligned(headers(package_label), widths)) + row_line(alignment_marks(widths))
        + row_lines(aligned_rows(rows, widths))
}

/// The width of the widest cell of a column.
fn width_of(header: &str, rows: &Vec<[String; 3]>, column: usize) -> (width: usize)
    requires
        column < 3,
    ensures
        width == column_width(header@, table_cells(rows@), column as int),
{
    let mut width: usize = characters(header).len();
    let ghost all = table_cells(rows@);
    assert(all.take(0) =~= seq![]);
    for i in 0..rows.len()
        invariant
            column < 3,
            all == table_cells(rows@),
            width == column_width(header@, all.take(i as int), column as int),
    {
        let row = &rows[i];
        let length: usize = characters(row[column].as_str()).len();
        proof {
            assert(all.take(i + 1).drop_last() =~= all.take(i as int));
            assert(all.take(i + 1).last()[column as int] == row@[column as int]@);
        }
        if width < length {
            width = length;
        }
    }
    assert(all.take(rows.len() as int) =~= all);
    width
}

/// The table with aligned columns.
pub fn print_pretty(rows: &Vec<[String; 3]>, package_label: &str) -> (table: String)
    ensures
        table@ == pretty_table(table_cells(rows@), package_label@),
{
    let first: usize = width_of(package_label, rows, 0);
    let second: usize = width_of("old", rows, 1);
    let third: usize = width_of("new", rows, 2);
    let ghost widths = column_widths(table_cells(rows@), package_label@);
    assert(widths =~= seq![first as nat, second as nat, third as nat]);
    let mut table = aligned_row(package_label, "old", "new", first, second, third);
    table.append(
        row_text(
            separator(first, false).as_str(),
            separator(second, true).as_str(),
            separator(third, true).as_str(),
        ).as_str(),
    );
    let ghost head = table@;
    let ghost all = aligned_rows(table_cells(rows@), widths);
    assert(table@ =~= head + row_lines(all.take(0)));
    for i in 0..rows.len()
        invariant
            widths == seq![first as nat, second as nat, third as nat],
            all == aligned_rows(table_cells(rows@), widths),
            table@ == head + row_lines(all.take(i as int)),
    {
        let row = &rows[i];
        table.append(
            aligned_row(
                row[0].as_str(),
                row[1].as_str(),
                row[2].as_str(),
                first,
                second,
                third,
            ).as_str(),
        );
        proof {
            assert(all.take(i + 1).drop_last() =~= all.take(i as int));
            assert(table@ =~= head + row_lines(all.take(i + 1)));
        }
    }
    assert(all.take(rows.len() as int) =~= all);
    table
}

/// What a comparison prints to the two output streams.
pub struct Report {
    pub stdout: String,
    pub stderr: String,
}

/// What a comparison prints to the two output streams.
#[verifier::ext_equal]
pub struct Printed {
    pub stdout: Seq<char>,
    pub stderr: Seq<char>,
}

impl View for Report {
    type V = Printed;

    open spec fn view(&self) -> Printed {
        Printed { stdout: self.stdout@, stderr: self.stderr@ }
    }
}

/// The table, or nothing when it would have no rows.
pub open spec fn table_text(
    rows: Seq<Seq<Seq<char>>>,
    pretty: bool,
    package_label: Seq<char>,
) -> Seq<char> {
    if rows.len() == 0 {
        seq![]
    } else if pretty {
        pretty_table(rows, package_label)
    } else {
        plain_table(rows, package_label)
    }
}

/// The line on changes that the table leaves out.
pub open spec fn hidden_hint(count: nat) -> Seq<char> {
    text::decimal(count) + (if count == 1 {
        " additional transitive dependency change not shown; use --all to show it\n"@
    } else {
        " additional transitive dependency changes not shown; use --all to show them\n"@
    })
}

/// What is said beside the table.
pub open spec fn remarks(row_count: nat, hidden_count: nat) -> Seq<char> {
    if hidden_count > 0 {
        hidden_hint(hidden_count)
    } else if row_count == 0 {
        "no changes\n"@
    } else {
        seq![]
    }
}

/// What the comparison of two sets of packages prints.
pub open spec fn printed_diff(
    old: PackageVersions,
    new: PackageVersions,
    direct: Set<Seq<char>>,
    include_transitive: bool,
    pretty: bool,
    package_label: Seq<char>,
) -> Printed {
    let rows = rows_of(old, new, shown(old, new, direct, include_transitive));
    Printed {
        stdout: table_text(rows, pretty, package_label),
        stderr: remarks(rows.len(), hidden(old, new, direct, include_transitive).len()),
    }
}

/// What is said beside the table.
fn remarks_on(row_count: usize, hidden_count: usize) -> (said: String)
    ensures
        said@ == remarks(row_count as nat, hidden_count as nat),
{
    if hidden_count > 0 {
        concat2(
            format_decimal(hidden_count).as_str(),
            if hidden_count == 1 {
                " additional transitive dependency change not shown; use --all to show it\n"
            } else {
                " additional transitive dependency changes not shown; use --all to show them\n"
            },
        )
    } else if row_count == 0 {
        "no changes\n".to_owned()
    } else {
        String::new()
    }
}

/// What the comparison of two sets of packages prints.
pub fn print_diff(
    old: &Packages,
    new: &Packages,
    direct: &TextSet,
    include_transitive: bool,
    pretty: bool,
    package_label: &str,
) -> (report: Report)
    ensures
        report@ == printed_diff(old@, new@, direct@, include_transitive, pretty, package_label@),
{
    let changes = compare_packages(old, new, direct, include_transitive);
    let ghost rows = table_cells(changes.rows@);
    let stdout = if changes.rows.len() == 0 {
        String::new()
    } else if pretty {
        print_pretty(&changes.rows, package_label)
    } else {
        print_plain(&changes.rows, package_label)
    };
    let stderr = remarks_on(changes.rows.len(), changes.hidden);
    Report { stdout, stderr }
}

/// Every change is either shown or counted as hidden, never both, and nothing else is.
pub proof fn every_change_is_shown_or_hidden(
    old: PackageVersions,
    new: PackageVersions,
    direct: Set<Seq<char>>,
    include_transitive: bool,
)
    ensures
        shown(old, new, direct, include_transitive).union(
            hidden(old, new, direct, include_transitive),
        ) == changed(old, new),
        shown(old, new, direct, include_transitive).disjoint(
            hidden(old, new, direct, include_transitive),
        ),
{
    assert(shown(old, new, direct, include_transitive).union(
        hidden(old, new, direct, include_transitive),
    ) =~= changed(old, new));
}

/// With transitive dependencies included, every change is shown.
pub proof fn nothing_is_hidden_with_transitive_changes(
    old: PackageVersions,
    new: PackageVersions,
    direct: Set<Seq<char>>,
)
    ensures
        shown(old, new, direct, true) == changed(old, new),
        hidden(old, new, direct, true) == Set::<Seq<char>>::empty(),
{
    assert(shown(old, new, direct, true) =~= changed(old, new));
    assert(hidden(old, new, direct, true) =~= Set::empty());
}

/// Without transitive dependencies, only direct dependencies are shown.
pub proof fn only_direct_changes_are_shown_by_default(
    old: PackageVersions,
    new: PackageVersions,
    direct: Set<Seq<char>>,
)
    ensures
        shown(old, new, direct, false) == changed(old, new).intersect(direct),
        hidden(old, new, direct, false) == changed(old, new).difference(direct),
{
    assert(shown(old, new, direct, false) =~= changed(old, new).intersect(direct));
    assert(hidden(old, new, direct, false) =~= changed(old, new).difference(direct));
}

/// Comparing packages with themselves prints no table and says that nothing changed.
pub proof fn equal_packages_have_no_changes(
    packages: PackageVersions,
    direct: Set<Seq<char>>,
    include_transitive: bool,
    pretty: bool,
    package_label: Seq<char>,
)
    ensures
        changed(packages, packages) == Set::<Seq<char>>::empty(),
        printed_diff(packages, packages, direct, include_transitive, pretty, package_label) == (
        Printed { stdout: seq![], stderr: "no changes\n"@ }),
{
    let visible = shown(packages, packages, direct, include_transitive);
    assert(changed(packages, packages) =~= Set::empty());
    assert(visible =~= Set::empty());
    assert(hidden(packages, packages, direct, include_transitive) =~= Set::empty());
    order::text_order_is_strict();
    order::lemma_in_order(Seq::<Seq<char>>::empty(), order::text_order());
    assert(Seq::<Seq<char>>::empty().to_set() =~= Set::empty());
}

/// Changed packages occur on at least one side.
proof fn lemma_changed_finite(old: PackageVersions, new: PackageVersions)
    requires
        old.dom().finite(),
        new.dom().finite(),
    ensures
        changed(old, new).finite(),
{
    let names = old.dom().union(new.dom());
    assert(changed(old, new) =~= names.intersect(changed(old, new)));
}

/// The table has one row for each shown package, in the order of the names.
pub proof fn each_shown_package_has_one_row(
    old: PackageVersions,
    new: PackageVersions,
    direct: Set<Seq<char>>,
    include_transitive: bool,
)
    requires
        old.dom().finite(),
        new.dom().finite(),
    ensures
        ({
            let visible = shown(old, new, direct, include_transitive);
            let names = collections::listed(visible);
            &&& order::increasing(names, order::text_order())
            &&& names.to_set() == visible
            &&& names.len() == visible.len()
            &&& rows_of(old, new, visible).len() == names.len()
            &&& forall|i: int|
                0 <= i < names.len() ==> #[trigger] rows_of(old, new, visible)[i] == row_of(
                    old,
                    new,
                    names[i],
                )
        }),
{
    let visible = shown(old, new, direct, include_transitive);
    lemma_changed_finite(old, new);
    assert(visible.finite());
    collections::lemma_listed(visible);
    order::text_order_is_strict();
    let names = collections::listed(visible);
    order::lemma_increasing_is_unique(names, order::text_order());
    names.unique_seq_to_set();
}

/// A package that occurs on one side only has an empty cell on the other side.
pub proof fn absent_packages_have_an_empty_cell(
    old: PackageVersions,
    new: PackageVersions,
    name: Seq<char>,
)
    ensures
        !old.dom().contains(name) ==> row_of(old, new, name)[1] == Seq::<char>::empty(),
        !new.dom().contains(name) ==> row_of(old, new, name)[2] == Seq::<char>::empty(),
{
}

/// Comparing the other way round shows the same packages with the columns swapped.
pub proof fn swapped_sides_swap_the_columns(
    old: PackageVersions,
    new: PackageVersions,
    direct: Set<Seq<char>>,
    include_transitive: bool,
    name: Seq<char>,
)
    ensures
        shown(new, old, direct, include_transitive) == shown(old, new, direct, include_transitive),
        hidden(new, old, direct, include_transitive) == hidden(
            old,
            new,
            direct,
            include_transitive,
        ),
        row_of(new, old, name) == seq![
            row_of(old, new, name)[0],
            row_of(old, new, name)[2],
            row_of(old, new, name)[1],
        ],
{
    assert(changed(new, old) =~= changed(old, new));
}

/// A cell is no wider than its column.
proof fn lemma_cell_fits(header: Seq<char>, rows: Seq<Seq<Seq<char>>>, column: int, i: int)
    requires
        0 <= i < rows.len(),
    ensures
        rows[i][column].len() <= column_width(header, rows, column),
    decreases rows.len(),
{
    if i < rows.len() - 1 {
        lemma_cell_fits(header, rows.drop_last(), column, i);
    }
}

/// A header is no wider than its column.
proof fn lemma_header_fits(header: Seq<char>, rows: Seq<Seq<Seq<char>>>, column: int)
    ensures
        header.len() <= column_width(header, rows, column),
    decreases rows.len(),
{
    if rows.len() > 0 {
        lemma_header_fits(header, rows.drop_last(), column);
    }
}

/// All lines of an aligned table are equally long.
pub proof fn aligned_lines_are_equally_long(
    rows: Seq<Seq<Seq<char>>>,
    package_label: Seq<char>,
    i: int,
)
    requires
        package_label.len() > 0,
        0 <= i < rows.len(),
    ensures
        ({
            let widths = column_widths(rows, package_label);
            let length = row_line(alignment_marks(widths)).len();
            &&& row_line(aligned(headers(package_label), widths)).len() == length
            &&& row_line(aligned_rows(rows, widths)[i]).len() == length
        }),
{
    reveal_strlit("old");
    reveal_strlit("new");
    let widths = column_widths(rows, package_label);
    assert forall|column: int| 0 <= column < 3 implies #[trigger] rows[i][column].len()
        <= widths[column] by {
        lemma_cell_fits(headers(package_label)[column], rows, column, i);
    }
    lemma_header_fits(package_label, rows, 0);
    lemma_header_fits("old"@, rows, 1);
    lemma_header_fits("new"@, rows, 2);
    assert(rows[i][0].len() <= widths[0]);
    assert(rows[i][1].len() <= widths[1]);
    assert(rows[i][2].len() <= widths[2]);
    assert(aligned_rows(rows, widths)[i] == aligned(rows[i], widths));
}

/// The decimal notation of a number begins with a digit.
proof fn lemma_decimal_begins(n: nat)
    ensures
        text::decimal(n).len() > 0,
        ('0' as u32) <= (text::decimal(n)[0] as u32) <= ('9' as u32),
    decreases n,
{
    if n >= 10 {
        lemma_decimal_begins(n / 10);
    } else {
        assert(text::digit(n) as u32 == 48 + n);
    }
}

/// It is said that nothing changed exactly when nothing did.
pub proof fn no_changes_is_said_of_equal_packages_only(
    old: PackageVersions,
    new: PackageVersions,
    direct: Set<Seq<char>>,
    include_transitive: bool,
    pretty: bool,
    package_label: Seq<char>,
)
    requires
        old.dom().finite(),
        new.dom().finite(),
    ensures
        printed_diff(old, new, direct, include_transitive, pretty, package_label).stderr
            == "no changes\n"@ <==> old == new,
{
    reveal_strlit("no changes\n");
    let visible = shown(old, new, direct, include_transitive);
    let invisible = hidden(old, new, direct, include_transitive);
    if old == new {
        equal_packages_have_no_changes(old, direct, include_transitive, pretty, package_label);
    } else {
        lemma_changed_finite(old, new);
        lemma_difference(old, new);
        every_change_is_shown_or_hidden(old, new, direct, include_transitive);
        each_shown_package_has_one_row(old, new, direct, include_transitive);
        let name = choose|name: Seq<char>| changed(old, new).contains(name);
        assert(visible.contains(name) || invisible.contains(name));
        if invisible.len() > 0 {
            lemma_decimal_begins(invisible.len());
            assert(hidden_hint(invisible.len())[0] == text::decimal(invisible.len())[0]);
            assert("no changes\n"@[0] == 'n');
        } else {
            assert(invisible =~= Set::empty());
            assert(visible.contains(name));
            assert(visible.len() > 0);
            assert("no changes\n"@.len() > 0);
        }
    }
}

/// Packages that differ have a change.
proof fn lemma_difference(old: PackageVersions, new: PackageVersions)
    requires
        old != new,
    ensures
        exists|name: Seq<char>| changed(old, new).contains(name),
{
    if forall|name: Seq<char>| !changed(old, new).contains(name) {
        assert forall|name: Seq<char>| #[trigger] old.dom().contains(name) == new.dom().contains(
            name,
        ) by {
            assert(!changed(old, new).contains(name));
        }
        assert forall|name: Seq<char>| #[trigger] old.dom().contains(name) implies old[name]
            == new[name] by {
            assert(!changed(old, new).contains(name));
        }
        assert(old =~= new);
    }
}

} // verus!
