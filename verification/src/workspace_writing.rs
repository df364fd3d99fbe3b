//! Writing the members, exclusions and shared dependencies of a workspace, and that what
//! is written can be read.

use vstd::prelude::*;

use crate::cargo_manifest;
use crate::cargo_manifest::{Dependencies, Dependency};
use crate::declarations;
use crate::scanner;
use crate::text;
use crate::toml;
use crate::workspace;
use crate::workspace::{WorkspaceModel, WorkspaceState};

verus! {

/// Strings with commas between them.
pub open spec fn written_items(items: Seq<Seq<char>>) -> Seq<char>
    decreases items.len(),
{
    if items.len() == 0 {
        seq![]
    } else if items.len() == 1 {
        toml::written_string(items[0])
    } else {
        toml::written_string(items[0]) + seq![','] + written_items(items.skip(1))
    }
}

/// Written strings leave no quote open, and can only be cut at commas and quotes.
proof fn lemma_scan_items(front: Seq<char>, items: Seq<Seq<char>>, back: Seq<char>)
    requires
        scanner::lexed(front).quote is None,
        !scanner::lexed(front).escaped,
    ensures
        scanner::lexed(front + written_items(items)).quote is None,
        !scanner::lexed(front + written_items(items)).escaped,
        forall|c: char, flat: bool, i: int|
            front.len() <= i < front.len() + written_items(items).len() && c != '"' && c != ','
                ==> !#[trigger] scanner::cut_at(front + written_items(items) + back, c, flat, i),
    decreases items.len(),
{
    let all = front + written_items(items) + back;
    if items.len() == 0 {
        assert(front + written_items(items) =~= front);
    } else {
        let first = toml::written_string(items[0]);
        if items.len() == 1 {
            toml::lemma_scan_written(front, items[0], back);
        } else {
            let rest = written_items(items.skip(1));
            let next = front + first + seq![','];
            toml::lemma_scan_written(front, items[0], seq![','] + rest + back);
            assert(front + first + (seq![','] + rest + back) =~= all);
            scanner::lemma_lexed_on(front + first, seq![',']);
            scanner::lemma_lexed_plain(scanner::lexed(front + first), seq![',']);
            lemma_scan_items(next, items.skip(1), back);
            assert(next + rest + back =~= all);
            assert(next + rest =~= front + written_items(items));
            assert forall|c: char, flat: bool, i: int|
                front.len() <= i < front.len() + written_items(items).len() && c != '"' && c
                    != ',' implies !#[trigger] scanner::cut_at(all, c, flat, i) by {
                if i == front.len() + first.len() {
                    assert(all[i] == ',');
                } else if i < front.len() + first.len() {
                    assert(!scanner::cut_at(
                        front + first + (seq![','] + rest + back),
                        c,
                        flat,
                        i,
                    ));
                } else {
                    assert(!scanner::cut_at(next + rest + back, c, flat, i));
                }
            }
        }
    }
}

/// Written strings are cut apart at the commas between them.
proof fn lemma_items_apart(items: Seq<Seq<char>>)
    requires
        items.len() > 0,
    ensures
        scanner::pieces(written_items(items), ',', false) == items.map_values(
            |item: Seq<char>| toml::written_string(item),
        ),
    decreases items.len(),
{
    let all = written_items(items);
    let none = Seq::<char>::empty();
    let first = toml::written_string(items[0]);
    let apart = items.map_values(|item: Seq<char>| toml::written_string(item));
    if items.len() == 1 {
        toml::lemma_scan_written(none, items[0], none);
        assert(none + first + none =~= all);
        assert forall|i: int| !#[trigger] scanner::cut_at(all, ',', false, i) by {}
        scanner::lemma_one_piece(all, ',', false);
        assert(apart =~= seq![all]);
    } else {
        let rest = written_items(items.skip(1));
        let back = seq![','] + rest;
        let p = first.len() as int;
        toml::lemma_scan_written(none, items[0], back);
        assert(none + first =~= first);
        assert(none + first + back =~= all);
        assert(all.take(p) =~= first);
        assert(all[p] == ',');
        assert(scanner::first_cut_at(all, ',', false, p));
        scanner::lemma_first_cut(all, ',', false, p);
        assert(all.skip(p + 1) =~= rest);
        lemma_items_apart(items.skip(1));
        assert(apart =~= seq![first] + items.skip(1).map_values(
            |item: Seq<char>| toml::written_string(item),
        ));
    }
}

/// Written strings are read one by one.
pub proof fn lemma_strings_read(items: Seq<Seq<char>>, line_number: nat)
    ensures
        workspace::strings_of(
            items.map_values(|item: Seq<char>| toml::written_string(item)),
            line_number,
        ) == Ok::<Seq<Seq<char>>, Seq<char>>(items),
    decreases items.len(),
{
    let apart = items.map_values(|item: Seq<char>| toml::written_string(item));
    if items.len() == 0 {
        assert(items =~= seq![]);
    } else {
        let rest = items.drop_last();
        lemma_strings_read(rest, line_number);
        assert(apart.drop_last() =~= rest.map_values(
            |item: Seq<char>| toml::written_string(item),
        ));
        toml::written_strings_read_back(items.last(), line_number);
        assert(text::trimmed(apart.last()) == apart.last());
        assert(rest.push(items.last()) =~= items);
    }
}

/// An array of strings is read back, with blanks before it.
proof fn lemma_array_read(items: Seq<Seq<char>>, line_number: nat)
    ensures
        workspace::array_of(
            seq![' ', '['] + written_items(items) + seq![']'],
            line_number,
        ) == Ok::<Seq<Seq<char>>, Seq<char>>(items),
{
    let inner = written_items(items);
    let array = seq!['['] + inner + seq![']'];
    let value = seq![' ', '['] + inner + seq![']'];
    assert(text::trimmed(value) == array) by {
        assert(value.skip(1) =~= array);
        assert(array[0] == '[');
        assert(array.last() == ']');
        assert(text::trimmed_start(value) == text::trimmed_start(array));
    }
    assert(toml::interior(array) =~= inner);
    let apart = items.map_values(|item: Seq<char>| toml::written_string(item));
    lemma_strings_read(items, line_number);
    if items.len() == 0 {
        assert forall|i: int| !#[trigger] scanner::cut_at(inner, ',', false, i) by {}
        scanner::lemma_one_piece(inner, ',', false);
        assert(text::trimmed(inner).len() == 0);
        assert(workspace::array_items(inner) =~= seq![]);
        assert(apart =~= seq![]);
    } else {
        lemma_items_apart(items);
        toml::written_strings_read_back(items.last(), line_number);
        assert(text::trimmed(apart.last()) == apart.last());
        assert(workspace::array_items(inner) == apart);
    }
}

/// A line that assigns an array of strings to a key.
pub open spec fn array_line(key: Seq<char>, items: Seq<Seq<char>>) -> Seq<char> {
    key + seq![' ', '=', ' ', '['] + written_items(items) + seq![']']
}

/// A line that assigns an array has no comment, and its key is in front of its array.
proof fn lemma_array_line(key: Seq<char>, items: Seq<Seq<char>>, line_number: nat)
    requires
        key == "members"@ || key == "exclude"@,
    ensures
        ({
            let line = array_line(key, items);
            &&& toml::without_comment(line) == line
            &&& text::trimmed(line) == line
            &&& !cargo_manifest::is_header(line)
            &&& toml::assignment_of(line) == Some(
                (key + seq![' '], seq![' ', '['] + written_items(items) + seq![']']),
            )
            &&& toml::key_of(key + seq![' '], line_number) == Ok::<Seq<char>, Seq<char>>(key)
        }),
{
    reveal_strlit("members");
    reveal_strlit("exclude");
    let line = array_line(key, items);
    let inner = written_items(items);
    let front = key + seq![' ', '=', ' ', '['];
    let none = Seq::<char>::empty();
    assert(key.len() == 7);
    assert(key[0] == 'm' || key[0] == 'e');
    assert(key.last() == 's' || key.last() == 'e');
    assert forall|i: int| 0 <= i < front.len() implies !scanner::is_quote(#[trigger] front[i])
        && front[i] != '#' by {
        if i < 7 {
            assert(front[i] == key[i]);
        }
    }
    assert(none + front =~= front);
    scanner::lemma_lexed_on(none, front);
    scanner::lemma_lexed_plain(scanner::lexed(none), front);
    lemma_scan_items(front, items, seq![']']);
    assert forall|i: int| !#[trigger] scanner::cut_at(line, '#', false, i) by {
        if 0 <= i < front.len() {
            assert(line[i] == front[i]);
        } else if front.len() + inner.len() <= i < line.len() {
            assert(line[i] == ']');
        }
    }
    scanner::lemma_one_piece(line, '#', false);
    assert(line[0] == key[0]);
    assert(line.last() == ']');
    let before = key + seq![' '];
    scanner::lemma_lexed_on(none, before);
    assert(none + before =~= before);
    assert forall|i: int| 0 <= i < before.len() implies !scanner::is_quote(
        #[trigger] before[i],
    ) by {
        assert(before[i] == front[i]);
    }
    scanner::lemma_lexed_plain(scanner::lexed(none), before);
    assert(line.take(8) =~= before);
    assert(line[8] == '=');
    assert forall|j: int| 0 <= j < 8 implies !scanner::cut_at(line, '=', false, j) by {
        if j < 7 {
            assert(line[j] == key[j]);
        } else {
            assert(line[j] == ' ');
        }
    }
    assert(scanner::first_cut_at(line, '=', false, 8));
    scanner::lemma_first_cut(line, '=', false, 8);
    assert(line.skip(9) =~= seq![' ', '['] + inner + seq![']']);
    assert(text::trimmed(before) == key) by {
        assert(before[0] == key[0]);
        assert(before.drop_last() =~= key);
        assert(text::trimmed_start(before) == before);
        assert(text::trimmed_end(before) == text::trimmed_end(key));
    }
}

/// The members of a workspace are those that are written last.
pub proof fn member_lines_are_read(state: WorkspaceState, items: Seq<Seq<char>>, line_number: nat)
    requires
        state.pending.len() == 0,
        state.section == seq!["workspace"@],
    ensures
        workspace::workspace_line(state, array_line("members"@, items), line_number) == Ok::<
            WorkspaceState,
            Seq<char>,
        >(WorkspaceState { members: items, ..state }),
{
    lemma_array_line("members"@, items, line_number);
    lemma_array_read(items, line_number);
    lemma_array_ends(items);
    assert(state.pending + array_line("members"@, items) =~= array_line("members"@, items));
    assert(state.pending =~= seq![]);
    assert(!workspace::declares(state.section));
}

/// The exclusions of a workspace are those that are written last.
pub proof fn exclusion_lines_are_read(
    state: WorkspaceState,
    items: Seq<Seq<char>>,
    line_number: nat,
)
    requires
        state.pending.len() == 0,
        state.section == seq!["workspace"@],
    ensures
        workspace::workspace_line(state, array_line("exclude"@, items), line_number) == Ok::<
            WorkspaceState,
            Seq<char>,
        >(WorkspaceState { exclude: items, ..state }),
{
    lemma_array_line("exclude"@, items, line_number);
    lemma_array_read(items, line_number);
    lemma_array_ends(items);
    assert(state.pending + array_line("exclude"@, items) =~= array_line("exclude"@, items));
    assert(state.pending =~= seq![]);
    assert(!workspace::declares(state.section));
    assert("exclude"@ != "members"@) by {
        reveal_strlit("exclude");
        reveal_strlit("members");
        assert("exclude"@[0] == 'e' && "members"@[0] == 'm');
    }
}

/// An array ends with its bracket.
proof fn lemma_array_ends(items: Seq<Seq<char>>)
    ensures
        text::ends(
            text::trimmed_end(seq![' ', '['] + written_items(items) + seq![']']),
            seq![']'],
        ),
{
    let value = seq![' ', '['] + written_items(items) + seq![']'];
    assert(value.last() == ']');
    assert(value.skip(value.len() - 1) =~= seq![']']);
}

/// A manifest of a workspace with members and exclusions.
pub open spec fn written_workspace(members: Seq<Seq<char>>, exclude: Seq<Seq<char>>) -> Seq<char> {
    "[workspace]\n"@ + array_line("members"@, members) + seq!['\n'] + array_line(
        "exclude"@,
        exclude,
    ) + seq!['\n']
}

/// The header of a workspace.
pub proof fn lemma_workspace_header(line_number: nat)
    ensures
        workspace::workspace_line(workspace::workspace_start(), "[workspace]"@, line_number)
            == Ok::<WorkspaceState, Seq<char>>(
            WorkspaceState {
                present: true,
                section: seq!["workspace"@],
                ..workspace::workspace_start()
            },
        ),
{
    reveal_strlit("[workspace]");
    reveal_strlit("workspace");
    let header = "[workspace]"@;
    let key = "workspace"@;
    let none = Seq::<char>::empty();
    assert forall|i: int| !#[trigger] scanner::cut_at(header, '#', false, i) by {}
    scanner::lemma_one_piece(header, '#', false);
    assert(header[0] == '[' && header.last() == ']');
    assert(text::trimmed(header) == header);
    assert(toml::interior(header) =~= key);
    assert forall|i: int| !#[trigger] scanner::cut_at(key, '.', false, i) by {}
    scanner::lemma_one_piece(key, '.', false);
    assert(none + key =~= key);
    scanner::lemma_lexed_on(none, key);
    scanner::lemma_lexed_plain(scanner::lexed(none), key);
    assert(key[0] == 'w' && key.last() == 'e');
    assert(text::trimmed(key) == key);
    let parts = scanner::pieces(key, '.', false);
    assert(parts.drop_last() =~= seq![]);
    let keys = Seq::<Seq<char>>::empty().push(key);
    assert(toml::keys_of(parts, line_number) == Ok::<Seq<Seq<char>>, Seq<char>>(keys));
    assert(keys =~= seq![key]);
    assert(!workspace::declares(keys));
}

/// Reading a manifest gives back the members and exclusions that were written to it.
pub proof fn written_workspaces_read_back(members: Seq<Seq<char>>, exclude: Seq<Seq<char>>)
    ensures
        workspace::workspace_of(written_workspace(members, exclude)) == Ok::<
            WorkspaceModel,
            Seq<char>,
        >(WorkspaceModel { present: true, members, exclude, dependencies: Map::empty() }),
{
    let header = "[workspace]"@;
    let member_line = array_line("members"@, members);
    let exclude_line = array_line("exclude"@, exclude);
    let lines = seq![header, member_line, exclude_line];
    lemma_workspace_lines(members, exclude);
    let start = workspace::workspace_start();
    let step = workspace::workspace_step();
    let lines2 = lines.drop_last();
    let lines1 = lines2.drop_last();
    assert(lines1.drop_last() =~= seq![]);
    assert(lines1.last() == header && lines2.last() == member_line);
    lemma_workspace_header(1);
    let opened = WorkspaceState { present: true, section: seq!["workspace"@], ..start };
    assert(text::read_lines(lines1.drop_last(), start, step) == Ok::<WorkspaceState, Seq<char>>(
        start,
    ));
    assert(text::read_lines(lines1, start, step) == Ok::<WorkspaceState, Seq<char>>(opened));
    member_lines_are_read(opened, members, 2);
    let named = WorkspaceState { members, ..opened };
    assert(text::read_lines(lines2, start, step) == Ok::<WorkspaceState, Seq<char>>(named));
    exclusion_lines_are_read(named, exclude, 3);
    let complete = WorkspaceState { exclude, ..named };
    assert(text::read_lines(lines, start, step) == Ok::<WorkspaceState, Seq<char>>(complete));
    assert(text::lines_of(complete.declarations) =~= seq![]);
}

/// The lines of a manifest of a workspace.
proof fn lemma_workspace_lines(members: Seq<Seq<char>>, exclude: Seq<Seq<char>>)
    ensures
        text::lines_of(written_workspace(members, exclude)) == seq![
            "[workspace]"@,
            array_line("members"@, members),
            array_line("exclude"@, exclude),
        ],
{
    let header = "[workspace]"@;
    let member_line = array_line("members"@, members);
    let exclude_line = array_line("exclude"@, exclude);
    let contents = written_workspace(members, exclude);
    let none = Seq::<char>::empty();
    let third = exclude_line + seq!['\n'] + none;
    let second = member_line + seq!['\n'] + third;
    assert("[workspace]\n"@ =~= header + seq!['\n'] && text::without_return(header) == header
        && forall|j: int| 0 <= j < header.len() ==> header[j] != '\n') by {
        reveal_strlit("[workspace]\n");
        reveal_strlit("[workspace]");
    }
    lemma_one_line("members"@, members);
    lemma_one_line("exclude"@, exclude);
    assert(contents =~= header + seq!['\n'] + second);
    text::lemma_line_in_front(header, second);
    text::lemma_line_in_front(member_line, third);
    text::lemma_line_in_front(exclude_line, none);
    assert(text::lines_of(none) =~= seq![]);
    assert(text::lines_of(contents) =~= seq![header, member_line, exclude_line]);
}

/// An array of strings stands on one line.
pub proof fn lemma_one_line(key: Seq<char>, items: Seq<Seq<char>>)
    requires
        key == "members"@ || key == "exclude"@,
    ensures
        forall|i: int| 0 <= i < array_line(key, items).len() ==> array_line(key, items)[i] != '\n',
        text::without_return(array_line(key, items)) == array_line(key, items),
{
    reveal_strlit("members");
    reveal_strlit("exclude");
    lemma_items_on_one_line(items);
    let line = array_line(key, items);
    assert(line.last() == ']');
    assert forall|i: int| 0 <= i < line.len() implies line[i] != '\n' by {
        if i < 7 {
            assert(line[i] == key[i]);
        } else if i >= 11 && i < line.len() - 1 {
            assert(line[i] == written_items(items)[i - 11]);
        }
    }
}

proof fn lemma_items_on_one_line(items: Seq<Seq<char>>)
    ensures
        forall|i: int| 0 <= i < written_items(items).len() ==> written_items(items)[i] != '\n',
    decreases items.len(),
{
    if items.len() > 0 {
        let all = written_items(items);
        let first = toml::written_string(items[0]);
        let rest = written_items(items.skip(1));
        toml::written_strings_read_back(items[0], 0);
        lemma_items_on_one_line(items.skip(1));
        assert forall|i: int| 0 <= i < all.len() implies all[i] != '\n' by {
            if i < first.len() {
                assert(all[i] == first[i]);
            } else if i > first.len() {
                assert(all[i] == rest[i - first.len() - 1]);
            }
        }
    }
}

/// A dependency that a workspace shares with its members, at the end of a manifest.
pub open spec fn shared_entry(line: Seq<char>) -> Seq<char> {
    "[workspace.dependencies]\n"@ + line + seq!['\n']
}

/// The header of the dependencies that a workspace shares.
proof fn lemma_shared_header(state: WorkspaceState, line_number: nat)
    requires
        state.pending.len() == 0,
    ensures
        workspace::workspace_line(state, "[workspace.dependencies]"@, line_number) == Ok::<
            WorkspaceState,
            Seq<char>,
        >(
            WorkspaceState {
                present: true,
                section: seq!["workspace"@, "dependencies"@],
                declarations: state.declarations + "[dependencies]\n"@,
                ..state
            },
        ),
{
    let header = "[workspace.dependencies]"@;
    let first = "workspace"@;
    let second = "dependencies"@;
    let key = first + seq!['.'] + second;
    assert("[dependencies"@ + "]\n"@ == "[dependencies]\n"@) by {
        reveal_strlit("[dependencies");
        reveal_strlit("]\n");
        reveal_strlit("[dependencies]\n");
        assert("[dependencies"@ + "]\n"@ =~= "[dependencies]\n"@);
    }
    reveal_strlit("[workspace.dependencies]");
    reveal_strlit("workspace");
    reveal_strlit("dependencies");
    assert forall|i: int| !#[trigger] scanner::cut_at(header, '#', false, i) by {}
    scanner::lemma_one_piece(header, '#', false);
    assert(header[0] == '[' && header.last() == ']');
    assert(text::trimmed(header) == header);
    assert(toml::interior(header) =~= key);
    lemma_shared_key(line_number);
}

/// The key of the dependencies that a workspace shares.
proof fn lemma_shared_key(line_number: nat)
    ensures
        toml::dotted_key("workspace"@ + seq!['.'] + "dependencies"@, line_number) == Ok::<
            Seq<Seq<char>>,
            Seq<char>,
        >(seq!["workspace"@, "dependencies"@]),
{
    reveal_strlit("workspace");
    reveal_strlit("dependencies");
    let first = "workspace"@;
    let second = "dependencies"@;
    let key = first + seq!['.'] + second;
    let none = Seq::<char>::empty();
    assert(none + first =~= first);
    scanner::lemma_lexed_on(none, first);
    scanner::lemma_lexed_plain(scanner::lexed(none), first);
    assert(none + key =~= key);
    scanner::lemma_lexed_on(none, key);
    scanner::lemma_lexed_plain(scanner::lexed(none), key);
    assert(key.take(9) =~= first);
    assert(key[9] == '.');
    assert(scanner::first_cut_at(key, '.', false, 9));
    scanner::lemma_first_cut(key, '.', false, 9);
    assert(key.skip(10) =~= second);
    assert forall|i: int| !#[trigger] scanner::cut_at(second, '.', false, i) by {}
    scanner::lemma_one_piece(second, '.', false);
    let parts = scanner::pieces(key, '.', false);
    assert(parts =~= seq![first, second]);
    assert(first[0] == 'w' && first.last() == 'e' && second[0] == 'd' && second.last() == 's');
    assert(text::trimmed(first) == first && text::trimmed(second) == second);
    let front = parts.drop_last();
    assert(front =~= seq![first]);
    assert(front.drop_last() =~= seq![]);
    assert(front.last() == first && parts.last() == second);
    reveal_with_fuel(toml::keys_of, 3);
    assert(Seq::<Seq<char>>::empty().push(first).push(second) =~= seq![first, second]);
}

/// What is collected of the shared dependencies ends with a line's end.
proof fn lemma_declarations_end(lines: Seq<Seq<char>>)
    ensures
        text::read_lines(
            lines,
            workspace::workspace_start(),
            workspace::workspace_step(),
        ) matches Ok(state) ==> (state.declarations.len() == 0 || state.declarations.last()
            == '\n'),
    decreases lines.len(),
{
    reveal_strlit("]\n");
    reveal_strlit("\n");
    if lines.len() > 0 {
        lemma_declarations_end(lines.drop_last());
    }
}

proof fn lemma_shared(
    contents: Seq<char>,
    line: Seq<char>,
    alias: Seq<char>,
    dependency: Dependency,
)
    requires
        workspace::workspace_of(contents) is Ok,
        contents.len() == 0 || contents.last() == '\n',
        declarations::stands_alone(line),
        forall|before: Seq<char>|
            cargo_manifest::declared_dependencies(before) is Ok && (before.len() == 0
                || before.last() == '\n')
                ==> #[trigger] cargo_manifest::declared_dependencies(
                before + declarations::declaration_entry(line),
            ) == Ok::<Dependencies, Seq<char>>(
                cargo_manifest::declared_dependencies(before)->Ok_0.insert(alias, dependency),
            ),
    ensures
        workspace::workspace_of(contents + shared_entry(line)) == Ok::<WorkspaceModel, Seq<char>>(
            WorkspaceModel {
                present: true,
                dependencies: workspace::workspace_of(contents)->Ok_0.dependencies.insert(
                    alias,
                    dependency,
                ),
                ..workspace::workspace_of(contents)->Ok_0
            },
        ),
{
    let header = "[workspace.dependencies]"@;
    let before = text::lines_of(contents);
    let all = before + seq![header, line];
    let lines1 = before.push(header);
    lemma_shared_lines(contents, line);
    assert(lines1.drop_last() =~= before);
    assert(all.drop_last() =~= lines1);
    let start = workspace::workspace_start();
    let step = workspace::workspace_step();
    let state = text::read_lines(before, start, step)->Ok_0;
    lemma_shared_header(state, before.len() + 1);
    let opened = WorkspaceState {
        present: true,
        section: seq!["workspace"@, "dependencies"@],
        declarations: state.declarations + "[dependencies]\n"@,
        ..state
    };
    assert(text::read_lines(lines1, start, step) == Ok::<WorkspaceState, Seq<char>>(opened));
    lemma_shared_line(opened, line, before.len() + 2);
    let collected = WorkspaceState { declarations: opened.declarations + line + "\n"@, ..opened };
    assert(text::read_lines(all, start, step) == Ok::<WorkspaceState, Seq<char>>(collected));
    lemma_declarations_end(before);
    assert(collected.declarations =~= state.declarations + declarations::declaration_entry(line))
        by {
        reveal_strlit("\n");
    }
}

/// A line of the shared dependencies is collected.
proof fn lemma_shared_line(state: WorkspaceState, line: Seq<char>, line_number: nat)
    requires
        declarations::stands_alone(line),
        state.section == seq!["workspace"@, "dependencies"@],
    ensures
        workspace::workspace_line(state, line, line_number) == Ok::<WorkspaceState, Seq<char>>(
            WorkspaceState { declarations: state.declarations + line + "\n"@, ..state },
        ),
{
    assert(workspace::declares(state.section));
}

/// The lines of a manifest with one more shared dependency.
proof fn lemma_shared_lines(contents: Seq<char>, line: Seq<char>)
    requires
        contents.len() == 0 || contents.last() == '\n',
        declarations::stands_alone(line),
    ensures
        text::lines_of(contents + shared_entry(line)) == text::lines_of(contents) + seq![
            "[workspace.dependencies]"@,
            line,
        ],
{
    let header = "[workspace.dependencies]"@;
    let none = Seq::<char>::empty();
    let second = line + seq!['\n'] + none;
    assert("[workspace.dependencies]\n"@ =~= header + seq!['\n'] && text::without_return(header)
        == header && forall|j: int| 0 <= j < header.len() ==> header[j] != '\n') by {
        reveal_strlit("[workspace.dependencies]\n");
        reveal_strlit("[workspace.dependencies]");
    }
    assert(shared_entry(line) =~= header + seq!['\n'] + second);
    text::lemma_line_in_front(header, second);
    text::lemma_line_in_front(line, none);
    assert(text::lines_of(none) =~= seq![]);
    assert(text::lines_of(shared_entry(line)) =~= seq![header, line]);
    text::lemma_lines_together(contents, shared_entry(line));
}

/// A dependency that a workspace shares under another name is read in addition to those
/// before it.
pub proof fn shared_renamed_dependencies_are_read(
    contents: Seq<char>,
    alias: Seq<char>,
    package: Seq<char>,
)
    requires
        workspace::workspace_of(contents) is Ok,
        contents.len() == 0 || contents.last() == '\n',
    ensures
        workspace::workspace_of(
            contents + shared_entry(declarations::renamed_line(alias, package)),
        ) == Ok::<WorkspaceModel, Seq<char>>(
            WorkspaceModel {
                present: true,
                dependencies: workspace::workspace_of(contents)->Ok_0.dependencies.insert(
                    alias,
                    Dependency { package: Some(package), inherited: false },
                ),
                ..workspace::workspace_of(contents)->Ok_0
            },
        ),
{
    let line = declarations::renamed_line(alias, package);
    let dependency = Dependency { package: Some(package), inherited: false };
    declarations::lemma_stands_alone(alias, package);
    assert forall|before: Seq<char>|
        cargo_manifest::declared_dependencies(before) is Ok && (before.len() == 0 || before.last()
            == '\n') implies #[trigger] cargo_manifest::declared_dependencies(
        before + declarations::declaration_entry(line),
    ) == Ok::<Dependencies, Seq<char>>(
        cargo_manifest::declared_dependencies(before)->Ok_0.insert(alias, dependency),
    ) by {
        declarations::appended_renamed_dependencies_are_declared(before, alias, package);
    }
    lemma_shared(contents, line, alias, dependency);
}

/// A dependency of any version that a workspace shares is read in addition to those
/// before it.
pub proof fn shared_dependencies_are_read(contents: Seq<char>, alias: Seq<char>)
    requires
        workspace::workspace_of(contents) is Ok,
        contents.len() == 0 || contents.last() == '\n',
    ensures
        workspace::workspace_of(contents + shared_entry(declarations::plain_line(alias))) == Ok::<
            WorkspaceModel,
            Seq<char>,
        >(
            WorkspaceModel {
                present: true,
                dependencies: workspace::workspace_of(contents)->Ok_0.dependencies.insert(
                    alias,
                    Dependency { package: None, inherited: false },
                ),
                ..workspace::workspace_of(contents)->Ok_0
            },
        ),
{
    let line = declarations::plain_line(alias);
    let dependency = Dependency { package: None, inherited: false };
    declarations::lemma_stands_alone(alias, seq![]);
    assert forall|before: Seq<char>|
        cargo_manifest::declared_dependencies(before) is Ok && (before.len() == 0 || before.last()
            == '\n') implies #[trigger] cargo_manifest::declared_dependencies(
        before + declarations::declaration_entry(line),
    ) == Ok::<Dependencies, Seq<char>>(
        cargo_manifest::declared_dependencies(before)->Ok_0.insert(alias, dependency),
    ) by {
        declarations::appended_dependencies_are_declared(before, alias);
    }
    lemma_shared(contents, line, alias, dependency);
}

} // verus!
