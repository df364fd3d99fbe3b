//! What the tables of a manifest say of a workspace, and what they do not.

use vstd::prelude::*;

use crate::cargo_manifest;
use crate::cargo_manifest::Dependencies;
use crate::manifest_writing;
use crate::manifest_writing::Declared;
use crate::scanner;
use crate::text;
use crate::text_writing;
use crate::toml;
use crate::toml_writing;
use crate::workspace;
use crate::workspace::{WorkspaceModel, WorkspaceState};
use crate::workspace_writing;

verus! {

/// In the table of the workspace only the members and the exclusions are read: a line
/// that assigns something to any other key leaves what was read as it was.
pub proof fn other_keys_change_nothing(
    state: WorkspaceState,
    line: Seq<char>,
    key: Seq<char>,
    line_number: nat,
)
    requires
        state.pending.len() == 0,
        state.section == seq!["workspace"@],
        !cargo_manifest::is_header(text::trimmed(toml::without_comment(line))),
        toml::assignment_of(text::trimmed(toml::without_comment(line))) matches Some((written, _))
            && toml::key_of(written, line_number) == Ok::<Seq<char>, Seq<char>>(key),
        key != "members"@,
        key != "exclude"@,
    ensures
        workspace::workspace_line(state, line, line_number) == Ok::<WorkspaceState, Seq<char>>(
            state,
        ),
{
    let held = text::trimmed(toml::without_comment(line));
    assert(state.pending + held =~= held);
    assert(state.pending =~= seq![]);
    assert(!workspace::declares(state.section));
}

/// A line of the workspace with another key is passed over, whatever stands behind its
/// equals sign.
pub proof fn other_settings_change_nothing(
    state: WorkspaceState,
    key: Seq<char>,
    rest: Seq<char>,
    line_number: nat,
)
    requires
        state.pending.len() == 0,
        state.section == seq!["workspace"@],
        key != "members"@,
        key != "exclude"@,
    ensures
        workspace::workspace_line(
            state,
            toml_writing::any_assignment(key, rest),
            line_number,
        ) == Ok::<WorkspaceState, Seq<char>>(state),
{
    toml_writing::assignments_name_their_key(key, rest, line_number);
    other_keys_change_nothing(
        state,
        toml_writing::any_assignment(key, rest),
        key,
        line_number,
    );
}

/// A line that neither begins a table nor assigns anything is passed over as well.
pub proof fn lines_without_assignments_change_nothing(
    state: WorkspaceState,
    line: Seq<char>,
    line_number: nat,
)
    requires
        state.pending.len() == 0,
        state.section == seq!["workspace"@],
        !cargo_manifest::is_header(text::trimmed(toml::without_comment(line))),
        toml::assignment_of(text::trimmed(toml::without_comment(line))) is None,
    ensures
        workspace::workspace_line(state, line, line_number) == Ok::<WorkspaceState, Seq<char>>(
            state,
        ),
{
    let held = text::trimmed(toml::without_comment(line));
    assert(state.pending + held =~= held);
    assert(state.pending =~= seq![]);
    assert(!workspace::declares(state.section));
}

/// Outside the table of the workspace and its shared dependencies nothing is read but
/// the headers of tables.
pub proof fn lines_of_other_tables_change_nothing(
    state: WorkspaceState,
    line: Seq<char>,
    line_number: nat,
)
    requires
        !cargo_manifest::is_header(text::trimmed(toml::without_comment(line))),
        state.section != seq!["workspace"@],
        !(state.section.len() >= 2 && state.section[0] == "workspace"@ && state.section[1]
            == "dependencies"@),
    ensures
        workspace::workspace_line(state, line, line_number) == Ok::<WorkspaceState, Seq<char>>(
            state,
        ),
{
}

/// A header leaves the members and the exclusions as they are. There is a workspace as
/// soon as the name of a table begins with `workspace`.
pub proof fn headers_begin_tables(
    state: WorkspaceState,
    keys: Seq<Seq<char>>,
    line_number: nat,
)
    requires
        state.pending.len() == 0,
        keys.len() > 0,
    ensures
        workspace::workspace_line(
            state,
            toml_writing::written_header(keys),
            line_number,
        ) matches Ok(after) && {
            &&& after.section == keys
            &&& after.present == (state.present || keys[0] == "workspace"@)
            &&& after.members == state.members
            &&& after.exclude == state.exclude
            &&& after.pending == state.pending
            &&& !(keys.len() >= 2 && keys[0] == "workspace"@ && keys[1] == "dependencies"@)
                ==> after.declarations == state.declarations
            &&& keys == seq!["workspace"@, "dependencies"@] ==> after.declarations
                == state.declarations + toml_writing::written_header(seq!["dependencies"@])
                + seq!['\n']
        },
{
    toml_writing::headers_read_back(keys, line_number);
    if keys == seq!["workspace"@, "dependencies"@] {
        lemma_collected_header();
    }
}

/// The header under which shared dependencies are collected.
proof fn lemma_collected_header()
    ensures
        workspace::table_header(None) == toml_writing::written_header(seq!["dependencies"@])
            + seq!['\n'],
{
    reveal_strlit("[dependencies");
    reveal_strlit("]\n");
    reveal_strlit("dependencies");
    let key = "dependencies"@;
    assert(toml_writing::bare(key));
    assert(toml_writing::dotted(seq![key]) == key);
    assert(workspace::table_header(None) =~= toml_writing::written_header(seq![key])
        + seq!['\n']);
}

/// What follows a comment sign at the end of a line is of no account.
pub proof fn comments_change_nothing(
    state: WorkspaceState,
    line: Seq<char>,
    comment: Seq<char>,
    line_number: nat,
)
    requires
        toml::without_comment(line) == line,
        scanner::lexed(line).quote is None,
    ensures
        workspace::workspace_line(state, line + seq!['#'] + comment, line_number)
            == workspace::workspace_line(state, line, line_number),
{
    toml_writing::comments_are_taken_off(line, comment);
}

/// A setting of a workspace that is neither its members nor its exclusions: a key, and
/// what stands behind the equals sign.
pub struct Setting {
    pub key: Seq<char>,
    pub rest: Seq<char>,
}

/// Whether a setting fits on a line and is neither the members nor the exclusions.
pub open spec fn is_other_setting(setting: Setting) -> bool {
    &&& setting.key != "members"@
    &&& setting.key != "exclude"@
    &&& text_writing::is_line(setting.rest)
}

/// Whether all settings are neither the members nor the exclusions.
pub open spec fn are_other_settings(settings: Seq<Setting>) -> bool {
    forall|i: int| 0 <= i < settings.len() ==> is_other_setting(#[trigger] settings[i])
}

/// The lines of settings.
pub open spec fn setting_lines(settings: Seq<Setting>) -> Seq<Seq<char>> {
    settings.map_values(
        |setting: Setting| toml_writing::any_assignment(setting.key, setting.rest),
    )
}

/// The lines of a workspace with its members and exclusions among other settings.
pub open spec fn full_workspace_lines(
    front: Seq<Setting>,
    members: Seq<Seq<char>>,
    between: Seq<Setting>,
    exclude: Seq<Seq<char>>,
    behind: Seq<Setting>,
) -> Seq<Seq<char>> {
    seq!["[workspace]"@] + setting_lines(front) + seq![
        workspace_writing::array_line("members"@, members),
    ] + setting_lines(between) + seq![
        workspace_writing::array_line("exclude"@, exclude),
    ] + setting_lines(behind)
}

/// The lines of settings are lines.
proof fn lemma_setting_lines(settings: Seq<Setting>)
    requires
        are_other_settings(settings),
    ensures
        forall|i: int|
            0 <= i < setting_lines(settings).len() ==> text_writing::is_line(
                #[trigger] setting_lines(settings)[i],
            ),
{
    let lines = setting_lines(settings);
    assert forall|i: int| 0 <= i < lines.len() implies text_writing::is_line(
        #[trigger] lines[i],
    ) by {
        let setting = settings[i];
        assert(is_other_setting(setting));
        let key = toml_writing::written_key(setting.key);
        assert(forall|j: int| 0 <= j < key.len() ==> key[j] != '\n') by {
            if toml_writing::bare(setting.key) {
                assert forall|j: int| 0 <= j < key.len() implies key[j] != '\n' by {
                    assert(toml_writing::bare_char(key[j]));
                }
            } else {
                toml::written_strings_read_back(setting.key, 0);
            }
        }
        let line = toml_writing::any_assignment(setting.key, setting.rest);
        if setting.rest.len() > 0 {
            assert(line.last() == setting.rest.last());
        } else {
            assert(line.last() == '=');
        }
    }
}

/// Settings are passed over behind lines that were read.
proof fn lemma_settings_read(
    lines: Seq<Seq<char>>,
    settings: Seq<Setting>,
    state: WorkspaceState,
)
    requires
        text::read_lines(lines, workspace::workspace_start(), workspace::workspace_step()) == Ok::<
            WorkspaceState,
            Seq<char>,
        >(state),
        state.pending.len() == 0,
        state.section == seq!["workspace"@],
        are_other_settings(settings),
    ensures
        text::read_lines(
            lines + setting_lines(settings),
            workspace::workspace_start(),
            workspace::workspace_step(),
        ) == Ok::<WorkspaceState, Seq<char>>(state),
{
    let step = workspace::workspace_step();
    let more = setting_lines(settings);
    assert forall|i: int, n: nat| 0 <= i < more.len() implies #[trigger] step(state, more[i], n)
        == Ok::<WorkspaceState, Seq<char>>(state) by {
        assert(is_other_setting(settings[i]));
        other_settings_change_nothing(state, settings[i].key, settings[i].rest, n);
    }
    text_writing::lemma_read_unchanged(lines, more, workspace::workspace_start(), step, state);
}

/// The lines of a workspace can stand on lines.
proof fn lemma_full_workspace_lines(
    front: Seq<Setting>,
    members: Seq<Seq<char>>,
    between: Seq<Setting>,
    exclude: Seq<Seq<char>>,
    behind: Seq<Setting>,
)
    requires
        are_other_settings(front),
        are_other_settings(between),
        are_other_settings(behind),
    ensures
        ({
            let lines = full_workspace_lines(front, members, between, exclude, behind);
            forall|i: int|
                0 <= i < lines.len() ==> text_writing::is_line(#[trigger] lines[i])
        }),
{
    let all = full_workspace_lines(front, members, between, exclude, behind);
    let first = setting_lines(front);
    let second = setting_lines(between);
    let third = setting_lines(behind);
    let member_line = workspace_writing::array_line("members"@, members);
    let exclude_line = workspace_writing::array_line("exclude"@, exclude);
    lemma_setting_lines(front);
    lemma_setting_lines(between);
    lemma_setting_lines(behind);
    workspace_writing::lemma_one_line("members"@, members);
    workspace_writing::lemma_one_line("exclude"@, exclude);
    assert(member_line.last() == ']' && exclude_line.last() == ']');
    assert(text_writing::is_line("[workspace]"@)) by {
        reveal_strlit("[workspace]");
    }
    let a: int = 1 + first.len() as int;
    let b: int = a + 1 + second.len() as int;
    assert forall|i: int| 0 <= i < all.len() implies text_writing::is_line(
        #[trigger] all[i],
    ) by {
        if i == 0 {
            assert(all[i] == "[workspace]"@);
        } else if i < a {
            assert(all[i] == first[i - 1]);
        } else if i == a {
            assert(all[i] == member_line);
        } else if i < b {
            assert(all[i] == second[i - a - 1]);
        } else if i == b {
            assert(all[i] == exclude_line);
        } else {
            assert(all[i] == third[i - b - 1]);
        }
    }
}

/// Reading a manifest gives back the members and exclusions that were written to it,
/// whatever other settings of the workspace stand in front of them, between them and
/// behind them.
pub proof fn full_workspaces_read_back(
    front: Seq<Setting>,
    members: Seq<Seq<char>>,
    between: Seq<Setting>,
    exclude: Seq<Seq<char>>,
    behind: Seq<Setting>,
)
    requires
        are_other_settings(front),
        are_other_settings(between),
        are_other_settings(behind),
    ensures
        workspace::workspace_of(
            text_writing::lines_text(
                full_workspace_lines(front, members, between, exclude, behind),
                seq!['\n'],
            ),
        ) == Ok::<WorkspaceModel, Seq<char>>(
            WorkspaceModel { present: true, members, exclude, dependencies: Map::empty() },
        ),
{
    let start = workspace::workspace_start();
    let step = workspace::workspace_step();
    let lines = full_workspace_lines(front, members, between, exclude, behind);
    lemma_full_workspace_lines(front, members, between, exclude, behind);
    text_writing::written_lines_read_back(lines, seq!['\n']);
    let none = Seq::<Seq<char>>::empty();
    let header = none.push("[workspace]"@);
    workspace_writing::lemma_workspace_header(1);
    text_writing::lemma_read_line_more(none, "[workspace]"@, start, step);
    let opened = WorkspaceState { present: true, section: seq!["workspace"@], ..start };
    lemma_settings_read(header, front, opened);
    let fronted = header + setting_lines(front);
    let member_line = workspace_writing::array_line("members"@, members);
    workspace_writing::member_lines_are_read(opened, members, fronted.len() + 1);
    text_writing::lemma_read_line_more(fronted, member_line, start, step);
    let named = WorkspaceState { members, ..opened };
    lemma_settings_read(fronted.push(member_line), between, named);
    let halved = fronted.push(member_line) + setting_lines(between);
    let exclude_line = workspace_writing::array_line("exclude"@, exclude);
    workspace_writing::exclusion_lines_are_read(named, exclude, halved.len() + 1);
    text_writing::lemma_read_line_more(halved, exclude_line, start, step);
    let complete = WorkspaceState { exclude, ..named };
    lemma_settings_read(halved.push(exclude_line), behind, complete);
    assert(halved.push(exclude_line) + setting_lines(behind) =~= lines);
    assert(text::lines_of(complete.declarations) =~= seq![]);
}

/// The lines of an array that goes on over several lines, each item on its own and with
/// a comma behind it.
pub open spec fn long_array_lines(key: Seq<char>, items: Seq<Seq<char>>) -> Seq<Seq<char>> {
    seq![toml_writing::any_assignment(key, seq![' ', '['])] + items.map_values(
        |item: Seq<char>| toml::written_string(item).push(','),
    ) + seq![seq![']']]
}

/// Items, each with a comma behind it.
spec fn item_texts(items: Seq<Seq<char>>) -> Seq<char>
    decreases items.len(),
{
    if items.len() == 0 {
        seq![]
    } else {
        toml::written_string(items[0]).push(',') + item_texts(items.skip(1))
    }
}

proof fn lemma_item_texts_more(items: Seq<Seq<char>>, item: Seq<char>)
    ensures
        item_texts(items.push(item)) == item_texts(items) + toml::written_string(item).push(','),
    decreases items.len(),
{
    let none = Seq::<Seq<char>>::empty();
    let last = toml::written_string(item).push(',');
    reveal_with_fuel(item_texts, 2);
    if items.len() == 0 {
        assert(items.push(item).skip(1) =~= none);
        assert(item_texts(items.push(item)) =~= last);
        assert(item_texts(items) + last =~= last);
    } else {
        lemma_item_texts_more(items.skip(1), item);
        assert(items.push(item).skip(1) =~= items.skip(1).push(item));
        assert(items.push(item)[0] == items[0]);
        assert(item_texts(items.push(item)) =~= item_texts(items) + last);
    }
}

/// Items with commas behind them are cut apart.
proof fn lemma_item_texts_apart(items: Seq<Seq<char>>)
    ensures
        scanner::pieces(item_texts(items), ',', false) == items.map_values(
            |item: Seq<char>| toml::written_string(item),
        ).push(seq![]),
    decreases items.len(),
{
    let all = item_texts(items);
    let apart = items.map_values(|item: Seq<char>| toml::written_string(item));
    if items.len() == 0 {
        assert forall|i: int| !#[trigger] scanner::cut_at(all, ',', false, i) by {}
        scanner::lemma_one_piece(all, ',', false);
        assert(apart.push(seq![]) =~= seq![all]);
    } else {
        let first = toml::written_string(items[0]);
        let rest = item_texts(items.skip(1));
        lemma_item_texts_apart(items.skip(1));
        toml_writing::lemma_quoted(items[0], ',', false, toml_writing::outset());
        toml_writing::lemma_outset(first);
        toml_writing::lemma_cut_behind(first, ',', false, rest);
        assert(all =~= first + seq![','] + rest);
        let others = items.skip(1).map_values(|item: Seq<char>| toml::written_string(item));
        assert(apart.push(seq![]) =~= seq![first] + others.push(seq![]));
    }
}

/// The array that the lines of a long array make up.
proof fn lemma_long_array(items: Seq<Seq<char>>, line_number: nat)
    ensures
        workspace::array_of(seq![' ', '['] + item_texts(items) + seq![']'], line_number) == Ok::<
            Seq<Seq<char>>,
            Seq<char>,
        >(items),
        text::ends(
            text::trimmed_end(seq![' ', '['] + item_texts(items) + seq![']']),
            seq![']'],
        ),
{
    let none = Seq::<char>::empty();
    let blank = seq![' '];
    let array = seq!['['] + item_texts(items) + seq![']'];
    let value = seq![' ', '['] + item_texts(items) + seq![']'];
    assert(text_writing::blank(blank) && text_writing::blank(none));
    assert(value =~= blank + array + none);
    assert(array[0] == '[' && array.last() == ']');
    text_writing::surrounding_white_space_is_trimmed(blank, array, none);
    assert(toml::interior(array) =~= item_texts(items));
    lemma_item_texts_apart(items);
    let apart = items.map_values(|item: Seq<char>| toml::written_string(item));
    assert(apart.push(none).drop_last() =~= apart);
    assert(text::trimmed(none) =~= none);
    assert(workspace::array_items(item_texts(items)) == apart);
    workspace_writing::lemma_strings_read(items, line_number);
    assert(value.last() == ']');
    assert(value.skip(value.len() - 1) =~= seq![']']);
}

/// What is pending behind the first lines of a long array.
spec fn long_start(key: Seq<char>, items: Seq<Seq<char>>) -> Seq<char> {
    key + seq![' ', '=', ' ', '['] + item_texts(items)
}

/// What is pending assigns something to the key in front, and is cut there.
proof fn lemma_long_assignment(key: Seq<char>, rest: Seq<char>, line_number: nat)
    requires
        toml_writing::bare(key),
    ensures
        toml::assignment_of(key + seq![' ', '='] + rest) == Some((key + seq![' '], rest)),
        toml::key_of(key + seq![' '], line_number) == Ok::<Seq<char>, Seq<char>>(key),
{
    let none = Seq::<char>::empty();
    let blank = seq![' '];
    let front = key + blank;
    let all = key + seq![' ', '='] + rest;
    assert(text_writing::blank(blank) && text_writing::blank(none));
    assert(none + key + blank =~= front);
    toml_writing::keys_read_back(none, key, blank, line_number);
    assert forall|i: int| 0 <= i < front.len() implies !scanner::is_quote(#[trigger] front[i])
        && front[i] != '=' by {
        if i < key.len() {
            assert(toml_writing::bare_char(key[i]));
        }
    }
    scanner::lemma_lexed_plain(toml_writing::outset(), front);
    toml_writing::lemma_outset(front);
    toml_writing::lemma_cut_behind(front, '=', false, rest);
    assert(all =~= front + seq!['='] + rest);
}

/// A line of a long array goes to what is pending.
proof fn lemma_long_step(
    state: WorkspaceState,
    key: Seq<char>,
    items: Seq<Seq<char>>,
    item: Seq<char>,
    line_number: nat,
)
    requires
        key == "members"@ || key == "exclude"@,
        state.section == seq!["workspace"@],
        state.pending == long_start(key, items),
    ensures
        workspace::workspace_line(state, toml::written_string(item).push(','), line_number) == Ok::<
            WorkspaceState,
            Seq<char>,
        >(WorkspaceState { pending: long_start(key, items.push(item)), ..state }),
{
    let line = toml::written_string(item).push(',');
    let none = Seq::<char>::empty();
    lemma_own_keys();
    lemma_kept_line(item);
    lemma_item_texts_more(items, item);
    let pending = state.pending + line;
    assert(pending =~= long_start(key, items.push(item)));
    let rest = seq![' ', '['] + item_texts(items.push(item));
    assert(pending =~= key + seq![' ', '='] + rest);
    lemma_long_assignment(key, rest, line_number);
    assert(rest.last() == ',');
    assert(text::trimmed_end(rest) == rest);
    assert(rest.skip(rest.len() - 1)[0] == ',');
    assert(!text::ends(rest, seq![']']));
    assert(!workspace::declares(state.section));
}

proof fn lemma_own_keys()
    ensures
        toml_writing::bare("members"@),
        toml_writing::bare("exclude"@),
        "members"@ != "exclude"@,
{
    reveal_strlit("members");
    reveal_strlit("exclude");
    assert("exclude"@[0] == 'e' && "members"@[0] == 'm');
}

/// A line with an item has no comment, and no white space around it.
proof fn lemma_kept_line(item: Seq<char>)
    ensures
        ({
            let line = toml::written_string(item).push(',');
            &&& toml::without_comment(line) == line
            &&& text::trimmed(line) == line
        }),
{
    let none = Seq::<char>::empty();
    let written = toml::written_string(item);
    let line = written.push(',');
    toml_writing::lemma_quoted(item, '#', false, toml_writing::outset());
    assert forall|i: int| !#[trigger] scanner::cut_at(line, '#', false, i) by {
        toml_writing::lemma_uncut(written, '#', false);
        if 0 <= i < written.len() {
            assert(line.take(i) =~= written.take(i));
            assert(line[i] == written[i]);
            assert(!scanner::cut_at(written, '#', false, i));
        }
    }
    scanner::lemma_one_piece(line, '#', false);
    assert(line[0] == '"' && line.last() == ',');
    assert(none + line + none =~= line);
    text_writing::surrounding_white_space_is_trimmed(none, line, none);
}

/// The first line of a long array.
proof fn lemma_long_opening(state: WorkspaceState, key: Seq<char>, line_number: nat)
    requires
        key == "members"@ || key == "exclude"@,
        state.section == seq!["workspace"@],
        state.pending.len() == 0,
    ensures
        workspace::workspace_line(
            state,
            toml_writing::any_assignment(key, seq![' ', '[']),
            line_number,
        ) == Ok::<WorkspaceState, Seq<char>>(
            WorkspaceState { pending: long_start(key, seq![]), ..state },
        ),
{
    let none = Seq::<char>::empty();
    let rest = seq![' ', '['];
    lemma_own_keys();
    let line = toml_writing::any_assignment(key, rest);
    assert(line =~= key + seq![' ', '='] + rest);
    assert forall|i: int| 0 <= i < line.len() implies !scanner::is_quote(#[trigger] line[i])
        && line[i] != '#' by {
        if i < key.len() {
            assert(line[i] == key[i]);
            assert(toml_writing::bare_char(key[i]));
        }
    }
    assert forall|i: int| !#[trigger] scanner::cut_at(line, '#', false, i) by {}
    scanner::lemma_one_piece(line, '#', false);
    assert(toml_writing::bare_char(key[0]));
    assert(line[0] == key[0] && line.last() == '[');
    assert(none + line + none =~= line);
    text_writing::surrounding_white_space_is_trimmed(none, line, none);
    assert(state.pending + line =~= line);
    assert(line =~= long_start(key, seq![]));
    lemma_long_assignment(key, rest, line_number);
    assert(text::trimmed_end(rest) == rest);
    assert(rest.skip(rest.len() - 1)[0] == '[');
    assert(!text::ends(rest, seq![']']));
    assert(!workspace::declares(state.section));
}

/// The last line of a long array.
proof fn lemma_long_closing(
    state: WorkspaceState,
    key: Seq<char>,
    items: Seq<Seq<char>>,
    line_number: nat,
)
    requires
        key == "members"@ || key == "exclude"@,
        state.section == seq!["workspace"@],
        state.pending == long_start(key, items),
    ensures
        workspace::workspace_line(state, seq![']'], line_number) == Ok::<
            WorkspaceState,
            Seq<char>,
        >(
            if key == "members"@ {
                WorkspaceState { members: items, pending: seq![], ..state }
            } else {
                WorkspaceState { exclude: items, pending: seq![], ..state }
            },
        ),
{
    let none = Seq::<char>::empty();
    let line = seq![']'];
    lemma_own_keys();
    assert forall|i: int| !#[trigger] scanner::cut_at(line, '#', false, i) by {}
    scanner::lemma_one_piece(line, '#', false);
    assert(none + line + none =~= line);
    text_writing::surrounding_white_space_is_trimmed(none, line, none);
    let rest = seq![' ', '['] + item_texts(items) + seq![']'];
    assert(state.pending + line =~= key + seq![' ', '='] + rest);
    lemma_long_assignment(key, rest, line_number);
    lemma_long_array(items, line_number);
    assert(!workspace::declares(state.section));
}

/// The first lines of a long array are pending.
proof fn lemma_long_pending(
    before: Seq<Seq<char>>,
    state: WorkspaceState,
    key: Seq<char>,
    items: Seq<Seq<char>>,
)
    requires
        key == "members"@ || key == "exclude"@,
        state.section == seq!["workspace"@],
        state.pending.len() == 0,
        text::read_lines(before, workspace::workspace_start(), workspace::workspace_step()) == Ok::<
            WorkspaceState,
            Seq<char>,
        >(state),
    ensures
        text::read_lines(
            before + long_array_lines(key, items).drop_last(),
            workspace::workspace_start(),
            workspace::workspace_step(),
        ) == Ok::<WorkspaceState, Seq<char>>(
            WorkspaceState { pending: long_start(key, items), ..state },
        ),
    decreases items.len(),
{
    let start = workspace::workspace_start();
    let step = workspace::workspace_step();
    let opening = toml_writing::any_assignment(key, seq![' ', '[']);
    let lines = before + long_array_lines(key, items).drop_last();
    if items.len() == 0 {
        assert(lines =~= before.push(opening));
        text_writing::lemma_read_line_more(before, opening, start, step);
        lemma_long_opening(state, key, before.len() + 1);
        assert(items =~= seq![]);
    } else {
        let rest = items.drop_last();
        let front = before + long_array_lines(key, rest).drop_last();
        let line = toml::written_string(items.last()).push(',');
        lemma_long_pending(before, state, key, rest);
        assert(lines =~= front.push(line));
        text_writing::lemma_read_line_more(front, line, start, step);
        let pending = WorkspaceState { pending: long_start(key, rest), ..state };
        lemma_long_step(pending, key, rest, items.last(), front.len() + 1);
        assert(rest.push(items.last()) =~= items);
    }
}

/// The members and the exclusions of a workspace may be written over several lines.
pub proof fn long_arrays_are_read(
    before: Seq<Seq<char>>,
    state: WorkspaceState,
    items: Seq<Seq<char>>,
)
    requires
        state.section == seq!["workspace"@],
        state.pending.len() == 0,
        text::read_lines(before, workspace::workspace_start(), workspace::workspace_step()) == Ok::<
            WorkspaceState,
            Seq<char>,
        >(state),
    ensures
        text::read_lines(
            before + long_array_lines("members"@, items),
            workspace::workspace_start(),
            workspace::workspace_step(),
        ) == Ok::<WorkspaceState, Seq<char>>(WorkspaceState { members: items, ..state }),
        text::read_lines(
            before + long_array_lines("exclude"@, items),
            workspace::workspace_start(),
            workspace::workspace_step(),
        ) == Ok::<WorkspaceState, Seq<char>>(WorkspaceState { exclude: items, ..state }),
{
    lemma_long_closed(before, state, "members"@, items);
    lemma_long_closed(before, state, "exclude"@, items);
    lemma_own_keys();
    assert(state.pending =~= seq![]);
}

proof fn lemma_long_closed(
    before: Seq<Seq<char>>,
    state: WorkspaceState,
    key: Seq<char>,
    items: Seq<Seq<char>>,
)
    requires
        key == "members"@ || key == "exclude"@,
        state.section == seq!["workspace"@],
        state.pending.len() == 0,
        text::read_lines(before, workspace::workspace_start(), workspace::workspace_step()) == Ok::<
            WorkspaceState,
            Seq<char>,
        >(state),
    ensures
        text::read_lines(
            before + long_array_lines(key, items),
            workspace::workspace_start(),
            workspace::workspace_step(),
        ) == Ok::<WorkspaceState, Seq<char>>(
            if key == "members"@ {
                WorkspaceState { members: items, pending: seq![], ..state }
            } else {
                WorkspaceState { exclude: items, pending: seq![], ..state }
            },
        ),
{
    let start = workspace::workspace_start();
    let step = workspace::workspace_step();
    let front = before + long_array_lines(key, items).drop_last();
    lemma_long_pending(before, state, key, items);
    let pending = WorkspaceState { pending: long_start(key, items), ..state };
    lemma_long_closing(pending, key, items, front.len() + 1);
    text_writing::lemma_read_line_more(front, seq![']'], start, step);
    assert(front.push(seq![']']) =~= before + long_array_lines(key, items));
}

/// The lines of dependencies that a workspace shares.
pub open spec fn shared_lines(list: Seq<Declared>) -> Seq<Seq<char>> {
    seq![toml_writing::written_header(seq!["workspace"@, "dependencies"@])]
        + manifest_writing::declared_lines(list)
}

/// What is collected from the lines of shared dependencies.
proof fn lemma_collected(list: Seq<Declared>)
    requires
        forall|i: int| 0 <= i < list.len() ==> manifest_writing::well_declared(#[trigger] list[i]),
    ensures
        text::read_lines(
            shared_lines(list),
            workspace::workspace_start(),
            workspace::workspace_step(),
        ) == Ok::<WorkspaceState, Seq<char>>(
            WorkspaceState {
                present: true,
                section: seq!["workspace"@, "dependencies"@],
                declarations: text_writing::lines_text(
                    seq![toml_writing::written_header(seq!["dependencies"@])]
                        + manifest_writing::declared_lines(list),
                    seq!['\n'],
                ),
                ..workspace::workspace_start()
            },
        ),
    decreases list.len(),
{
    let start = workspace::workspace_start();
    let step = workspace::workspace_step();
    let keys = seq!["workspace"@, "dependencies"@];
    let header = toml_writing::written_header(keys);
    let own = seq![toml_writing::written_header(seq!["dependencies"@])];
    let none = Seq::<Seq<char>>::empty();
    if list.len() == 0 {
        assert(shared_lines(list) =~= none.push(header));
        text_writing::lemma_read_line_more(none, header, start, step);
        headers_begin_tables(start, keys, 1);
        let collected = own + manifest_writing::declared_lines(list);
        assert(collected =~= own);
        assert(own.drop_last() =~= none);
        reveal_with_fuel(text_writing::lines_text, 2);
        assert(text_writing::lines_text(own, seq!['\n']) =~= start.declarations
            + toml_writing::written_header(seq!["dependencies"@]) + seq!['\n']);
    } else {
        let rest = list.drop_last();
        let last = list.last();
        let line = manifest_writing::declared_line(last);
        assert forall|i: int| 0 <= i < rest.len() implies manifest_writing::well_declared(
            #[trigger] rest[i],
        ) by {
            assert(rest[i] == list[i]);
        }
        lemma_collected(rest);
        assert(manifest_writing::well_declared(list[list.len() - 1]));
        assert(shared_lines(list) =~= shared_lines(rest).push(line));
        text_writing::lemma_read_line_more(shared_lines(rest), line, start, step);
        manifest_writing::lemma_declared_text(last);
        let front = own + manifest_writing::declared_lines(rest);
        let all = own + manifest_writing::declared_lines(list);
        assert(all.drop_last() =~= front);
        assert(all.last() == line);
        reveal_strlit("\n");
        assert("\n"@ =~= seq!['\n']);
    }
}

/// Reading a manifest gives back the dependencies that its workspace shares, whatever
/// further fields are written of each.
pub proof fn shared_tables_read_back(list: Seq<Declared>)
    requires
        forall|i: int| 0 <= i < list.len() ==> manifest_writing::well_declared(#[trigger] list[i]),
    ensures
        workspace::workspace_of(text_writing::lines_text(shared_lines(list), seq!['\n'])) == Ok::<
            WorkspaceModel,
            Seq<char>,
        >(
            WorkspaceModel {
                present: true,
                members: seq![],
                exclude: seq![],
                dependencies: manifest_writing::listed(list),
            },
        ),
{
    let lines = shared_lines(list);
    toml_writing::headers_read_back(seq!["workspace"@, "dependencies"@], 1);
    assert forall|i: int| 0 <= i < lines.len() implies text_writing::is_line(
        #[trigger] lines[i],
    ) by {
        if i > 0 {
            assert(manifest_writing::well_declared(list[i - 1]));
            manifest_writing::lemma_declared_text(list[i - 1]);
            assert(lines[i] == manifest_writing::declared_line(list[i - 1]));
        }
    }
    text_writing::written_lines_read_back(lines, seq!['\n']);
    lemma_collected(list);
    manifest_writing::written_dependencies_read_back(list);
}

/// Lines may be indented.
pub proof fn indented_lines_mean_the_same(
    state: WorkspaceState,
    front: Seq<char>,
    line: Seq<char>,
    line_number: nat,
)
    requires
        text_writing::blank(front),
    ensures
        workspace::workspace_line(state, front + line, line_number) == workspace::workspace_line(
            state,
            line,
            line_number,
        ),
{
    toml_writing::indentation_is_of_no_account(front, line);
}

/// An array that is not closed by the end of the manifest is an error.
pub proof fn open_arrays_are_errors(contents: Seq<char>, state: WorkspaceState)
    requires
        text::read_lines(
            text::lines_of(contents),
            workspace::workspace_start(),
            workspace::workspace_step(),
        ) == Ok::<WorkspaceState, Seq<char>>(state),
        state.pending.len() > 0,
    ensures
        workspace::workspace_of(contents) is Err,
{
}

} // verus!
