//! How lines that declare dependencies are read from a manifest.

use vstd::prelude::*;

use crate::cargo_manifest;
use crate::cargo_manifest::{Dependencies, Dependency, ManifestState, Section};
use crate::scanner;
use crate::text;
use crate::toml;

verus! {

/// A line that declares a dependency of any version.
pub open spec fn plain_line(alias: Seq<char>) -> Seq<char> {
    toml::written_string(alias) + " = \"*\""@
}

/// A line that declares a dependency as the workspace says.
pub open spec fn inherited_line(alias: Seq<char>) -> Seq<char> {
    toml::written_string(alias) + ".workspace = true"@
}

/// A line that declares a dependency on a package under another name.
pub open spec fn renamed_line(alias: Seq<char>, package: Seq<char>) -> Seq<char> {
    toml::written_string(alias) + " = { package = "@ + toml::written_string(package) + " }"@
}

/// A key that is written as a string, with a blank behind it.
proof fn lemma_quoted_key(alias: Seq<char>, line_number: nat)
    ensures
        toml::dotted_key(toml::written_string(alias) + seq![' '], line_number) == Ok::<
            Seq<Seq<char>>,
            Seq<char>,
        >(seq![alias]),
{
    let quoted = toml::written_string(alias);
    let key = quoted + seq![' '];
    let none = Seq::<char>::empty();
    toml::lemma_scan_written(none, alias, seq![' ']);
    assert(none + quoted =~= quoted);
    scanner::lemma_lexed_on(quoted, seq![' ']);
    scanner::lemma_lexed_plain(scanner::lexed(quoted), seq![' ']);
    assert forall|i: int| !#[trigger] scanner::cut_at(key, '.', false, i) by {
        if 0 <= i < key.len() {
            assert(none + quoted + seq![' '] =~= key);
            if i >= quoted.len() {
                assert(key[i] == ' ');
            }
        }
    }
    scanner::lemma_one_piece(key, '.', false);
    toml::written_strings_read_back(alias, line_number);
    assert(text::trimmed(key) == quoted) by {
        assert(key[0] == '"');
        assert(key.drop_last() =~= quoted);
        assert(quoted.last() == '"');
        assert(text::trimmed_start(key) == key);
        assert(text::trimmed_end(key) == text::trimmed_end(quoted));
    }
    let parts = scanner::pieces(key, '.', false);
    assert(parts.drop_last() =~= seq![]);
    assert(toml::keys_of(parts, line_number) == Ok::<Seq<Seq<char>>, Seq<char>>(
        Seq::<Seq<char>>::empty().push(alias),
    ));
    assert(Seq::<Seq<char>>::empty().push(alias) =~= seq![alias]);
}

/// The first `=` of a line whose key is written as a string.
proof fn lemma_quoted_assignment(alias: Seq<char>, between: Seq<char>, value: Seq<char>)
    requires
        forall|i: int|
            0 <= i < between.len() ==> !scanner::is_quote(#[trigger] between[i]) && between[i]
                != '=',
    ensures
        toml::assignment_of(toml::written_string(alias) + between + seq!['='] + value) == Some(
            (toml::written_string(alias) + between, value),
        ),
{
    let quoted = toml::written_string(alias);
    let none = Seq::<char>::empty();
    let line = quoted + between + seq!['='] + value;
    let back = between + seq!['='] + value;
    let p = (quoted.len() + between.len()) as int;
    toml::lemma_scan_written(none, alias, back);
    assert(none + quoted =~= quoted);
    assert(none + quoted + back =~= line);
    scanner::lemma_lexed_on(quoted, between);
    scanner::lemma_lexed_plain(scanner::lexed(quoted), between);
    assert(line.take(p) =~= quoted + between);
    assert(line[p] == '=');
    assert forall|j: int| 0 <= j < p implies !scanner::cut_at(line, '=', false, j) by {
        if j >= quoted.len() {
            assert(line[j] == between[j - quoted.len()]);
        }
    }
    assert(scanner::first_cut_at(line, '=', false, p));
    scanner::lemma_first_cut(line, '=', false, p);
    assert(line.skip(p + 1) =~= value);
}

/// A line without `#` outside the string that it begins with has no comment.
proof fn lemma_no_comment(alias: Seq<char>, back: Seq<char>)
    requires
        forall|i: int| 0 <= i < back.len() ==> #[trigger] back[i] != '#',
    ensures
        toml::without_comment(toml::written_string(alias) + back) == toml::written_string(alias)
            + back,
{
    let quoted = toml::written_string(alias);
    let none = Seq::<char>::empty();
    let line = quoted + back;
    toml::lemma_scan_written(none, alias, back);
    assert(none + quoted + back =~= line);
    assert forall|i: int| !#[trigger] scanner::cut_at(line, '#', false, i) by {
        if quoted.len() <= i < line.len() {
            assert(line[i] == back[i - quoted.len()]);
        }
    }
    scanner::lemma_one_piece(line, '#', false);
}

/// The state behind one more declaration.
pub open spec fn declaring(state: ManifestState, alias: Seq<char>, dependency: Dependency) -> Result<
    ManifestState,
    Seq<char>,
> {
    Ok(
        ManifestState {
            dependencies: state.dependencies.insert(alias, dependency),
            section: state.section,
        },
    )
}

/// A dependency of any version counts under its alias.
pub proof fn plain_lines_declare(state: ManifestState, alias: Seq<char>, line_number: nat)
    requires
        state.section is Dependencies,
    ensures
        cargo_manifest::manifest_line(state, plain_line(alias), line_number) == declaring(
            state,
            alias,
            Dependency { package: None, inherited: false },
        ),
{
    reveal_strlit(" = \"*\"");
    let quoted = toml::written_string(alias);
    let line = plain_line(alias);
    let value = seq![' ', '"', '*', '"'];
    let starred = seq!['"', '*', '"'];
    lemma_no_comment(alias, " = \"*\""@);
    assert(line[0] == '"');
    assert(line.last() == '"');
    assert(text::trimmed(line) == line);
    assert(line =~= quoted + seq![' '] + seq!['='] + value);
    lemma_quoted_assignment(alias, seq![' '], value);
    lemma_quoted_key(alias, line_number);
    assert(text::trimmed(value) == starred) by {
        assert(value.skip(1) =~= starred);
        assert(text::trimmed_start(value) == text::trimmed_start(starred));
        assert(starred.last() == '"');
    }
    assert(text::trimmed(starred) == starred);
}

/// An inherited dependency keeps the package that was declared for it before.
pub proof fn inherited_lines_declare(state: ManifestState, alias: Seq<char>, line_number: nat)
    requires
        state.section is Dependencies,
    ensures
        cargo_manifest::manifest_line(state, inherited_line(alias), line_number) == declaring(
            state,
            alias,
            Dependency {
                package: cargo_manifest::declared(state.dependencies, alias).package,
                inherited: true,
            },
        ),
{
    let quoted = toml::written_string(alias);
    let line = inherited_line(alias);
    let between = seq!['.'] + "workspace"@ + seq![' '];
    let value = seq![' '] + "true"@;
    lemma_inherited_words();
    lemma_no_comment(alias, ".workspace = true"@);
    assert(line[0] == '"');
    assert(line.last() == 'e');
    assert(text::trimmed(line) == line);
    assert(line =~= quoted + between + seq!['='] + value);
    lemma_quoted_assignment(alias, between, value);
    lemma_workspace_key(alias, line_number);
}

/// The words of a line that declares an inherited dependency.
proof fn lemma_inherited_words()
    ensures
        ({
            let back = ".workspace = true"@;
            let between = seq!['.'] + "workspace"@ + seq![' '];
            let value = seq![' '] + "true"@;
            &&& back == between + seq!['='] + value
            &&& back.last() == 'e'
            &&& forall|i: int| 0 <= i < back.len() ==> #[trigger] back[i] != '#'
            &&& forall|i: int|
                0 <= i < between.len() ==> !scanner::is_quote(#[trigger] between[i]) && between[i]
                    != '='
            &&& text::trimmed(value) == "true"@
            &&& "package"@ != "workspace"@
        }),
{
    reveal_strlit(".workspace = true");
    reveal_strlit("workspace");
    reveal_strlit("package");
    reveal_strlit("true");
    let value = seq![' '] + "true"@;
    assert(".workspace = true"@ =~= seq!['.'] + "workspace"@ + seq![' '] + seq!['='] + value);
    assert(value.skip(1) =~= "true"@);
    assert(text::trimmed_start(value) == text::trimmed_start("true"@));
    assert("true"@.last() == 'e');
    assert("package"@.len() != "workspace"@.len());
}

/// A key that is written as a string with the field `workspace` behind it.
proof fn lemma_workspace_key(alias: Seq<char>, line_number: nat)
    ensures
        toml::dotted_key(
            toml::written_string(alias) + (seq!['.'] + "workspace"@ + seq![' ']),
            line_number,
        ) == Ok::<Seq<Seq<char>>, Seq<char>>(seq![alias, "workspace"@]),
{
    reveal_strlit("workspace");
    let quoted = toml::written_string(alias);
    let field = "workspace"@ + seq![' '];
    let back = seq!['.'] + "workspace"@ + seq![' '];
    let key = quoted + back;
    let none = Seq::<char>::empty();
    let p = quoted.len() as int;
    toml::lemma_scan_written(none, alias, back);
    assert(none + quoted =~= quoted);
    assert(none + quoted + back =~= key);
    scanner::lemma_lexed_on(quoted, back);
    scanner::lemma_lexed_plain(scanner::lexed(quoted), back);
    assert(key.take(p) =~= quoted);
    assert(key[p] == '.');
    assert(scanner::first_cut_at(key, '.', false, p));
    scanner::lemma_first_cut(key, '.', false, p);
    assert(key.skip(p + 1) =~= field);
    assert forall|i: int| !#[trigger] scanner::cut_at(field, '.', false, i) by {}
    scanner::lemma_one_piece(field, '.', false);
    let parts = scanner::pieces(key, '.', false);
    assert(parts =~= seq![quoted, field]);
    toml::written_keys_read_back(alias, line_number);
    assert(text::trimmed(field) == "workspace"@) by {
        assert(field[0] == 'w');
        assert(field.drop_last() =~= "workspace"@);
        assert("workspace"@.last() == 'e');
        assert(text::trimmed_start(field) == field);
        assert(text::trimmed_end(field) == text::trimmed_end("workspace"@));
    }
    assert("workspace"@[0] == 'w');
    let first = parts.drop_last();
    assert(first =~= seq![quoted]);
    assert(first.drop_last() =~= seq![]);
    assert(first.last() == quoted);
    assert(parts.last() == field);
    reveal_with_fuel(toml::keys_of, 3);
    assert(toml::keys_of(first, line_number) == Ok::<Seq<Seq<char>>, Seq<char>>(
        Seq::<Seq<char>>::empty().push(alias),
    ));
    assert(Seq::<Seq<char>>::empty().push(alias).push("workspace"@) =~= seq![
        alias,
        "workspace"@,
    ]);
}

/// The inside of an inline table that names a package.
spec fn package_field(package: Seq<char>) -> Seq<char> {
    " package = "@ + toml::written_string(package) + seq![' ']
}

/// The fields of an inline table that names a package.
proof fn lemma_package_field(package: Seq<char>, field: Seq<char>, line_number: nat)
    ensures
        toml::field_of(
            scanner::pieces(package_field(package), ',', true),
            field,
            line_number,
        ) == Ok::<Option<Seq<char>>, Seq<char>>(
            if field == "package"@ {
                Some(toml::written_string(package))
            } else {
                None
            },
        ),
{
    reveal_strlit(" package = ");
    reveal_strlit("package");
    let quoted = toml::written_string(package);
    let inside = package_field(package);
    let front = " package = "@;
    let none = Seq::<char>::empty();
    assert(none + front =~= front);
    scanner::lemma_lexed_on(none, front);
    scanner::lemma_lexed_plain(scanner::lexed(none), front);
    toml::lemma_scan_written(front, package, seq![' ']);
    assert forall|i: int| !#[trigger] scanner::cut_at(inside, ',', true, i) by {
        if 0 <= i < front.len() {
            assert(inside[i] == front[i]);
        } else if front.len() + quoted.len() <= i < inside.len() {
            assert(inside[i] == ' ');
        }
    }
    scanner::lemma_one_piece(inside, ',', true);
    let key = front.take(9);
    scanner::lemma_lexed_on(none, key);
    assert(none + key =~= key);
    scanner::lemma_lexed_plain(scanner::lexed(none), key);
    assert(inside.take(9) =~= key);
    assert(inside[9] == '=');
    assert forall|j: int| 0 <= j < 9 implies !scanner::cut_at(inside, '=', false, j) by {
        assert(inside[j] == front[j]);
    }
    assert(scanner::first_cut_at(inside, '=', false, 9));
    scanner::lemma_first_cut(inside, '=', false, 9);
    let value = inside.skip(10);
    assert(value =~= seq![' '] + quoted + seq![' ']);
    assert(text::trimmed(key) == "package"@) by {
        let rest = "package"@ + seq![' '];
        assert(key.skip(1) =~= rest);
        assert(rest[0] == 'p');
        assert(text::trimmed_start(key) == text::trimmed_start(rest));
        assert(rest.drop_last() =~= "package"@);
        assert("package"@.last() == 'e');
        assert(text::trimmed_end(rest) == text::trimmed_end("package"@));
    }
    assert("package"@[0] == 'p');
    assert(text::trimmed(value) == quoted) by {
        let rest = quoted + seq![' '];
        assert(value.skip(1) =~= rest);
        assert(rest[0] == '"');
        assert(text::trimmed_start(value) == text::trimmed_start(rest));
        assert(rest.drop_last() =~= quoted);
        assert(quoted.last() == '"');
        assert(text::trimmed_end(rest) == text::trimmed_end(quoted));
    }
    reveal_with_fuel(toml::field_of, 2);
    assert(seq![inside].skip(1) =~= seq![]);
    assert(seq![inside][0] == inside);
}

/// A renamed dependency counts under its package.
pub proof fn renamed_lines_declare(
    state: ManifestState,
    alias: Seq<char>,
    package: Seq<char>,
    line_number: nat,
)
    requires
        state.section is Dependencies,
    ensures
        cargo_manifest::manifest_line(state, renamed_line(alias, package), line_number)
            == declaring(state, alias, Dependency { package: Some(package), inherited: false }),
{
    reveal_strlit(" = { package = ");
    reveal_strlit(" package = ");
    reveal_strlit(" }");
    reveal_strlit("workspace");
    reveal_strlit("package");
    let quoted = toml::written_string(package);
    let line = renamed_line(alias, package);
    let table = seq!['{'] + package_field(package) + seq!['}'];
    let value = seq![' '] + table;
    lemma_renamed_comment(alias, package);
    assert(line[0] == '"');
    assert(line.last() == '}');
    assert(text::trimmed(line) == line);
    assert(line =~= toml::written_string(alias) + seq![' '] + seq!['='] + value);
    lemma_quoted_assignment(alias, seq![' '], value);
    lemma_quoted_key(alias, line_number);
    assert(text::trimmed(value) == table) by {
        assert(value.skip(1) =~= table);
        assert(table[0] == '{');
        assert(table.last() == '}');
        assert(text::trimmed_start(value) == text::trimmed_start(table));
    }
    assert(text::trimmed(table) == table);
    assert(toml::interior(table) =~= package_field(package));
    lemma_package_field(package, "package"@, line_number);
    lemma_package_field(package, "workspace"@, line_number);
    toml::written_strings_read_back(package, line_number);
    assert(text::trimmed(quoted) == quoted);
    assert("package"@.len() != "workspace"@.len());
}

/// A line that renames a dependency has no comment.
proof fn lemma_renamed_comment(alias: Seq<char>, package: Seq<char>)
    ensures
        toml::without_comment(renamed_line(alias, package)) == renamed_line(alias, package),
{
    reveal_strlit(" = { package = ");
    reveal_strlit(" }");
    let first = toml::written_string(alias);
    let second = toml::written_string(package);
    let middle = " = { package = "@;
    let back = " }"@;
    let line = renamed_line(alias, package);
    let front = first + middle;
    let none = Seq::<char>::empty();
    toml::lemma_scan_written(none, alias, middle + second + back);
    assert(none + first =~= first);
    assert(none + first + (middle + second + back) =~= line);
    scanner::lemma_lexed_on(first, middle);
    scanner::lemma_lexed_plain(scanner::lexed(first), middle);
    toml::lemma_scan_written(front, package, back);
    assert(front + second + back =~= line);
    assert forall|i: int| !#[trigger] scanner::cut_at(line, '#', false, i) by {
        if first.len() <= i < front.len() {
            assert(line[i] == middle[i - first.len()]);
        } else if front.len() + second.len() <= i < line.len() {
            assert(line[i] == back[i - front.len() - second.len()]);
        }
    }
    scanner::lemma_one_piece(line, '#', false);
}

/// The header of the dependencies.
proof fn lemma_dependencies_header(state: ManifestState, line_number: nat)
    ensures
        cargo_manifest::manifest_line(state, "[dependencies]"@, line_number) == Ok::<
            ManifestState,
            Seq<char>,
        >(ManifestState { dependencies: state.dependencies, section: Section::Dependencies }),
{
    reveal_strlit("[dependencies]");
    reveal_strlit("dependencies");
    reveal_strlit("[[");
    let header = "[dependencies]"@;
    let key = "dependencies"@;
    assert forall|i: int| !#[trigger] scanner::cut_at(header, '#', false, i) by {}
    scanner::lemma_one_piece(header, '#', false);
    assert(header[0] == '[' && header.last() == ']');
    assert(text::trimmed(header) == header);
    assert(!text::begins(header, "[["@)) by {
        assert(header.take(2)[1] == 'd');
        assert("[["@[1] == '[');
    }
    assert(toml::interior(header) =~= key);
    assert forall|i: int| !#[trigger] scanner::cut_at(key, '.', false, i) by {}
    scanner::lemma_one_piece(key, '.', false);
    let none = Seq::<char>::empty();
    assert(none + key =~= key);
    scanner::lemma_lexed_on(none, key);
    scanner::lemma_lexed_plain(scanner::lexed(none), key);
    assert(key[0] == 'd' && key.last() == 's');
    assert(text::trimmed(key) == key);
    let parts = scanner::pieces(key, '.', false);
    assert(parts.drop_last() =~= seq![]);
    let keys = Seq::<Seq<char>>::empty().push(key);
    assert(toml::keys_of(parts, line_number) == Ok::<Seq<Seq<char>>, Seq<char>>(keys));
    assert(cargo_manifest::first_group_at(keys, 0));
    assert forall|i: int| cargo_manifest::first_group_at(keys, i) implies i == 0 by {}
}

/// A declaration at the end of a manifest.
pub open spec fn declaration_entry(line: Seq<char>) -> Seq<char> {
    "[dependencies]\n"@ + line + seq!['\n']
}

proof fn lemma_appended(
    contents: Seq<char>,
    line: Seq<char>,
    alias: Seq<char>,
    dependency: Dependency,
)
    requires
        cargo_manifest::declared_dependencies(contents) is Ok,
        contents.len() == 0 || contents.last() == '\n',
        forall|i: int| 0 <= i < line.len() ==> line[i] != '\n',
        line.len() > 0,
        line.last() != '\r',
        ({
            let state = ManifestState {
                dependencies: cargo_manifest::declared_dependencies(contents)->Ok_0,
                section: Section::Dependencies,
            };
            cargo_manifest::manifest_line(state, line, text::lines_of(contents).len() + 2)
                == declaring(state, alias, dependency)
        }),
    ensures
        cargo_manifest::declared_dependencies(contents + declaration_entry(line)) == Ok::<
            Dependencies,
            Seq<char>,
        >(cargo_manifest::declared_dependencies(contents)->Ok_0.insert(alias, dependency)),
{
    let header = "[dependencies]"@;
    let before = text::lines_of(contents);
    let none = Seq::<char>::empty();
    let second = line + seq!['\n'] + none;
    assert("[dependencies]\n"@ =~= header + seq!['\n'] && text::without_return(header) == header
        && forall|j: int| 0 <= j < header.len() ==> header[j] != '\n') by {
        reveal_strlit("[dependencies]\n");
        reveal_strlit("[dependencies]");
    }
    assert(declaration_entry(line) =~= header + seq!['\n'] + second);
    text::lemma_line_in_front(header, second);
    text::lemma_line_in_front(line, none);
    assert(text::lines_of(none) =~= seq![]);
    assert(text::lines_of(declaration_entry(line)) =~= seq![header, line]);
    text::lemma_lines_together(contents, declaration_entry(line));
    let all = before + seq![header, line];
    let lines1 = before.push(header);
    assert(lines1.drop_last() =~= before);
    assert(all.drop_last() =~= lines1);
    let start = cargo_manifest::manifest_start();
    let step = cargo_manifest::manifest_step();
    let state = text::read_lines(before, start, step)->Ok_0;
    lemma_dependencies_header(state, before.len() + 1);
    let opened = ManifestState {
        dependencies: state.dependencies,
        section: Section::Dependencies,
    };
    assert(text::read_lines(lines1, start, step) == Ok::<ManifestState, Seq<char>>(opened));
    assert(text::read_lines(all, start, step) == declaring(opened, alias, dependency));
}

/// A dependency of any version at the end of a manifest is declared in addition to
/// those before it.
pub proof fn appended_dependencies_are_declared(contents: Seq<char>, alias: Seq<char>)
    requires
        cargo_manifest::declared_dependencies(contents) is Ok,
        contents.len() == 0 || contents.last() == '\n',
    ensures
        cargo_manifest::declared_dependencies(contents + declaration_entry(plain_line(alias)))
            == Ok::<Dependencies, Seq<char>>(
            cargo_manifest::declared_dependencies(contents)->Ok_0.insert(
                alias,
                Dependency { package: None, inherited: false },
            ),
        ),
{
    let state = ManifestState {
        dependencies: cargo_manifest::declared_dependencies(contents)->Ok_0,
        section: Section::Dependencies,
    };
    reveal_strlit(" = \"*\"");
    toml::written_strings_read_back(alias, 0);
    plain_lines_declare(state, alias, text::lines_of(contents).len() + 2);
    lemma_appended(
        contents,
        plain_line(alias),
        alias,
        Dependency { package: None, inherited: false },
    );
}

/// An inherited dependency at the end of a manifest is declared as inherited.
pub proof fn appended_inherited_dependencies_are_declared(contents: Seq<char>, alias: Seq<char>)
    requires
        cargo_manifest::declared_dependencies(contents) is Ok,
        contents.len() == 0 || contents.last() == '\n',
    ensures
        cargo_manifest::declared_dependencies(contents + declaration_entry(inherited_line(alias)))
            == Ok::<Dependencies, Seq<char>>(
            cargo_manifest::declared_dependencies(contents)->Ok_0.insert(
                alias,
                Dependency {
                    package: cargo_manifest::declared(
                        cargo_manifest::declared_dependencies(contents)->Ok_0,
                        alias,
                    ).package,
                    inherited: true,
                },
            ),
        ),
{
    let state = ManifestState {
        dependencies: cargo_manifest::declared_dependencies(contents)->Ok_0,
        section: Section::Dependencies,
    };
    reveal_strlit(".workspace = true");
    toml::written_strings_read_back(alias, 0);
    inherited_lines_declare(state, alias, text::lines_of(contents).len() + 2);
    lemma_appended(
        contents,
        inherited_line(alias),
        alias,
        Dependency {
            package: cargo_manifest::declared(state.dependencies, alias).package,
            inherited: true,
        },
    );
}

/// A renamed dependency at the end of a manifest is declared with its package.
pub proof fn appended_renamed_dependencies_are_declared(
    contents: Seq<char>,
    alias: Seq<char>,
    package: Seq<char>,
)
    requires
        cargo_manifest::declared_dependencies(contents) is Ok,
        contents.len() == 0 || contents.last() == '\n',
    ensures
        cargo_manifest::declared_dependencies(
            contents + declaration_entry(renamed_line(alias, package)),
        ) == Ok::<Dependencies, Seq<char>>(
            cargo_manifest::declared_dependencies(contents)->Ok_0.insert(
                alias,
                Dependency { package: Some(package), inherited: false },
            ),
        ),
{
    let state = ManifestState {
        dependencies: cargo_manifest::declared_dependencies(contents)->Ok_0,
        section: Section::Dependencies,
    };
    reveal_strlit(" = { package = ");
    reveal_strlit(" }");
    toml::written_strings_read_back(alias, 0);
    toml::written_strings_read_back(package, 0);
    renamed_lines_declare(state, alias, package, text::lines_of(contents).len() + 2);
    lemma_appended(
        contents,
        renamed_line(alias, package),
        alias,
        Dependency { package: Some(package), inherited: false },
    );
}

/// A line that declares a dependency stands on one line, without a comment or blanks
/// around it, and is no header.
pub open spec fn stands_alone(line: Seq<char>) -> bool {
    &&& toml::without_comment(line) == line
    &&& text::trimmed(line) == line
    &&& !cargo_manifest::is_header(line)
    &&& text::without_return(line) == line
    &&& forall|i: int| 0 <= i < line.len() ==> line[i] != '\n'
}

/// Lines that declare dependencies stand alone.
pub proof fn lemma_stands_alone(alias: Seq<char>, package: Seq<char>)
    ensures
        stands_alone(plain_line(alias)),
        stands_alone(renamed_line(alias, package)),
{
    reveal_strlit(" = \"*\"");
    reveal_strlit(" = { package = ");
    reveal_strlit(" }");
    toml::written_strings_read_back(alias, 0);
    toml::written_strings_read_back(package, 0);
    lemma_no_comment(alias, " = \"*\""@);
    lemma_renamed_comment(alias, package);
    let plain = plain_line(alias);
    let renamed = renamed_line(alias, package);
    assert(plain[0] == '"' && plain.last() == '"');
    assert(renamed[0] == '"' && renamed.last() == '}');
}

} // verus!
