//! Writing the tables and dependencies of a manifest, and how what is written is read.

use vstd::prelude::*;

use crate::cargo_manifest;
use crate::cargo_manifest::{Dependencies, Dependency, ManifestState, Section};
use crate::declarations;
use crate::scanner;
use crate::text;
use crate::text_writing;
use crate::toml;
use crate::toml_writing;
use crate::toml_writing::{Field, Value};

verus! {

/// Whether a field of a dependency has no say in which package it is.
pub open spec fn is_other_field(key: Seq<char>) -> bool {
    key != "package"@ && key != "workspace"@
}

/// Whether none of the fields has a say in which package a dependency is.
pub open spec fn are_other_fields(fields: Seq<Field>) -> bool {
    forall|i: int| 0 <= i < fields.len() ==> is_other_field((#[trigger] fields[i]).key)
}

/// A line that declares a dependency with an inline table.
pub open spec fn table_line(alias: Seq<char>, fields: Seq<Field>) -> Seq<char> {
    toml_writing::assignment_line(seq![alias], toml_writing::written_table(fields))
}

/// The words of fields differ from each other.
proof fn lemma_words()
    ensures
        "package"@ != "workspace"@,
        forall|value: Value|
            toml_writing::writable(value) ==> (#[trigger] toml_writing::written_value(value)
                == "true"@ <==> value == Value::Word("true"@)),
{
    reveal_strlit("package");
    reveal_strlit("workspace");
    reveal_strlit("true");
    assert("package"@.len() != "workspace"@.len());
    assert("true"@[0] == 't');
    assert forall|value: Value| toml_writing::writable(value) implies (
    #[trigger] toml_writing::written_value(value) == "true"@ <==> value == Value::Word(
        "true"@,
    )) by {
        let written = toml_writing::written_value(value);
        match value {
            Value::Text(_) => {
                assert(written[0] == '"');
            },
            Value::Literal(_) => {
                assert(written[0] == '\'');
            },
            Value::Texts(_) => {
                assert(written[0] == '[');
            },
            Value::Pairs(_) => {
                assert(written[0] == '{');
            },
            Value::Word(_) => {},
        }
    }
}

/// The value of the first field with a key can be written.
proof fn lemma_first_writable(fields: Seq<Field>, key: Seq<char>)
    requires
        toml_writing::all_writable(fields),
    ensures
        toml_writing::first_value(fields, key) matches Some(value) ==> toml_writing::writable(
            value,
        ),
    decreases fields.len(),
{
    if fields.len() > 0 {
        let rest = fields.skip(1);
        assert(toml_writing::writable(fields[0].value));
        assert forall|i: int| 0 <= i < rest.len() implies toml_writing::writable(
            (#[trigger] rest[i]).value,
        ) by {
            assert(rest[i] == fields[i + 1]);
        }
        lemma_first_writable(rest, key);
    }
}

/// An inline table names a package through its field `package`, and refers to the
/// workspace through its field `workspace`. No other field of it is read.
#[verifier::rlimit(40)]
pub proof fn inline_tables_declare(
    state: ManifestState,
    alias: Seq<char>,
    fields: Seq<Field>,
    package: Option<Seq<char>>,
    line_number: nat,
)
    requires
        state.section is Dependencies,
        toml_writing::all_writable(fields),
        match toml_writing::first_value(fields, "package"@) {
            Some(value) => package is Some && toml_writing::text_in(value) == package,
            None => package is None,
        },
    ensures
        cargo_manifest::manifest_line(state, table_line(alias, fields), line_number)
            == declarations::declaring(
            state,
            alias,
            Dependency {
                package,
                inherited: toml_writing::first_value(fields, "workspace"@) == Some(
                    Value::Word("true"@),
                ),
            },
        ),
{
    let keys = seq![alias];
    let value = toml_writing::written_table(fields);
    assert(toml_writing::is_value(value));
    toml_writing::assignments_read_back(keys, value, line_number);
    toml_writing::written_tables_read_back(fields, "package"@, line_number);
    toml_writing::written_tables_read_back(fields, "workspace"@, line_number);
    lemma_words();
    lemma_first_writable(fields, "package"@);
    lemma_first_writable(fields, "workspace"@);
}

/// Fields that have no say in which package a dependency is may stand in an inline table
/// in front of its package, behind it, or without it.
#[verifier::rlimit(40)]
pub proof fn other_fields_do_not_matter(
    state: ManifestState,
    alias: Seq<char>,
    front: Seq<Field>,
    package: Seq<char>,
    behind: Seq<Field>,
    line_number: nat,
)
    requires
        state.section is Dependencies,
        toml_writing::all_writable(front),
        toml_writing::all_writable(behind),
        are_other_fields(front),
        are_other_fields(behind),
    ensures
        cargo_manifest::manifest_line(state, table_line(alias, front), line_number)
            == declarations::declaring(
            state,
            alias,
            Dependency { package: None, inherited: false },
        ),
        cargo_manifest::manifest_line(
            state,
            table_line(
                alias,
                front + seq![Field { key: "package"@, value: Value::Text(package) }] + behind,
            ),
            line_number,
        ) == declarations::declaring(
            state,
            alias,
            Dependency { package: Some(package), inherited: false },
        ),
        cargo_manifest::manifest_line(
            state,
            table_line(
                alias,
                front + seq![Field { key: "workspace"@, value: Value::Word("true"@) }] + behind,
            ),
            line_number,
        ) == declarations::declaring(state, alias, Dependency { package: None, inherited: true }),
{
    let named = Field { key: "package"@, value: Value::Text(package) };
    let shared = Field { key: "workspace"@, value: Value::Word("true"@) };
    lemma_words();
    lemma_others_in(front, named, behind);
    lemma_others_in(front, shared, behind);
    assert(toml_writing::writable(shared.value)) by {
        reveal_strlit("true");
    }
    lemma_writable_together(front, named, behind);
    lemma_writable_together(front, shared, behind);
    inline_tables_declare(state, alias, front, None, line_number);
    inline_tables_declare(
        state,
        alias,
        front + seq![named] + behind,
        Some(package),
        line_number,
    );
    inline_tables_declare(state, alias, front + seq![shared] + behind, None, line_number);
}

/// The values around a field that has no say, or the only one.
proof fn lemma_others_in(front: Seq<Field>, field: Field, behind: Seq<Field>)
    requires
        are_other_fields(front),
        are_other_fields(behind),
    ensures
        forall|key: Seq<char>|
            !is_other_field(key) ==> #[trigger] toml_writing::first_value(
                front + seq![field] + behind,
                key,
            ) == if field.key == key {
                Some(field.value)
            } else {
                None
            },
        forall|key: Seq<char>|
            !is_other_field(key) ==> #[trigger] toml_writing::first_value(front, key) is None,
{
    assert forall|key: Seq<char>| !is_other_field(key) implies #[trigger] toml_writing::first_value(
        front + seq![field] + behind,
        key,
    ) == (if field.key == key {
        Some(field.value)
    } else {
        None
    }) by {
        let none = Seq::<Field>::empty();
        toml_writing::first_values_pass_over_other_fields(front, field, behind, key);
        if field.key != key {
            let most = front.push(field);
            assert forall|i: int| 0 <= i < most.len() implies (#[trigger] most[i]).key != key by {
                if i < front.len() {
                    assert(most[i] == front[i]);
                }
            }
            toml_writing::first_values_pass_over_other_fields(most, field, behind, key);
            assert(most + behind =~= front + seq![field] + behind);
            toml_writing::first_values_pass_over_other_fields(behind, field, none, key);
        }
    }
    assert forall|key: Seq<char>| !is_other_field(key) implies #[trigger] toml_writing::first_value(
        front,
        key,
    ) is None by {
        toml_writing::first_values_pass_over_other_fields(front, field, behind, key);
    }
}

proof fn lemma_writable_together(front: Seq<Field>, field: Field, behind: Seq<Field>)
    requires
        toml_writing::all_writable(front),
        toml_writing::writable(field.value),
        toml_writing::all_writable(behind),
    ensures
        toml_writing::all_writable(front + seq![field] + behind),
{
    let all = front + seq![field] + behind;
    assert forall|i: int| 0 <= i < all.len() implies toml_writing::writable(
        (#[trigger] all[i]).value,
    ) by {
        if i < front.len() {
            assert(all[i] == front[i]);
        } else if i > front.len() {
            assert(all[i] == behind[i - front.len() - 1]);
        }
    }
}

/// A dependency whose value is no inline table counts under its alias.
pub proof fn plain_values_declare(
    state: ManifestState,
    alias: Seq<char>,
    value: Value,
    line_number: nat,
)
    requires
        state.section is Dependencies,
        toml_writing::writable(value),
        !(value is Pairs),
    ensures
        cargo_manifest::manifest_line(
            state,
            toml_writing::assignment_line(seq![alias], toml_writing::written_value(value)),
            line_number,
        ) == declarations::declaring(
            state,
            alias,
            Dependency { package: None, inherited: false },
        ),
{
    let keys = seq![alias];
    let written = toml_writing::written_value(value);
    let none = Seq::<char>::empty();
    assert(toml_writing::is_value(written));
    toml_writing::assignments_read_back(keys, written, line_number);
    assert(text::trimmed(written)[0] != '{') by {
        lemma_no_table(value);
    }
}

/// A value that is no inline table does not begin as one.
proof fn lemma_no_table(value: Value)
    requires
        toml_writing::writable(value),
        !(value is Pairs),
    ensures
        text::trimmed(toml_writing::written_value(value))[0] != '{',
{
    let written = toml_writing::written_value(value);
    let none = Seq::<char>::empty();
    assert(none + written + none =~= written);
    match value {
        Value::Text(_) => {
            assert(written[0] == '"' && written.last() == '"');
        },
        Value::Literal(_) => {
            assert(written[0] == '\'' && written.last() == '\'');
        },
        Value::Texts(_) => {
            assert(written[0] == '[' && written.last() == ']');
        },
        Value::Pairs(_) => {},
        Value::Word(_) => {
            assert(toml_writing::bare_char(written[0]));
            assert(toml_writing::bare_char(written[written.len() - 1]));
        },
    }
    text_writing::surrounding_white_space_is_trimmed(none, written, none);
}

/// What a field written on its own says of a dependency: `package` names its package,
/// `workspace` refers to the workspace when it is true, and any other field says nothing.
pub open spec fn told_of(known: Dependency, field: Field) -> Dependency {
    if field.key == "package"@ && toml_writing::text_in(field.value) is Some {
        Dependency { package: toml_writing::text_in(field.value), ..known }
    } else if field.key == "workspace"@ {
        Dependency { inherited: field.value == Value::Word("true"@), ..known }
    } else {
        known
    }
}

/// Fields behind a dot and lines below a header of one dependency say the same of it:
/// they leave what was said of it before, but for the field they give.
#[verifier::rlimit(40)]
pub proof fn single_fields_declare(
    state: ManifestState,
    alias: Seq<char>,
    field: Field,
    line_number: nat,
)
    requires
        toml_writing::writable(field.value),
        field.key == "package"@ ==> toml_writing::text_in(field.value) is Some,
    ensures
        state.section is Dependencies ==> cargo_manifest::manifest_line(
            state,
            toml_writing::assignment_line(
                seq![alias, field.key],
                toml_writing::written_value(field.value),
            ),
            line_number,
        ) == declarations::declaring(
            state,
            alias,
            told_of(
                if state.dependencies.dom().contains(alias) {
                    state.dependencies[alias]
                } else {
                    Dependency { package: None, inherited: false }
                },
                field,
            ),
        ),
        state.section == (Section::Dependency { resolved: alias })
            ==> cargo_manifest::manifest_line(
            state,
            toml_writing::assignment_line(
                seq![field.key],
                toml_writing::written_value(field.value),
            ),
            line_number,
        ) == declarations::declaring(
            state,
            alias,
            told_of(
                if state.dependencies.dom().contains(alias) {
                    state.dependencies[alias]
                } else {
                    Dependency { package: None, inherited: false }
                },
                field,
            ),
        ),
{
    let written = toml_writing::written_value(field.value);
    assert(toml_writing::is_value(written));
    toml_writing::assignments_read_back(seq![alias, field.key], written, line_number);
    toml_writing::assignments_read_back(seq![field.key], written, line_number);
    lemma_words();
    match field.value {
        Value::Text(text) => {
            toml::written_strings_read_back(text, line_number);
        },
        Value::Literal(text) => {
            toml::literal_strings_stand_for_themselves(text, line_number);
        },
        _ => {},
    }
}

/// Tables that declare no dependencies say nothing.
pub proof fn lines_of_other_tables_declare_nothing(
    state: ManifestState,
    line: Seq<char>,
    line_number: nat,
)
    requires
        state.section is Other,
        !cargo_manifest::is_header(text::trimmed(toml::without_comment(line))),
    ensures
        cargo_manifest::manifest_line(state, line, line_number) == Ok::<ManifestState, Seq<char>>(
            state,
        ),
{
}

/// Lines that neither begin a table nor assign anything say nothing.
pub proof fn lines_without_assignments_declare_nothing(
    state: ManifestState,
    line: Seq<char>,
    line_number: nat,
)
    requires
        line.len() > 0 ==> line[0] != '[',
        forall|i: int| 0 <= i < line.len() ==> #[trigger] line[i] != '=',
        line.len() > 0 ==> !text::white_space(line[0]),
    ensures
        cargo_manifest::manifest_line(state, line, line_number) == Ok::<ManifestState, Seq<char>>(
            state,
        ),
{
    let held = toml::without_comment(line);
    assert(held.len() <= line.len() && held == line.take(held.len() as int)) by {
        match scanner::first_cut(line, '#', false) {
            Some(i) => {
                assert(scanner::first_cut_at(line, '#', false, i));
            },
            None => {
                assert(line.take(line.len() as int) =~= line);
            },
        }
    }
    let (before, behind) = text_writing::lemma_trimmed_parts(held);
    let inner = text::trimmed(held);
    if before.len() > 0 {
        assert(held[0] == before[0]);
        assert(text::white_space(before[0]));
        assert(held[0] == line[0]);
    }
    assert(inner =~= line.take(inner.len() as int));
    assert forall|i: int| !#[trigger] scanner::cut_at(inner, '=', false, i) by {
        if 0 <= i < inner.len() {
            assert(inner[i] == line[i]);
        }
    }
    scanner::lemma_one_piece(inner, '=', false);
}

/// What follows a comment sign at the end of a line is of no account.
pub proof fn comments_declare_nothing(
    state: ManifestState,
    line: Seq<char>,
    comment: Seq<char>,
    line_number: nat,
)
    requires
        toml::without_comment(line) == line,
        scanner::lexed(line).quote is None,
    ensures
        cargo_manifest::manifest_line(state, line + seq!['#'] + comment, line_number)
            == cargo_manifest::manifest_line(state, line, line_number),
{
    toml_writing::comments_are_taken_off(line, comment);
}

/// Only `dependencies`, `dev-dependencies` and `build-dependencies` declare dependencies,
/// each at the top of a manifest or below a target: one per line, or a single one in a
/// table below.
pub proof fn tables_of_dependencies(
    state: ManifestState,
    front: Seq<Seq<char>>,
    group: Seq<char>,
    alias: Seq<char>,
    line_number: nat,
)
    requires
        group == "dependencies"@ || group == "dev-dependencies"@ || group
            == "build-dependencies"@,
        front.len() > 0 ==> front[0] == "target"@,
        forall|i: int|
            0 <= i < front.len() ==> #[trigger] front[i] != "dependencies"@ && front[i]
                != "dev-dependencies"@ && front[i] != "build-dependencies"@,
    ensures
        cargo_manifest::manifest_line(
            state,
            toml_writing::written_header(front + seq![group]),
            line_number,
        ) == Ok::<ManifestState, Seq<char>>(
            ManifestState {
                dependencies: state.dependencies,
                section: Section::Dependencies,
            },
        ),
        cargo_manifest::manifest_line(
            state,
            toml_writing::written_header(front + seq![group, alias]),
            line_number,
        ) == Ok::<ManifestState, Seq<char>>(
            ManifestState {
                dependencies: if state.dependencies.dom().contains(alias) {
                    state.dependencies
                } else {
                    state.dependencies.insert(
                        alias,
                        Dependency { package: None, inherited: false },
                    )
                },
                section: Section::Dependency { resolved: alias },
            },
        ),
{
    let many = front + seq![group];
    let one = front + seq![group, alias];
    toml_writing::headers_read_back(many, line_number);
    toml_writing::headers_read_back(one, line_number);
    lemma_group_at(many, front.len() as int);
    lemma_group_at(one, front.len() as int);
    assert(many[0] == "target"@ || front.len() == 0);
    assert(one[0] == "target"@ || front.len() == 0);
    if state.dependencies.dom().contains(alias) {
        assert(state.dependencies.insert(alias, state.dependencies[alias])
            =~= state.dependencies);
    }
}

/// The section below the first group of a table's name.
proof fn lemma_group_at(keys: Seq<Seq<char>>, at: int)
    requires
        0 <= at < keys.len(),
        cargo_manifest::is_group(keys[at]),
        forall|i: int| 0 <= i < at ==> !cargo_manifest::is_group(#[trigger] keys[i]),
        at == 0 || keys[0] == "target"@,
    ensures
        cargo_manifest::section_of_keys(keys) == if keys.len() - at == 1 {
            Section::Dependencies
        } else if keys.len() - at == 2 {
            Section::Dependency { resolved: keys[at + 1] }
        } else {
            Section::Other
        },
{
    assert(cargo_manifest::first_group_at(keys, at));
    let i = choose|i: int|
        cargo_manifest::first_group_at(keys, i) && (i == 0 || keys[0] == "target"@);
    assert(cargo_manifest::first_group_at(keys, i));
    if i < at {
        assert(!cargo_manifest::is_group(keys[i]));
    } else if at < i {
        assert(!cargo_manifest::is_group(keys[at]));
    }
}

/// Any other table declares nothing: one whose name begins neither with a group of
/// dependencies nor with `target`, or holds no group at all.
pub proof fn other_tables(state: ManifestState, keys: Seq<Seq<char>>, line_number: nat)
    requires
        keys.len() > 0,
        keys[0] != "target"@ && keys[0] != "dependencies"@ && keys[0] != "dev-dependencies"@
            && keys[0] != "build-dependencies"@ || forall|i: int|
            0 <= i < keys.len() ==> #[trigger] keys[i] != "dependencies"@ && keys[i]
                != "dev-dependencies"@ && keys[i] != "build-dependencies"@,
    ensures
        cargo_manifest::manifest_line(
            state,
            toml_writing::written_header(keys),
            line_number,
        ) == Ok::<ManifestState, Seq<char>>(
            ManifestState { dependencies: state.dependencies, section: Section::Other },
        ),
{
    toml_writing::headers_read_back(keys, line_number);
}

/// A dependency with the fields of its inline table.
pub struct Declared {
    pub alias: Seq<char>,
    pub package: Option<Seq<char>>,
    pub inherited: bool,
    pub front: Seq<Field>,
    pub behind: Seq<Field>,
}

/// The fields that say which package a dependency is.
pub open spec fn telling_fields(declared: Declared) -> Seq<Field> {
    match (declared.package, declared.inherited) {
        (None, false) => seq![],
        (None, true) => seq![Field { key: "workspace"@, value: Value::Word("true"@) }],
        (Some(package), false) => seq![Field { key: "package"@, value: Value::Text(package) }],
        (Some(package), true) => seq![
            Field { key: "package"@, value: Value::Text(package) },
            Field { key: "workspace"@, value: Value::Word("true"@) },
        ],
    }
}

/// Whether the further fields of a dependency can be written and say nothing.
pub open spec fn well_declared(declared: Declared) -> bool {
    &&& toml_writing::all_writable(declared.front)
    &&& toml_writing::all_writable(declared.behind)
    &&& are_other_fields(declared.front)
    &&& are_other_fields(declared.behind)
}

/// The line that declares a dependency.
pub open spec fn declared_line(declared: Declared) -> Seq<char> {
    table_line(declared.alias, declared.front + telling_fields(declared) + declared.behind)
}

/// The lines that declare dependencies.
pub open spec fn declared_lines(list: Seq<Declared>) -> Seq<Seq<char>> {
    list.map_values(|declared: Declared| declared_line(declared))
}

/// The dependencies of a list, where the last of an alias counts.
pub open spec fn listed(list: Seq<Declared>) -> Dependencies
    decreases list.len(),
{
    if list.len() == 0 {
        Map::empty()
    } else {
        listed(list.drop_last()).insert(
            list.last().alias,
            Dependency { package: list.last().package, inherited: list.last().inherited },
        )
    }
}

/// The line of a dependency declares it.
#[verifier::rlimit(40)]
proof fn lemma_declared_line(state: ManifestState, declared: Declared, line_number: nat)
    requires
        state.section is Dependencies,
        well_declared(declared),
    ensures
        cargo_manifest::manifest_line(state, declared_line(declared), line_number)
            == declarations::declaring(
            state,
            declared.alias,
            Dependency { package: declared.package, inherited: declared.inherited },
        ),
        text_writing::is_line(declared_line(declared)),
        toml_writing::all_writable(
            declared.front + telling_fields(declared) + declared.behind,
        ),
{
    let front = declared.front;
    let behind = declared.behind;
    let none = Seq::<Field>::empty();
    let named = Field {
        key: "package"@,
        value: Value::Text(
            match declared.package {
                Some(package) => package,
                None => seq![],
            },
        ),
    };
    let shared = Field { key: "workspace"@, value: Value::Word("true"@) };
    let fields = front + telling_fields(declared) + behind;
    lemma_words();
    assert(toml_writing::writable(shared.value)) by {
        reveal_strlit("true");
    }
    if declared.package is None && !declared.inherited {
        assert(fields =~= front + behind);
        let all = front + behind;
        assert forall|i: int| 0 <= i < all.len() implies is_other_field((#[trigger] all[i]).key)
            && toml_writing::writable(all[i].value) by {
            if i < front.len() {
                assert(all[i] == front[i]);
            } else {
                assert(all[i] == behind[i - front.len()]);
            }
        }
        lemma_others_in(all, shared, none);
    } else if declared.package is None {
        lemma_others_in(front, shared, behind);
        lemma_writable_together(front, shared, behind);
    } else if !declared.inherited {
        lemma_others_in(front, named, behind);
        lemma_writable_together(front, named, behind);
    } else {
        assert(fields =~= front + seq![named] + (seq![shared] + behind));
        let rest = seq![shared] + behind;
        assert(none + seq![shared] + behind =~= rest);
        lemma_writable_together(none, shared, behind);
        lemma_writable_together(front, named, rest);
        toml_writing::first_values_pass_over_other_fields(front, named, rest, "package"@);
        let most = front.push(named);
        assert forall|i: int| 0 <= i < most.len() implies (#[trigger] most[i]).key
            != "workspace"@ by {
            if i < front.len() {
                assert(most[i] == front[i]);
            }
        }
        toml_writing::first_values_pass_over_other_fields(most, shared, behind, "workspace"@);
        assert(most + seq![shared] + behind =~= fields);
    }
    assert(toml_writing::all_writable(fields));
    inline_tables_declare(state, declared.alias, fields, declared.package, line_number);
    let value = toml_writing::written_table(fields);
    assert(toml_writing::is_value(value));
    toml_writing::assignments_read_back(seq![declared.alias], value, line_number);
}

/// The line of a dependency has no comment and no white space around it, and begins no
/// table.
pub proof fn lemma_declared_text(declared: Declared)
    requires
        well_declared(declared),
    ensures
        ({
            let line = declared_line(declared);
            &&& toml::without_comment(line) == line
            &&& text::trimmed(line) == line
            &&& !cargo_manifest::is_header(line)
            &&& text_writing::is_line(line)
        }),
{
    let fields = declared.front + telling_fields(declared) + declared.behind;
    let state = ManifestState { dependencies: Map::empty(), section: Section::Dependencies };
    lemma_declared_line(state, declared, 0);
    let value = toml_writing::written_table(fields);
    assert(toml_writing::is_value(value));
    toml_writing::assignments_read_back(seq![declared.alias], value, 0);
}

/// Reading a manifest gives back the dependencies that were written to it, whatever
/// further fields are written of each.
pub proof fn written_dependencies_read_back(list: Seq<Declared>)
    requires
        forall|i: int| 0 <= i < list.len() ==> well_declared(#[trigger] list[i]),
    ensures
        cargo_manifest::declared_dependencies(
            text_writing::lines_text(
                seq![toml_writing::written_header(seq!["dependencies"@])] + declared_lines(list),
                seq!['\n'],
            ),
        ) == Ok::<Dependencies, Seq<char>>(listed(list)),
{
    let header = toml_writing::written_header(seq!["dependencies"@]);
    let lines = seq![header] + declared_lines(list);
    toml_writing::headers_read_back(seq!["dependencies"@], 1);
    assert forall|i: int| 0 <= i < lines.len() implies text_writing::is_line(
        #[trigger] lines[i],
    ) by {
        if i > 0 {
            let state = ManifestState { dependencies: Map::empty(), section: Section::Dependencies };
            assert(well_declared(list[i - 1]));
            lemma_declared_line(state, list[i - 1], 0);
            assert(lines[i] == declared_line(list[i - 1]));
        }
    }
    text_writing::written_lines_read_back(lines, seq!['\n']);
    lemma_listed(list);
}

proof fn lemma_listed(list: Seq<Declared>)
    requires
        forall|i: int| 0 <= i < list.len() ==> well_declared(#[trigger] list[i]),
    ensures
        text::read_lines(
            seq![toml_writing::written_header(seq!["dependencies"@])] + declared_lines(list),
            cargo_manifest::manifest_start(),
            cargo_manifest::manifest_step(),
        ) == Ok::<ManifestState, Seq<char>>(
            ManifestState { dependencies: listed(list), section: Section::Dependencies },
        ),
    decreases list.len(),
{
    let start = cargo_manifest::manifest_start();
    let step = cargo_manifest::manifest_step();
    let header = toml_writing::written_header(seq!["dependencies"@]);
    let lines = seq![header] + declared_lines(list);
    if list.len() == 0 {
        let none = Seq::<Seq<char>>::empty();
        assert(lines =~= none.push(header));
        text_writing::lemma_read_line_more(none, header, start, step);
        tables_of_dependencies(start, none, "dependencies"@, seq![], 1);
        assert(none + seq!["dependencies"@] =~= seq!["dependencies"@]);
    } else {
        let rest = list.drop_last();
        let front = seq![header] + declared_lines(rest);
        assert forall|i: int| 0 <= i < rest.len() implies well_declared(#[trigger] rest[i]) by {
            assert(rest[i] == list[i]);
        }
        lemma_listed(rest);
        assert(well_declared(list[list.len() - 1]));
        assert(lines =~= front.push(declared_line(list.last())));
        text_writing::lemma_read_line_more(front, declared_line(list.last()), start, step);
        let state = ManifestState { dependencies: listed(rest), section: Section::Dependencies };
        lemma_declared_line(state, list.last(), front.len() + 1);
    }
}

/// Array tables declare no dependencies, whatever their name.
pub proof fn array_tables_declare_nothing(
    state: ManifestState,
    name: Seq<char>,
    line_number: nat,
)
    requires
        toml::without_comment("[["@ + name + "]]"@) == "[["@ + name + "]]"@,
    ensures
        cargo_manifest::manifest_line(state, "[["@ + name + "]]"@, line_number) == Ok::<
            ManifestState,
            Seq<char>,
        >(ManifestState { dependencies: state.dependencies, section: Section::Other }),
{
    reveal_strlit("[[");
    reveal_strlit("]]");
    let line = "[["@ + name + "]]"@;
    let none = Seq::<char>::empty();
    assert(line[0] == '[' && line.last() == ']');
    assert(none + line + none =~= line);
    text_writing::surrounding_white_space_is_trimmed(none, line, none);
    assert(line.take(2) =~= "[["@);
}

/// Lines may be indented.
pub proof fn indented_lines_declare_the_same(
    state: ManifestState,
    front: Seq<char>,
    line: Seq<char>,
    line_number: nat,
)
    requires
        text_writing::blank(front),
    ensures
        cargo_manifest::manifest_line(state, front + line, line_number)
            == cargo_manifest::manifest_line(state, line, line_number),
{
    toml_writing::indentation_is_of_no_account(front, line);
}

} // verus!
