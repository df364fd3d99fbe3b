//! Reading `Cargo.lock`.

use vstd::prelude::*;
use vstd::string::*;

use crate::collections;
use crate::collections::{Packages, PackageVersions, TextMap};
use crate::external;
use crate::external::quoted;
use crate::order;
use crate::text;
use crate::text::{
    characters, ends_with, format_decimal, lines, same_text, starts_with, trim,
};
use crate::text_writing;
use crate::toml;
use crate::toml::parse_toml_string;

verus! {

/// The value that a line assigns to `key`.
pub open spec fn assigned(line: Seq<char>, key: Seq<char>) -> Option<Seq<char>> {
    let p = text::position(line, '=') as int;
    if p < line.len() && text::trimmed(line.take(p)) == key {
        Some(text::trimmed(line.skip(p + 1)))
    } else {
        None
    }
}

/// The value that a line assigns to `key`.
pub fn assignment<'a>(line: &'a str, key: &str) -> (value: Option<&'a str>)
    ensures
        match value {
            Some(value) => assigned(line@, key@) == Some(value@),
            None => assigned(line@, key@) is None,
        },
{
    let chars = characters(line);
    let mut i: usize = 0;
    while i < chars.len() && chars[i] != '='
        invariant
            chars@ == line@,
            i <= chars.len(),
            forall|j: int| 0 <= j < i ==> line@[j] != '=',
        decreases chars.len() - i,
    {
        i += 1;
    }
    proof {
        text::lemma_position(line@, '=', i as int);
    }
    if i == chars.len() {
        return None;
    }
    assert(line@.take(i as int) =~= line@.subrange(0, i as int));
    assert(line@.skip(i + 1) =~= line@.subrange(i + 1, chars.len() as int));
    if same_text(trim(line.substring_char(0, i)), key) {
        Some(trim(line.substring_char(i + 1, chars.len())))
    } else {
        None
    }
}

/// The error of a package without a name.
pub open spec fn nameless(line_number: nat) -> Seq<char> {
    "package ending before line "@ + text::decimal(line_number) + " does not have a name"@
}

/// The error of a package without a version.
pub open spec fn versionless(shown_name: Seq<char>, line_number: nat) -> Seq<char> {
    "package "@ + shown_name + " ending before line "@ + text::decimal(line_number)
        + " does not have a version"@
}

/// The error of a package without a version.
pub fn versionless_error(shown_name: &str, line_number: usize) -> (error: String)
    ensures
        error@ == versionless(shown_name@, line_number as nat),
{
    let mut error = "package ".to_owned();
    error.append(shown_name);
    error.append(" ending before line ");
    error.append(format_decimal(line_number).as_str());
    error.append(" does not have a version");
    error
}

/// The name and version of a package that ends before a line.
pub open spec fn package_of(
    name: Option<Seq<char>>,
    version: Option<Seq<char>>,
    line_number: nat,
) -> Result<(Seq<char>, Seq<char>), Seq<char>> {
    match (name, version) {
        (None, _) => Err(nameless(line_number)),
        (Some(name), None) => Err(versionless(external::debug_text(name), line_number)),
        (Some(name), Some(version)) => Ok((name, version)),
    }
}

/// Records a package that ends before a line.
pub fn add_package(
    packages: &mut Packages,
    name: Option<String>,
    version: Option<String>,
    line_number: usize,
) -> (added: Result<(), String>)
    ensures
        match (
            added,
            package_of(name.deep_view(), version.deep_view(), line_number as nat),
        ) {
            (Ok(_), Ok((name, version))) => final(packages)@ == collections::with_version(
                old(packages)@,
                name,
                version,
            ),
            (Err(error), Err(meant)) => error@ == meant && *final(packages) == *old(packages),
            _ => false,
        },
{
    match (name, version) {
        (None, _) => {
            let mut error = "package ending before line ".to_owned();
            error.append(format_decimal(line_number).as_str());
            error.append(" does not have a name");
            Err(error)
        },
        (Some(name), None) => Err(
            versionless_error(quoted(name.as_str()).as_str(), line_number),
        ),
        (Some(name), Some(version)) => {
            packages.add(name, version);
            Ok(())
        },
    }
}

/// What the lines of a lockfile say so far: the packages that ended, and the name
/// and version of the package that has not ended yet.
pub struct LockState {
    pub found: Set<(Seq<char>, Seq<char>)>,
    pub open: Option<(Option<Seq<char>>, Option<Seq<char>>)>,
}

/// The packages when the open one ends before a line.
pub open spec fn ended(state: LockState, line_number: nat) -> Result<
    Set<(Seq<char>, Seq<char>)>,
    Seq<char>,
> {
    match state.open {
        None => Ok(state.found),
        Some((name, version)) => match package_of(name, version, line_number) {
            Err(e) => Err(e),
            Ok(package) => Ok(state.found.insert(package)),
        },
    }
}

/// Whether a line begins an array table.
pub open spec fn is_table_header(line: Seq<char>) -> bool {
    text::begins(line, "[["@) && text::ends(line, "]]"@)
}

/// What one line of a lockfile adds.
pub open spec fn lock_line(state: LockState, line: Seq<char>, line_number: nat) -> Result<
    LockState,
    Seq<char>,
> {
    let line = text::trimmed(line);
    if is_table_header(line) {
        match ended(state, line_number) {
            Err(e) => Err(e),
            Ok(found) => Ok(
                LockState {
                    found,
                    open: if line == "[[package]]"@ {
                        Some((None, None))
                    } else {
                        None
                    },
                },
            ),
        }
    } else {
        match state.open {
            None => Ok(state),
            Some((name, version)) => match assigned(line, "name"@) {
                Some(value) => match toml::string_of(value, line_number) {
                    Err(e) => Err(e),
                    Ok(read) => Ok(LockState { open: Some((Some(read), version)), ..state }),
                },
                None => match assigned(line, "version"@) {
                    Some(value) => match toml::string_of(value, line_number) {
                        Err(e) => Err(e),
                        Ok(read) => Ok(LockState { open: Some((name, Some(read))), ..state }),
                    },
                    None => Ok(state),
                },
            },
        }
    }
}

/// Before the first line.
pub open spec fn lock_start() -> LockState {
    LockState { found: Set::empty(), open: None }
}

/// What each line of a lockfile adds.
pub open spec fn lock_step() -> spec_fn(LockState, Seq<char>, nat) -> Result<LockState, Seq<char>> {
    |state: LockState, line: Seq<char>, line_number: nat| lock_line(state, line, line_number)
}

/// The names and versions of the packages in a lockfile.
pub open spec fn locked(contents: Seq<char>) -> Result<Set<(Seq<char>, Seq<char>)>, Seq<char>> {
    let lines = text::lines_of(contents);
    match text::read_lines(lines, lock_start(), lock_step()) {
        Err(e) => Err(e),
        Ok(state) => ended(state, lines.len() + 1),
    }
}

/// The versions of each package in a lockfile.
pub open spec fn locked_versions(contents: Seq<char>) -> Result<PackageVersions, Seq<char>> {
    match locked(contents) {
        Err(e) => Err(e),
        Ok(found) => Ok(collections::grouped(found)),
    }
}

/// The versions of each package in a lockfile.
pub fn parse_cargo_lockfile(contents: &str) -> (read: Result<Packages, String>)
    ensures
        text::outcome(read) == locked_versions(contents@),
{
    let mut packages: Packages = TextMap::new();
    let mut in_package = false;
    let mut name: Option<String> = None;
    let mut version: Option<String> = None;
    let all = lines(contents);
    let ghost listing = all.deep_view();
    let ghost mut state = lock_start();
    let ghost mut header: int = 0;
    let length: usize = contents.unicode_len();
    proof {
        text::lemma_lines_fit(contents@);
        assert(listing.take(0) =~= seq![]);
        assert(packages@ =~= Map::<Seq<char>, Set<Seq<char>>>::empty());
        collections::lemma_no_version(Map::<Seq<char>, Set<Seq<char>>>::empty());
    }
    for index in 0..all.len()
        invariant
            listing == all.deep_view(),
            listing == text::lines_of(contents@),
            text::read_lines(listing.take(index as int), lock_start(), lock_step()) == Ok::<
                LockState,
                Seq<char>,
            >(state),
            packages@ == collections::grouped(state.found),
            in_package == (state.open is Some),
            state.open matches Some(open) ==> open == (name.deep_view(), version.deep_view()),
            !in_package ==> name is None && version is None,
            in_package ==> 0 <= header < index && listing[header].len() >= 2,
    {
        let line_number: usize = index + 1;
        proof {
            text::lemma_read_line(listing, index as int, lock_start(), lock_step());
            assert(listing[index as int] == all@[index as int]@);
            if lock_line(state, listing[index as int], line_number as nat) is Err {
                text::lemma_read_fault(listing, index + 1, lock_start(), lock_step());
            }
        }
        let trimmed = trim(all[index].as_str());
        let ghost before = state;
        if starts_with(trimmed, "[[") && ends_with(trimmed, "]]") {
            if in_package {
                match add_package(&mut packages, name.take(), version.take(), line_number) {
                    Ok(_) => {},
                    Err(error) => {
                        return Err(error);
                    },
                }
                proof {
                    let (n, v) = state.open->Some_0;
                    collections::lemma_one_more_version(
                        Map::<Seq<char>, Set<Seq<char>>>::empty(),
                        state.found,
                        n->Some_0,
                        v->Some_0,
                    );
                }
            }
            in_package = same_text(trimmed, "[[package]]");
            proof {
                reveal_strlit("[[");
                text::lemma_trimmed_len(listing[index as int]);
                header = index as int;
            }
        } else if in_package {
            if let Some(value) = assignment(trimmed, "name") {
                match parse_toml_string(value, line_number) {
                    Ok(read) => {
                        name = Some(read);
                    },
                    Err(error) => {
                        return Err(error);
                    },
                }
            } else if let Some(value) = assignment(trimmed, "version") {
                match parse_toml_string(value, line_number) {
                    Ok(read) => {
                        version = Some(read);
                    },
                    Err(error) => {
                        return Err(error);
                    },
                }
            }
        }
        proof {
            state = lock_line(before, listing[index as int], line_number as nat)->Ok_0;
        }
    }
    assert(listing.take(all.len() as int) =~= listing);
    if in_package {
        assert(all.len() + listing[header].len() <= length + 1);
        match add_package(&mut packages, name, version, all.len() + 1) {
            Ok(_) => {},
            Err(error) => {
                return Err(error);
            },
        }
        proof {
            let (n, v) = state.open->Some_0;
            collections::lemma_one_more_version(
                Map::<Seq<char>, Set<Seq<char>>>::empty(),
                state.found,
                n->Some_0,
                v->Some_0,
            );
        }
    }
    Ok(packages)
}

/// Versions are grouped by package name, and a package occurs when it has a version.
pub proof fn versions_are_grouped_by_name(contents: Seq<char>, name: Seq<char>)
    requires
        locked(contents) is Ok,
    ensures
        locked_versions(contents) is Ok,
        locked_versions(contents)->Ok_0.dom().contains(name) <==> exists|version: Seq<char>|
            locked(contents)->Ok_0.contains((name, version)),
        forall|version: Seq<char>|
            collections::versions_of(locked_versions(contents)->Ok_0, name).contains(version)
                <==> #[trigger] locked(contents)->Ok_0.contains((name, version)),
{
    let found = locked(contents)->Ok_0;
    assert forall|version: Seq<char>| #[trigger] found.contains((name, version)) implies exists|
        other: Seq<char>,
    | found.contains((name, other)) by {}
}

/// A line that assigns a string to a key.
pub open spec fn string_line(key: Seq<char>, value: Seq<char>) -> Seq<char> {
    key + seq![' ', '=', ' '] + toml::written_string(value)
}

/// The lines of a package in a lockfile, with an empty line before them.
pub open spec fn package_entry(name: Seq<char>, version: Seq<char>) -> Seq<char> {
    seq!['\n'] + "[[package]]\n"@ + string_line("name"@, name) + seq!['\n'] + string_line(
        "version"@,
        version,
    ) + seq!['\n']
}

/// What a line that assigns a string says.
proof fn lemma_string_line(key: Seq<char>, value: Seq<char>, line_number: nat)
    requires
        key == "name"@ || key == "version"@,
    ensures
        text::trimmed(string_line(key, value)) == string_line(key, value),
        text::without_return(string_line(key, value)) == string_line(key, value),
        !is_table_header(string_line(key, value)),
        assigned(string_line(key, value), key) == Some(toml::written_string(value)),
        key == "version"@ ==> assigned(string_line(key, value), "name"@) is None,
        forall|i: int|
            0 <= i < string_line(key, value).len() ==> string_line(key, value)[i] != '\n',
{
    reveal_strlit("name");
    reveal_strlit("version");
    reveal_strlit("[[");
    let line = string_line(key, value);
    let written = toml::written_string(value);
    let p = (key.len() + 1) as int;
    assert(key[0] == 'n' || key[0] == 'v');
    assert("name"@.len() == 4 && "version"@.len() == 7);
    assert(forall|j: int| 0 <= j < key.len() ==> key[j] != '=' && key[j] != '\n');
    toml::written_strings_read_back(value, line_number);
    text::lemma_position(line, '=', p);
    assert(line.last() == '"');
    assert(line[0] == key[0]);
    let before = line.take(p);
    assert(before =~= key.push(' '));
    assert(before.drop_last() =~= key);
    assert(!text::white_space(key.last())) by {
        assert(key.last() == 'e' || key.last() == 'n');
    }
    assert(text::trimmed_start(before) == before);
    assert(text::trimmed_end(before) == text::trimmed_end(key));
    assert(text::trimmed(before) == key);
    let after = line.skip(p + 1);
    assert(after =~= seq![' '] + written);
    assert(after.skip(1) =~= written);
    assert(text::trimmed_start(after) == text::trimmed_start(written));
    assert(text::trimmed(after) == written);
    assert(!text::begins(line, "[["@)) by {
        assert(line.take(2)[0] == key[0]);
        assert("[["@[0] == '[');
    }
}

/// The lines of a package's entry.
pub open spec fn entry_lines(name: Seq<char>, version: Seq<char>) -> Seq<Seq<char>> {
    seq![seq![], "[[package]]"@, string_line("name"@, name), string_line("version"@, version)]
}

proof fn lemma_entry_lines(name: Seq<char>, version: Seq<char>)
    ensures
        text::lines_of(package_entry(name, version)) == entry_lines(name, version),
{
    let header = "[[package]]"@;
    let name_line = string_line("name"@, name);
    let version_line = string_line("version"@, version);
    let none = Seq::<char>::empty();
    let fourth = version_line + seq!['\n'] + none;
    let third = name_line + seq!['\n'] + fourth;
    let second = header + seq!['\n'] + third;
    assert("[[package]]\n"@ =~= header + seq!['\n'] && text::without_return(header) == header
        && forall|j: int| 0 <= j < header.len() ==> header[j] != '\n') by {
        reveal_strlit("[[package]]\n");
        reveal_strlit("[[package]]");
    }
    lemma_string_line("name"@, name, 0);
    lemma_string_line("version"@, version, 0);
    assert(package_entry(name, version) =~= none + seq!['\n'] + second);
    text::lemma_line_in_front(none, second);
    text::lemma_line_in_front(header, third);
    text::lemma_line_in_front(name_line, fourth);
    text::lemma_line_in_front(version_line, none);
    assert(text::lines_of(none) =~= seq![]);
    assert(text::lines_of(package_entry(name, version)) =~= entry_lines(name, version));
}

/// An empty line and the header of a package end the package before.
proof fn lemma_header_lines(state: LockState, line_number: nat)
    requires
        ended(state, line_number) is Ok,
    ensures
        lock_line(state, seq![], line_number) == Ok::<LockState, Seq<char>>(state),
        lock_line(state, "[[package]]"@, line_number) == Ok::<LockState, Seq<char>>(
            LockState { found: ended(state, line_number)->Ok_0, open: Some((None, None)) },
        ),
{
    let header = "[[package]]"@;
    reveal_strlit("[[package]]");
    reveal_strlit("[[");
    reveal_strlit("]]");
    assert(text::trimmed(Seq::<char>::empty()) == Seq::<char>::empty());
    assert(text::trimmed(header) == header);
    assert(header.take(2) =~= "[["@);
    assert(header.skip(9) =~= "]]"@);
}

/// Where a package may end does not depend on the line.
proof fn lemma_ended(state: LockState, line_number: nat, other: nat)
    requires
        ended(state, line_number) is Ok,
    ensures
        ended(state, other) == ended(state, line_number),
{
}

/// The name and the version of an open package.
proof fn lemma_string_lines(
    found: Set<(Seq<char>, Seq<char>)>,
    name: Seq<char>,
    version: Seq<char>,
    line_number: nat,
)
    ensures
        lock_line(
            LockState { found, open: Some((None, None)) },
            string_line("name"@, name),
            line_number,
        ) == Ok::<LockState, Seq<char>>(LockState { found, open: Some((Some(name), None)) }),
        lock_line(
            LockState { found, open: Some((Some(name), None)) },
            string_line("version"@, version),
            line_number,
        ) == Ok::<LockState, Seq<char>>(
            LockState { found, open: Some((Some(name), Some(version))) },
        ),
{
    lemma_string_line("name"@, name, line_number);
    lemma_string_line("version"@, version, line_number);
    toml::written_strings_read_back(name, line_number);
    toml::written_strings_read_back(version, line_number);
}

/// A package at the end of a lockfile is read in addition to those before it.
pub proof fn appended_packages_are_read(contents: Seq<char>, name: Seq<char>, version: Seq<char>)
    requires
        locked(contents) is Ok,
        contents.len() == 0 || contents.last() == '\n',
    ensures
        locked(contents + package_entry(name, version)) == Ok::<
            Set<(Seq<char>, Seq<char>)>,
            Seq<char>,
        >(locked(contents)->Ok_0.insert((name, version))),
{
    let before = text::lines_of(contents);
    let n = before.len();
    let entry = entry_lines(name, version);
    let all = before + entry;
    lemma_entry_lines(name, version);
    text::lemma_lines_together(contents, package_entry(name, version));
    let start = lock_start();
    let step = lock_step();
    let state = text::read_lines(before, start, step)->Ok_0;
    let lines1 = before.push(entry[0]);
    let lines2 = lines1.push(entry[1]);
    let lines3 = lines2.push(entry[2]);
    assert(lines1.drop_last() =~= before);
    assert(lines2.drop_last() =~= lines1);
    assert(lines3.drop_last() =~= lines2);
    assert(all.drop_last() =~= lines3);
    let found = ended(state, n + 1)->Ok_0;
    lemma_ended(state, n + 1, n + 2);
    lemma_header_lines(state, n + 1);
    lemma_header_lines(state, n + 2);
    lemma_string_lines(found, name, version, n + 3);
    lemma_string_lines(found, name, version, n + 4);
    assert(text::read_lines(lines1, start, step) == Ok::<LockState, Seq<char>>(state));
    let opened = LockState { found, open: Some((None, None)) };
    assert(text::read_lines(lines2, start, step) == Ok::<LockState, Seq<char>>(opened));
    let named = LockState { found, open: Some((Some(name), None)) };
    assert(text::read_lines(lines3, start, step) == Ok::<LockState, Seq<char>>(named));
    let complete = LockState { found, open: Some((Some(name), Some(version))) };
    assert(text::read_lines(all, start, step) == Ok::<LockState, Seq<char>>(complete));
}

/// A lockfile with the given packages.
pub open spec fn written_lockfile(packages: Seq<(Seq<char>, Seq<char>)>) -> Seq<char>
    decreases packages.len(),
{
    if packages.len() == 0 {
        seq![]
    } else {
        written_lockfile(packages.drop_last()) + package_entry(
            packages.last().0,
            packages.last().1,
        )
    }
}

/// Reading a lockfile gives back the packages that were written to it.
pub proof fn written_lockfiles_read_back(packages: Seq<(Seq<char>, Seq<char>)>)
    ensures
        locked(written_lockfile(packages)) == Ok::<Set<(Seq<char>, Seq<char>)>, Seq<char>>(
            packages.to_set(),
        ),
        written_lockfile(packages).len() > 0 ==> written_lockfile(packages).last() == '\n',
    decreases packages.len(),
{
    if packages.len() == 0 {
        assert(packages.to_set() =~= Set::empty());
        assert(text::lines_of(written_lockfile(packages)) =~= seq![]);
    } else {
        let rest = packages.drop_last();
        let (name, version) = packages.last();
        written_lockfiles_read_back(rest);
        appended_packages_are_read(written_lockfile(rest), name, version);
        order::lemma_take_more(packages, packages.len() - 1);
        assert(packages.take(packages.len() - 1) =~= rest);
        assert(packages.take(packages.len() as int) =~= packages);
    }
}

/// Whether a line of a package says neither its name nor its version: it is no header
/// of an array table, and what stands before its first equals sign, if it has one, is
/// neither of the two keys.
pub open spec fn says_something_else(line: Seq<char>) -> bool {
    let line = text::trimmed(line);
    &&& !(text::begins(line, "[["@) && text::ends(line, "]]"@))
    &&& forall|p: int|
        0 <= p < line.len() && #[trigger] line[p] == '=' && (forall|j: int|
            0 <= j < p ==> line[j] != '=') ==> text::trimmed(line.take(p)) != "name"@
            && text::trimmed(line.take(p)) != "version"@
}

/// Only the keys for the name and the version of a package are read: any other line
/// that begins no array table (a source, a checksum, the lines of a list of
/// dependencies) leaves what was read as it was.
pub proof fn other_lines_change_nothing(state: LockState, line: Seq<char>, line_number: nat)
    requires
        says_something_else(line),
    ensures
        lock_line(state, line, line_number) == Ok::<LockState, Seq<char>>(state),
{
    let line = text::trimmed(line);
    let p = text::position(line, '=') as int;
    text::lemma_position_first(line, '=');
    if p < line.len() {
        assert(line[p] == '=');
    }
}

/// Outside packages no line is read but the headers of array tables.
pub proof fn lines_outside_packages_change_nothing(
    state: LockState,
    line: Seq<char>,
    line_number: nat,
)
    requires
        state.open is None,
        !(text::begins(text::trimmed(line), "[["@) && text::ends(text::trimmed(line), "]]"@)),
    ensures
        lock_line(state, line, line_number) == Ok::<LockState, Seq<char>>(state),
{
}

/// White space around a line is of no account.
pub proof fn indented_lines_mean_the_same(
    state: LockState,
    front: Seq<char>,
    line: Seq<char>,
    back: Seq<char>,
    line_number: nat,
)
    requires
        text_writing::blank(front),
        text_writing::blank(back),
    ensures
        lock_line(state, front + line + back, line_number) == lock_line(state, line, line_number),
{
    let (before, behind) = text_writing::lemma_trimmed_parts(line);
    let inner = text::trimmed(line);
    let all_front = front + before;
    let all_back = behind + back;
    assert forall|i: int| 0 <= i < all_front.len() implies text::white_space(
        #[trigger] all_front[i],
    ) by {
        assert(i < front.len() ==> all_front[i] == front[i]);
        assert(i >= front.len() ==> all_front[i] == before[i - front.len()]);
    }
    assert forall|i: int| 0 <= i < all_back.len() implies text::white_space(
        #[trigger] all_back[i],
    ) by {
        assert(i < behind.len() ==> all_back[i] == behind[i]);
        assert(i >= behind.len() ==> all_back[i] == back[i - behind.len()]);
    }
    assert(front + line + back =~= all_front + inner + all_back);
    text_writing::surrounding_white_space_is_trimmed(all_front, inner, all_back);
}

/// A line with the name of a package gives its name, whatever was said of it before,
/// and leaves its version; a line with the version gives the version and leaves the
/// name.
pub proof fn names_and_versions_are_set_apart(
    found: Set<(Seq<char>, Seq<char>)>,
    name: Option<Seq<char>>,
    version: Option<Seq<char>>,
    value: Seq<char>,
    line_number: nat,
)
    ensures
        lock_line(
            LockState { found, open: Some((name, version)) },
            string_line("name"@, value),
            line_number,
        ) == Ok::<LockState, Seq<char>>(LockState { found, open: Some((Some(value), version)) }),
        lock_line(
            LockState { found, open: Some((name, version)) },
            string_line("version"@, value),
            line_number,
        ) == Ok::<LockState, Seq<char>>(LockState { found, open: Some((name, Some(value))) }),
{
    lemma_string_line("name"@, value, line_number);
    lemma_string_line("version"@, value, line_number);
    toml::written_strings_read_back(value, line_number);
}

/// The header of an array table ends the package before it. Only the header of a
/// package begins another one.
pub proof fn headers_end_packages(state: LockState, table: Seq<char>, line_number: nat)
    requires
        ended(state, line_number) is Ok,
    ensures
        lock_line(state, "[["@ + table + "]]"@, line_number) == Ok::<LockState, Seq<char>>(
            LockState {
                found: ended(state, line_number)->Ok_0,
                open: if table == "package"@ {
                    Some((None, None))
                } else {
                    None
                },
            },
        ),
        state.open is None ==> ended(state, line_number)->Ok_0 == state.found,
        state.open matches Some((Some(name), Some(version))) ==> (ended(
            state,
            line_number,
        )->Ok_0 == state.found.insert((name, version))),
{
    let header = "[["@ + table + "]]"@;
    let none = Seq::<char>::empty();
    reveal_strlit("[[");
    reveal_strlit("]]");
    reveal_strlit("[[package]]");
    reveal_strlit("package");
    assert(none + header + none =~= header);
    text_writing::surrounding_white_space_is_trimmed(none, header, none);
    assert(header.take(2) =~= "[["@);
    assert(header.skip(header.len() - 2) =~= "]]"@);
    if table == "package"@ {
        assert(header =~= "[[package]]"@);
    } else if header == "[[package]]"@ {
        assert(table =~= header.subrange(2, header.len() - 2));
        assert(table =~= "package"@);
    }
}

/// A package that lacks its name or its version ends in an error, and no other does.
pub proof fn incomplete_packages_are_errors(state: LockState, line_number: nat)
    ensures
        ended(state, line_number) is Err <==> (state.open matches Some((name, version)) && (
        name is None || version is None)),
{
}

/// The lines of a package, with other lines in front of its name, between its name and
/// its version, and behind both.
pub open spec fn full_entry_lines(
    front: Seq<Seq<char>>,
    name: Seq<char>,
    between: Seq<Seq<char>>,
    version: Seq<char>,
    behind: Seq<Seq<char>>,
) -> Seq<Seq<char>> {
    seq!["[[package]]"@] + front + seq![string_line("name"@, name)] + between + seq![
        string_line("version"@, version),
    ] + behind
}

/// Whether each of the lines says neither the name nor the version of a package.
pub open spec fn say_something_else(lines: Seq<Seq<char>>) -> bool {
    forall|i: int|
        0 <= i < lines.len() ==> says_something_else(#[trigger] lines[i])
            && text_writing::is_line(lines[i])
}

/// Lines that say something else are passed over.
proof fn lemma_others_read(
    lines: Seq<Seq<char>>,
    others: Seq<Seq<char>>,
    state: LockState,
)
    requires
        text::read_lines(lines, lock_start(), lock_step()) == Ok::<LockState, Seq<char>>(state),
        say_something_else(others),
    ensures
        text::read_lines(lines + others, lock_start(), lock_step()) == Ok::<LockState, Seq<char>>(
            state,
        ),
{
    let step = lock_step();
    assert forall|i: int, n: nat| 0 <= i < others.len() implies #[trigger] step(
        state,
        others[i],
        n,
    ) == Ok::<LockState, Seq<char>>(state) by {
        other_lines_change_nothing(state, others[i], n);
    }
    text_writing::lemma_read_unchanged(lines, others, lock_start(), step, state);
}

/// The lines of a package with other lines among them, behind lines that were read.
proof fn lemma_full_entry_read(
    before: Seq<Seq<char>>,
    front: Seq<Seq<char>>,
    name: Seq<char>,
    between: Seq<Seq<char>>,
    version: Seq<char>,
    behind: Seq<Seq<char>>,
    state: LockState,
)
    requires
        text::read_lines(before, lock_start(), lock_step()) == Ok::<LockState, Seq<char>>(state),
        ended(state, before.len() + 1) is Ok,
        say_something_else(front),
        say_something_else(between),
        say_something_else(behind),
    ensures
        text::read_lines(
            before + full_entry_lines(front, name, between, version, behind),
            lock_start(),
            lock_step(),
        ) == Ok::<LockState, Seq<char>>(
            LockState {
                found: ended(state, before.len() + 1)->Ok_0,
                open: Some((Some(name), Some(version))),
            },
        ),
{
    let start = lock_start();
    let step = lock_step();
    let n = before.len();
    let found = ended(state, n + 1)->Ok_0;
    let header = before.push("[[package]]"@);
    lemma_header_lines(state, n + 1);
    text_writing::lemma_read_line_more(before, "[[package]]"@, start, step);
    let opened = LockState { found, open: Some((None, None)) };
    lemma_others_read(header, front, opened);
    let name_line = string_line("name"@, name);
    let named = (header + front).push(name_line);
    names_and_versions_are_set_apart(found, None, None, name, (header + front).len() + 1);
    text_writing::lemma_read_line_more(header + front, name_line, start, step);
    let with_name = LockState { found, open: Some((Some(name), None)) };
    lemma_others_read(named, between, with_name);
    let version_line = string_line("version"@, version);
    let versioned = (named + between).push(version_line);
    names_and_versions_are_set_apart(
        found,
        Some(name),
        None,
        version,
        (named + between).len() + 1,
    );
    text_writing::lemma_read_line_more(named + between, version_line, start, step);
    let complete = LockState { found, open: Some((Some(name), Some(version))) };
    lemma_others_read(versioned, behind, complete);
    assert(versioned + behind =~= before + full_entry_lines(
        front,
        name,
        between,
        version,
        behind,
    ));
}

/// The lines of a package can stand on lines.
proof fn lemma_full_entry_lines(
    front: Seq<Seq<char>>,
    name: Seq<char>,
    between: Seq<Seq<char>>,
    version: Seq<char>,
    behind: Seq<Seq<char>>,
)
    requires
        say_something_else(front),
        say_something_else(between),
        say_something_else(behind),
    ensures
        forall|i: int|
            0 <= i < full_entry_lines(front, name, between, version, behind).len()
                ==> text_writing::is_line(
                #[trigger] full_entry_lines(front, name, between, version, behind)[i],
            ),
{
    let all = full_entry_lines(front, name, between, version, behind);
    lemma_string_line("name"@, name, 0);
    lemma_string_line("version"@, version, 0);
    let name_line = string_line("name"@, name);
    let version_line = string_line("version"@, version);
    assert(name_line.last() == '"' && version_line.last() == '"');
    assert(text_writing::is_line("[[package]]"@)) by {
        reveal_strlit("[[package]]");
    }
    let a: int = 1 + front.len() as int;
    let b: int = a + 1 + between.len() as int;
    assert forall|i: int| 0 <= i < all.len() implies text_writing::is_line(
        #[trigger] all[i],
    ) by {
        if i == 0 {
            assert(all[i] == "[[package]]"@);
        } else if i < a {
            assert(all[i] == front[i - 1]);
        } else if i == a {
            assert(all[i] == name_line);
        } else if i < b {
            assert(all[i] == between[i - a - 1]);
        } else if i == b {
            assert(all[i] == version_line);
        } else {
            assert(all[i] == behind[i - b - 1]);
        }
    }
}

/// A package at the end of a lockfile is read with its name and its version, whatever
/// else is said of it on lines in front of them, between them and behind them, and
/// however its lines end.
pub proof fn appended_full_packages_are_read(
    contents: Seq<char>,
    front: Seq<Seq<char>>,
    name: Seq<char>,
    between: Seq<Seq<char>>,
    version: Seq<char>,
    behind: Seq<Seq<char>>,
    end: Seq<char>,
)
    requires
        locked(contents) is Ok,
        contents.len() == 0 || contents.last() == '\n',
        say_something_else(front),
        say_something_else(between),
        say_something_else(behind),
        end == seq!['\n'] || end == seq!['\r', '\n'],
    ensures
        locked(
            contents + text_writing::lines_text(
                full_entry_lines(front, name, between, version, behind),
                end,
            ),
        ) == Ok::<Set<(Seq<char>, Seq<char>)>, Seq<char>>(
            locked(contents)->Ok_0.insert((name, version)),
        ),
{
    let before = text::lines_of(contents);
    let entry = full_entry_lines(front, name, between, version, behind);
    let state = text::read_lines(before, lock_start(), lock_step())->Ok_0;
    lemma_full_entry_lines(front, name, between, version, behind);
    text_writing::written_lines_read_back(entry, end);
    text::lemma_lines_together(contents, text_writing::lines_text(entry, end));
    lemma_full_entry_read(before, front, name, between, version, behind, state);
}

/// A package of a lockfile, with the other lines that are written behind its name and
/// its version.
pub struct Entry {
    pub name: Seq<char>,
    pub version: Seq<char>,
    pub others: Seq<Seq<char>>,
}

/// A lockfile with the given packages, each with further lines.
pub open spec fn full_lockfile(packages: Seq<Entry>) -> Seq<char>
    decreases packages.len(),
{
    if packages.len() == 0 {
        seq![]
    } else {
        full_lockfile(packages.drop_last()) + text_writing::lines_text(
            full_entry_lines(
                seq![],
                packages.last().name,
                seq![],
                packages.last().version,
                packages.last().others,
            ),
            seq!['\n'],
        )
    }
}

/// Reading a lockfile gives back the names and versions that were written to it,
/// whatever else is written of each package.
pub proof fn full_lockfiles_read_back(packages: Seq<Entry>)
    requires
        forall|i: int| 0 <= i < packages.len() ==> say_something_else(#[trigger] packages[i].others),
    ensures
        locked(full_lockfile(packages)) == Ok::<Set<(Seq<char>, Seq<char>)>, Seq<char>>(
            packages.map_values(|package: Entry| (package.name, package.version)).to_set(),
        ),
        full_lockfile(packages).len() > 0 ==> full_lockfile(packages).last() == '\n',
    decreases packages.len(),
{
    let pairs = packages.map_values(|package: Entry| (package.name, package.version));
    if packages.len() == 0 {
        assert(pairs.to_set() =~= Set::empty());
        assert(text::lines_of(full_lockfile(packages)) =~= seq![]);
    } else {
        let rest = packages.drop_last();
        let last = packages.last();
        let none = Seq::<Seq<char>>::empty();
        assert(say_something_else(packages[packages.len() - 1].others));
        full_lockfiles_read_back(rest);
        let entry = full_entry_lines(none, last.name, none, last.version, last.others);
        appended_full_packages_are_read(
            full_lockfile(rest),
            none,
            last.name,
            none,
            last.version,
            last.others,
            seq!['\n'],
        );
        lemma_full_entry_lines(none, last.name, none, last.version, last.others);
        text_writing::written_lines_read_back(entry, seq!['\n']);
        let front = rest.map_values(|package: Entry| (package.name, package.version));
        assert(front =~= pairs.drop_last());
        order::lemma_take_more(pairs, pairs.len() - 1);
        assert(pairs.take(pairs.len() - 1) =~= front);
        assert(pairs.take(pairs.len() as int) =~= pairs);
    }
}

} // verus!
