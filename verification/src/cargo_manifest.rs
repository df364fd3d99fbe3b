//! Reading the dependencies that a `Cargo.toml` declares.

use vstd::prelude::*;
use vstd::string::*;

use crate::collections::{TextMap, TextSet};
use crate::external;
use crate::external::quoted;
use crate::order;
use crate::text;
use crate::text::{concat3, lines, same_text, starts_with, trim};
use crate::toml;
use crate::toml::{
    inline_toml_field, inline_toml_string_field, parse_toml_key, parse_toml_string, split_toml_key,
    strip_toml_comment, toml_assignment,
};

verus! {

/// A declared dependency: the package it names, when that is not its alias, and
/// whether the workspace declares it.
pub struct Dependency {
    pub package: Option<Seq<char>>,
    pub inherited: bool,
}

/// A declared dependency.
pub struct CargoDependency {
    pub package: Option<String>,
    pub inherited: bool,
}

impl View for CargoDependency {
    type V = Dependency;

    open spec fn view(&self) -> Dependency {
        Dependency { package: self.package.deep_view(), inherited: self.inherited }
    }
}

/// Declared dependencies by their aliases.
pub type Dependencies = Map<Seq<char>, Dependency>;

/// What the table of a manifest declares.
pub enum Section {
    Other,
    Dependencies,
    Dependency { resolved: Seq<char> },
}

/// What the table of a manifest declares: nothing of interest, one dependency per
/// line, or a single dependency.
pub enum CargoManifestSection {
    Other,
    Dependencies,
    Dependency { resolved: String },
}

impl View for CargoManifestSection {
    type V = Section;

    open spec fn view(&self) -> Section {
        match *self {
            CargoManifestSection::Other => Section::Other,
            CargoManifestSection::Dependencies => Section::Dependencies,
            CargoManifestSection::Dependency { resolved } => Section::Dependency {
                resolved: resolved@,
            },
        }
    }
}

impl DeepView for CargoManifestSection {
    type V = Section;

    open spec fn deep_view(&self) -> Section {
        self@
    }
}

/// Whether a table of this name declares dependencies.
pub open spec fn is_group(key: Seq<char>) -> bool {
    key == "dependencies"@ || key == "dev-dependencies"@ || key == "build-dependencies"@
}

/// Whether position `i` of a table's name is the first that names dependencies.
pub open spec fn first_group_at(keys: Seq<Seq<char>>, i: int) -> bool {
    0 <= i < keys.len() && is_group(keys[i]) && forall|j: int|
        0 <= j < i ==> !is_group(#[trigger] keys[j])
}

/// The section of a table. Below `target` the name of the group may stand behind
/// the name of the target.
pub open spec fn section_of_keys(keys: Seq<Seq<char>>) -> Section {
    if exists|i: int| first_group_at(keys, i) && (i == 0 || keys[0] == "target"@) {
        let i = choose|i: int| first_group_at(keys, i) && (i == 0 || keys[0] == "target"@);
        if keys.len() - i == 1 {
            Section::Dependencies
        } else if keys.len() - i == 2 {
            Section::Dependency { resolved: keys[i + 1] }
        } else {
            Section::Other
        }
    } else {
        Section::Other
    }
}

/// The section that a table header begins.
pub open spec fn section_of(header: Seq<char>, line_number: nat) -> Result<Section, Seq<char>> {
    if text::begins(header, "[["@) {
        Ok(Section::Other)
    } else {
        match toml::dotted_key(toml::interior(header), line_number) {
            Err(e) => Err(e),
            Ok(keys) => Ok(section_of_keys(keys)),
        }
    }
}

/// Tells whether a table of this name declares dependencies.
fn dependency_group(key: &str) -> (found: bool)
    ensures
        found == is_group(key@),
{
    same_text(key, "dependencies") || same_text(key, "dev-dependencies") || same_text(
        key,
        "build-dependencies",
    )
}

/// The section that a table header begins. The header stands between two ASCII
/// characters.
pub fn cargo_manifest_section(header: &str, line_number: usize) -> (read: Result<
    CargoManifestSection,
    String,
>)
    requires
        text::begins(header@, "[["@) || (header@.len() >= 2 && (header@[0] as u32) < 0x80 && (
        header@.last() as u32) < 0x80),
    ensures
        text::outcome(read) == section_of(header@, line_number as nat),
{
    if starts_with(header, "[[") {
        return Ok(CargoManifestSection::Other);
    }
    let length: usize = header.unicode_len();
    let keys = match split_toml_key(header.substring_char(1, length - 1), line_number) {
        Ok(keys) => keys,
        Err(error) => {
            return Err(error);
        },
    };
    let ghost names = keys.deep_view();
    let targeted = same_text(keys[0].as_str(), "target");
    assert(names[0] == keys@[0]@);
    let mut i: usize = 0;
    while i < keys.len() && !dependency_group(keys[i].as_str())
        invariant
            names == keys.deep_view(),
            i <= keys.len(),
            forall|j: int| 0 <= j < i ==> !is_group(#[trigger] names[j]),
        decreases keys.len() - i,
    {
        assert(names[i as int] == keys@[i as int]@);
        i += 1;
    }
    assert(i < keys.len() ==> names[i as int] == keys@[i as int]@);
    proof {
        if exists|k: int| first_group_at(names, k) && (k == 0 || names[0] == "target"@) {
            let k = choose|k: int| first_group_at(names, k) && (k == 0 || names[0] == "target"@);
            assert(first_group_at(names, k));
            if k < i {
                assert(!is_group(names[k]));
            } else if i < k {
                assert(!is_group(names[i as int]));
            }
        }
        if i < keys.len() {
            assert(first_group_at(names, i as int));
        }
    }
    if i < keys.len() && (i == 0 || targeted) {
        if keys.len() - i == 1 {
            Ok(CargoManifestSection::Dependencies)
        } else if keys.len() - i == 2 {
            assert(names[i + 1] == keys@[i + 1]@);
            Ok(CargoManifestSection::Dependency { resolved: keys[i + 1].clone() })
        } else {
            Ok(CargoManifestSection::Other)
        }
    } else {
        Ok(CargoManifestSection::Other)
    }
}

/// What a manifest declares for an alias, nothing so far when it is new.
pub open spec fn declared(dependencies: Dependencies, alias: Seq<char>) -> Dependency {
    if dependencies.dom().contains(alias) {
        dependencies[alias]
    } else {
        Dependency { package: None, inherited: false }
    }
}

/// A dependency with one of its fields set.
pub open spec fn with_field(
    dependency: Dependency,
    field: Seq<char>,
    value: Seq<char>,
    line_number: nat,
) -> Result<Dependency, Seq<char>> {
    if field == "package"@ {
        match toml::string_of(value, line_number) {
            Err(e) => Err(e),
            Ok(package) => Ok(Dependency { package: Some(package), ..dependency }),
        }
    } else if field == "workspace"@ {
        Ok(Dependency { inherited: value == "true"@, ..dependency })
    } else {
        Ok(dependency)
    }
}

/// The dependency that a value declares: an inline table may name a package and
/// refer to the workspace.
pub open spec fn dependency_of(value: Seq<char>, line_number: nat) -> Result<
    Dependency,
    Seq<char>,
> {
    match toml::inline_string(value, "package"@, line_number) {
        Err(e) => Err(e),
        Ok(package) => match toml::inline_field(value, "workspace"@, line_number) {
            Err(e) => Err(e),
            Ok(workspace) => Ok(Dependency { package, inherited: workspace == Some("true"@) }),
        },
    }
}

/// What the lines of a manifest declare so far, and the section they are in.
pub struct ManifestState {
    pub dependencies: Dependencies,
    pub section: Section,
}

/// Whether a line is a table header.
pub open spec fn is_header(line: Seq<char>) -> bool {
    toml::enclosed(line, '[', ']')
}

/// What an assignment declares in a section.
pub open spec fn declaration(
    state: ManifestState,
    key: Seq<char>,
    value: Seq<char>,
    line_number: nat,
) -> Result<Dependencies, Seq<char>> {
    match state.section {
        Section::Other => Ok(state.dependencies),
        Section::Dependencies => match toml::dotted_key(key, line_number) {
            Err(e) => Err(e),
            Ok(keys) => {
                let known = declared(state.dependencies, keys[0]);
                let dependency = if keys.len() > 1 {
                    with_field(known, keys[1], value, line_number)
                } else {
                    dependency_of(value, line_number)
                };
                match dependency {
                    Err(e) => Err(e),
                    Ok(dependency) => Ok(state.dependencies.insert(keys[0], dependency)),
                }
            },
        },
        Section::Dependency { resolved } => match toml::key_of(key, line_number) {
            Err(e) => Err(e),
            Ok(field) => match with_field(
                declared(state.dependencies, resolved),
                field,
                value,
                line_number,
            ) {
                Err(e) => Err(e),
                Ok(dependency) => Ok(state.dependencies.insert(resolved, dependency)),
            },
        },
    }
}

/// What one line of a manifest adds.
pub open spec fn manifest_line(state: ManifestState, line: Seq<char>, line_number: nat) -> Result<
    ManifestState,
    Seq<char>,
> {
    let line = text::trimmed(toml::without_comment(line));
    if is_header(line) {
        match section_of(line, line_number) {
            Err(e) => Err(e),
            Ok(section) => Ok(
                ManifestState {
                    dependencies: match section {
                        Section::Dependency { resolved } => state.dependencies.insert(
                            resolved,
                            declared(state.dependencies, resolved),
                        ),
                        _ => state.dependencies,
                    },
                    section,
                },
            ),
        }
    } else {
        match toml::assignment_of(line) {
            None => Ok(state),
            Some((key, value)) => match declaration(
                state,
                key,
                text::trimmed(value),
                line_number,
            ) {
                Err(e) => Err(e),
                Ok(dependencies) => Ok(ManifestState { dependencies, ..state }),
            },
        }
    }
}

/// Before the first line.
pub open spec fn manifest_start() -> ManifestState {
    ManifestState { dependencies: Map::empty(), section: Section::Other }
}

/// What each line of a manifest adds.
pub open spec fn manifest_step() -> spec_fn(ManifestState, Seq<char>, nat) -> Result<
    ManifestState,
    Seq<char>,
> {
    |state: ManifestState, line: Seq<char>, line_number: nat|
        manifest_line(state, line, line_number)
}

/// The dependencies that a manifest declares.
pub open spec fn declared_dependencies(contents: Seq<char>) -> Result<Dependencies, Seq<char>> {
    match text::read_lines(text::lines_of(contents), manifest_start(), manifest_step()) {
        Err(e) => Err(e),
        Ok(state) => Ok(state.dependencies),
    }
}

/// The dependency declared for an alias so far.
fn known_dependency(dependencies: &TextMap<CargoDependency>, alias: &str) -> (known:
    CargoDependency)
    ensures
        known@ == declared(dependencies@, alias@),
{
    match dependencies.get(alias) {
        Some(known) => {
            let package = match &known.package {
                Some(package) => Some(package.clone()),
                None => None,
            };
            CargoDependency { package, inherited: known.inherited }
        },
        None => CargoDependency { package: None, inherited: false },
    }
}

/// Declares a dependency.
fn declare(
    dependencies: &mut TextMap<CargoDependency>,
    alias: &str,
    dependency: CargoDependency,
)
    ensures
        final(dependencies)@ == old(dependencies)@.insert(alias@, dependency@),
{
    let ghost before = dependencies@;
    dependencies.insert(alias.to_owned(), dependency);
    assert(dependencies@ =~= before.insert(alias@, dependency@));
}

/// Sets one field of a dependency.
fn set_field(
    dependency: CargoDependency,
    field: &str,
    value: &str,
    line_number: usize,
) -> (set: Result<CargoDependency, String>)
    ensures
        match (set, with_field(dependency@, field@, value@, line_number as nat)) {
            (Ok(set), Ok(meant)) => set@ == meant,
            (Err(error), Err(meant)) => error@ == meant,
            _ => false,
        },
{
    if same_text(field, "package") {
        match parse_toml_string(value, line_number) {
            Ok(package) => Ok(
                CargoDependency { package: Some(package), inherited: dependency.inherited },
            ),
            Err(error) => Err(error),
        }
    } else if same_text(field, "workspace") {
        Ok(CargoDependency { package: dependency.package, inherited: same_text(value, "true") })
    } else {
        Ok(dependency)
    }
}

/// The dependency that a value declares.
fn read_dependency(value: &str, line_number: usize) -> (read: Result<CargoDependency, String>)
    ensures
        match (read, dependency_of(value@, line_number as nat)) {
            (Ok(read), Ok(meant)) => read@ == meant,
            (Err(error), Err(meant)) => error@ == meant,
            _ => false,
        },
{
    let package = match inline_toml_string_field(value, "package", line_number) {
        Ok(package) => package,
        Err(error) => {
            return Err(error);
        },
    };
    let inherited = match inline_toml_field(value, "workspace", line_number) {
        Ok(Some(workspace)) => same_text(workspace, "true"),
        Ok(None) => false,
        Err(error) => {
            return Err(error);
        },
    };
    Ok(CargoDependency { package, inherited })
}

/// The dependencies that a manifest declares.
pub fn cargo_dependencies(contents: &str) -> (read: Result<TextMap<CargoDependency>, String>)
    ensures
        text::outcome(read) == declared_dependencies(contents@),
{
    let mut dependencies: TextMap<CargoDependency> = TextMap::new();
    let mut section = CargoManifestSection::Other;
    let all = lines(contents);
    let ghost listing = all.deep_view();
    proof {
        assert(listing.take(0) =~= seq![]);
        assert(dependencies@ =~= Map::<Seq<char>, Dependency>::empty());
    }
    for index in 0..all.len()
        invariant
            listing == all.deep_view(),
            listing == text::lines_of(contents@),
            text::read_lines(listing.take(index as int), manifest_start(), manifest_step()) == Ok::<
                ManifestState,
                Seq<char>,
            >(ManifestState { dependencies: dependencies@, section: section@ }),
    {
        let line_number: usize = index + 1;
        let ghost state = ManifestState { dependencies: dependencies@, section: section@ };
        proof {
            text::lemma_read_line(listing, index as int, manifest_start(), manifest_step());
            assert(listing[index as int] == all@[index as int]@);
            if manifest_line(state, listing[index as int], line_number as nat) is Err {
                text::lemma_read_fault(listing, index + 1, manifest_start(), manifest_step());
            }
        }
        let line = trim(strip_toml_comment(all[index].as_str()));
        match toml::strip_enclosing(line, '[', ']') {
            Some(_) => {
                section = match cargo_manifest_section(line, line_number) {
                    Ok(section) => section,
                    Err(error) => {
                        return Err(error);
                    },
                };
                if let CargoManifestSection::Dependency { resolved } = &section {
                    let known = known_dependency(&dependencies, resolved.as_str());
                    declare(&mut dependencies, resolved.as_str(), known);
                }
            },
            None => {
                if let Some((key, value)) = toml_assignment(line) {
                    let value = trim(value);
                    match &section {
                        CargoManifestSection::Dependencies => {
                            let keys = match split_toml_key(key, line_number) {
                                Ok(keys) => keys,
                                Err(error) => {
                                    return Err(error);
                                },
                            };
                            let ghost names = keys.deep_view();
                            assert(names[0] == keys@[0]@);
                            let dependency = if keys.len() > 1 {
                                assert(names[1] == keys@[1]@);
                                let known = known_dependency(&dependencies, keys[0].as_str());
                                set_field(known, keys[1].as_str(), value, line_number)
                            } else {
                                read_dependency(value, line_number)
                            };
                            match dependency {
                                Ok(dependency) => {
                                    declare(&mut dependencies, keys[0].as_str(), dependency);
                                },
                                Err(error) => {
                                    return Err(error);
                                },
                            }
                        },
                        CargoManifestSection::Dependency { resolved } => {
                            let field = match parse_toml_key(key, line_number) {
                                Ok(field) => field,
                                Err(error) => {
                                    return Err(error);
                                },
                            };
                            let known = known_dependency(&dependencies, resolved.as_str());
                            match set_field(known, field.as_str(), value, line_number) {
                                Ok(dependency) => {
                                    declare(&mut dependencies, resolved.as_str(), dependency);
                                },
                                Err(error) => {
                                    return Err(error);
                                },
                            }
                        },
                        CargoManifestSection::Other => {},
                    }
                }
            },
        }
    }
    assert(listing.take(all.len() as int) =~= listing);
    Ok(dependencies)
}

/// The package that a dependency stands for.
pub open spec fn package_name(dependency: Dependency, alias: Seq<char>) -> Seq<char> {
    match dependency.package {
        Some(package) => package,
        None => alias,
    }
}

/// The packages that declared dependencies stand for.
pub open spec fn package_names(dependencies: Dependencies) -> Set<Seq<char>> {
    Set::new(
        |package: Seq<char>|
            exists|alias: Seq<char>| #[trigger]
                dependencies.dom().contains(alias) && package == package_name(
                    dependencies[alias],
                    alias,
                ),
    )
}

/// The packages that a manifest names, without regard to a workspace.
pub open spec fn manifest_packages(contents: Seq<char>) -> Result<Set<Seq<char>>, Seq<char>> {
    match declared_dependencies(contents) {
        Err(e) => Err(e),
        Ok(dependencies) => Ok(package_names(dependencies)),
    }
}

/// A dependency with what the workspace declares for it, when it is inherited.
pub open spec fn inherited(
    dependency: Dependency,
    alias: Seq<char>,
    workspace: Dependencies,
) -> Dependency {
    if dependency.inherited {
        Dependency { package: workspace[alias].package, inherited: true }
    } else {
        dependency
    }
}

/// The declared dependencies with what the workspace declares for them.
pub open spec fn with_inheritance(
    dependencies: Dependencies,
    workspace: Dependencies,
) -> Dependencies {
    Map::new(
        |alias: Seq<char>| dependencies.dom().contains(alias),
        |alias: Seq<char>| inherited(dependencies[alias], alias, workspace),
    )
}

/// Which aliases are inherited from a workspace that does not declare them.
pub open spec fn missing(dependencies: Dependencies, workspace: Dependencies) -> spec_fn(
    Seq<char>,
) -> bool {
    |alias: Seq<char>|
        dependencies.dom().contains(alias) && dependencies[alias].inherited
            && !workspace.dom().contains(alias)
}

/// The error of an inherited dependency that the workspace does not declare.
pub open spec fn not_inherited(shown_alias: Seq<char>) -> Seq<char> {
    "inherited dependency "@ + shown_alias + " missing from workspace.dependencies"@
}

/// The error of an inherited dependency that the workspace does not declare.
pub fn not_inherited_error(shown_alias: &str) -> (error: String)
    ensures
        error@ == not_inherited(shown_alias@),
{
    concat3("inherited dependency ", shown_alias, " missing from workspace.dependencies")
}

/// The packages that declared dependencies stand for within a workspace.
pub open spec fn resolved(dependencies: Dependencies, workspace: Dependencies) -> Result<
    Set<Seq<char>>,
    Seq<char>,
> {
    let absent = missing(dependencies, workspace);
    if exists|alias: Seq<char>| #[trigger] absent(alias) {
        Err(not_inherited(external::debug_text(order::first_of(absent))))
    } else {
        Ok(package_names(with_inheritance(dependencies, workspace)))
    }
}

/// The packages that a manifest names within a workspace.
pub open spec fn resolved_packages(contents: Seq<char>, workspace: Dependencies) -> Result<
    Set<Seq<char>>,
    Seq<char>,
> {
    match declared_dependencies(contents) {
        Err(e) => Err(e),
        Ok(dependencies) => resolved(dependencies, workspace),
    }
}

/// The packages of the dependencies at the first places of a listing.
spec fn first_names(dependencies: Dependencies, listing: Seq<Seq<char>>, count: int) -> Set<
    Seq<char>,
> {
    Set::new(
        |package: Seq<char>|
            exists|i: int|
                0 <= i < count && package == #[trigger] package_name(
                    dependencies[listing[i]],
                    listing[i],
                ),
    )
}

proof fn lemma_one_more_name(dependencies: Dependencies, listing: Seq<Seq<char>>, count: int)
    requires
        0 <= count < listing.len(),
    ensures
        first_names(dependencies, listing, count + 1) == first_names(
            dependencies,
            listing,
            count,
        ).insert(package_name(dependencies[listing[count]], listing[count])),
{
    let grown = first_names(dependencies, listing, count + 1);
    let name = package_name(dependencies[listing[count]], listing[count]);
    assert forall|p: Seq<char>| #[trigger] grown.contains(p) == (first_names(
        dependencies,
        listing,
        count,
    ).contains(p) || p == name) by {
        if grown.contains(p) {
            let i = choose|i: int|
                0 <= i < count + 1 && p == #[trigger] package_name(
                    dependencies[listing[i]],
                    listing[i],
                );
        }
    }
    assert(grown =~= first_names(dependencies, listing, count).insert(name));
}

proof fn lemma_all_names(dependencies: Dependencies, listing: Seq<Seq<char>>)
    requires
        listing.to_set() == dependencies.dom(),
    ensures
        first_names(dependencies, listing, listing.len() as int) == package_names(dependencies),
{
    let all = first_names(dependencies, listing, listing.len() as int);
    assert forall|p: Seq<char>| #[trigger] all.contains(p) == package_names(dependencies).contains(
        p,
    ) by {
        if all.contains(p) {
            let i = choose|i: int|
                0 <= i < listing.len() && p == #[trigger] package_name(
                    dependencies[listing[i]],
                    listing[i],
                );
            assert(listing.to_set().contains(listing[i]));
            assert(dependencies.dom().contains(listing[i]));
        }
        if package_names(dependencies).contains(p) {
            let alias = choose|alias: Seq<char>| #[trigger]
                dependencies.dom().contains(alias) && p == package_name(dependencies[alias], alias);
            assert(listing.to_set().contains(alias));
            let i = choose|i: int| 0 <= i < listing.len() && listing[i] == alias;
            assert(p == package_name(dependencies[listing[i]], listing[i]));
        }
    }
    assert(all =~= package_names(dependencies));
}

/// The packages that a manifest names, without regard to a workspace.
pub fn parse_cargo_manifest(contents: &str) -> (read: Result<TextSet, String>)
    ensures
        text::outcome(read) == manifest_packages(contents@),
{
    let dependencies = match cargo_dependencies(contents) {
        Ok(dependencies) => dependencies,
        Err(error) => {
            return Err(error);
        },
    };
    let mut packages = TextSet::new();
    let count: usize = dependencies.len();
    let ghost listing = dependencies.listing();
    let ghost meant = dependencies@;
    assert(packages@ =~= first_names(meant, listing, 0));
    for i in 0..count
        invariant
            count == dependencies.listing().len(),
            listing == dependencies.listing(),
            meant == dependencies@,
            packages@ == first_names(meant, listing, i as int),
    {
        proof {
            lemma_one_more_name(meant, listing, i as int);
        }
        let alias = dependencies.key(i);
        let dependency = dependencies.value(i);
        assert(meant[listing[i as int]] == dependency@);
        match &dependency.package {
            Some(package) => {
                packages.insert(package.clone());
            },
            None => {
                packages.insert(alias.clone());
            },
        }
    }
    proof {
        assert(meant.dom() =~= dependencies.entries().dom());
        lemma_all_names(meant, listing);
    }
    Ok(packages)
}

/// The packages that a manifest names within a workspace.
pub fn resolved_dependencies(contents: &str, workspace: &TextMap<CargoDependency>) -> (read: Result<
    TextSet,
    String,
>)
    ensures
        text::outcome(read) == resolved_packages(contents@, workspace@),
{
    let dependencies = match cargo_dependencies(contents) {
        Ok(dependencies) => dependencies,
        Err(error) => {
            return Err(error);
        },
    };
    let mut packages = TextSet::new();
    let count: usize = dependencies.len();
    let ghost listing = dependencies.listing();
    let ghost meant = dependencies@;
    let ghost full = with_inheritance(meant, workspace@);
    let ghost absent = missing(meant, workspace@);
    proof {
        assert(packages@ =~= first_names(full, listing, 0));
        assert(meant.dom() =~= dependencies.entries().dom());
        assert forall|a: Seq<char>| #[trigger] absent(a) implies listing.contains(a) by {
            assert(listing.to_set().contains(a));
        }
    }
    for i in 0..count
        invariant
            count == dependencies.listing().len(),
            listing == dependencies.listing(),
            order::increasing(listing, order::text_order()),
            meant == dependencies@,
            full == with_inheritance(meant, workspace@),
            absent == missing(meant, workspace@),
            declared_dependencies(contents@) == Ok::<Dependencies, Seq<char>>(meant),
            forall|a: Seq<char>| #[trigger] absent(a) ==> listing.contains(a),
            forall|j: int| 0 <= j < i ==> !absent(#[trigger] listing[j]),
            packages@ == first_names(full, listing, i as int),
    {
        proof {
            lemma_one_more_name(full, listing, i as int);
        }
        let alias = dependencies.key(i);
        let dependency = dependencies.value(i);
        assert(meant[listing[i as int]] == dependency@);
        assert(meant.dom().contains(listing[i as int]));
        let package = if dependency.inherited {
            match workspace.get(alias.as_str()) {
                Some(shared) => &shared.package,
                None => {
                    proof {
                        assert(absent(listing[i as int]));
                        order::lemma_first_listed(absent, listing, i as int);
                    }
                    return Err(not_inherited_error(quoted(alias.as_str()).as_str()));
                },
            }
        } else {
            &dependency.package
        };
        assert(!absent(listing[i as int]));
        assert(full[listing[i as int]].package == package.deep_view());
        match package {
            Some(package) => {
                packages.insert(package.clone());
            },
            None => {
                packages.insert(alias.clone());
            },
        }
    }
    proof {
        assert forall|a: Seq<char>| !#[trigger] absent(a) by {
            if absent(a) {
                let j = choose|j: int| 0 <= j < listing.len() && listing[j] == a;
                assert(!absent(listing[j]));
            }
        }
        assert(full.dom() =~= meant.dom());
        lemma_all_names(full, listing);
    }
    Ok(packages)
}

/// Entries of a workspace that no dependency inherits change nothing.
pub proof fn unused_workspace_entries_do_not_count(
    dependencies: Dependencies,
    workspace: Dependencies,
    other: Dependencies,
)
    requires
        forall|alias: Seq<char>| #[trigger]
            dependencies.dom().contains(alias) && dependencies[alias].inherited
                ==> workspace.dom().contains(alias) == other.dom().contains(alias)
                && workspace[alias].package == other[alias].package,
    ensures
        resolved(dependencies, workspace) == resolved(dependencies, other),
{
    assert(missing(dependencies, workspace) =~= missing(dependencies, other));
    assert(with_inheritance(dependencies, workspace) =~= with_inheritance(dependencies, other));
}

/// The package that an alias counts under within a workspace.
pub open spec fn counted_package(
    dependencies: Dependencies,
    workspace: Dependencies,
    alias: Seq<char>,
) -> Seq<char> {
    if dependencies[alias].inherited {
        package_name(workspace[alias], alias)
    } else {
        package_name(dependencies[alias], alias)
    }
}

/// A dependency that is not inherited counts under the package that it names, or else
/// under its alias; an inherited one under what the workspace says. Nothing else counts.
pub proof fn dependencies_count_under_their_package(
    dependencies: Dependencies,
    workspace: Dependencies,
    package: Seq<char>,
)
    requires
        resolved(dependencies, workspace) is Ok,
    ensures
        resolved(dependencies, workspace)->Ok_0.contains(package) <==> exists|alias: Seq<char>|
            #[trigger] dependencies.dom().contains(alias) && package == counted_package(
                dependencies,
                workspace,
                alias,
            ),
{
    let all = with_inheritance(dependencies, workspace);
    assert forall|alias: Seq<char>| #[trigger] dependencies.dom().contains(alias) implies
        all.dom().contains(alias) && package_name(all[alias], alias) == counted_package(
        dependencies,
        workspace,
        alias,
    ) by {}
    if package_names(all).contains(package) {
        let alias = choose|alias: Seq<char>| #[trigger]
            all.dom().contains(alias) && package == package_name(all[alias], alias);
        assert(dependencies.dom().contains(alias));
    }
}

/// Dependencies can be resolved exactly where the workspace declares all that they
/// inherit.
pub proof fn inherited_dependencies_must_be_declared(
    dependencies: Dependencies,
    workspace: Dependencies,
)
    ensures
        resolved(dependencies, workspace) is Ok <==> forall|alias: Seq<char>| #[trigger]
            dependencies.dom().contains(alias) && dependencies[alias].inherited
                ==> workspace.dom().contains(alias),
{
    let absent = missing(dependencies, workspace);
    if exists|alias: Seq<char>| #[trigger] absent(alias) {
        let alias = choose|alias: Seq<char>| #[trigger] absent(alias);
        assert(dependencies.dom().contains(alias));
    } else {
        assert forall|alias: Seq<char>| #[trigger]
            dependencies.dom().contains(alias) && dependencies[alias].inherited implies
            workspace.dom().contains(alias) by {
            assert(!absent(alias));
        }
    }
}

/// A package is named without regard to a workspace exactly where a dependency names it,
/// or has its name as an alias and names none.
pub proof fn packages_are_named_by_dependencies(dependencies: Dependencies, package: Seq<char>)
    ensures
        package_names(dependencies).contains(package) <==> exists|alias: Seq<char>| #[trigger]
            dependencies.dom().contains(alias) && (dependencies[alias].package == Some(package) || (
            dependencies[alias].package is None && alias == package)),
{
    if package_names(dependencies).contains(package) {
        let alias = choose|alias: Seq<char>| #[trigger]
            dependencies.dom().contains(alias) && package == package_name(
                dependencies[alias],
                alias,
            );
        assert(dependencies.dom().contains(alias));
    }
}

} // verus!
