//! The kinds of projects that can be compared.

use vstd::prelude::*;
use vstd::string::*;

use crate::cargo_lock;
use crate::cargo_lock::parse_cargo_lockfile;
use crate::cargo_manifest;
use crate::cargo_manifest::parse_cargo_manifest;
use crate::collections;
use crate::collections::{Packages, PackageVersions, TextSet};
use crate::json_writing;
use crate::json_writing::Written;
use crate::manifest_writing;
use crate::npm;
use crate::npm::{parse_npm_lockfile, parse_npm_manifest};
use crate::npm_records;
use crate::npm_writing;
use crate::text;
use crate::text_writing;
use crate::toml_writing;

verus! {

/// A kind of project.
#[derive(Clone, Copy, Debug, PartialEq, Eq, Structural)]
pub enum Ecosystem {
    Rust,
    Npm,
}

/// The packages that a lockfile resolves.
pub open spec fn lockfile_packages(ecosystem: Ecosystem, contents: Seq<char>) -> Result<
    PackageVersions,
    Seq<char>,
> {
    match ecosystem {
        Ecosystem::Rust => cargo_lock::locked_versions(contents),
        Ecosystem::Npm => npm::npm_lockfile(contents),
    }
}

/// The packages that a manifest declares as dependencies.
pub open spec fn manifest_dependencies(ecosystem: Ecosystem, contents: Seq<char>) -> Result<
    Set<Seq<char>>,
    Seq<char>,
> {
    match ecosystem {
        Ecosystem::Rust => cargo_manifest::manifest_packages(contents),
        Ecosystem::Npm => npm::npm_manifest(contents),
    }
}

/// What a package is called.
pub open spec fn label_of(ecosystem: Ecosystem) -> Seq<char> {
    match ecosystem {
        Ecosystem::Rust => "crate"@,
        Ecosystem::Npm => "package"@,
    }
}

/// The files that make up a project.
pub open spec fn files_of(ecosystem: Ecosystem) -> Seq<char> {
    match ecosystem {
        Ecosystem::Rust => "Cargo.toml and Cargo.lock"@,
        Ecosystem::Npm => "package.json and package-lock.json"@,
    }
}

/// The name of the manifest.
pub open spec fn manifest_of(ecosystem: Ecosystem) -> Seq<char> {
    match ecosystem {
        Ecosystem::Rust => "Cargo.toml"@,
        Ecosystem::Npm => "package.json"@,
    }
}

/// The name of the lockfile.
pub open spec fn lockfile_of(ecosystem: Ecosystem) -> Seq<char> {
    match ecosystem {
        Ecosystem::Rust => "Cargo.lock"@,
        Ecosystem::Npm => "package-lock.json"@,
    }
}

/// The title of an ecosystem's section.
pub open spec fn title_of(ecosystem: Ecosystem) -> Seq<char> {
    match ecosystem {
        Ecosystem::Rust => "Rust"@,
        Ecosystem::Npm => "npm"@,
    }
}

/// What stands above the report at `index` when there are `count` reports: a heading
/// with an empty line after it, and one before it from the second report on.
pub open spec fn heading_of(ecosystem: Ecosystem, index: nat, count: nat) -> Seq<char> {
    if count <= 1 {
        seq![]
    } else {
        (if index > 0 {
            "\n## "@
        } else {
            "## "@
        }) + title_of(ecosystem) + "\n\n"@
    }
}

impl Ecosystem {
    /// The packages that a lockfile resolves.
    pub fn parse_lockfile(self, contents: &str) -> (read: Result<Packages, String>)
        ensures
            text::outcome(read) == lockfile_packages(self, contents@),
    {
        match self {
            Ecosystem::Rust => parse_cargo_lockfile(contents),
            Ecosystem::Npm => parse_npm_lockfile(contents),
        }
    }

    /// The packages that a manifest declares as dependencies.
    pub fn parse_manifest(self, contents: &str) -> (read: Result<TextSet, String>)
        ensures
            text::outcome(read) == manifest_dependencies(self, contents@),
    {
        match self {
            Ecosystem::Rust => parse_cargo_manifest(contents),
            Ecosystem::Npm => parse_npm_manifest(contents),
        }
    }

    /// What a package is called.
    pub fn package_label(self) -> (label: &'static str)
        ensures
            label@ == label_of(self),
    {
        match self {
            Ecosystem::Rust => "crate",
            Ecosystem::Npm => "package",
        }
    }

    /// The files that make up a project.
    pub fn project_files(self) -> (files: &'static str)
        ensures
            files@ == files_of(self),
    {
        match self {
            Ecosystem::Rust => "Cargo.toml and Cargo.lock",
            Ecosystem::Npm => "package.json and package-lock.json",
        }
    }

    /// The name of the manifest.
    pub fn manifest_name(self) -> (name: &'static str)
        ensures
            name@ == manifest_of(self),
    {
        match self {
            Ecosystem::Rust => "Cargo.toml",
            Ecosystem::Npm => "package.json",
        }
    }

    /// The name of the lockfile.
    pub fn lockfile_name(self) -> (name: &'static str)
        ensures
            name@ == lockfile_of(self),
    {
        match self {
            Ecosystem::Rust => "Cargo.lock",
            Ecosystem::Npm => "package-lock.json",
        }
    }

    /// What stands above the report at `index` when there are `count` reports.
    pub fn heading(self, index: usize, count: usize) -> (heading: String)
        ensures
            heading@ == heading_of(self, index as nat, count as nat),
    {
        if count <= 1 {
            return String::new();
        }
        let mut heading = if index > 0 {
            "\n## ".to_owned()
        } else {
            "## ".to_owned()
        };
        heading.append(
            match self {
                Ecosystem::Rust => "Rust",
                Ecosystem::Npm => "npm",
            },
        );
        heading.append("\n\n");
        heading
    }
}

/// Each ecosystem reads lockfiles of its own format: the packages that were written to
/// one read back.
pub proof fn lockfiles_are_read_in_their_format(
    crates: Seq<cargo_lock::Entry>,
    front: Seq<(Seq<char>, Written)>,
    packages: Seq<npm_records::Recorded>,
    behind: Seq<(Seq<char>, Written)>,
)
    requires
        forall|i: int|
            0 <= i < crates.len() ==> cargo_lock::say_something_else(#[trigger] crates[i].others),
        forall|i: int|
            0 <= i < packages.len() ==> npm_records::well_recorded(#[trigger] packages[i]),
        forall|i: int, j: int|
            0 <= i < j < packages.len() ==> (#[trigger] packages[i]).path != (
            #[trigger] packages[j]).path,
        forall|i: int| 0 <= i < front.len() ==> (#[trigger] front[i]).0 != "packages"@,
        forall|i: int| 0 <= i < behind.len() ==> (#[trigger] behind[i]).0 != "packages"@,
    ensures
        lockfile_packages(Ecosystem::Rust, cargo_lock::full_lockfile(crates)) == Ok::<
            PackageVersions,
            Seq<char>,
        >(
            collections::grouped(
                crates.map_values(
                    |package: cargo_lock::Entry| (package.name, package.version),
                ).to_set(),
            ),
        ),
        lockfile_packages(
            Ecosystem::Npm,
            json_writing::written(
                Written::Members(
                    front + seq![("packages"@, Written::Members(npm_records::records(packages)))]
                        + behind,
                ),
            ),
        ) == Ok::<PackageVersions, Seq<char>>(
            collections::grouped(npm_records::named_versions(packages)),
        ),
{
    cargo_lock::full_lockfiles_read_back(crates);
    npm_records::full_lockfiles_read_back(front, packages, behind);
}

/// Each ecosystem reads manifests of its own format: the dependencies that were written
/// to one read back, under the packages that they name.
pub proof fn manifests_are_read_in_their_format(
    list: Seq<manifest_writing::Declared>,
    normal: Seq<Seq<char>>,
    development: Seq<Seq<char>>,
    optional: Seq<Seq<char>>,
    peer: Seq<Seq<char>>,
)
    requires
        forall|i: int| 0 <= i < list.len() ==> manifest_writing::well_declared(#[trigger] list[i]),
    ensures
        manifest_dependencies(
            Ecosystem::Rust,
            text_writing::lines_text(
                seq![toml_writing::written_header(seq!["dependencies"@])]
                    + manifest_writing::declared_lines(list),
                seq!['\n'],
            ),
        ) == Ok::<Set<Seq<char>>, Seq<char>>(
            cargo_manifest::package_names(manifest_writing::listed(list)),
        ),
        manifest_dependencies(
            Ecosystem::Npm,
            npm_writing::written_manifest(normal, development, optional, peer),
        ) == Ok::<Set<Seq<char>>, Seq<char>>(
            normal.to_set().union(development.to_set()).union(optional.to_set()).union(
                peer.to_set(),
            ),
        ),
{
    manifest_writing::written_dependencies_read_back(list);
    npm_writing::written_manifests_read_back(normal, development, optional, peer);
}

/// The files of a project are its manifest and its lockfile.
pub proof fn projects_are_made_of_two_files(ecosystem: Ecosystem)
    ensures
        files_of(ecosystem) == manifest_of(ecosystem) + " and "@ + lockfile_of(ecosystem),
{
    reveal_strlit("Cargo.toml and Cargo.lock");
    reveal_strlit("package.json and package-lock.json");
    reveal_strlit("Cargo.toml");
    reveal_strlit("Cargo.lock");
    reveal_strlit("package.json");
    reveal_strlit("package-lock.json");
    reveal_strlit(" and ");
    assert(files_of(ecosystem) =~= manifest_of(ecosystem) + " and "@ + lockfile_of(ecosystem));
}

} // verus!
