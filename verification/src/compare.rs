//! The comparison of a project at a revision with the working tree.

use vstd::prelude::*;

use crate::collections::PackageVersions;
use crate::ecosystem;
use crate::ecosystem::Ecosystem;
use crate::error::{Error, Failure};
use crate::git;
use crate::members;
use crate::members::{direct_dependencies, file_label};
use crate::options::{Choices, Options};
use crate::path;
use crate::path::RepoPath;
use crate::report;
use crate::report::{print_diff, Printed, Report};
use crate::source;
use crate::source::{Known, ManifestSource, Need, Outcome, Progress, Query};

verus! {

/// How far a comparison came with what is known of the two sides.
pub enum Comparison {
    Done(Report),
    Failed(Error),
    AskOld(Need),
    AskNew(Need),
}

/// How far a comparison came with what is known of the two sides.
#[verifier::ext_equal]
pub enum Verdict {
    Done(Printed),
    Failed(Failure),
    AskOld(Query),
    AskNew(Query),
}

impl View for Comparison {
    type V = Verdict;

    open spec fn view(&self) -> Verdict {
        match *self {
            Comparison::Done(report) => Verdict::Done(report@),
            Comparison::Failed(error) => Verdict::Failed(error@),
            Comparison::AskOld(need) => Verdict::AskOld(need@),
            Comparison::AskNew(need) => Verdict::AskNew(need@),
        }
    }
}

/// Where the files of a project are, and how its lockfile is shown.
pub struct ProjectPaths {
    pub manifest: RepoPath,
    pub lockfile: RepoPath,
    pub lockfile_shown: String,
}

/// Where the files of a project are, and how its lockfile is shown.
pub struct Places {
    pub manifest: Seq<Seq<char>>,
    pub lockfile: Seq<Seq<char>>,
    pub lockfile_shown: Seq<char>,
}

impl View for ProjectPaths {
    type V = Places;

    open spec fn view(&self) -> Places {
        Places {
            manifest: self.manifest@,
            lockfile: self.lockfile@,
            lockfile_shown: self.lockfile_shown@,
        }
    }
}

/// The contents of a file on one side.
pub open spec fn contents_of(known: Known, path: Seq<Seq<char>>) -> Outcome<Seq<char>> {
    match known.file(path) {
        None => Outcome::Ask(Query::File(path)),
        Some(Err(failure)) => Outcome::Failed(failure),
        Some(Ok(contents)) => Outcome::Done(contents),
    }
}

/// Goes on with what was computed on the old side.
pub open spec fn with_old<T>(outcome: Outcome<T>, go_on: spec_fn(T) -> Verdict) -> Verdict {
    match outcome {
        Outcome::Done(value) => go_on(value),
        Outcome::Failed(failure) => Verdict::Failed(failure),
        Outcome::Ask(query) => Verdict::AskOld(query),
    }
}

/// Goes on with what was computed on the new side.
pub open spec fn with_new<T>(outcome: Outcome<T>, go_on: spec_fn(T) -> Verdict) -> Verdict {
    match outcome {
        Outcome::Done(value) => go_on(value),
        Outcome::Failed(failure) => Verdict::Failed(failure),
        Outcome::Ask(query) => Verdict::AskNew(query),
    }
}

/// The comparison, once the four files are read. Dependencies that either manifest
/// declares are direct.
pub open spec fn compared_contents(
    ecosystem: Ecosystem,
    old: Known,
    new: Known,
    places: Places,
    choices: Choices,
    old_lockfile: Seq<char>,
    new_lockfile: Seq<char>,
    old_manifest: Seq<char>,
    new_manifest: Seq<char>,
) -> Verdict {
    match ecosystem::lockfile_packages(ecosystem, old_lockfile) {
        Err(message) => Verdict::Failed(
            Failure::File { label: members::label_of(old.revision, places.lockfile), message },
        ),
        Ok(old_packages) => match ecosystem::lockfile_packages(ecosystem, new_lockfile) {
            Err(message) => Verdict::Failed(
                Failure::File { label: places.lockfile_shown, message },
            ),
            Ok(new_packages) => with_old(
                members::direct_packages(ecosystem, old, places.manifest, old_manifest),
                |old_direct: Set<Seq<char>>|
                    with_new(
                        members::direct_packages(ecosystem, new, places.manifest, new_manifest),
                        |new_direct: Set<Seq<char>>|
                            Verdict::Done(
                                report::printed_diff(
                                    old_packages,
                                    new_packages,
                                    old_direct.union(new_direct),
                                    choices.all,
                                    choices.pretty,
                                    ecosystem::label_of(ecosystem),
                                ),
                            ),
                    ),
            ),
        },
    }
}

/// The comparison of a project.
pub open spec fn compared(
    ecosystem: Ecosystem,
    old: Known,
    new: Known,
    places: Places,
    choices: Choices,
) -> Verdict {
    with_old(
        contents_of(old, places.lockfile),
        |old_lockfile: Seq<char>|
            with_new(
                contents_of(new, places.lockfile),
                |new_lockfile: Seq<char>|
                    with_old(
                        contents_of(old, places.manifest),
                        |old_manifest: Seq<char>|
                            with_new(
                                contents_of(new, places.manifest),
                                |new_manifest: Seq<char>|
                                    compared_contents(
                                        ecosystem,
                                        old,
                                        new,
                                        places,
                                        choices,
                                        old_lockfile,
                                        new_lockfile,
                                        old_manifest,
                                        new_manifest,
                                    ),
                            ),
                    ),
            ),
    )
}

/// The contents of a file on one side.
fn contents<'a>(source: &'a ManifestSource, path: &RepoPath) -> (read: Progress<&'a String>)
    ensures
        match read {
            Progress::Done(contents) => contents_of(source@, path@) == Outcome::Done(contents@),
            Progress::Failed(error) => contents_of(source@, path@) == Outcome::<Seq<char>>::Failed(
                error@,
            ),
            Progress::Ask(need) => contents_of(source@, path@) == Outcome::<Seq<char>>::Ask(need@),
        },
{
    match source.read(path) {
        None => Progress::Ask(Need::File(path.clone())),
        Some(Err(error)) => Progress::Failed(error.clone()),
        Some(Ok(contents)) => Progress::Done(contents),
    }
}

/// The comparison, once the four files are read.
fn compare_contents(
    ecosystem: Ecosystem,
    old: &ManifestSource,
    new: &ManifestSource,
    paths: &ProjectPaths,
    options: &Options,
    old_lockfile: &str,
    new_lockfile: &str,
    old_manifest: &str,
    new_manifest: &str,
) -> (comparison: Comparison)
    ensures
        comparison@ == compared_contents(
            ecosystem,
            old@,
            new@,
            paths@,
            options@,
            old_lockfile@,
            new_lockfile@,
            old_manifest@,
            new_manifest@,
        ),
{
    let old_packages = match ecosystem.parse_lockfile(old_lockfile) {
        Ok(packages) => packages,
        Err(message) => {
            return Comparison::Failed(
                Error::File { label: file_label(&old.revision, &paths.lockfile), message },
            );
        },
    };
    let new_packages = match ecosystem.parse_lockfile(new_lockfile) {
        Ok(packages) => packages,
        Err(message) => {
            return Comparison::Failed(
                Error::File { label: paths.lockfile_shown.clone(), message },
            );
        },
    };
    let mut direct = match direct_dependencies(ecosystem, old, &paths.manifest, old_manifest) {
        Progress::Done(direct) => direct,
        Progress::Failed(error) => {
            return Comparison::Failed(error);
        },
        Progress::Ask(need) => {
            return Comparison::AskOld(need);
        },
    };
    let new_direct = match direct_dependencies(ecosystem, new, &paths.manifest, new_manifest) {
        Progress::Done(direct) => direct,
        Progress::Failed(error) => {
            return Comparison::Failed(error);
        },
        Progress::Ask(need) => {
            return Comparison::AskNew(need);
        },
    };
    direct.extend(&new_direct);
    Comparison::Done(
        print_diff(
            &old_packages,
            &new_packages,
            &direct,
            options.all,
            options.pretty,
            ecosystem.package_label(),
        ),
    )
}

/// The comparison of a project.
pub fn compare_project(
    ecosystem: Ecosystem,
    old: &ManifestSource,
    new: &ManifestSource,
    paths: &ProjectPaths,
    options: &Options,
) -> (comparison: Comparison)
    ensures
        comparison@ == compared(ecosystem, old@, new@, paths@, options@),
{
    let old_lockfile = match contents(old, &paths.lockfile) {
        Progress::Done(contents) => contents,
        Progress::Failed(error) => {
            return Comparison::Failed(error);
        },
        Progress::Ask(need) => {
            return Comparison::AskOld(need);
        },
    };
    let new_lockfile = match contents(new, &paths.lockfile) {
        Progress::Done(contents) => contents,
        Progress::Failed(error) => {
            return Comparison::Failed(error);
        },
        Progress::Ask(need) => {
            return Comparison::AskNew(need);
        },
    };
    let old_manifest = match contents(old, &paths.manifest) {
        Progress::Done(contents) => contents,
        Progress::Failed(error) => {
            return Comparison::Failed(error);
        },
        Progress::Ask(need) => {
            return Comparison::AskOld(need);
        },
    };
    let new_manifest = match contents(new, &paths.manifest) {
        Progress::Done(contents) => contents,
        Progress::Failed(error) => {
            return Comparison::Failed(error);
        },
        Progress::Ask(need) => {
            return Comparison::AskNew(need);
        },
    };
    compare_contents(
        ecosystem,
        old,
        new,
        paths,
        options,
        old_lockfile.as_str(),
        new_lockfile.as_str(),
        old_manifest.as_str(),
        new_manifest.as_str(),
    )
}

/// A comparison asks only for what is not known yet of the side that it asks, so that
/// answering each question comes to an end.
pub proof fn comparisons_ask_what_is_unknown(
    ecosystem: Ecosystem,
    old: Known,
    new: Known,
    places: Places,
    choices: Choices,
)
    ensures
        compared(ecosystem, old, new, places, choices) matches Verdict::AskOld(query)
            ==> !source::answers(old, query),
        compared(ecosystem, old, new, places, choices) matches Verdict::AskNew(query)
            ==> !source::answers(new, query),
{
    if let Outcome::Done(contents) = contents_of(old, places.manifest) {
        members::dependencies_ask_what_is_unknown(ecosystem, old, places.manifest, contents);
    }
    if let Outcome::Done(contents) = contents_of(new, places.manifest) {
        members::dependencies_ask_what_is_unknown(ecosystem, new, places.manifest, contents);
    }
}

/// Whether a comparison asks for something.
pub open spec fn asks(verdict: Verdict) -> bool {
    verdict is AskOld || verdict is AskNew
}

/// Knowing more does not change a comparison that asked for nothing: it is the one that
/// reading everything first would give.
pub proof fn comparisons_stay(
    ecosystem: Ecosystem,
    old: Known,
    new: Known,
    more_old: Known,
    more_new: Known,
    places: Places,
    choices: Choices,
)
    requires
        source::grows_to(old, more_old),
        source::grows_to(new, more_new),
        !asks(compared(ecosystem, old, new, places, choices)),
    ensures
        compared(ecosystem, more_old, more_new, places, choices) == compared(
            ecosystem,
            old,
            new,
            places,
            choices,
        ),
{
    if let Outcome::Done(contents) = contents_of(old, places.manifest) {
        if !(members::direct_packages(ecosystem, old, places.manifest, contents) is Ask) {
            members::dependencies_stay(ecosystem, old, more_old, places.manifest, contents);
        }
    }
    if let Outcome::Done(contents) = contents_of(new, places.manifest) {
        if !(members::direct_packages(ecosystem, new, places.manifest, contents) is Ask) {
            members::dependencies_stay(ecosystem, new, more_new, places.manifest, contents);
        }
    }
}

/// Where both sides have the same lockfile, a comparison that succeeds prints no table
/// and says that nothing changed.
pub proof fn equal_lockfiles_have_no_changes(
    ecosystem: Ecosystem,
    old: Known,
    new: Known,
    places: Places,
    choices: Choices,
)
    requires
        old.file(places.lockfile) == new.file(places.lockfile),
        compared(ecosystem, old, new, places, choices) is Done,
    ensures
        compared(ecosystem, old, new, places, choices) == Verdict::Done(
            Printed { stdout: seq![], stderr: "no changes\n"@ },
        ),
{
    let lockfile = contents_of(old, places.lockfile)->Done_0;
    let packages = ecosystem::lockfile_packages(ecosystem, lockfile)->Ok_0;
    let old_direct = members::direct_packages(
        ecosystem,
        old,
        places.manifest,
        contents_of(old, places.manifest)->Done_0,
    )->Done_0;
    let new_direct = members::direct_packages(
        ecosystem,
        new,
        places.manifest,
        contents_of(new, places.manifest)->Done_0,
    )->Done_0;
    report::equal_packages_have_no_changes(
        packages,
        old_direct.union(new_direct),
        choices.all,
        choices.pretty,
        ecosystem::label_of(ecosystem),
    );
}

/// A changed package that either manifest declares is shown.
pub proof fn changes_of_either_manifest_are_shown(
    old_packages: PackageVersions,
    new_packages: PackageVersions,
    old_direct: Set<Seq<char>>,
    new_direct: Set<Seq<char>>,
    all: bool,
    package: Seq<char>,
)
    requires
        report::changed(old_packages, new_packages).contains(package),
        old_direct.contains(package) || new_direct.contains(package),
    ensures
        report::shown(old_packages, new_packages, old_direct.union(new_direct), all).contains(
            package,
        ),
{
}

/// Where the files of both sides can be read and understood, a comparison prints the
/// difference of the two lockfiles, with what either manifest declares as direct
/// dependencies, as it was chosen.
pub proof fn comparisons_print_the_difference(
    ecosystem: Ecosystem,
    old: Known,
    new: Known,
    places: Places,
    choices: Choices,
    old_lockfile: Seq<char>,
    new_lockfile: Seq<char>,
    old_manifest: Seq<char>,
    new_manifest: Seq<char>,
    old_packages: PackageVersions,
    new_packages: PackageVersions,
    old_direct: Set<Seq<char>>,
    new_direct: Set<Seq<char>>,
)
    requires
        old.file(places.lockfile) == Some(Ok::<Seq<char>, Failure>(old_lockfile)),
        new.file(places.lockfile) == Some(Ok::<Seq<char>, Failure>(new_lockfile)),
        old.file(places.manifest) == Some(Ok::<Seq<char>, Failure>(old_manifest)),
        new.file(places.manifest) == Some(Ok::<Seq<char>, Failure>(new_manifest)),
        ecosystem::lockfile_packages(ecosystem, old_lockfile) == Ok::<PackageVersions, Seq<char>>(
            old_packages,
        ),
        ecosystem::lockfile_packages(ecosystem, new_lockfile) == Ok::<PackageVersions, Seq<char>>(
            new_packages,
        ),
        members::direct_packages(ecosystem, old, places.manifest, old_manifest) == Outcome::Done(
            old_direct,
        ),
        members::direct_packages(ecosystem, new, places.manifest, new_manifest) == Outcome::Done(
            new_direct,
        ),
    ensures
        compared(ecosystem, old, new, places, choices) == Verdict::Done(
            report::printed_diff(
                old_packages,
                new_packages,
                old_direct.union(new_direct),
                choices.all,
                choices.pretty,
                ecosystem::label_of(ecosystem),
            ),
        ),
{
}

/// A file of either side that cannot be read ends a comparison with its failure, where
/// the files that are read before it can be read: the lockfiles come before the
/// manifests, and of each the old one first.
pub proof fn unreadable_files_end_comparisons(
    ecosystem: Ecosystem,
    old: Known,
    new: Known,
    places: Places,
    choices: Choices,
    failure: Failure,
)
    ensures
        old.file(places.lockfile) == Some(Err::<Seq<char>, Failure>(failure)) ==> compared(
            ecosystem,
            old,
            new,
            places,
            choices,
        ) == Verdict::Failed(failure),
        (old.file(places.lockfile) matches Some(Ok(_))) && new.file(places.lockfile) == Some(
            Err::<Seq<char>, Failure>(failure),
        ) ==> compared(ecosystem, old, new, places, choices) == Verdict::Failed(failure),
        (old.file(places.lockfile) matches Some(Ok(_))) && (new.file(
            places.lockfile,
        ) matches Some(Ok(_))) && old.file(places.manifest) == Some(
            Err::<Seq<char>, Failure>(failure),
        ) ==> compared(ecosystem, old, new, places, choices) == Verdict::Failed(failure),
        (old.file(places.lockfile) matches Some(Ok(_))) && (new.file(
            places.lockfile,
        ) matches Some(Ok(_))) && (old.file(places.manifest) matches Some(Ok(_))) && new.file(
            places.manifest,
        ) == Some(Err::<Seq<char>, Failure>(failure)) ==> compared(
            ecosystem,
            old,
            new,
            places,
            choices,
        ) == Verdict::Failed(failure),
{
}

/// A lockfile that cannot be understood is named in the failure: the old one by its
/// revision and path, the new one as it is shown.
pub proof fn misunderstood_lockfiles_are_named(
    ecosystem: Ecosystem,
    old: Known,
    new: Known,
    places: Places,
    choices: Choices,
    revision: Seq<char>,
    old_lockfile: Seq<char>,
    new_lockfile: Seq<char>,
    message: Seq<char>,
)
    requires
        old.revision == Some(revision),
        old.file(places.lockfile) == Some(Ok::<Seq<char>, Failure>(old_lockfile)),
        new.file(places.lockfile) == Some(Ok::<Seq<char>, Failure>(new_lockfile)),
        old.file(places.manifest) matches Some(Ok(_)),
        new.file(places.manifest) matches Some(Ok(_)),
    ensures
        ecosystem::lockfile_packages(ecosystem, old_lockfile) == Err::<PackageVersions, Seq<char>>(
            message,
        ) ==> compared(ecosystem, old, new, places, choices) == Verdict::Failed(
            Failure::File {
                label: revision + seq![':'] + path::written(places.lockfile),
                message,
            },
        ),
        ecosystem::lockfile_packages(ecosystem, old_lockfile) is Ok
            && ecosystem::lockfile_packages(ecosystem, new_lockfile) == Err::<
            PackageVersions,
            Seq<char>,
        >(message) ==> compared(ecosystem, old, new, places, choices) == Verdict::Failed(
            Failure::File { label: places.lockfile_shown, message },
        ),
{
    git::objects_are_named_by_revision_and_path(revision, places.lockfile);
}

} // verus!
