//! The direct dependencies of a project, with those of the members of its workspace.

use vstd::prelude::*;

use crate::cargo_manifest;
use crate::cargo_manifest::{resolved_dependencies, parse_cargo_manifest};
use crate::cargo_manifest::Dependencies;
use crate::collections::TextSet;
use crate::ecosystem;
use crate::ecosystem::Ecosystem;
use crate::error::{Error, Failure};
use crate::git;
use crate::git::object_name;
use crate::glob;
use crate::glob::glob_matches;
use crate::order;
use crate::path;
use crate::path::{PathSet, RepoPath};
use crate::source;
use crate::source::{append_paths, Known, ManifestSource, Need, Outcome, Progress, Query};
use crate::text::{characters, text_of};
use crate::workspace;
use crate::workspace::{parse_workspace, Workspace, WorkspaceModel};

verus! {

/// How a file is called in messages: with the revision that it is of.
pub open spec fn label_of(revision: Option<Seq<char>>, path: Seq<Seq<char>>) -> Seq<char> {
    match revision {
        Some(revision) => git::object_of(revision, path),
        None => path::written(path),
    }
}

/// How a file is called in messages: with the revision that it is of.
pub fn file_label(revision: &Option<String>, path: &RepoPath) -> (label: String)
    ensures
        label@ == label_of(revision.deep_view(), path@),
{
    match revision {
        Some(revision) => object_name(revision.as_str(), path),
        None => path.text(),
    }
}

/// What was read from a file that is called `label`, or that it cannot be understood.
pub open spec fn understood<T>(read: Result<T, Seq<char>>, label: Seq<char>) -> Outcome<T> {
    match read {
        Ok(value) => Outcome::Done(value),
        Err(message) => Outcome::Failed(Failure::File { label, message }),
    }
}

/// The workspace of the nearest manifest that has one, from a directory up. Files that
/// cannot be read are passed over.
pub open spec fn workspace_from(
    known: Known,
    directory: Seq<Seq<char>>,
    label: Seq<char>,
) -> Outcome<Option<WorkspaceModel>>
    decreases directory.len(), 1nat,
{
    match known.file(directory.push("Cargo.toml"@)) {
        None => Outcome::Ask(Query::File(directory.push("Cargo.toml"@))),
        Some(Err(failure)) => workspace_above(known, directory, label),
        Some(Ok(contents)) => match workspace::workspace_of(contents) {
            Err(message) => Outcome::Failed(Failure::File { label, message }),
            Ok(workspace) => if workspace.present {
                Outcome::Done(Some(workspace))
            } else {
                workspace_above(known, directory, label)
            },
        },
    }
}

/// The workspace of a manifest above a directory.
pub open spec fn workspace_above(known: Known, base: Seq<Seq<char>>, label: Seq<char>) -> Outcome<
    Option<WorkspaceModel>,
>
    decreases base.len(), 0nat,
{
    if base.len() == 0 {
        Outcome::Done(None)
    } else {
        workspace_from(known, base.drop_last(), label)
    }
}

/// The workspace of the nearest manifest that has one, from a directory up.
fn find_workspace_from(source: &ManifestSource, directory: &RepoPath, label: &str) -> (found:
    Progress<Option<Workspace>>)
    ensures
        source::outcome_of(found) == workspace_from(source@, directory@, label@),
    decreases directory@.len(), 1nat,
{
    let path = directory.child("Cargo.toml");
    match source.read(&path) {
        None => {
            return Progress::Ask(Need::File(path));
        },
        Some(Err(_)) => {},
        Some(Ok(contents)) => {
            match parse_workspace(contents.as_str()) {
                Err(message) => {
                    return Progress::Failed(Error::File { label: label.to_owned(), message });
                },
                Ok(workspace) => {
                    if workspace.present {
                        return Progress::Done(Some(workspace));
                    }
                },
            }
        },
    }
    find_workspace(source, directory, label)
}

/// The workspace of a manifest above a directory.
fn find_workspace(source: &ManifestSource, base: &RepoPath, label: &str) -> (found: Progress<
    Option<Workspace>,
>)
    ensures
        source::outcome_of(found) == workspace_above(source@, base@, label@),
    decreases base@.len(), 0nat,
{
    match base.parent() {
        None => Progress::Done(None),
        Some(directory) => find_workspace_from(source, &directory, label),
    }
}

/// A text without the slashes at its end.
pub open spec fn without_slashes(pattern: Seq<char>) -> Seq<char>
    decreases pattern.len(),
{
    if pattern.len() > 0 && pattern.last() == '/' {
        without_slashes(pattern.drop_last())
    } else {
        pattern
    }
}

/// A text without the slashes at its end.
fn trim_slashes(pattern: &str) -> (trimmed: String)
    ensures
        trimmed@ == without_slashes(pattern@),
{
    let chars = characters(pattern);
    let mut end: usize = chars.len();
    assert(chars@.take(end as int) =~= pattern@);
    while end > 0 && chars[end - 1] == '/'
        invariant
            chars@ == pattern@,
            end <= chars.len(),
            without_slashes(pattern@) == without_slashes(chars@.take(end as int)),
        decreases end,
    {
        assert(chars@.take(end as int).drop_last() =~= chars@.take(end - 1));
        end -= 1;
    }
    let trimmed = text_of(&chars, 0, end);
    assert(trimmed@ =~= chars@.take(end as int));
    trimmed
}

/// Whether a directory is excluded from the workspace at `base`.
pub open spec fn excluded(
    member: Seq<Seq<char>>,
    base: Seq<Seq<char>>,
    exclude: Seq<Seq<char>>,
) -> bool {
    exists|i: int|
        0 <= i < exclude.len() && glob::matching(
            without_slashes(#[trigger] exclude[i]),
            path::written(path::relative(member, base)),
        )
}

/// Tells whether a directory is excluded from the workspace at `base`.
fn is_excluded(member: &RepoPath, base: &RepoPath, exclude: &Vec<String>) -> (found: bool)
    ensures
        found == excluded(member@, base@, exclude.deep_view()),
{
    let relative = member.from_base(base).text();
    let ghost all = exclude.deep_view();
    for i in 0..exclude.len()
        invariant
            all == exclude.deep_view(),
            relative@ == path::written(path::relative(member@, base@)),
            forall|j: int|
                0 <= j < i ==> !glob::matching(without_slashes(#[trigger] all[j]), relative@),
    {
        assert(all[i as int] == exclude@[i as int]@);
        if glob_matches(trim_slashes(exclude[i].as_str()).as_str(), relative.as_str()) {
            return true;
        }
    }
    false
}

/// The directories that the member patterns of a workspace name.
pub open spec fn named_members(
    known: Known,
    base: Seq<Seq<char>>,
    patterns: Seq<Seq<char>>,
) -> Outcome<Seq<Seq<Seq<char>>>>
    decreases patterns.len(),
{
    if patterns.len() == 0 {
        Outcome::Done(seq![])
    } else {
        match named_members(known, base, patterns.drop_last()) {
            Outcome::Done(before) => match source::expanded(known, base, patterns.last()) {
                Outcome::Done(more) => Outcome::Done(before + more),
                other => other,
            },
            other => other,
        }
    }
}

/// What stops at some pattern stops there whatever patterns follow.
proof fn lemma_members_stop(
    known: Known,
    base: Seq<Seq<char>>,
    patterns: Seq<Seq<char>>,
    count: int,
)
    requires
        0 <= count <= patterns.len(),
        !(named_members(known, base, patterns.take(count)) is Done),
    ensures
        named_members(known, base, patterns) == named_members(known, base, patterns.take(count)),
    decreases patterns.len(),
{
    if count < patterns.len() {
        assert(patterns.drop_last().take(count) =~= patterns.take(count));
        lemma_members_stop(known, base, patterns.drop_last(), count);
    } else {
        assert(patterns.take(count) =~= patterns);
    }
}

/// The directories that the member patterns of a workspace name.
fn name_members(source: &ManifestSource, base: &RepoPath, patterns: &Vec<String>) -> (members:
    Progress<Vec<RepoPath>>)
    ensures
        source::outcome_of(members) == named_members(source@, base@, patterns.deep_view()),
{
    let mut members: Vec<RepoPath> = Vec::new();
    let ghost all = patterns.deep_view();
    assert(members.deep_view() =~= seq![]);
    for i in 0..patterns.len()
        invariant
            all == patterns.deep_view(),
            named_members(source@, base@, all.take(i as int)) == Outcome::Done(
                members.deep_view(),
            ),
    {
        proof {
            assert(all.take(i + 1).drop_last() =~= all.take(i as int));
            assert(all.take(i + 1).last() == patterns@[i as int]@);
        }
        match source.expand(base, patterns[i].as_str()) {
            Progress::Done(more) => {
                append_paths(&mut members, &more);
            },
            Progress::Failed(error) => {
                proof {
                    lemma_members_stop(source@, base@, all, i + 1);
                }
                return Progress::Failed(error);
            },
            Progress::Ask(need) => {
                proof {
                    lemma_members_stop(source@, base@, all, i + 1);
                }
                return Progress::Ask(need);
            },
        }
    }
    assert(all.take(patterns.len() as int) =~= all);
    Progress::Done(members)
}

/// The manifests of the members that are not excluded.
pub open spec fn member_manifests(
    members: Seq<Seq<Seq<char>>>,
    base: Seq<Seq<char>>,
    exclude: Seq<Seq<char>>,
) -> Set<Seq<Seq<char>>> {
    Set::new(
        |manifest: Seq<Seq<char>>|
            exists|i: int|
                0 <= i < members.len() && manifest == (#[trigger] members[i]).push("Cargo.toml"@)
                    && !excluded(members[i], base, exclude),
    )
}

/// One more member.
proof fn lemma_one_more_member(
    members: Seq<Seq<Seq<char>>>,
    count: int,
    base: Seq<Seq<char>>,
    exclude: Seq<Seq<char>>,
)
    requires
        0 <= count < members.len(),
    ensures
        member_manifests(members.take(count + 1), base, exclude) == if excluded(
            members[count],
            base,
            exclude,
        ) {
            member_manifests(members.take(count), base, exclude)
        } else {
            member_manifests(members.take(count), base, exclude).insert(
                members[count].push("Cargo.toml"@),
            )
        },
{
    let fewer = members.take(count);
    let more = members.take(count + 1);
    let grown = if excluded(members[count], base, exclude) {
        member_manifests(fewer, base, exclude)
    } else {
        member_manifests(fewer, base, exclude).insert(members[count].push("Cargo.toml"@))
    };
    assert forall|manifest: Seq<Seq<char>>| #[trigger]
        member_manifests(more, base, exclude).contains(manifest) == grown.contains(manifest) by {
        if member_manifests(more, base, exclude).contains(manifest) {
            let i = choose|i: int|
                0 <= i < more.len() && manifest == (#[trigger] more[i]).push("Cargo.toml"@)
                    && !excluded(more[i], base, exclude);
            if i < count {
                assert(fewer[i] == more[i]);
            }
        }
        if member_manifests(fewer, base, exclude).contains(manifest) {
            let i = choose|i: int|
                0 <= i < fewer.len() && manifest == (#[trigger] fewer[i]).push("Cargo.toml"@)
                    && !excluded(fewer[i], base, exclude);
            assert(more[i] == fewer[i]);
        }
        assert(more[count] == members[count]);
    }
    assert(member_manifests(more, base, exclude) =~= grown);
}

/// The manifests of the members that are not excluded.
fn manifests_of(members: &Vec<RepoPath>, base: &RepoPath, exclude: &Vec<String>) -> (manifests:
    PathSet)
    ensures
        manifests@ == member_manifests(members.deep_view(), base@, exclude.deep_view()),
{
    let mut manifests = PathSet::new();
    let ghost all = members.deep_view();
    assert(manifests@ =~= member_manifests(all.take(0), base@, exclude.deep_view()));
    for i in 0..members.len()
        invariant
            all == members.deep_view(),
            manifests@ == member_manifests(all.take(i as int), base@, exclude.deep_view()),
    {
        proof {
            lemma_one_more_member(all, i as int, base@, exclude.deep_view());
            assert(all[i as int] == members@[i as int]@);
        }
        if !is_excluded(&members[i], base, exclude) {
            manifests.insert(members[i].child("Cargo.toml"));
        }
    }
    assert(all.take(members.len() as int) =~= all);
    manifests
}

/// The dependencies that are known, and those that the manifests of members declare.
pub open spec fn with_members(
    known: Known,
    own: Set<Seq<char>>,
    manifests: Seq<Seq<Seq<char>>>,
    shared: Dependencies,
) -> Outcome<Set<Seq<char>>>
    decreases manifests.len(),
{
    if manifests.len() == 0 {
        Outcome::Done(own)
    } else {
        match with_members(known, own, manifests.drop_last(), shared) {
            Outcome::Done(direct) => match known.file(manifests.last()) {
                None => Outcome::Ask(Query::File(manifests.last())),
                Some(Err(failure)) => Outcome::Failed(failure),
                Some(Ok(contents)) => match cargo_manifest::resolved_packages(contents, shared) {
                    Err(message) => Outcome::Failed(
                        Failure::File {
                            label: label_of(known.revision, manifests.last()),
                            message,
                        },
                    ),
                    Ok(more) => Outcome::Done(direct.union(more)),
                },
            },
            other => other,
        }
    }
}

/// What stops at some manifest stops there whatever manifests follow.
proof fn lemma_with_members_stops(
    known: Known,
    own: Set<Seq<char>>,
    manifests: Seq<Seq<Seq<char>>>,
    shared: Dependencies,
    count: int,
)
    requires
        0 <= count <= manifests.len(),
        !(with_members(known, own, manifests.take(count), shared) is Done),
    ensures
        with_members(known, own, manifests, shared) == with_members(
            known,
            own,
            manifests.take(count),
            shared,
        ),
    decreases manifests.len(),
{
    if count < manifests.len() {
        assert(manifests.drop_last().take(count) =~= manifests.take(count));
        lemma_with_members_stops(known, own, manifests.drop_last(), shared, count);
    } else {
        assert(manifests.take(count) =~= manifests);
    }
}

/// The dependencies that are known, and those that the manifests of members declare.
fn add_members(
    source: &ManifestSource,
    own: TextSet,
    manifests: &PathSet,
    workspace: &Workspace,
) -> (direct: Progress<TextSet>)
    ensures
        source::outcome_of(direct) == with_members(
            source@,
            own@,
            path::listed_paths(manifests@),
            workspace.dependencies@,
        ),
{
    let mut direct = own;
    let ghost known = source@;
    let ghost all = path::listed_paths(manifests@);
    let ghost shared = workspace.dependencies@;
    let count: usize = manifests.len();
    for i in 0..count
        invariant
            count == all.len(),
            known == source@,
            all == path::listed_paths(manifests@),
            shared == workspace.dependencies@,
            with_members(known, own@, all.take(i as int), shared) == Outcome::Done(direct@),
    {
        let path = manifests.at(i);
        proof {
            assert(all.take(i + 1).drop_last() =~= all.take(i as int));
            assert(all.take(i + 1).last() == path@);
            if !(with_members(known, own@, all.take(i + 1), shared) is Done) {
                lemma_with_members_stops(known, own@, all, shared, i + 1);
            }
        }
        match source.read(path) {
            None => {
                return Progress::Ask(Need::File(path.clone()));
            },
            Some(Err(error)) => {
                return Progress::Failed(error.clone());
            },
            Some(Ok(contents)) => {
                match resolved_dependencies(contents.as_str(), &workspace.dependencies) {
                    Err(message) => {
                        return Progress::Failed(
                            Error::File { label: file_label(&source.revision, path), message },
                        );
                    },
                    Ok(more) => {
                        direct.extend(&more);
                    },
                }
            },
        }
    }
    assert(all.take(count as int) =~= all);
    Progress::Done(direct)
}

/// The directory of a manifest.
pub open spec fn base_of(manifest_path: Seq<Seq<char>>) -> Seq<Seq<char>> {
    if manifest_path.len() == 0 {
        manifest_path
    } else {
        manifest_path.drop_last()
    }
}

/// The direct dependencies of a package that is no workspace's root. What it inherits
/// comes from the workspace above it.
pub open spec fn package_dependencies(
    known: Known,
    base: Seq<Seq<char>>,
    contents: Seq<char>,
    label: Seq<char>,
) -> Outcome<Set<Seq<char>>> {
    match workspace_above(known, base, label) {
        Outcome::Ask(query) => Outcome::Ask(query),
        Outcome::Failed(failure) => Outcome::Failed(failure),
        Outcome::Done(Some(workspace)) => understood(
            cargo_manifest::resolved_packages(contents, workspace.dependencies),
            label,
        ),
        Outcome::Done(None) => understood(cargo_manifest::manifest_packages(contents), label),
    }
}

/// The direct dependencies of a workspace: those of its root's manifest and those of
/// its members' manifests.
pub open spec fn workspace_dependencies(
    known: Known,
    base: Seq<Seq<char>>,
    contents: Seq<char>,
    workspace: WorkspaceModel,
    label: Seq<char>,
) -> Outcome<Set<Seq<char>>> {
    match cargo_manifest::resolved_packages(contents, workspace.dependencies) {
        Err(message) => Outcome::Failed(Failure::File { label, message }),
        Ok(own) => match named_members(known, base, workspace.members) {
            Outcome::Ask(query) => Outcome::Ask(query),
            Outcome::Failed(failure) => Outcome::Failed(failure),
            Outcome::Done(members) => with_members(
                known,
                own,
                path::listed_paths(member_manifests(members, base, workspace.exclude)),
                workspace.dependencies,
            ),
        },
    }
}

/// The direct dependencies of the project whose manifest is given.
pub open spec fn direct_packages(
    ecosystem: Ecosystem,
    known: Known,
    manifest_path: Seq<Seq<char>>,
    contents: Seq<char>,
) -> Outcome<Set<Seq<char>>> {
    let label = label_of(known.revision, manifest_path);
    let base = base_of(manifest_path);
    match ecosystem {
        Ecosystem::Npm => understood(
            ecosystem::manifest_dependencies(ecosystem, contents),
            label,
        ),
        Ecosystem::Rust => match workspace::workspace_of(contents) {
            Err(message) => Outcome::Failed(Failure::File { label, message }),
            Ok(workspace) => if workspace.present {
                workspace_dependencies(known, base, contents, workspace, label)
            } else {
                package_dependencies(known, base, contents, label)
            },
        },
    }
}

/// What was read from a file that is called `label`, or that it cannot be understood.
fn understand(read: Result<TextSet, String>, label: String) -> (outcome: Progress<TextSet>)
    ensures
        source::outcome_of(outcome) == understood(crate::text::outcome(read), label@),
{
    match read {
        Ok(value) => Progress::Done(value),
        Err(message) => Progress::Failed(Error::File { label, message }),
    }
}

/// The direct dependencies of the project whose manifest is given.
pub fn direct_dependencies(
    ecosystem: Ecosystem,
    source: &ManifestSource,
    manifest_path: &RepoPath,
    contents: &str,
) -> (direct: Progress<TextSet>)
    ensures
        source::outcome_of(direct) == direct_packages(
            ecosystem,
            source@,
            manifest_path@,
            contents@,
        ),
{
    let label = file_label(&source.revision, manifest_path);
    match ecosystem {
        Ecosystem::Npm => {
            return understand(ecosystem.parse_manifest(contents), label);
        },
        Ecosystem::Rust => {},
    }
    let workspace = match parse_workspace(contents) {
        Ok(workspace) => workspace,
        Err(message) => {
            return Progress::Failed(Error::File { label, message });
        },
    };
    let base = match manifest_path.parent() {
        Some(parent) => parent,
        None => manifest_path.clone(),
    };
    if !workspace.present {
        return match find_workspace(source, &base, label.as_str()) {
            Progress::Ask(need) => Progress::Ask(need),
            Progress::Failed(error) => Progress::Failed(error),
            Progress::Done(Some(above)) => understand(
                resolved_dependencies(contents, &above.dependencies),
                label,
            ),
            Progress::Done(None) => understand(parse_cargo_manifest(contents), label),
        };
    }
    let own = match resolved_dependencies(contents, &workspace.dependencies) {
        Ok(own) => own,
        Err(message) => {
            return Progress::Failed(Error::File { label, message });
        },
    };
    match name_members(source, &base, &workspace.members) {
        Progress::Ask(need) => Progress::Ask(need),
        Progress::Failed(error) => Progress::Failed(error),
        Progress::Done(members) => {
            let manifests = manifests_of(&members, &base, &workspace.exclude);
            add_members(source, own, &manifests, &workspace)
        },
    }
}

proof fn lemma_workspace_asks(known: Known, base: Seq<Seq<char>>, label: Seq<char>)
    ensures
        workspace_above(known, base, label) matches Outcome::Ask(query) ==> !source::answers(
            known,
            query,
        ),
    decreases base.len(),
{
    if base.len() > 0 {
        lemma_workspace_asks(known, base.drop_last(), label);
    }
}

proof fn lemma_members_ask(known: Known, base: Seq<Seq<char>>, patterns: Seq<Seq<char>>)
    ensures
        named_members(known, base, patterns) matches Outcome::Ask(query) ==> !source::answers(
            known,
            query,
        ),
    decreases patterns.len(),
{
    if patterns.len() > 0 {
        lemma_members_ask(known, base, patterns.drop_last());
        source::expansion_asks_what_is_unknown(known, base, patterns.last());
    }
}

proof fn lemma_with_members_asks(
    known: Known,
    own: Set<Seq<char>>,
    manifests: Seq<Seq<Seq<char>>>,
    shared: Dependencies,
)
    ensures
        with_members(known, own, manifests, shared) matches Outcome::Ask(query)
            ==> !source::answers(known, query),
    decreases manifests.len(),
{
    if manifests.len() > 0 {
        lemma_with_members_asks(known, own, manifests.drop_last(), shared);
    }
}

/// Collecting the direct dependencies asks only for what is not known yet, so that
/// answering each question comes to an end.
pub proof fn dependencies_ask_what_is_unknown(
    ecosystem: Ecosystem,
    known: Known,
    manifest_path: Seq<Seq<char>>,
    contents: Seq<char>,
)
    ensures
        direct_packages(ecosystem, known, manifest_path, contents) matches Outcome::Ask(query)
            ==> !source::answers(known, query),
{
    let label = label_of(known.revision, manifest_path);
    let base = base_of(manifest_path);
    lemma_workspace_asks(known, base, label);
    if let Ok(workspace) = workspace::workspace_of(contents) {
        lemma_members_ask(known, base, workspace.members);
        if let Ok(own) = cargo_manifest::resolved_packages(contents, workspace.dependencies) {
            if let Outcome::Done(members) = named_members(known, base, workspace.members) {
                lemma_with_members_asks(
                    known,
                    own,
                    path::listed_paths(member_manifests(members, base, workspace.exclude)),
                    workspace.dependencies,
                );
            }
        }
    }
}

proof fn lemma_workspace_stays(known: Known, more: Known, base: Seq<Seq<char>>, label: Seq<char>)
    requires
        source::grows_to(known, more),
        !(workspace_above(known, base, label) is Ask),
    ensures
        workspace_above(more, base, label) == workspace_above(known, base, label),
    decreases base.len(),
{
    if base.len() > 0 {
        let directory = base.drop_last();
        assert(workspace_above(known, base, label) == workspace_from(known, directory, label));
        assert(workspace_above(more, base, label) == workspace_from(more, directory, label));
        assert(known.file(directory.push("Cargo.toml"@)) is Some);
        assert(more.file(directory.push("Cargo.toml"@)) == known.file(
            directory.push("Cargo.toml"@),
        ));
        if !(workspace_above(known, directory, label) is Ask) {
            lemma_workspace_stays(known, more, directory, label);
        }
    }
}

proof fn lemma_members_stay(
    known: Known,
    more: Known,
    base: Seq<Seq<char>>,
    patterns: Seq<Seq<char>>,
)
    requires
        source::grows_to(known, more),
        !(named_members(known, base, patterns) is Ask),
    ensures
        named_members(more, base, patterns) == named_members(known, base, patterns),
    decreases patterns.len(),
{
    if patterns.len() > 0 {
        lemma_members_stay(known, more, base, patterns.drop_last());
        if named_members(known, base, patterns.drop_last()) is Done {
            source::expansions_stay(known, more, base, patterns.last());
        }
    }
}

proof fn lemma_with_members_stays(
    known: Known,
    more: Known,
    own: Set<Seq<char>>,
    manifests: Seq<Seq<Seq<char>>>,
    shared: Dependencies,
)
    requires
        source::grows_to(known, more),
        !(with_members(known, own, manifests, shared) is Ask),
    ensures
        with_members(more, own, manifests, shared) == with_members(known, own, manifests, shared),
    decreases manifests.len(),
{
    if manifests.len() > 0 {
        lemma_with_members_stays(known, more, own, manifests.drop_last(), shared);
    }
}

/// Knowing more does not change direct dependencies that asked for nothing: they are
/// those that reading everything first would give.
pub proof fn dependencies_stay(
    ecosystem: Ecosystem,
    known: Known,
    more: Known,
    manifest_path: Seq<Seq<char>>,
    contents: Seq<char>,
)
    requires
        source::grows_to(known, more),
        !(direct_packages(ecosystem, known, manifest_path, contents) is Ask),
    ensures
        direct_packages(ecosystem, more, manifest_path, contents) == direct_packages(
            ecosystem,
            known,
            manifest_path,
            contents,
        ),
{
    let label = label_of(known.revision, manifest_path);
    let base = base_of(manifest_path);
    if let (Ecosystem::Rust, Ok(workspace)) = (ecosystem, workspace::workspace_of(contents)) {
        if !workspace.present {
            lemma_workspace_stays(known, more, base, label);
        } else if let Ok(own) = cargo_manifest::resolved_packages(
            contents,
            workspace.dependencies,
        ) {
            lemma_members_stay(known, more, base, workspace.members);
            if let Outcome::Done(members) = named_members(known, base, workspace.members) {
                lemma_with_members_stays(
                    known,
                    more,
                    own,
                    path::listed_paths(member_manifests(members, base, workspace.exclude)),
                    workspace.dependencies,
                );
            }
        }
    }
}

/// The manifest of a directory is read as a member's exactly when a pattern names the
/// directory and it is not excluded.
pub proof fn members_are_named_and_not_excluded(
    members: Seq<Seq<Seq<char>>>,
    base: Seq<Seq<char>>,
    exclude: Seq<Seq<char>>,
    directory: Seq<Seq<char>>,
)
    ensures
        member_manifests(members, base, exclude).contains(directory.push("Cargo.toml"@)) <==> (
        members.contains(directory) && !excluded(directory, base, exclude)),
{
    let manifest = directory.push("Cargo.toml"@);
    assert forall|i: int|
        0 <= i < members.len() && manifest == (#[trigger] members[i]).push(
            "Cargo.toml"@,
        ) implies members[i] == directory by {
        assert(manifest.drop_last() =~= directory);
        assert(members[i].push("Cargo.toml"@).drop_last() =~= members[i]);
    }
}

/// Whether a manifest declares a package as a dependency.
pub open spec fn declares(
    known: Known,
    manifest: Seq<Seq<char>>,
    shared: Dependencies,
    package: Seq<char>,
) -> bool {
    known.file(manifest) matches Some(Ok(contents)) && cargo_manifest::resolved_packages(
        contents,
        shared,
    ) matches Ok(packages) && packages.contains(package)
}

proof fn lemma_collected(
    known: Known,
    own: Set<Seq<char>>,
    manifests: Seq<Seq<Seq<char>>>,
    shared: Dependencies,
    package: Seq<char>,
)
    requires
        with_members(known, own, manifests, shared) is Done,
    ensures
        with_members(known, own, manifests, shared)->Done_0.contains(package) <==> own.contains(
            package,
        ) || exists|manifest: Seq<Seq<char>>|
            manifests.contains(manifest) && #[trigger] declares(known, manifest, shared, package),
    decreases manifests.len(),
{
    if manifests.len() > 0 {
        let rest = manifests.drop_last();
        lemma_collected(known, own, rest, shared, package);
        assert forall|manifest: Seq<Seq<char>>| #[trigger]
            declares(known, manifest, shared, package) implies manifests.contains(manifest) == (
        rest.contains(manifest) || manifest == manifests.last()) by {
            if manifests.contains(manifest) {
                let i = choose|i: int| 0 <= i < manifests.len() && manifests[i] == manifest;
                if i < rest.len() {
                    assert(rest[i] == manifest);
                }
            }
            if rest.contains(manifest) {
                let i = choose|i: int| 0 <= i < rest.len() && rest[i] == manifest;
                assert(manifests[i] == manifest);
            }
        }
        assert(manifests.contains(manifests.last()));
        if declares(known, manifests.last(), shared, package) {
            assert(with_members(known, own, manifests, shared)->Done_0.contains(package));
        }
    }
}

proof fn lemma_manifests_finite(
    members: Seq<Seq<Seq<char>>>,
    base: Seq<Seq<char>>,
    exclude: Seq<Seq<char>>,
)
    ensures
        member_manifests(members, base, exclude).finite(),
    decreases members.len(),
{
    if members.len() == 0 {
        assert(member_manifests(members, base, exclude) =~= Set::empty());
    } else {
        let count = members.len() - 1;
        lemma_manifests_finite(members.take(count), base, exclude);
        lemma_one_more_member(members, count, base, exclude);
        assert(members.take(count + 1) =~= members);
    }
}

/// At the root of a workspace the direct dependencies are exactly those that the root's
/// manifest or the manifest of a member that is not excluded declares.
pub proof fn workspaces_collect_what_members_declare(
    known: Known,
    base: Seq<Seq<char>>,
    contents: Seq<char>,
    workspace: WorkspaceModel,
    label: Seq<char>,
    package: Seq<char>,
)
    requires
        workspace_dependencies(known, base, contents, workspace, label) is Done,
    ensures
        workspace_dependencies(known, base, contents, workspace, label)->Done_0.contains(package)
            <==> cargo_manifest::resolved_packages(
            contents,
            workspace.dependencies,
        )->Ok_0.contains(package) || exists|manifest: Seq<Seq<char>>|
            member_manifests(
                named_members(known, base, workspace.members)->Done_0,
                base,
                workspace.exclude,
            ).contains(manifest) && #[trigger] declares(
                known,
                manifest,
                workspace.dependencies,
                package,
            ),
{
    let own = cargo_manifest::resolved_packages(contents, workspace.dependencies)->Ok_0;
    let members = named_members(known, base, workspace.members)->Done_0;
    let manifests = member_manifests(members, base, workspace.exclude);
    lemma_manifests_finite(members, base, workspace.exclude);
    order::path_order_is_strict();
    order::lemma_listing_exists(manifests, order::path_order());
    let listing = path::listed_paths(manifests);
    assert(listing.to_set() == manifests);
    lemma_collected(known, own, listing, workspace.dependencies, package);
    assert forall|manifest: Seq<Seq<char>>| listing.contains(manifest) == manifests.contains(
        manifest,
    ) by {
        assert(listing.to_set().contains(manifest) == listing.contains(manifest));
    }
}

} // verus!
