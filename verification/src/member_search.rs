//! Which directories the patterns of a workspace name, which of them it excludes, and
//! from which workspace a package inherits.

use vstd::prelude::*;

use crate::cargo_manifest;
use crate::ecosystem::Ecosystem;
use crate::error::Failure;
use crate::glob;
use crate::members;
use crate::npm;
use crate::order;
use crate::path;
use crate::source;
use crate::source::{Known, Outcome};
use crate::text;
use crate::text_writing;
use crate::workspace;
use crate::workspace::WorkspaceModel;

verus! {

/// Whether a part of a pattern holds a wildcard.
pub open spec fn has_wildcards(part: Seq<char>) -> bool {
    part.contains('*') || part.contains('?') || part.contains('[')
}

proof fn lemma_wildcards(part: Seq<char>)
    ensures
        source::is_pattern(part) <==> has_wildcards(part),
{
    if part.contains('*') {
        let i = choose|i: int| 0 <= i < part.len() && part[i] == '*';
        assert(part[i] == '*');
    }
    if part.contains('?') {
        let i = choose|i: int| 0 <= i < part.len() && part[i] == '?';
        assert(part[i] == '?');
    }
    if part.contains('[') {
        let i = choose|i: int| 0 <= i < part.len() && part[i] == '[';
        assert(part[i] == '[');
    }
}

/// The directories of a listing that match a pattern are those, and no others.
proof fn lemma_children(
    path: Seq<Seq<char>>,
    names: Seq<Seq<char>>,
    part: Seq<char>,
    directory: Seq<Seq<char>>,
)
    ensures
        source::matching_children(path, names, part).contains(directory) <==> exists|i: int|
            0 <= i < names.len() && glob::matching(part, #[trigger] names[i]) && directory
                == path.push(names[i]),
    decreases names.len(),
{
    if names.len() > 0 {
        let rest = names.drop_last();
        let before = source::matching_children(path, rest, part);
        let all = source::matching_children(path, names, part);
        lemma_children(path, rest, part, directory);
        if all.contains(directory) {
            let k = choose|k: int| 0 <= k < all.len() && all[k] == directory;
            if k < before.len() {
                assert(before[k] == directory);
                let i = choose|i: int|
                    0 <= i < rest.len() && glob::matching(part, #[trigger] rest[i]) && directory
                        == path.push(rest[i]);
                assert(names[i] == rest[i]);
            } else {
                assert(glob::matching(part, names[names.len() - 1]));
            }
        }
        if exists|i: int|
            0 <= i < names.len() && glob::matching(part, #[trigger] names[i]) && directory
                == path.push(names[i]) {
            let i = choose|i: int|
                0 <= i < names.len() && glob::matching(part, #[trigger] names[i]) && directory
                    == path.push(names[i]);
            if i < rest.len() {
                assert(rest[i] == names[i]);
                let k = choose|k: int| 0 <= k < before.len() && before[k] == directory;
                assert(all[k] == directory);
            } else {
                assert(all[before.len() as int] == directory);
            }
        }
    }
}

/// Where a part leads from a single directory.
proof fn lemma_led_from_one(known: Known, path: Seq<Seq<char>>, part: Seq<char>)
    ensures
        source::led_from_all(known, seq![path], part) == source::led_from(known, path, part),
{
    let paths = seq![path];
    let none = Seq::<Seq<Seq<char>>>::empty();
    assert(paths.drop_last() =~= none);
    reveal_with_fuel(source::led_from_all, 2);
    if let Outcome::Done(more) = source::led_from(known, path, part) {
        assert(none + more =~= more);
    }
}

/// A pattern of one part is not split.
proof fn lemma_one_part(part: Seq<char>)
    requires
        forall|j: int| 0 <= j < part.len() ==> part[j] != '/',
    ensures
        text::split_on(part, '/') == seq![part],
{
    text::lemma_position(part, '/', part.len() as int);
}

/// A part with wildcards names those directories in the base directory whose names it
/// matches, and no others.
pub proof fn wildcards_name_matching_directories(
    known: Known,
    base: Seq<Seq<char>>,
    part: Seq<char>,
    names: Seq<Seq<char>>,
    directory: Seq<Seq<char>>,
)
    requires
        forall|j: int| 0 <= j < part.len() ==> part[j] != '/',
        has_wildcards(part),
        known.listing(base) == Some(Ok::<Seq<Seq<char>>, Failure>(names)),
    ensures
        source::expanded(known, base, part) matches Outcome::Done(found) && (found.contains(
            directory,
        ) <==> exists|i: int|
            0 <= i < names.len() && glob::matching(part, #[trigger] names[i]) && directory
                == base.push(names[i])),
{
    let parts = seq![part];
    lemma_one_part(part);
    lemma_wildcards(part);
    assert(parts.drop_last() =~= seq![]);
    reveal_with_fuel(source::led_by, 2);
    assert(part != "."@ && part != ".."@ && part.len() > 0) by {
        reveal_strlit(".");
        reveal_strlit("..");
    }
    lemma_led_from_one(known, base, part);
    lemma_children(base, names, part, directory);
}

/// A part behind a slash leads on from each of the directories that the pattern in front
/// names: where all of that succeeds, a directory is named exactly where the part leads
/// to it from one of them.
pub proof fn parts_lead_on(
    known: Known,
    base: Seq<Seq<char>>,
    front: Seq<char>,
    part: Seq<char>,
    directory: Seq<Seq<char>>,
)
    requires
        forall|j: int| 0 <= j < part.len() ==> part[j] != '/',
        source::expanded(known, base, front) is Done,
        source::expanded(known, base, front + seq!['/'] + part) is Done,
    ensures
        source::expanded(known, base, front + seq!['/'] + part)->Done_0.contains(directory)
            <==> exists|i: int|
            0 <= i < source::expanded(known, base, front)->Done_0.len()
                && #[trigger] leads_to_directory(
                known,
                source::expanded(known, base, front)->Done_0[i],
                part,
                directory,
            ),
{
    let whole = front + seq!['/'] + part;
    let parts = text::split_on(front, '/');
    lemma_one_part(part);
    text_writing::lemma_split_more(front, part, '/');
    let all = parts.push(part);
    assert(text::split_on(whole, '/') == all);
    assert(all.drop_last() =~= parts);
    let paths = source::expanded(known, base, front)->Done_0;
    assert(source::led_by(known, base, parts) == Outcome::Done(paths));
    if part.len() == 0 || part == "."@ {
        assert(source::expanded(known, base, whole)->Done_0 == paths);
        assert forall|i: int| 0 <= i < paths.len() implies #[trigger] leads_to_directory(
            known,
            paths[i],
            part,
            directory,
        ) == (paths[i] == directory) by {
            lemma_leads_nowhere(known, paths[i], part, directory);
        }
        if paths.contains(directory) {
            let i = choose|i: int| 0 <= i < paths.len() && paths[i] == directory;
            assert(leads_to_directory(known, paths[i], part, directory));
        }
    } else {
        lemma_led_all(known, paths, part, directory);
    }
}

/// Whether a part of a pattern leads from a directory to another.
pub open spec fn leads_to_directory(
    known: Known,
    path: Seq<Seq<char>>,
    part: Seq<char>,
    directory: Seq<Seq<char>>,
) -> bool {
    source::expanded(known, path, part) matches Outcome::Done(found) && found.contains(directory)
}

proof fn lemma_leads_nowhere(
    known: Known,
    path: Seq<Seq<char>>,
    part: Seq<char>,
    directory: Seq<Seq<char>>,
)
    requires
        forall|j: int| 0 <= j < part.len() ==> part[j] != '/',
        part.len() == 0 || part == "."@,
    ensures
        leads_to_directory(known, path, part, directory) == (path == directory),
        source::expanded(known, path, part) == Outcome::Done(seq![path]),
{
    let parts = seq![part];
    lemma_one_part(part);
    assert(parts.drop_last() =~= seq![]);
    reveal_with_fuel(source::led_by, 2);
    assert(seq![path][0] == path);
}

/// Where a part leads from several directories.
proof fn lemma_led_all(
    known: Known,
    paths: Seq<Seq<Seq<char>>>,
    part: Seq<char>,
    directory: Seq<Seq<char>>,
)
    requires
        forall|j: int| 0 <= j < part.len() ==> part[j] != '/',
        part.len() > 0,
        part != "."@,
        source::led_from_all(known, paths, part) is Done,
    ensures
        source::led_from_all(known, paths, part)->Done_0.contains(directory) <==> exists|i: int|
            0 <= i < paths.len() && #[trigger] leads_to_directory(
                known,
                paths[i],
                part,
                directory,
            ),
    decreases paths.len(),
{
    if paths.len() > 0 {
        let rest = paths.drop_last();
        let last = paths.last();
        lemma_led_all(known, rest, part, directory);
        lemma_one_part(part);
        assert(seq![part].drop_last() =~= seq![]);
        reveal_with_fuel(source::led_by, 2);
        lemma_led_from_one(known, last, part);
        let before = source::led_from_all(known, rest, part)->Done_0;
        let more = source::led_from(known, last, part)->Done_0;
        let all = before + more;
        assert(source::expanded(known, last, part) == Outcome::Done(more));
        if all.contains(directory) {
            let k = choose|k: int| 0 <= k < all.len() && all[k] == directory;
            if k < before.len() {
                assert(before[k] == directory);
                let i = choose|i: int|
                    0 <= i < rest.len() && #[trigger] leads_to_directory(
                        known,
                        rest[i],
                        part,
                        directory,
                    );
                assert(paths[i] == rest[i]);
                assert(leads_to_directory(known, paths[i], part, directory));
            } else {
                assert(more[k - before.len()] == directory);
                assert(leads_to_directory(known, paths[paths.len() - 1], part, directory));
            }
        }
        if exists|i: int|
            0 <= i < paths.len() && #[trigger] leads_to_directory(
                known,
                paths[i],
                part,
                directory,
            ) {
            let i = choose|i: int|
                0 <= i < paths.len() && #[trigger] leads_to_directory(
                    known,
                    paths[i],
                    part,
                    directory,
                );
            if i < rest.len() {
                assert(leads_to_directory(known, rest[i], part, directory));
                let k = choose|k: int| 0 <= k < before.len() && before[k] == directory;
                assert(all[k] == directory);
            } else {
                let k = choose|k: int| 0 <= k < more.len() && more[k] == directory;
                assert(all[before.len() + k] == directory);
            }
        }
    }
}

/// An empty part and a dot lead nowhere else. Two dots lead to the directory above, and
/// from the root of the repository they are an error. Any other part without wildcards
/// leads to the directory of that name.
pub proof fn single_parts_lead(known: Known, base: Seq<Seq<char>>, part: Seq<char>)
    requires
        forall|j: int| 0 <= j < part.len() ==> part[j] != '/',
    ensures
        part.len() == 0 || part == "."@ ==> source::expanded(known, base, part) == Outcome::Done(
            seq![base],
        ),
        part == ".."@ && base.len() > 0 ==> source::expanded(known, base, part) == Outcome::Done(
            seq![base.drop_last()],
        ),
        part == ".."@ && base.len() == 0 ==> source::expanded(known, base, part) is Failed,
        part.len() > 0 && part != "."@ && part != ".."@ && !has_wildcards(part)
            ==> source::expanded(known, base, part) == Outcome::Done(seq![base.push(part)]),
{
    lemma_one_part(part);
    lemma_wildcards(part);
    assert(seq![part].drop_last() =~= seq![]);
    reveal_with_fuel(source::led_by, 2);
    lemma_led_from_one(known, base, part);
    assert("."@.len() == 1 && ".."@.len() == 2) by {
        reveal_strlit(".");
        reveal_strlit("..");
    }
}

/// A directory is named as a member exactly where one of the patterns names it.
pub proof fn every_pattern_names_members(
    known: Known,
    base: Seq<Seq<char>>,
    patterns: Seq<Seq<char>>,
    directory: Seq<Seq<char>>,
)
    requires
        members::named_members(known, base, patterns) is Done,
    ensures
        members::named_members(known, base, patterns)->Done_0.contains(directory) <==> exists|i: int|
            0 <= i < patterns.len() && #[trigger] leads_to_directory(
                known,
                base,
                patterns[i],
                directory,
            ),
    decreases patterns.len(),
{
    if patterns.len() > 0 {
        let rest = patterns.drop_last();
        let last = patterns.last();
        every_pattern_names_members(known, base, rest, directory);
        let before = members::named_members(known, base, rest)->Done_0;
        let more = source::expanded(known, base, last)->Done_0;
        let all = before + more;
        if all.contains(directory) {
            let k = choose|k: int| 0 <= k < all.len() && all[k] == directory;
            if k < before.len() {
                assert(before[k] == directory);
                let i = choose|i: int|
                    0 <= i < rest.len() && #[trigger] leads_to_directory(
                        known,
                        base,
                        rest[i],
                        directory,
                    );
                assert(patterns[i] == rest[i]);
                assert(leads_to_directory(known, base, patterns[i], directory));
            } else {
                assert(more[k - before.len()] == directory);
                assert(leads_to_directory(known, base, patterns[patterns.len() - 1], directory));
            }
        }
        if exists|i: int|
            0 <= i < patterns.len() && #[trigger] leads_to_directory(
                known,
                base,
                patterns[i],
                directory,
            ) {
            let i = choose|i: int|
                0 <= i < patterns.len() && #[trigger] leads_to_directory(
                    known,
                    base,
                    patterns[i],
                    directory,
                );
            if i < rest.len() {
                assert(leads_to_directory(known, base, rest[i], directory));
                let k = choose|k: int| 0 <= k < before.len() && before[k] == directory;
                assert(all[k] == directory);
            } else {
                let k = choose|k: int| 0 <= k < more.len() && more[k] == directory;
                assert(all[before.len() + k] == directory);
            }
        }
    }
}

/// A pattern that cannot be expanded spoils the list of members.
pub proof fn failed_patterns_are_errors(
    known: Known,
    base: Seq<Seq<char>>,
    patterns: Seq<Seq<char>>,
    i: int,
)
    requires
        0 <= i < patterns.len(),
        !(source::expanded(known, base, patterns[i]) is Done),
    ensures
        !(members::named_members(known, base, patterns) is Done),
    decreases patterns.len(),
{
    if i < patterns.len() - 1 {
        assert(patterns.drop_last()[i] == patterns[i]);
        failed_patterns_are_errors(known, base, patterns.drop_last(), i);
    }
}

/// A directory below the base is excluded exactly where one of the patterns, without the
/// slashes at its end, matches the way from the base to it.
pub proof fn exclusions_match_the_way_from_the_base(
    base: Seq<Seq<char>>,
    way: Seq<Seq<char>>,
    patterns: Seq<Seq<char>>,
    other: Seq<char>,
)
    ensures
        members::excluded(base + way, base, patterns.push(other)) <==> members::excluded(
            base + way,
            base,
            patterns,
        ) || members::excluded(base + way, base, seq![other]),
        !members::excluded(base + way, base, seq![]),
        members::excluded(base + way, base, seq![other.push('/')]) <==> members::excluded(
            base + way,
            base,
            seq![other],
        ),
        other.len() > 0 && other.last() != '/' ==> (members::excluded(
            base + way,
            base,
            seq![other],
        ) <==> glob::matching(other, path::written(way))),
{
    let member = base + way;
    let more = patterns.push(other);
    let shown = path::written(path::relative(member, base));
    assert(member.take(base.len() as int) =~= base);
    assert(member.skip(base.len() as int) =~= way);
    assert(seq![other][0] == other);
    if members::excluded(member, base, patterns) {
        let i = choose|i: int|
            0 <= i < patterns.len() && glob::matching(
                members::without_slashes(#[trigger] patterns[i]),
                shown,
            );
        assert(more[i] == patterns[i]);
    }
    if members::excluded(member, base, seq![other]) {
        assert(more[patterns.len() as int] == other);
    }
    if members::excluded(member, base, more) {
        let i = choose|i: int|
            0 <= i < more.len() && glob::matching(
                members::without_slashes(#[trigger] more[i]),
                shown,
            );
        if i < patterns.len() {
            assert(patterns[i] == more[i]);
        }
    }
    assert(other.push('/').drop_last() =~= other);
    assert(seq![other.push('/')][0] == other.push('/'));
}

/// A path is written with slashes between its names, and its names read back from it.
pub proof fn written_paths_read_back(path: Seq<Seq<char>>)
    requires
        path.len() > 0,
        forall|i: int, j: int|
            0 <= i < path.len() && 0 <= j < path[i].len() ==> #[trigger] path[i][j] != '/',
    ensures
        text::split_on(path::written(path), '/') == path,
{
    reveal_strlit("/");
    assert("/"@ =~= seq!['/']);
    text_writing::joined_parts_split_again(path, '/');
}

/// Whether the manifest in a directory was read, or could not be, and has no workspace.
pub open spec fn has_no_workspace(known: Known, directory: Seq<Seq<char>>) -> bool {
    match known.file(directory.push("Cargo.toml"@)) {
        None => false,
        Some(Err(_)) => true,
        Some(Ok(contents)) => workspace::workspace_of(contents) matches Ok(workspace)
            && !workspace.present,
    }
}

/// A package inherits from the workspace in the nearest directory above it that has one:
/// manifests between that have none, and those that cannot be read, are passed over.
pub proof fn nearest_workspaces_are_inherited_from(
    known: Known,
    base: Seq<Seq<char>>,
    label: Seq<char>,
    height: int,
    contents: Seq<char>,
    workspace: WorkspaceModel,
)
    requires
        0 <= height < base.len(),
        known.file(base.take(height).push("Cargo.toml"@)) == Some(
            Ok::<Seq<char>, Failure>(contents),
        ),
        workspace::workspace_of(contents) == Ok::<WorkspaceModel, Seq<char>>(workspace),
        workspace.present,
        forall|between: int|
            height < between < base.len() ==> has_no_workspace(
                known,
                #[trigger] base.take(between),
            ),
    ensures
        members::workspace_above(known, base, label) == Outcome::Done(Some(workspace)),
    decreases base.len(),
{
    let above = base.drop_last();
    assert(above =~= base.take(base.len() - 1));
    if height < base.len() - 1 {
        assert(has_no_workspace(known, base.take(base.len() - 1)));
        assert(above.take(height) =~= base.take(height));
        assert forall|between: int| height < between < above.len() implies has_no_workspace(
            known,
            #[trigger] above.take(between),
        ) by {
            assert(above.take(between) =~= base.take(between));
        }
        nearest_workspaces_are_inherited_from(known, above, label, height, contents, workspace);
    }
}

/// Where no directory above has a workspace, a package inherits from none.
pub proof fn packages_may_stand_alone(known: Known, base: Seq<Seq<char>>, label: Seq<char>)
    requires
        forall|height: int|
            0 <= height < base.len() ==> has_no_workspace(known, #[trigger] base.take(height)),
    ensures
        members::workspace_above(known, base, label) == Outcome::Done(
            None::<WorkspaceModel>,
        ),
    decreases base.len(),
{
    if base.len() > 0 {
        let above = base.drop_last();
        assert(above =~= base.take(base.len() - 1));
        assert(has_no_workspace(known, base.take(base.len() - 1)));
        assert forall|height: int| 0 <= height < above.len() implies has_no_workspace(
            known,
            #[trigger] above.take(height),
        ) by {
            assert(above.take(height) =~= base.take(height));
        }
        packages_may_stand_alone(known, above, label);
    }
}

/// The manifest of each member must be there and be understood, or the direct
/// dependencies cannot be collected.
pub proof fn all_members_must_be_readable(
    known: Known,
    own: Set<Seq<char>>,
    manifests: Seq<Seq<Seq<char>>>,
    shared: cargo_manifest::Dependencies,
    i: int,
)
    requires
        0 <= i < manifests.len(),
        members::with_members(known, own, manifests, shared) is Done,
    ensures
        known.file(manifests[i]) matches Some(Ok(contents)) && cargo_manifest::resolved_packages(
            contents,
            shared,
        ) is Ok,
    decreases manifests.len(),
{
    if i < manifests.len() - 1 {
        let rest = manifests.drop_last();
        assert(rest[i] == manifests[i]);
        all_members_must_be_readable(known, own, rest, shared, i);
    }
}

/// The direct dependencies of an npm project are those of its manifest, whatever else is
/// known.
pub proof fn npm_manifests_stand_alone(
    known: Known,
    manifest_path: Seq<Seq<char>>,
    contents: Seq<char>,
    packages: Set<Seq<char>>,
)
    ensures
        members::direct_packages(Ecosystem::Npm, known, manifest_path, contents) == Outcome::Done(
            packages,
        ) <==> npm::npm_manifest(contents) == Ok::<Set<Seq<char>>, Seq<char>>(packages),
        members::direct_packages(Ecosystem::Npm, known, manifest_path, contents) is Failed
            <==> npm::npm_manifest(contents) is Err,
{
}

/// A package that declares no workspace of its own has the dependencies of its manifest:
/// with those of the workspace above it where there is one, or else on their own.
pub proof fn packages_have_their_own_dependencies(
    known: Known,
    manifest_path: Seq<Seq<char>>,
    contents: Seq<char>,
    own: WorkspaceModel,
    above: Option<WorkspaceModel>,
    packages: Set<Seq<char>>,
)
    requires
        manifest_path.len() > 0,
        workspace::workspace_of(contents) == Ok::<WorkspaceModel, Seq<char>>(own),
        !own.present,
        members::workspace_above(
            known,
            manifest_path.drop_last(),
            members::label_of(known.revision, manifest_path),
        ) == Outcome::Done(above),
    ensures
        members::direct_packages(Ecosystem::Rust, known, manifest_path, contents) == Outcome::Done(
            packages,
        ) <==> match above {
            Some(shared) => cargo_manifest::resolved_packages(contents, shared.dependencies) == Ok::<
                Set<Seq<char>>,
                Seq<char>,
            >(packages),
            None => cargo_manifest::manifest_packages(contents) == Ok::<
                Set<Seq<char>>,
                Seq<char>,
            >(packages),
        },
{
}

} // verus!
