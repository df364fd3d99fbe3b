//! Finding the project between the current directory and the repository's root.

use vstd::prelude::*;
use vstd::string::*;

use crate::ecosystem;
use crate::ecosystem::Ecosystem;
use crate::error;
use crate::error::{Error, Failure};
use crate::text::concat2;

verus! {

/// A directory on the way up from the current one: whether it is the root of the
/// repository, and whether the file that is looked for stands in it.
pub struct Level {
    pub is_root: bool,
    pub present: bool,
}

/// How far up the nearest file is: the search starts at the current directory and
/// ends at the root of the repository.
pub open spec fn nearest(levels: Seq<Level>) -> Option<nat>
    decreases levels.len(),
{
    if levels.len() == 0 {
        None
    } else if levels[0].present {
        Some(0)
    } else if levels[0].is_root {
        None
    } else {
        match nearest(levels.skip(1)) {
            Some(height) => Some(height + 1),
            None => None,
        }
    }
}

/// How far up the nearest file is, given the directories from the current one up.
pub fn find_file(levels: &Vec<Level>) -> (found: Option<usize>)
    ensures
        found is Some <==> nearest(levels@) is Some,
        found matches Some(height) ==> nearest(levels@) == Some(height as nat),
{
    let mut height: usize = 0;
    assert(levels@.skip(0) =~= levels@);
    while height < levels.len()
        invariant
            height <= levels.len(),
            nearest(levels@) == match nearest(levels@.skip(height as int)) {
                Some(more) => Some(height as nat + more),
                None => None,
            },
        decreases levels.len() - height,
    {
        if levels[height].present {
            return Some(height);
        }
        if levels[height].is_root {
            return None;
        }
        assert(levels@.skip(height as int).skip(1) =~= levels@.skip(height + 1));
        height += 1;
    }
    None
}

/// Whether a search comes as far as a directory.
pub open spec fn within_repository(levels: Seq<Level>, height: int) -> bool {
    0 <= height < levels.len() && forall|below: int|
        0 <= below < height ==> !(#[trigger] levels[below]).is_root
}

/// The file that is found is the nearest one, and a file inside the repository is
/// always found.
pub proof fn nearest_file_is_found(levels: Seq<Level>)
    ensures
        match nearest(levels) {
            Some(height) => within_repository(levels, height as int) && levels[height as int].present
                && forall|below: int| 0 <= below < height ==> !(#[trigger] levels[below]).present,
            None => forall|height: int| #[trigger]
                within_repository(levels, height) ==> !levels[height].present,
        },
    decreases levels.len(),
{
    if levels.len() > 0 && !levels[0].present {
        let rest = levels.skip(1);
        nearest_file_is_found(rest);
        if levels[0].is_root {
            assert forall|height: int| #[trigger] within_repository(levels, height) implies
                !levels[height].present by {
                if height > 0 {
                    assert(!levels[0].is_root);
                }
            }
        } else {
            assert forall|below: int| 1 <= below < levels.len() implies #[trigger] levels[below]
                == rest[below - 1] by {}
            if nearest(rest) is None {
                assert forall|height: int| #[trigger] within_repository(levels, height) implies
                    !levels[height].present by {
                    if height > 0 {
                        assert forall|below: int| 0 <= below < height - 1 implies
                            !(#[trigger] rest[below]).is_root by {
                            assert(!levels[below + 1].is_root);
                        }
                        assert(within_repository(rest, height - 1));
                    }
                }
            }
        }
    }
}

/// Where the two files of a project are: how far up from the current directory.
pub struct Project {
    pub manifest: usize,
    pub lockfile: usize,
}

/// That something is not to be found.
pub open spec fn not_found(
    files: Seq<char>,
    current_dir: Seq<char>,
    repository_root: Seq<char>,
) -> Failure {
    Failure::Usage(
        "could not find "@ + files + " between "@ + current_dir + " and "@ + repository_root,
    )
}

/// That something is not to be found.
fn not_found_error(files: &str, current_dir: &str, repository_root: &str) -> (error: Error)
    ensures
        error@ == not_found(files@, current_dir@, repository_root@),
{
    let mut message = concat2("could not find ", files);
    message.append(" between ");
    message.append(current_dir);
    message.append(" and ");
    message.append(repository_root);
    Error::Usage(message)
}

/// The project of an ecosystem, given on the way up where its manifest and its
/// lockfile stand. Both files are needed.
pub fn find_project(
    ecosystem: Ecosystem,
    manifests: &Vec<Level>,
    lockfiles: &Vec<Level>,
    current_dir: &str,
    repository_root: &str,
) -> (found: Result<Project, Error>)
    ensures
        match found {
            Ok(project) => nearest(manifests@) == Some(project.manifest as nat) && nearest(
                lockfiles@,
            ) == Some(project.lockfile as nat),
            Err(error) => (nearest(manifests@) is None || nearest(lockfiles@) is None) && error@
                == not_found(ecosystem::files_of(ecosystem), current_dir@, repository_root@),
        },
{
    match (find_file(manifests), find_file(lockfiles)) {
        (Some(manifest), Some(lockfile)) => Ok(Project { manifest, lockfile }),
        _ => Err(not_found_error(ecosystem.project_files(), current_dir, repository_root)),
    }
}

/// The ecosystems to compare: the one that was asked for, or those whose manifest is
/// to be found.
pub open spec fn ecosystems_of(
    asked: Option<Ecosystem>,
    cargo_manifests: Seq<Level>,
    npm_manifests: Seq<Level>,
) -> Seq<Ecosystem> {
    match asked {
        Some(ecosystem) => seq![ecosystem],
        None => (if nearest(cargo_manifests) is Some {
            seq![Ecosystem::Rust]
        } else {
            seq![]
        }) + (if nearest(npm_manifests) is Some {
            seq![Ecosystem::Npm]
        } else {
            seq![]
        }),
    }
}

/// The ecosystems to compare: the one that was asked for, or those whose manifest is
/// to be found. There must be one.
pub fn select_ecosystems(
    asked: Option<Ecosystem>,
    cargo_manifests: &Vec<Level>,
    npm_manifests: &Vec<Level>,
    current_dir: &str,
    repository_root: &str,
) -> (selected: Result<Vec<Ecosystem>, Error>)
    ensures
        match selected {
            Ok(ecosystems) => ecosystems.len() > 0 && ecosystems@ == ecosystems_of(
                asked,
                cargo_manifests@,
                npm_manifests@,
            ),
            Err(error) => ecosystems_of(asked, cargo_manifests@, npm_manifests@).len() == 0
                && error@ == not_found(
                "Cargo.toml or package.json"@,
                current_dir@,
                repository_root@,
            ),
        },
{
    let mut ecosystems: Vec<Ecosystem> = Vec::new();
    match asked {
        Some(ecosystem) => {
            ecosystems.push(ecosystem);
        },
        None => {
            if find_file(cargo_manifests).is_some() {
                ecosystems.push(Ecosystem::Rust);
            }
            if find_file(npm_manifests).is_some() {
                ecosystems.push(Ecosystem::Npm);
            }
        },
    }
    assert(ecosystems@ =~= ecosystems_of(asked, cargo_manifests@, npm_manifests@));
    if ecosystems.len() == 0 {
        Err(not_found_error("Cargo.toml or package.json", current_dir, repository_root))
    } else {
        Ok(ecosystems)
    }
}

/// The ecosystem that was asked for is compared, and no other. Where none was, each one
/// is whose manifest is to be found, Rust before npm.
pub proof fn ecosystems_are_asked_for_or_found(
    asked: Option<Ecosystem>,
    cargo_manifests: Seq<Level>,
    npm_manifests: Seq<Level>,
    ecosystem: Ecosystem,
)
    ensures
        asked is Some ==> ecosystems_of(asked, cargo_manifests, npm_manifests) == seq![
            asked->Some_0,
        ],
        asked is None ==> (ecosystems_of(asked, cargo_manifests, npm_manifests).contains(
            Ecosystem::Rust,
        ) <==> nearest(cargo_manifests) is Some),
        asked is None ==> (ecosystems_of(asked, cargo_manifests, npm_manifests).contains(
            Ecosystem::Npm,
        ) <==> nearest(npm_manifests) is Some),
        ecosystems_of(asked, cargo_manifests, npm_manifests).no_duplicates(),
        asked is None && nearest(cargo_manifests) is Some ==> ecosystems_of(
            asked,
            cargo_manifests,
            npm_manifests,
        )[0] == Ecosystem::Rust,
{
    let all = ecosystems_of(asked, cargo_manifests, npm_manifests);
    if asked is None {
        if nearest(cargo_manifests) is Some {
            assert(all[0] == Ecosystem::Rust);
            if nearest(npm_manifests) is Some {
                assert(all[1] == Ecosystem::Npm);
            }
        } else if nearest(npm_manifests) is Some {
            assert(all[0] == Ecosystem::Npm);
        }
    }
}

} // verus!
