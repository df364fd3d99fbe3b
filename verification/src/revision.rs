//! The revision to compare with when none is given.

use vstd::prelude::*;

verus! {

/// How far the search for the default revision has come. `Reference` asks whether
/// Git resolves a name; `next` is the first branch to try after it.
pub enum RevisionSearch {
    RemoteHead,
    Reference { name: String, next: usize },
    Found(String),
}

/// How far the search for the default revision has come.
#[verifier::ext_equal]
pub enum SearchState {
    RemoteHead,
    Reference { name: Seq<char>, next: nat },
    Found(Seq<char>),
}

impl View for RevisionSearch {
    type V = SearchState;

    open spec fn view(&self) -> SearchState {
        match *self {
            RevisionSearch::RemoteHead => SearchState::RemoteHead,
            RevisionSearch::Reference { name, next } => SearchState::Reference {
                name: name@,
                next: next as nat,
            },
            RevisionSearch::Found(name) => SearchState::Found(name@),
        }
    }
}

impl Clone for RevisionSearch {
    fn clone(&self) -> (copy: RevisionSearch)
        ensures
            copy@ == self@,
    {
        match self {
            RevisionSearch::RemoteHead => RevisionSearch::RemoteHead,
            RevisionSearch::Reference { name, next } => RevisionSearch::Reference {
                name: name.clone(),
                next: *next,
            },
            RevisionSearch::Found(name) => RevisionSearch::Found(name.clone()),
        }
    }
}

/// Where the search begins: a revision that was asked for is found at once.
pub open spec fn begun(asked: Option<Seq<char>>) -> SearchState {
    match asked {
        Some(name) => SearchState::Found(name),
        None => SearchState::RemoteHead,
    }
}

/// The branches to try when the remote names no default branch, in this order.
pub open spec fn conventional_branches() -> Seq<Seq<char>> {
    seq!["origin/main"@, "origin/master"@, "main"@, "master"@]
}

/// The search that goes on with the branch at a place in the list.
pub open spec fn search_from(next: nat) -> SearchState {
    if next < conventional_branches().len() {
        SearchState::Reference { name: conventional_branches()[next as int], next: next + 1 }
    } else {
        SearchState::Found("main"@)
    }
}

/// The search after an answer of Git.
pub open spec fn searched(search: SearchState, line: Option<Seq<char>>) -> SearchState {
    match search {
        SearchState::RemoteHead => match line {
            Some(name) => SearchState::Reference { name, next: 0 },
            None => search_from(0),
        },
        SearchState::Reference { name, next } => if line is Some {
            SearchState::Found(name)
        } else {
            search_from(next)
        },
        SearchState::Found(name) => search,
    }
}

/// The search that goes on with the branch at a place in the list.
fn continue_from(next: usize) -> (search: RevisionSearch)
    ensures
        search@ == search_from(next as nat),
{
    if next == 0 {
        RevisionSearch::Reference { name: "origin/main".to_owned(), next: 1 }
    } else if next == 1 {
        RevisionSearch::Reference { name: "origin/master".to_owned(), next: 2 }
    } else if next == 2 {
        RevisionSearch::Reference { name: "main".to_owned(), next: 3 }
    } else if next == 3 {
        RevisionSearch::Reference { name: "master".to_owned(), next: 4 }
    } else {
        RevisionSearch::Found("main".to_owned())
    }
}

/// The search after an answer of Git: the line that it printed, when it succeeded.
pub fn default_revision(search: RevisionSearch, line: Option<String>) -> (next: RevisionSearch)
    ensures
        next@ == searched(search@, line.deep_view()),
{
    match search {
        RevisionSearch::RemoteHead => match line {
            Some(name) => RevisionSearch::Reference { name, next: 0 },
            None => continue_from(0),
        },
        RevisionSearch::Reference { name, next } => match line {
            Some(_) => RevisionSearch::Found(name),
            None => continue_from(next),
        },
        RevisionSearch::Found(name) => RevisionSearch::Found(name),
    }
}

/// What Git is asked at a state of the search.
pub open spec fn question(search: SearchState) -> Seq<Seq<char>> {
    match search {
        SearchState::RemoteHead => seq![
            "symbolic-ref"@,
            "--short"@,
            "refs/remotes/origin/HEAD"@,
        ],
        SearchState::Reference { name, next } => seq![
            "rev-parse"@,
            "--verify"@,
            "--quiet"@,
            name,
        ],
        SearchState::Found(name) => seq![],
    }
}

impl RevisionSearch {
    /// Where the search begins: a revision that was asked for is found at once.
    pub fn begin(asked: &Option<String>) -> (search: RevisionSearch)
        ensures
            search@ == begun(asked.deep_view()),
    {
        match asked {
            Some(name) => RevisionSearch::Found(name.clone()),
            None => RevisionSearch::RemoteHead,
        }
    }

    /// The arguments with which Git is asked; none when the search is over.
    pub fn arguments(&self) -> (arguments: Vec<String>)
        ensures
            arguments.deep_view() == question(self@),
    {
        let arguments: Vec<String> = match self {
            RevisionSearch::RemoteHead => vec![
                "symbolic-ref".to_owned(),
                "--short".to_owned(),
                "refs/remotes/origin/HEAD".to_owned(),
            ],
            RevisionSearch::Reference { name, next } => vec![
                "rev-parse".to_owned(),
                "--verify".to_owned(),
                "--quiet".to_owned(),
                name.clone(),
            ],
            RevisionSearch::Found(name) => Vec::new(),
        };
        assert(arguments.deep_view() =~= question(self@));
        arguments
    }
}

/// What Git prints at a state of the search.
pub open spec fn answered(
    search: SearchState,
    remote_head: Option<Seq<char>>,
    resolves: spec_fn(Seq<char>) -> Option<Seq<char>>,
) -> Option<Seq<char>> {
    match search {
        SearchState::RemoteHead => remote_head,
        SearchState::Reference { name, next } => resolves(name),
        SearchState::Found(name) => None,
    }
}

/// The search after a number of answers, where `asked` is the revision that was asked
/// for, `remote_head` is what the remote names as its default branch and `resolves` is
/// what Git prints for a name.
pub open spec fn searched_for(
    asked: Option<Seq<char>>,
    steps: nat,
    remote_head: Option<Seq<char>>,
    resolves: spec_fn(Seq<char>) -> Option<Seq<char>>,
) -> SearchState
    decreases steps,
{
    if steps == 0 {
        begun(asked)
    } else {
        let before = searched_for(asked, (steps - 1) as nat, remote_head, resolves);
        searched(before, answered(before, remote_head, resolves))
    }
}

/// The names that the search prefers, in this order.
pub open spec fn preferences(remote_head: Option<Seq<char>>) -> Seq<Seq<char>> {
    match remote_head {
        Some(name) => seq![name] + conventional_branches(),
        None => conventional_branches(),
    }
}

/// The first name that Git resolves, or `main`.
pub open spec fn first_resolved(
    names: Seq<Seq<char>>,
    resolves: spec_fn(Seq<char>) -> Option<Seq<char>>,
) -> Seq<char>
    decreases names.len(),
{
    if names.len() == 0 {
        "main"@
    } else if resolves(names[0]) is Some {
        names[0]
    } else {
        first_resolved(names.skip(1), resolves)
    }
}

/// Where no revision was asked for, after at most six answers the search has found the first name that Git resolves:
/// the default branch of the remote, then the remote's conventional branches, then
/// the local ones, and `main` when there is none.
pub proof fn search_finds_the_first_resolved_name(
    remote_head: Option<Seq<char>>,
    resolves: spec_fn(Seq<char>) -> Option<Seq<char>>,
)
    ensures
        searched_for(None, 6, remote_head, resolves) == SearchState::Found(
            first_resolved(preferences(remote_head), resolves),
        ),
{
    reveal_with_fuel(searched_for, 7);
    reveal_with_fuel(first_resolved, 6);
    let branches = conventional_branches();
    assert(branches.skip(1) =~= seq![branches[1], branches[2], branches[3]]);
    assert(branches.skip(1).skip(1) =~= seq![branches[2], branches[3]]);
    assert(branches.skip(1).skip(1).skip(1) =~= seq![branches[3]]);
    assert(branches.skip(1).skip(1).skip(1).skip(1) =~= seq![]);
    if remote_head is Some {
        assert(preferences(remote_head).skip(1) =~= branches);
    }
}

/// A name that was found stays found.
pub proof fn found_revisions_stay(
    asked: Option<Seq<char>>,
    steps: nat,
    more: nat,
    remote_head: Option<Seq<char>>,
    resolves: spec_fn(Seq<char>) -> Option<Seq<char>>,
)
    requires
        steps <= more,
        searched_for(asked, steps, remote_head, resolves) is Found,
    ensures
        searched_for(asked, more, remote_head, resolves) == searched_for(asked, steps, remote_head, resolves),
    decreases more,
{
    if steps < more {
        found_revisions_stay(asked, steps, (more - 1) as nat, remote_head, resolves);
    }
}

/// A revision that was asked for wins over all that Git knows.
pub proof fn asked_revisions_win(
    name: Seq<char>,
    steps: nat,
    remote_head: Option<Seq<char>>,
    resolves: spec_fn(Seq<char>) -> Option<Seq<char>>,
)
    ensures
        searched_for(Some(name), steps, remote_head, resolves) == SearchState::Found(name),
{
    found_revisions_stay(Some(name), 0, steps, remote_head, resolves);
}

/// Where no revision was asked for, the default branch of the remote is preferred, then
/// `main` and `master` of the remote, then the local `main` and `master`. Each is passed
/// over where Git does not know it, and `main` is left when it knows none.
pub proof fn default_branches_are_tried_in_order(
    remote_head: Option<Seq<char>>,
    resolves: spec_fn(Seq<char>) -> Option<Seq<char>>,
)
    ensures
        ({
            let found = searched_for(None, 6, remote_head, resolves);
            let headless = remote_head is None || resolves(remote_head->Some_0) is None;
            let without_main = headless && resolves("origin/main"@) is None;
            let without_master = without_main && resolves("origin/master"@) is None;
            &&& !headless ==> found == SearchState::Found(remote_head->Some_0)
            &&& headless && resolves("origin/main"@) is Some ==> found == SearchState::Found(
                "origin/main"@,
            )
            &&& without_main && resolves("origin/master"@) is Some ==> found == SearchState::Found(
                "origin/master"@,
            )
            &&& without_master && resolves("main"@) is Some ==> found == SearchState::Found(
                "main"@,
            )
            &&& without_master && resolves("main"@) is None && resolves("master"@) is Some ==> found
                == SearchState::Found("master"@)
            &&& without_master && resolves("main"@) is None && resolves("master"@) is None ==> found
                == SearchState::Found("main"@)
        }),
{
    reveal_with_fuel(searched_for, 7);
}

/// Git is asked whether it knows the name that is tried, and which branch is the default
/// of the remote.
pub proof fn git_is_asked_for_the_name_that_is_tried(name: Seq<char>, next: nat)
    ensures
        question(SearchState::Reference { name, next }) == seq![
            "rev-parse"@,
            "--verify"@,
            "--quiet"@,
            name,
        ],
        question(SearchState::RemoteHead).last() == "refs/remotes/origin/HEAD"@,
        question(SearchState::Found(name)).len() == 0,
{
}

} // verus!
