//! One side of a comparison: what is known of its files and directories, and which
//! directories a member pattern names.

use vstd::prelude::*;

use crate::collections::TextMap;
use crate::error;
use crate::error::{Error, Failure};
use crate::glob;
use crate::glob::glob_matches;
use crate::path;
use crate::path::RepoPath;
use crate::text;
use crate::text::{characters, same_text, split};

verus! {

/// Something that has to be looked up before a computation can go on.
pub enum Need {
    File(RepoPath),
    Directories(RepoPath),
}

/// Something that has to be looked up before a computation can go on.
pub enum Query {
    File(Seq<Seq<char>>),
    Directories(Seq<Seq<char>>),
}

impl View for Need {
    type V = Query;

    open spec fn view(&self) -> Query {
        match *self {
            Need::File(path) => Query::File(path@),
            Need::Directories(path) => Query::Directories(path@),
        }
    }
}

/// How far a computation came with what is known.
pub enum Progress<T> {
    Done(T),
    Failed(Error),
    Ask(Need),
}

/// How far a computation came with what is known.
#[verifier::ext_equal]
pub enum Outcome<T> {
    Done(T),
    Failed(Failure),
    Ask(Query),
}

/// A progress as contracts speak of it.
pub open spec fn outcome_of<T: DeepView>(progress: Progress<T>) -> Outcome<T::V> {
    match progress {
        Progress::Done(value) => Outcome::Done(value.deep_view()),
        Progress::Failed(error) => Outcome::Failed(error@),
        Progress::Ask(need) => Outcome::Ask(need@),
    }
}

/// What is known of one side of a comparison.
#[verifier::ext_equal]
pub struct Known {
    pub revision: Option<Seq<char>>,
    pub files: Map<Seq<char>, Result<Seq<char>, Failure>>,
    pub directories: Map<Seq<char>, Result<Seq<Seq<char>>, Failure>>,
}

impl Known {
    /// The contents of a file, or why it cannot be read.
    pub open spec fn file(self, path: Seq<Seq<char>>) -> Option<Result<Seq<char>, Failure>> {
        if self.files.dom().contains(path::written(path)) {
            Some(self.files[path::written(path)])
        } else {
            None
        }
    }

    /// The directories in a directory, or why they cannot be listed.
    pub open spec fn listing(self, path: Seq<Seq<char>>) -> Option<
        Result<Seq<Seq<char>>, Failure>,
    > {
        if self.directories.dom().contains(path::written(path)) {
            Some(self.directories[path::written(path)])
        } else {
            None
        }
    }
}

/// Whether the answer to a question is known.
pub open spec fn answers(known: Known, query: Query) -> bool {
    match query {
        Query::File(path) => known.file(path) is Some,
        Query::Directories(path) => known.listing(path) is Some,
    }
}

/// Whether all that is known stays known.
pub open spec fn grows_to(known: Known, more: Known) -> bool {
    &&& known.revision == more.revision
    &&& forall|path: Seq<char>| #[trigger]
        known.files.dom().contains(path) ==> more.files.dom().contains(path) && more.files[path]
            == known.files[path]
    &&& forall|path: Seq<char>| #[trigger]
        known.directories.dom().contains(path) ==> more.directories.dom().contains(path)
            && more.directories[path] == known.directories[path]
}

/// One side of a comparison, a revision or the working tree, with the answers that
/// are known.
pub struct ManifestSource {
    pub revision: Option<String>,
    pub files: TextMap<Result<String, Error>>,
    pub listings: TextMap<Result<Vec<String>, Error>>,
}

impl View for ManifestSource {
    type V = Known;

    open spec fn view(&self) -> Known {
        Known {
            revision: self.revision.deep_view(),
            files: self.files.entries().map_values(
                |contents: Result<String, Error>| error::result_of(contents),
            ),
            directories: self.listings.entries().map_values(
                |names: Result<Vec<String>, Error>| error::result_of(names),
            ),
        }
    }
}

/// Whether a part of a pattern names directories by a pattern of its own.
pub open spec fn is_pattern(part: Seq<char>) -> bool {
    exists|i: int|
        0 <= i < part.len() && (#[trigger] part[i] == '*' || part[i] == '?' || part[i] == '[')
}

/// Tells whether a part of a pattern names directories by a pattern of its own.
fn has_wildcard(part: &str) -> (found: bool)
    ensures
        found == is_pattern(part@),
{
    let chars = characters(part);
    for i in 0..chars.len()
        invariant
            chars@ == part@,
            forall|j: int|
                0 <= j < i ==> #[trigger] part@[j] != '*' && part@[j] != '?' && part@[j] != '[',
    {
        let c: char = chars[i];
        assert(part@[i as int] == c);
        if c == '*' || c == '?' || c == '[' {
            return true;
        }
    }
    false
}

/// The directories of a listing that match a pattern.
pub open spec fn matching_children(
    path: Seq<Seq<char>>,
    names: Seq<Seq<char>>,
    part: Seq<char>,
) -> Seq<Seq<Seq<char>>>
    decreases names.len(),
{
    if names.len() == 0 {
        seq![]
    } else {
        let before = matching_children(path, names.drop_last(), part);
        if glob::matching(part, names.last()) {
            before.push(path.push(names.last()))
        } else {
            before
        }
    }
}

/// Where a part of a pattern leads from a directory.
pub open spec fn led_from(known: Known, path: Seq<Seq<char>>, part: Seq<char>) -> Outcome<
    Seq<Seq<Seq<char>>>,
> {
    if part == ".."@ {
        if path.len() == 0 {
            Outcome::Failed(Failure::Usage("workspace member is outside the repository"@))
        } else {
            Outcome::Done(seq![path.drop_last()])
        }
    } else if is_pattern(part) {
        match known.listing(path) {
            None => Outcome::Ask(Query::Directories(path)),
            Some(Err(failure)) => Outcome::Failed(failure),
            Some(Ok(names)) => Outcome::Done(matching_children(path, names, part)),
        }
    } else {
        Outcome::Done(seq![path.push(part)])
    }
}

/// Where a part of a pattern leads from several directories.
pub open spec fn led_from_all(
    known: Known,
    paths: Seq<Seq<Seq<char>>>,
    part: Seq<char>,
) -> Outcome<Seq<Seq<Seq<char>>>>
    decreases paths.len(),
{
    if paths.len() == 0 {
        Outcome::Done(seq![])
    } else {
        match led_from_all(known, paths.drop_last(), part) {
            Outcome::Done(before) => match led_from(known, paths.last(), part) {
                Outcome::Done(more) => Outcome::Done(before + more),
                other => other,
            },
            other => other,
        }
    }
}

/// Where the parts of a pattern lead from a directory. Empty parts and `.` lead nowhere
/// else.
pub open spec fn led_by(known: Known, base: Seq<Seq<char>>, parts: Seq<Seq<char>>) -> Outcome<
    Seq<Seq<Seq<char>>>,
>
    decreases parts.len(),
{
    if parts.len() == 0 {
        Outcome::Done(seq![base])
    } else {
        match led_by(known, base, parts.drop_last()) {
            Outcome::Done(paths) => if parts.last().len() == 0 || parts.last() == "."@ {
                Outcome::Done(paths)
            } else {
                led_from_all(known, paths, parts.last())
            },
            other => other,
        }
    }
}

/// The directories that a pattern names below a base directory.
pub open spec fn expanded(known: Known, base: Seq<Seq<char>>, pattern: Seq<char>) -> Outcome<
    Seq<Seq<Seq<char>>>,
> {
    led_by(known, base, text::split_on(pattern, '/'))
}

/// What stops at some directory stops there whatever directories follow.
proof fn lemma_all_stops(known: Known, paths: Seq<Seq<Seq<char>>>, count: int, part: Seq<char>)
    requires
        0 <= count <= paths.len(),
        !(led_from_all(known, paths.take(count), part) is Done),
    ensures
        led_from_all(known, paths, part) == led_from_all(known, paths.take(count), part),
    decreases paths.len(),
{
    if count < paths.len() {
        assert(paths.drop_last().take(count) =~= paths.take(count));
        lemma_all_stops(known, paths.drop_last(), count, part);
    } else {
        assert(paths.take(count) =~= paths);
    }
}

/// What stops at some part stops there whatever parts follow.
proof fn lemma_parts_stop(known: Known, base: Seq<Seq<char>>, parts: Seq<Seq<char>>, count: int)
    requires
        0 <= count <= parts.len(),
        !(led_by(known, base, parts.take(count)) is Done),
    ensures
        led_by(known, base, parts) == led_by(known, base, parts.take(count)),
    decreases parts.len(),
{
    if count < parts.len() {
        assert(parts.drop_last().take(count) =~= parts.take(count));
        lemma_parts_stop(known, base, parts.drop_last(), count);
    } else {
        assert(parts.take(count) =~= parts);
    }
}

/// The directories of a listing that match a pattern.
fn children_matching(path: &RepoPath, names: &Vec<String>, part: &str) -> (children: Vec<RepoPath>)
    ensures
        children.deep_view() == matching_children(path@, names.deep_view(), part@),
{
    let mut children: Vec<RepoPath> = Vec::new();
    let ghost all = names.deep_view();
    assert(children.deep_view() =~= matching_children(path@, all.take(0), part@));
    for i in 0..names.len()
        invariant
            all == names.deep_view(),
            children.deep_view() == matching_children(path@, all.take(i as int), part@),
    {
        let ghost before = children.deep_view();
        proof {
            assert(all.take(i + 1).drop_last() =~= all.take(i as int));
            assert(all.take(i + 1).last() == names@[i as int]@);
        }
        if glob_matches(part, names[i].as_str()) {
            children.push(path.child(names[i].as_str()));
            assert(children.deep_view() =~= before.push(path@.push(all[i as int])));
        }
    }
    assert(all.take(names.len() as int) =~= all);
    children
}

impl ManifestSource {
    /// One side of a comparison of which nothing is known yet.
    pub fn new(revision: Option<String>) -> (source: ManifestSource)
        ensures
            source@ == (Known {
                revision: revision.deep_view(),
                files: Map::empty(),
                directories: Map::empty(),
            }),
    {
        let source = ManifestSource { revision, files: TextMap::new(), listings: TextMap::new() };
        assert(source@.files =~= Map::empty());
        assert(source@.directories =~= Map::empty());
        source
    }

    /// The contents of a file, or why it cannot be read.
    pub fn read(&self, path: &RepoPath) -> (contents: Option<&Result<String, Error>>)
        ensures
            match contents {
                Some(contents) => self@.file(path@) == Some(error::result_of(*contents)),
                None => self@.file(path@) is None,
            },
    {
        self.files.get(path.text().as_str())
    }

    /// The directories in a directory, or why they cannot be listed.
    pub fn directories(&self, path: &RepoPath) -> (names: Option<&Result<Vec<String>, Error>>)
        ensures
            match names {
                Some(names) => self@.listing(path@) == Some(error::result_of(*names)),
                None => self@.listing(path@) is None,
            },
    {
        self.listings.get(path.text().as_str())
    }

    /// Notes the contents of a file, or why it cannot be read.
    pub fn learn_file(&mut self, path: &RepoPath, contents: Result<String, Error>)
        ensures
            final(self)@ == (Known {
                files: old(self)@.files.insert(path::written(path@), error::result_of(contents)),
                ..old(self)@
            }),
    {
        let ghost before = self@;
        self.files.insert(path.text(), contents);
        assert(self@.files =~= before.files.insert(
            path::written(path@),
            error::result_of(contents),
        ));
    }

    /// Notes the directories in a directory, or why they cannot be listed.
    pub fn learn_directories(&mut self, path: &RepoPath, names: Result<Vec<String>, Error>)
        ensures
            final(self)@ == (Known {
                directories: old(self)@.directories.insert(
                    path::written(path@),
                    error::result_of(names),
                ),
                ..old(self)@
            }),
    {
        let ghost before = self@;
        self.listings.insert(path.text(), names);
        assert(self@.directories =~= before.directories.insert(
            path::written(path@),
            error::result_of(names),
        ));
    }

    /// Where a part of a pattern leads from a directory.
    fn step(&self, path: &RepoPath, part: &str) -> (led: Progress<Vec<RepoPath>>)
        ensures
            outcome_of(led) == led_from(self@, path@, part@),
    {
        if same_text(part, "..") {
            match path.parent() {
                None => Progress::Failed(
                    Error::Usage("workspace member is outside the repository".to_owned()),
                ),
                Some(parent) => {
                    let paths = vec![parent];
                    assert(paths.deep_view() =~= seq![path@.drop_last()]);
                    Progress::Done(paths)
                },
            }
        } else if has_wildcard(part) {
            match self.directories(path) {
                None => Progress::Ask(Need::Directories(path.clone())),
                Some(Err(error)) => Progress::Failed(error.clone()),
                Some(Ok(names)) => Progress::Done(children_matching(path, names, part)),
            }
        } else {
            let paths = vec![path.child(part)];
            assert(paths.deep_view() =~= seq![path@.push(part@)]);
            Progress::Done(paths)
        }
    }

    /// Where a part of a pattern leads from several directories.
    fn step_all(&self, paths: &Vec<RepoPath>, part: &str) -> (led: Progress<Vec<RepoPath>>)
        ensures
            outcome_of(led) == led_from_all(self@, paths.deep_view(), part@),
    {
        let mut next: Vec<RepoPath> = Vec::new();
        let ghost all = paths.deep_view();
        assert(next.deep_view() =~= seq![]);
        for i in 0..paths.len()
            invariant
                all == paths.deep_view(),
                led_from_all(self@, all.take(i as int), part@) == Outcome::Done(next.deep_view()),
        {
            proof {
                assert(all.take(i + 1).drop_last() =~= all.take(i as int));
                assert(all.take(i + 1).last() == paths@[i as int]@);
            }
            match self.step(&paths[i], part) {
                Progress::Done(more) => {
                    append_paths(&mut next, &more);
                },
                Progress::Failed(error) => {
                    proof {
                        lemma_all_stops(self@, all, i + 1, part@);
                    }
                    return Progress::Failed(error);
                },
                Progress::Ask(need) => {
                    proof {
                        lemma_all_stops(self@, all, i + 1, part@);
                    }
                    return Progress::Ask(need);
                },
            }
        }
        assert(all.take(paths.len() as int) =~= all);
        Progress::Done(next)
    }

    /// The directories that a pattern names below a base directory.
    pub fn expand(&self, base: &RepoPath, pattern: &str) -> (paths: Progress<Vec<RepoPath>>)
        ensures
            outcome_of(paths) == expanded(self@, base@, pattern@),
    {
        let parts = split(pattern, '/');
        let ghost all = parts.deep_view();
        let mut paths = vec![base.clone()];
        assert(paths.deep_view() =~= seq![base@]);
        for i in 0..parts.len()
            invariant
                all == parts.deep_view(),
                all == text::split_on(pattern@, '/'),
                led_by(self@, base@, all.take(i as int)) == Outcome::Done(paths.deep_view()),
        {
            let part = parts[i].as_str();
            proof {
                assert(all.take(i + 1).drop_last() =~= all.take(i as int));
                assert(all.take(i + 1).last() == part@);
            }
            if characters(part).len() > 0 && !same_text(part, ".") {
                match self.step_all(&paths, part) {
                    Progress::Done(next) => {
                        paths = next;
                    },
                    Progress::Failed(error) => {
                        proof {
                            lemma_parts_stop(self@, base@, all, i + 1);
                        }
                        return Progress::Failed(error);
                    },
                    Progress::Ask(need) => {
                        proof {
                            lemma_parts_stop(self@, base@, all, i + 1);
                        }
                        return Progress::Ask(need);
                    },
                }
            }
        }
        assert(all.take(parts.len() as int) =~= all);
        Progress::Done(paths)
    }
}

/// Appends paths to a list.
pub fn append_paths(paths: &mut Vec<RepoPath>, more: &Vec<RepoPath>)
    ensures
        final(paths).deep_view() == old(paths).deep_view() + more.deep_view(),
{
    let ghost before = paths.deep_view();
    let ghost all = more.deep_view();
    assert(paths.deep_view() =~= before + all.take(0));
    for i in 0..more.len()
        invariant
            all == more.deep_view(),
            paths.deep_view() == before + all.take(i as int),
    {
        let ghost last = paths.deep_view();
        paths.push(more[i].clone());
        assert(paths.deep_view() =~= last.push(all[i as int]));
        assert(paths.deep_view() =~= before + all.take(i + 1));
    }
    assert(all.take(more.len() as int) =~= all);
}

proof fn lemma_steps_ask(known: Known, paths: Seq<Seq<Seq<char>>>, part: Seq<char>)
    ensures
        led_from_all(known, paths, part) matches Outcome::Ask(query) ==> !answers(known, query),
    decreases paths.len(),
{
    if paths.len() > 0 {
        lemma_steps_ask(known, paths.drop_last(), part);
    }
}

proof fn lemma_parts_ask(known: Known, base: Seq<Seq<char>>, parts: Seq<Seq<char>>)
    ensures
        led_by(known, base, parts) matches Outcome::Ask(query) ==> !answers(known, query),
    decreases parts.len(),
{
    if parts.len() > 0 {
        lemma_parts_ask(known, base, parts.drop_last());
        if let Outcome::Done(paths) = led_by(known, base, parts.drop_last()) {
            lemma_steps_ask(known, paths, parts.last());
        }
    }
}

/// The expansion of a pattern asks only for what is not known yet.
pub proof fn expansion_asks_what_is_unknown(
    known: Known,
    base: Seq<Seq<char>>,
    pattern: Seq<char>,
)
    ensures
        expanded(known, base, pattern) matches Outcome::Ask(query) ==> !answers(known, query),
{
    lemma_parts_ask(known, base, text::split_on(pattern, '/'));
}

proof fn lemma_steps_stay(
    known: Known,
    more: Known,
    paths: Seq<Seq<Seq<char>>>,
    part: Seq<char>,
)
    requires
        grows_to(known, more),
        !(led_from_all(known, paths, part) is Ask),
    ensures
        led_from_all(more, paths, part) == led_from_all(known, paths, part),
    decreases paths.len(),
{
    if paths.len() > 0 {
        lemma_steps_stay(known, more, paths.drop_last(), part);
    }
}

proof fn lemma_parts_stay(known: Known, more: Known, base: Seq<Seq<char>>, parts: Seq<Seq<char>>)
    requires
        grows_to(known, more),
        !(led_by(known, base, parts) is Ask),
    ensures
        led_by(more, base, parts) == led_by(known, base, parts),
    decreases parts.len(),
{
    if parts.len() > 0 {
        lemma_parts_stay(known, more, base, parts.drop_last());
        if let Outcome::Done(paths) = led_by(known, base, parts.drop_last()) {
            if parts.last().len() != 0 && parts.last() != "."@ {
                lemma_steps_stay(known, more, paths, parts.last());
            }
        }
    }
}

/// Knowing more does not change an expansion that asked for nothing.
pub proof fn expansions_stay(known: Known, more: Known, base: Seq<Seq<char>>, pattern: Seq<char>)
    requires
        grows_to(known, more),
        !(expanded(known, base, pattern) is Ask),
    ensures
        expanded(more, base, pattern) == expanded(known, base, pattern),
{
    lemma_parts_stay(known, more, base, text::split_on(pattern, '/'));
}

/// A pattern without wildcards and without `..` names one directory, whatever the
/// directories are.
pub proof fn plain_patterns_name_one_directory(
    known: Known,
    base: Seq<Seq<char>>,
    pattern: Seq<char>,
)
    requires
        forall|i: int|
            0 <= i < text::split_on(pattern, '/').len() ==> !is_pattern(
                #[trigger] text::split_on(pattern, '/')[i],
            ) && text::split_on(pattern, '/')[i] != ".."@,
    ensures
        expanded(known, base, pattern) == Outcome::Done(
            seq![
                base + text::split_on(pattern, '/').filter(
                    |part: Seq<char>| part.len() > 0 && part != "."@,
                ),
            ],
        ),
{
    lemma_plain_parts(known, base, text::split_on(pattern, '/'));
}

proof fn lemma_plain_parts(known: Known, base: Seq<Seq<char>>, parts: Seq<Seq<char>>)
    requires
        forall|i: int|
            0 <= i < parts.len() ==> !is_pattern(#[trigger] parts[i]) && parts[i] != ".."@,
    ensures
        led_by(known, base, parts) == Outcome::Done(
            seq![base + parts.filter(|part: Seq<char>| part.len() > 0 && part != "."@)],
        ),
    decreases parts.len(),
{
    reveal(Seq::filter);
    let kept = |part: Seq<char>| part.len() > 0 && part != "."@;
    if parts.len() == 0 {
        assert(base + parts.filter(kept) =~= base);
    } else {
        let rest = parts.drop_last();
        assert forall|i: int| 0 <= i < rest.len() implies !is_pattern(#[trigger] rest[i])
            && rest[i] != ".."@ by {
            assert(rest[i] == parts[i]);
        }
        lemma_plain_parts(known, base, rest);
        assert(!is_pattern(parts[parts.len() - 1]));
        let before = base + rest.filter(kept);
        let paths = seq![before];
        if kept(parts.last()) {
            assert(paths.drop_last() =~= seq![]);
            assert(led_from_all(known, paths.drop_last(), parts.last()) == Outcome::Done(
                Seq::<Seq<Seq<char>>>::empty(),
            ));
            assert(Seq::<Seq<Seq<char>>>::empty() + seq![before.push(parts.last())] =~= seq![
                before.push(parts.last()),
            ]);
            assert(before.push(parts.last()) =~= base + parts.filter(kept));
        }
    }
}

} // verus!
