//! What Git is asked, and what is made of its answers.

use vstd::prelude::*;
use vstd::string::*;
use vstd::utf8;

use crate::error::{Error, Failure};
use crate::error;
use crate::external;
use crate::path;
use crate::path::RepoPath;
use crate::text;
use crate::text::{concat3, split, trim, trim_end};
use crate::text_writing;

verus! {

/// What a run of Git left behind.
pub struct GitOutput {
    pub success: bool,
    pub stdout: Vec<u8>,
    pub stderr: Vec<u8>,
}

/// What a message of Git says, when it says anything.
pub open spec fn complaint_of(message: Seq<char>) -> Seq<char> {
    if text::trimmed(message).len() == 0 {
        "git exited unsuccessfully"@
    } else {
        text::trimmed(message)
    }
}

/// What a message of Git says, when it says anything.
pub fn complaint(message: &str) -> (said: String)
    ensures
        said@ == complaint_of(message@),
{
    let said = trim(message);
    if characters_in(said) == 0 {
        "git exited unsuccessfully".to_owned()
    } else {
        said.to_owned()
    }
}

/// The number of characters of a text.
fn characters_in(s: &str) -> (count: usize)
    ensures
        count == s@.len(),
{
    text::characters(s).len()
}

/// What Git says on its error stream.
pub fn command_error(stderr: &[u8]) -> (said: String)
    ensures
        said@ == complaint_of(external::lossy_text(stderr@)),
{
    complaint(external::decode_lossy(stderr).as_str())
}

/// The root of the repository, from the output of `git rev-parse --show-toplevel`.
pub open spec fn root_of(output: Result<GitOutput, String>) -> Result<Seq<char>, Failure> {
    match output {
        Err(source) => Err(Failure::Io { context: "could not run git"@, source: source@ }),
        Ok(output) => if !output.success {
            Err(Failure::Git(complaint_of(external::lossy_text(output.stderr@))))
        } else {
            match external::utf8_text(output.stdout@) {
                None => Err(Failure::Git("git returned a non-UTF-8 repository path"@)),
                Some(root) => Ok(text::trimmed_end(root)),
            }
        },
    }
}

/// The root of the repository, from the output of `git rev-parse --show-toplevel`.
pub fn git_repository_root(output: Result<GitOutput, String>) -> (root: Result<String, Error>)
    ensures
        error::result_of(root) == root_of(output),
{
    match output {
        Err(source) => Err(Error::Io { context: "could not run git".to_owned(), source }),
        Ok(output) => if !output.success {
            Err(Error::Git(command_error(output.stderr.as_slice())))
        } else {
            match external::decode(output.stdout) {
                None => Err(Error::Git("git returned a non-UTF-8 repository path".to_owned())),
                Some(root) => Ok(trim_end(root.as_str()).to_owned()),
            }
        },
    }
}

/// The line that Git prints, when it succeeds and prints one.
pub open spec fn line_of(output: Result<GitOutput, String>) -> Option<Seq<char>> {
    match output {
        Err(_) => None,
        Ok(output) => if !output.success {
            None
        } else {
            match external::utf8_text(output.stdout@) {
                None => None,
                Some(line) => if text::trimmed(line).len() == 0 {
                    None
                } else {
                    Some(text::trimmed(line))
                },
            }
        },
    }
}

/// The line that Git prints, when it succeeds and prints one.
pub fn git_line(output: Result<GitOutput, String>) -> (line: Option<String>)
    ensures
        line.deep_view() == line_of(output),
{
    match output {
        Err(_) => None,
        Ok(output) => if !output.success {
            None
        } else {
            match external::decode(output.stdout) {
                None => None,
                Some(line) => {
                    let line = trim(line.as_str());
                    if characters_in(line) == 0 {
                        None
                    } else {
                        Some(line.to_owned())
                    }
                },
            }
        },
    }
}

/// The name of a file at a revision.
pub open spec fn object_of(revision: Seq<char>, path: Seq<Seq<char>>) -> Seq<char> {
    revision + ":"@ + path::written(path)
}

/// The name of a file at a revision.
pub fn object_name(revision: &str, path: &RepoPath) -> (object: String)
    ensures
        object@ == object_of(revision@, path@),
{
    concat3(revision, ":", path.text().as_str())
}

/// The contents of a file at a revision, from the output of `git show`.
pub open spec fn file_of(
    revision: Seq<char>,
    path: Seq<Seq<char>>,
    output: Result<GitOutput, String>,
) -> Result<Seq<char>, Failure> {
    let object = object_of(revision, path);
    match output {
        Err(source) => Err(Failure::Io { context: "could not run git"@, source: source@ }),
        Ok(output) => if !output.success {
            Err(
                Failure::Git(
                    "could not read "@ + object + ": "@ + complaint_of(
                        external::lossy_text(output.stderr@),
                    ),
                ),
            )
        } else {
            match external::utf8_text(output.stdout@) {
                None => Err(Failure::Git(object + " is not valid UTF-8"@)),
                Some(contents) => Ok(contents),
            }
        },
    }
}

/// The contents of a file at a revision, from the output of `git show`.
pub fn file_at_revision(
    revision: &str,
    path: &RepoPath,
    output: Result<GitOutput, String>,
) -> (contents: Result<String, Error>)
    ensures
        error::result_of(contents) == file_of(revision@, path@, output),
{
    let object = object_name(revision, path);
    match output {
        Err(source) => Err(Error::Io { context: "could not run git".to_owned(), source }),
        Ok(output) => if !output.success {
            let mut message = concat3("could not read ", object.as_str(), ": ");
            message.append(command_error(output.stderr.as_slice()).as_str());
            Err(Error::Git(message))
        } else {
            match external::decode(output.stdout) {
                None => {
                    let mut message = object;
                    message.append(" is not valid UTF-8");
                    Err(Error::Git(message))
                },
                Some(contents) => Ok(contents),
            }
        },
    }
}

/// The name of a directory at a revision.
pub open spec fn tree_of(revision: Seq<char>, path: Seq<Seq<char>>) -> Seq<char> {
    if path.len() == 0 {
        revision
    } else {
        object_of(revision, path)
    }
}

/// The name of a directory at a revision.
pub fn tree_name(revision: &str, path: &RepoPath) -> (tree: String)
    ensures
        tree@ == tree_of(revision@, path@),
{
    if path.names.len() == 0 {
        revision.to_owned()
    } else {
        object_name(revision, path)
    }
}

/// The names that are not empty.
pub open spec fn filled(names: Seq<Seq<char>>) -> Seq<Seq<char>> {
    names.filter(|name: Seq<char>| name.len() > 0)
}

/// The directories in a directory at a revision, from the output of `git ls-tree -z`.
pub open spec fn directories_of(output: Result<GitOutput, String>) -> Result<
    Seq<Seq<char>>,
    Failure,
> {
    match output {
        Err(source) => Err(
            Failure::Io { context: "could not list workspace directories"@, source: source@ },
        ),
        Ok(output) => if !output.success {
            Err(Failure::Git(complaint_of(external::lossy_text(output.stderr@))))
        } else {
            match external::utf8_text(output.stdout@) {
                None => Err(Failure::Git("workspace directory is not valid UTF-8"@)),
                Some(names) => Ok(filled(text::split_on(names, '\0'))),
            }
        },
    }
}

/// The names that are not empty.
fn without_empty(names: Vec<String>) -> (kept: Vec<String>)
    ensures
        kept.deep_view() == filled(names.deep_view()),
{
    let mut kept: Vec<String> = Vec::new();
    let ghost all = names.deep_view();
    proof {
        assert(all.take(0) =~= seq![]);
        reveal(Seq::filter);
        assert(kept.deep_view() =~= filled(all.take(0)));
    }
    for i in 0..names.len()
        invariant
            all == names.deep_view(),
            kept.deep_view() == filled(all.take(i as int)),
    {
        let ghost before = kept.deep_view();
        proof {
            reveal(Seq::filter);
            assert(all.take(i + 1).drop_last() =~= all.take(i as int));
            assert(all[i as int] == names@[i as int]@);
        }
        if characters_in(names[i].as_str()) > 0 {
            kept.push(names[i].clone());
            assert(kept.deep_view() =~= before.push(all[i as int]));
        }
    }
    assert(all.take(names.len() as int) =~= all);
    kept
}

/// The directories in a directory at a revision, from the output of `git ls-tree -z`.
pub fn directories_at_revision(output: Result<GitOutput, String>) -> (names: Result<
    Vec<String>,
    Error,
>)
    ensures
        error::result_of(names) == directories_of(output),
{
    match output {
        Err(source) => Err(
            Error::Io { context: "could not list workspace directories".to_owned(), source },
        ),
        Ok(output) => if !output.success {
            Err(Error::Git(command_error(output.stderr.as_slice())))
        } else {
            match external::decode(output.stdout) {
                None => Err(Error::Git("workspace directory is not valid UTF-8".to_owned())),
                Some(names) => Ok(without_empty(split(names.as_str(), '\0'))),
            }
        },
    }
}

/// What Git printed reads back from its encoding: the contents of a file as they are, a
/// line and the root of the repository without the white space around and behind them.
pub proof fn printed_texts_read_back(
    output: GitOutput,
    contents: Seq<char>,
    revision: Seq<char>,
    path: Seq<Seq<char>>,
)
    requires
        output.success,
        output.stdout@ == utf8::encode_utf8(contents),
    ensures
        file_of(revision, path, Ok::<GitOutput, String>(output)) == Ok::<Seq<char>, Failure>(
            contents,
        ),
        root_of(Ok::<GitOutput, String>(output)) == Ok::<Seq<char>, Failure>(
            text::trimmed_end(contents),
        ),
        text::trimmed(contents).len() > 0 ==> line_of(Ok::<GitOutput, String>(output)) == Some(
            text::trimmed(contents),
        ),
        text::trimmed(contents).len() == 0 ==> line_of(Ok::<GitOutput, String>(output)) is None,
{
    utf8::encode_utf8_valid_utf8(contents);
    utf8::encode_utf8_decode_utf8(contents);
}

/// Where Git fails, nothing that it printed is used.
pub proof fn failed_commands_give_nothing(
    output: GitOutput,
    revision: Seq<char>,
    path: Seq<Seq<char>>,
)
    requires
        !output.success,
    ensures
        file_of(revision, path, Ok::<GitOutput, String>(output)) is Err,
        root_of(Ok::<GitOutput, String>(output)) is Err,
        line_of(Ok::<GitOutput, String>(output)) is None,
        directories_of(Ok::<GitOutput, String>(output)) is Err,
{
}

/// Names, each with a NUL behind it.
pub open spec fn ended_names(names: Seq<Seq<char>>) -> Seq<char>
    decreases names.len(),
{
    if names.len() == 0 {
        seq![]
    } else {
        ended_names(names.drop_last()) + names.last() + seq!['\0']
    }
}

/// Names with a NUL behind each are split at the NULs, with nothing behind the last.
proof fn lemma_ended_names(names: Seq<Seq<char>>)
    requires
        forall|i: int, j: int|
            0 <= i < names.len() && 0 <= j < names[i].len() ==> #[trigger] names[i][j] != '\0',
        forall|i: int| 0 <= i < names.len() ==> (#[trigger] names[i]).len() > 0,
    ensures
        filled(text::split_on(ended_names(names), '\0')) == names,
{
    let none = Seq::<char>::empty();
    let closed = names.push(none);
    assert forall|i: int, j: int| 0 <= i < closed.len() && 0 <= j < closed[i].len() implies
        #[trigger] closed[i][j] != '\0' by {
        assert(closed[i][j] == names[i][j]);
    }
    text_writing::joined_parts_split_again(closed, '\0');
    lemma_joined_names(names);
    reveal(Seq::filter);
    assert(closed.drop_last() =~= names);
    lemma_all_kept(names);
}

/// Names with a NUL behind each are joined with NULs, with nothing behind the last.
proof fn lemma_joined_names(names: Seq<Seq<char>>)
    ensures
        text::joined(names.push(seq![]), seq!['\0']) == ended_names(names),
    decreases names.len(),
{
    let none = Seq::<char>::empty();
    let closed = names.push(none);
    if names.len() == 0 {
        assert(closed[0] == none);
    } else {
        assert(closed.drop_last() =~= names);
        lemma_joined_before(names);
        assert(text::joined(closed, seq!['\0']) =~= ended_names(names));
    }
}

/// The last of joined names has no NUL behind it.
proof fn lemma_joined_before(names: Seq<Seq<char>>)
    requires
        names.len() > 0,
    ensures
        text::joined(names, seq!['\0']) + seq!['\0'] == ended_names(names),
    decreases names.len(),
{
    let rest = names.drop_last();
    if names.len() == 1 {
        assert(rest =~= seq![]);
        assert(ended_names(rest) =~= seq![]);
        assert(text::joined(names, seq!['\0']) + seq!['\0'] =~= ended_names(names));
    } else {
        lemma_joined_before(rest);
        assert(text::joined(names, seq!['\0']) + seq!['\0'] =~= ended_names(names));
    }
}

/// Names that are not empty are all kept.
proof fn lemma_all_kept(names: Seq<Seq<char>>)
    requires
        forall|i: int| 0 <= i < names.len() ==> (#[trigger] names[i]).len() > 0,
    ensures
        filled(names) == names,
    decreases names.len(),
{
    reveal(Seq::filter);
    if names.len() > 0 {
        let rest = names.drop_last();
        assert forall|i: int| 0 <= i < rest.len() implies (#[trigger] rest[i]).len() > 0 by {
            assert(rest[i] == names[i]);
        }
        lemma_all_kept(rest);
        assert(names[names.len() - 1].len() > 0);
        assert(rest.push(names.last()) =~= names);
    } else {
        assert(filled(names) =~= names);
    }
}

/// The names of directories read back from what Git printed, in their order.
pub proof fn printed_directories_read_back(output: GitOutput, names: Seq<Seq<char>>)
    requires
        output.success,
        output.stdout@ == utf8::encode_utf8(ended_names(names)),
        forall|i: int, j: int|
            0 <= i < names.len() && 0 <= j < names[i].len() ==> #[trigger] names[i][j] != '\0',
        forall|i: int| 0 <= i < names.len() ==> (#[trigger] names[i]).len() > 0,
    ensures
        directories_of(Ok::<GitOutput, String>(output)) == Ok::<Seq<Seq<char>>, Failure>(names),
{
    utf8::encode_utf8_valid_utf8(ended_names(names));
    utf8::encode_utf8_decode_utf8(ended_names(names));
    lemma_ended_names(names);
}

/// Files and directories are named by the revision and, behind a colon, their path; the
/// root by the revision alone.
pub proof fn objects_are_named_by_revision_and_path(
    revision: Seq<char>,
    path: Seq<Seq<char>>,
)
    ensures
        object_of(revision, path) == revision + seq![':'] + path::written(path),
        path.len() > 0 ==> tree_of(revision, path) == revision + seq![':'] + path::written(path),
        tree_of(revision, seq![]) == revision,
{
    reveal_strlit(":");
    assert(":"@ =~= seq![':']);
}

} // verus!
