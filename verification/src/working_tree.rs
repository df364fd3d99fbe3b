//! What is made of reads in the working tree.

use vstd::prelude::*;

use crate::error;
use crate::error::{Error, Failure};
use crate::text::concat2;

verus! {

/// The contents of a file in the working tree, or why it cannot be read.
pub open spec fn working_contents(shown_path: Seq<char>, contents: Result<String, String>) -> Result<
    Seq<char>,
    Failure,
> {
    match contents {
        Ok(contents) => Ok(contents@),
        Err(source) => Err(
            Failure::Io { context: "could not read "@ + shown_path, source: source@ },
        ),
    }
}

/// The contents of a file in the working tree, or why it cannot be read.
pub fn working_file(shown_path: &str, contents: Result<String, String>) -> (read: Result<
    String,
    Error,
>)
    ensures
        error::result_of(read) == working_contents(shown_path@, contents),
{
    match contents {
        Ok(contents) => Ok(contents),
        Err(source) => Err(Error::Io { context: concat2("could not read ", shown_path), source }),
    }
}

/// An entry of a directory in the working tree. A directory has no name here when its
/// name is not valid UTF-8.
pub enum Entry {
    Unreadable(String),
    Other,
    Directory(Option<String>),
}

/// The directories among entries, up to the first entry that spoils the listing.
pub open spec fn directories_among(entries: Seq<Entry>) -> Result<Seq<Seq<char>>, Failure>
    decreases entries.len(),
{
    if entries.len() == 0 {
        Ok(seq![])
    } else {
        match directories_among(entries.drop_last()) {
            Err(failure) => Err(failure),
            Ok(names) => match entries.last() {
                Entry::Unreadable(source) => Err(
                    Failure::Io {
                        context: "could not read workspace directory entry"@,
                        source: source@,
                    },
                ),
                Entry::Other => Ok(names),
                Entry::Directory(None) => Err(
                    Failure::Usage("workspace directory is not valid UTF-8"@),
                ),
                Entry::Directory(Some(name)) => Ok(names.push(name@)),
            },
        }
    }
}

/// The directories in a directory of the working tree, or why they cannot be listed.
pub open spec fn working_listing(
    shown_path: Seq<char>,
    entries: Result<Vec<Entry>, String>,
) -> Result<Seq<Seq<char>>, Failure> {
    match entries {
        Ok(entries) => directories_among(entries@),
        Err(source) => Err(
            Failure::Io { context: "could not list "@ + shown_path, source: source@ },
        ),
    }
}

/// A listing that one entry spoils stays spoilt.
proof fn lemma_spoilt(entries: Seq<Entry>, count: int)
    requires
        0 <= count <= entries.len(),
        directories_among(entries.take(count)) is Err,
    ensures
        directories_among(entries) == directories_among(entries.take(count)),
    decreases entries.len(),
{
    if count < entries.len() {
        assert(entries.drop_last().take(count) =~= entries.take(count));
        lemma_spoilt(entries.drop_last(), count);
    } else {
        assert(entries.take(count) =~= entries);
    }
}

/// The directories among entries, up to the first entry that spoils the listing.
fn list_directories(entries: &Vec<Entry>) -> (listed: Result<Vec<String>, Error>)
    ensures
        error::result_of(listed) == directories_among(entries@),
{
    let mut names: Vec<String> = Vec::new();
    assert(names.deep_view() =~= seq![]);
    for i in 0..entries.len()
        invariant
            directories_among(entries@.take(i as int)) == Ok::<_, Failure>(names.deep_view()),
    {
        let ghost before = names.deep_view();
        proof {
            assert(entries@.take(i + 1).drop_last() =~= entries@.take(i as int));
        }
        match &entries[i] {
            Entry::Unreadable(source) => {
                proof {
                    lemma_spoilt(entries@, i + 1);
                }
                return Err(
                    Error::Io {
                        context: "could not read workspace directory entry".to_owned(),
                        source: source.clone(),
                    },
                );
            },
            Entry::Other => {},
            Entry::Directory(None) => {
                proof {
                    lemma_spoilt(entries@, i + 1);
                }
                return Err(Error::Usage("workspace directory is not valid UTF-8".to_owned()));
            },
            Entry::Directory(Some(name)) => {
                names.push(name.clone());
                assert(names.deep_view() =~= before.push(name@));
            },
        }
    }
    assert(entries@.take(entries.len() as int) =~= entries@);
    Ok(names)
}

/// The directories in a directory of the working tree, or why they cannot be listed.
pub fn working_directories(
    shown_path: &str,
    entries: Result<Vec<Entry>, String>,
) -> (listed: Result<Vec<String>, Error>)
    ensures
        error::result_of(listed) == working_listing(shown_path@, entries),
{
    match entries {
        Ok(entries) => list_directories(&entries),
        Err(source) => Err(Error::Io { context: concat2("could not list ", shown_path), source }),
    }
}

/// A listing has the names of all directories among its entries, in their order, and no
/// others.
pub proof fn listings_name_their_directories(entries: Seq<Entry>, name: Seq<char>)
    requires
        directories_among(entries) is Ok,
    ensures
        directories_among(entries)->Ok_0.contains(name) <==> exists|i: int|
            0 <= i < entries.len() && names_directory(#[trigger] entries[i], name),
    decreases entries.len(),
{
    if entries.len() > 0 {
        let rest = entries.drop_last();
        let before = directories_among(rest)->Ok_0;
        let all = directories_among(entries)->Ok_0;
        listings_name_their_directories(rest, name);
        if all.contains(name) {
            let k = choose|k: int| 0 <= k < all.len() && all[k] == name;
            if k < before.len() {
                assert(before[k] == name);
                let i = choose|i: int|
                    0 <= i < rest.len() && names_directory(#[trigger] rest[i], name);
                assert(entries[i] == rest[i]);
            } else {
                assert(names_directory(entries[entries.len() - 1], name));
            }
        }
        if exists|i: int| 0 <= i < entries.len() && names_directory(#[trigger] entries[i], name) {
            let i = choose|i: int|
                0 <= i < entries.len() && names_directory(#[trigger] entries[i], name);
            if i < rest.len() {
                assert(names_directory(rest[i], name));
                let k = choose|k: int| 0 <= k < before.len() && before[k] == name;
                assert(all[k] == name);
            } else {
                assert(all[before.len() as int] == name);
            }
        }
    }
}

/// Whether an entry is a directory of a name.
pub open spec fn names_directory(entry: Entry, name: Seq<char>) -> bool {
    entry matches Entry::Directory(Some(found)) && found@ == name
}

/// A listing is an error exactly where an entry cannot be read, or is a directory without
/// a valid name.
pub proof fn listings_are_spoilt_by_entries(entries: Seq<Entry>)
    ensures
        directories_among(entries) is Err <==> exists|i: int|
            0 <= i < entries.len() && (#[trigger] entries[i] matches Entry::Unreadable(_)
                || entries[i] matches Entry::Directory(None)),
    decreases entries.len(),
{
    if entries.len() > 0 {
        let rest = entries.drop_last();
        listings_are_spoilt_by_entries(rest);
        if directories_among(rest) is Err {
            let i = choose|i: int|
                0 <= i < rest.len() && (#[trigger] rest[i] matches Entry::Unreadable(_)
                    || rest[i] matches Entry::Directory(None));
            assert(entries[i] == rest[i]);
        } else {
            assert forall|i: int| 0 <= i < rest.len() implies !(
            #[trigger] entries[i] matches Entry::Unreadable(_)) && !(
            entries[i] matches Entry::Directory(None)) by {
                assert(entries[i] == rest[i]);
            }
            assert(entries[entries.len() - 1] == entries.last());
        }
    }
}

} // verus!
