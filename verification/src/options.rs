//! The command line.

use vstd::prelude::*;

use crate::ecosystem::Ecosystem;
use crate::error;
use crate::error::{Error, Failure};
use crate::external;
use crate::text::{concat2, same_text};

verus! {

/// How the command is used.
pub const HELP: &'static str =
    "Compare dependency lockfiles with another Git revision.\n\nUsage: cargo depdep [OPTIONS] [ECOSYSTEM]\n\nArguments:\n  [ECOSYSTEM]  Package ecosystem: rust or npm [default: auto-detect]\n\nOptions:\n  --rev <REV>  Git rev to compare against [default: origin default branch, then local main/master]\n  --all  Include transitive dependency changes\n  --pretty  Align the columns for a nicely formatted ASCII table\n  -h, --help    Print help";

/// A word of the command line. Where it is not valid UTF-8, its text stands for it
/// with replacement characters.
pub struct Argument {
    pub text: String,
    pub utf8: bool,
}

/// A word of the command line.
pub struct Word {
    pub text: Seq<char>,
    pub utf8: bool,
}

impl View for Argument {
    type V = Word;

    open spec fn view(&self) -> Word {
        Word { text: self.text@, utf8: self.utf8 }
    }
}

/// What to compare, and how to show it.
pub struct Options {
    pub ecosystem: Option<Ecosystem>,
    pub revision: Option<String>,
    pub all: bool,
    pub pretty: bool,
}

/// What to compare, and how to show it.
#[verifier::ext_equal]
pub struct Choices {
    pub ecosystem: Option<Ecosystem>,
    pub revision: Option<Seq<char>>,
    pub all: bool,
    pub pretty: bool,
}

impl View for Options {
    type V = Choices;

    open spec fn view(&self) -> Choices {
        Choices {
            ecosystem: self.ecosystem,
            revision: self.revision.deep_view(),
            all: self.all,
            pretty: self.pretty,
        }
    }
}

/// What the command is to do.
pub enum Command {
    Help,
    Compare(Options),
}

/// What the command is to do.
#[verifier::ext_equal]
pub enum Task {
    Help,
    Compare(Choices),
}

impl View for Command {
    type V = Task;

    open spec fn view(&self) -> Task {
        match *self {
            Command::Help => Task::Help,
            Command::Compare(options) => Task::Compare(options@),
        }
    }
}

impl DeepView for Command {
    type V = Task;

    open spec fn deep_view(&self) -> Task {
        self@
    }
}

impl Word {
    /// Whether the word is a given text.
    pub open spec fn says(self, text: Seq<char>) -> bool {
        self.utf8 && self.text == text
    }
}

impl Argument {
    /// Tells whether the word is a given text.
    pub fn equals(&self, text: &str) -> (same: bool)
        ensures
            same == self@.says(text@),
    {
        self.utf8 && same_text(self.text.as_str(), text)
    }
}

/// The ecosystem that a word names.
pub open spec fn ecosystem_named(word: Word) -> Option<Ecosystem> {
    if word.says("rust"@) {
        Some(Ecosystem::Rust)
    } else if word.says("npm"@) || word.says("js"@) || word.says("ts"@) || word.says("node"@) {
        Some(Ecosystem::Npm)
    } else {
        None
    }
}

/// The ecosystem that a word names.
fn named_ecosystem(word: &Argument) -> (named: Option<Ecosystem>)
    ensures
        named == ecosystem_named(word@),
{
    if word.equals("rust") {
        Some(Ecosystem::Rust)
    } else if word.equals("npm") || word.equals("js") || word.equals("ts") || word.equals("node") {
        Some(Ecosystem::Npm)
    } else {
        None
    }
}

/// That a word is not understood, given how it is shown.
pub open spec fn unexpected(shown: Seq<char>) -> Failure {
    Failure::Usage("unexpected argument "@ + shown)
}

/// That a word is not understood, given how it is shown.
pub fn unexpected_argument(shown: &str) -> (error: Error)
    ensures
        error@ == unexpected(shown@),
{
    Error::Usage(concat2("unexpected argument ", shown))
}

/// What the words from some word on ask for, given what the words before it chose.
pub open spec fn asked(words: Seq<Word>, chosen: Choices) -> Result<Task, Failure>
    decreases words.len(),
{
    if words.len() == 0 {
        Ok(Task::Compare(chosen))
    } else if words[0].says("-h"@) || words[0].says("--help"@) {
        Ok(Task::Help)
    } else if words[0].says("--pretty"@) {
        asked(words.skip(1), Choices { pretty: true, ..chosen })
    } else if words[0].says("--all"@) {
        asked(words.skip(1), Choices { all: true, ..chosen })
    } else if ecosystem_named(words[0]) is Some {
        if chosen.ecosystem is Some {
            Err(Failure::Usage("expected at most one ecosystem"@))
        } else {
            asked(
                words.skip(1),
                Choices { ecosystem: ecosystem_named(words[0]), ..chosen },
            )
        }
    } else if words[0].says("--rev"@) || words[0].says("--branch"@) {
        if chosen.revision is Some {
            Err(Failure::Usage("--rev may only be used once"@))
        } else if words.len() == 1 {
            Err(Failure::Usage("--rev requires a value"@))
        } else if !words[1].utf8 {
            Err(Failure::Usage("the revision must be valid UTF-8"@))
        } else {
            asked(words.skip(2), Choices { revision: Some(words[1].text), ..chosen })
        }
    } else {
        Err(unexpected(external::debug_text(words[0].text)))
    }
}

/// What is chosen when nothing is asked for.
pub open spec fn no_choices() -> Choices {
    Choices { ecosystem: None, revision: None, all: false, pretty: false }
}

/// What a command line asks for. Cargo puts the name of the subcommand first.
pub open spec fn task_of(words: Seq<Word>) -> Result<Task, Failure> {
    if words.len() > 0 && words[0].says("depdep"@) {
        asked(words.skip(1), no_choices())
    } else {
        asked(words, no_choices())
    }
}

/// The words of a command line.
pub open spec fn words_of(args: Seq<Argument>) -> Seq<Word> {
    args.map_values(|argument: Argument| argument@)
}

/// What a command line asks for.
pub fn parse_args(args: &Vec<Argument>) -> (parsed: Result<Command, Error>)
    ensures
        error::result_of(parsed) == task_of(words_of(args@)),
{
    let ghost words = words_of(args@);
    let mut ecosystem: Option<Ecosystem> = None;
    let mut revision: Option<String> = None;
    let mut all = false;
    let mut pretty = false;
    let mut i: usize = 0;
    assert(words.skip(0) =~= words);
    if args.len() > 0 && args[0].equals("depdep") {
        i = 1;
    }
    while i < args.len()
        invariant
            i <= args.len(),
            words == words_of(args@),
            task_of(words) == asked(
                words.skip(i as int),
                Choices { ecosystem, revision: revision.deep_view(), all, pretty },
            ),
        decreases args.len() - i,
    {
        let argument = &args[i];
        proof {
            assert(words.skip(i as int)[0] == argument@);
            assert(words.skip(i as int).skip(1) =~= words.skip(i + 1));
        }
        if argument.equals("-h") || argument.equals("--help") {
            return Ok(Command::Help);
        } else if argument.equals("--pretty") {
            pretty = true;
        } else if argument.equals("--all") {
            all = true;
        } else if let Some(named) = named_ecosystem(argument) {
            if ecosystem.is_some() {
                return Err(Error::Usage("expected at most one ecosystem".to_owned()));
            }
            ecosystem = Some(named);
        } else if argument.equals("--rev") || argument.equals("--branch") {
            if revision.is_some() {
                return Err(Error::Usage("--rev may only be used once".to_owned()));
            }
            if i + 1 == args.len() {
                return Err(Error::Usage("--rev requires a value".to_owned()));
            }
            let value = &args[i + 1];
            assert(words.skip(i as int)[1] == value@);
            if !value.utf8 {
                return Err(Error::Usage("the revision must be valid UTF-8".to_owned()));
            }
            revision = Some(value.text.clone());
            assert(words.skip(i as int).skip(2) =~= words.skip(i + 2));
            i += 1;
        } else {
            return Err(unexpected_argument(external::quoted(argument.text.as_str()).as_str()));
        }
        i += 1;
    }
    Ok(Command::Compare(Options { ecosystem, revision, all, pretty }))
}

/// The name of the subcommand in front of a command line changes nothing.
pub proof fn subcommand_name_changes_nothing(name: Word, words: Seq<Word>)
    requires
        name.says("depdep"@),
        words.len() > 0 ==> !words[0].says("depdep"@),
    ensures
        task_of(seq![name] + words) == task_of(words),
{
    assert((seq![name] + words).skip(1) =~= words);
}

/// Whether the word at a position is an argument of its own, and not the value of the
/// option before it.
pub open spec fn own_argument(words: Seq<Word>, at: int) -> bool
    decreases words.len(),
{
    if at <= 0 || at >= words.len() {
        at == 0 && words.len() > 0
    } else if words[0].says("--rev"@) || words[0].says("--branch"@) {
        at > 1 && own_argument(words.skip(2), at - 2)
    } else {
        own_argument(words.skip(1), at - 1)
    }
}

/// Whether the word at a position of a command line is an argument of its own. The name
/// of the subcommand in front is none.
pub open spec fn is_argument(words: Seq<Word>, at: int) -> bool {
    if words.len() > 0 && words[0].says("depdep"@) {
        own_argument(words.skip(1), at - 1)
    } else {
        own_argument(words, at)
    }
}

/// Whether two words mean the same as arguments: they name the same ecosystem, or both
/// give the revision.
pub open spec fn same_argument(word: Word, other: Word) -> bool {
    ||| ecosystem_named(word) is Some && ecosystem_named(word) == ecosystem_named(other)
    ||| (word.says("--rev"@) || word.says("--branch"@)) && (other.says("--rev"@) || other.says(
        "--branch"@,
    ))
}

/// Words that name an ecosystem or give the revision are no other words.
proof fn lemma_words_apart(word: Word)
    ensures
        ecosystem_named(word) is Some ==> !word.says("-h"@) && !word.says("--help"@) && !word.says(
            "--pretty"@,
        ) && !word.says("--all"@) && !word.says("--rev"@) && !word.says("--branch"@) && !word.says(
            "depdep"@,
        ),
        word.says("--rev"@) || word.says("--branch"@) ==> !word.says("-h"@) && !word.says(
            "--help"@,
        ) && !word.says("--pretty"@) && !word.says("--all"@) && ecosystem_named(word) is None
            && !word.says("depdep"@),
{
    reveal_strlit("js");
    reveal_strlit("ts");
    reveal_strlit("node");
    reveal_strlit("npm");
    reveal_strlit("rust");
    reveal_strlit("-h");
    reveal_strlit("--help");
    reveal_strlit("--pretty");
    reveal_strlit("--all");
    reveal_strlit("--rev");
    reveal_strlit("--branch");
    reveal_strlit("depdep");
    assert("-h"@[0] == '-' && "--help"@[0] == '-' && "--pretty"@[0] == '-' && "--all"@[0] == '-');
    assert("--rev"@[0] == '-' && "--branch"@[0] == '-' && "depdep"@[0] == 'd');
    assert("js"@[0] == 'j' && "ts"@[0] == 't' && "node"@[0] == 'n' && "npm"@[0] == 'n');
    assert("rust"@[0] == 'r');
    assert("--help"@[2] == 'h' && "--pretty"@[2] == 'p' && "--all"@[2] == 'a');
    assert("--rev"@[2] == 'r' && "--branch"@[2] == 'b');
    assert("-h"@.len() == 2);
}

proof fn lemma_asked_the_same(words: Seq<Word>, at: int, other: Word, chosen: Choices)
    requires
        own_argument(words, at),
        same_argument(words[at], other),
    ensures
        asked(words.update(at, other), chosen) == asked(words, chosen),
    decreases words.len(),
{
    let changed = words.update(at, other);
    lemma_words_apart(words[at]);
    lemma_words_apart(other);
    if at == 0 {
        assert(changed.skip(1) =~= words.skip(1));
        if words.len() > 1 {
            assert(changed.skip(2) =~= words.skip(2));
        }
    } else {
        assert(changed[0] == words[0]);
        lemma_words_apart(words[0]);
        if words[0].says("--rev"@) || words[0].says("--branch"@) {
            let rest = words.skip(2);
            assert(changed[1] == words[1]);
            assert(rest[at - 2] == words[at]);
            assert(changed.skip(2) =~= rest.update(at - 2, other));
            if words[1].utf8 {
                lemma_asked_the_same(
                    rest,
                    at - 2,
                    other,
                    Choices { revision: Some(words[1].text), ..chosen },
                );
            }
        } else {
            let rest = words.skip(1);
            assert(rest[at - 1] == words[at]);
            assert(changed.skip(1) =~= rest.update(at - 1, other));
            lemma_asked_the_same(rest, at - 1, other, Choices { pretty: true, ..chosen });
            lemma_asked_the_same(rest, at - 1, other, Choices { all: true, ..chosen });
            lemma_asked_the_same(
                rest,
                at - 1,
                other,
                Choices { ecosystem: ecosystem_named(words[0]), ..chosen },
            );
        }
    }
}

/// Anywhere on a command line, an argument can be replaced by another that means the
/// same.
pub proof fn arguments_can_be_exchanged(words: Seq<Word>, at: int, other: Word)
    requires
        0 <= at < words.len(),
        is_argument(words, at),
        same_argument(words[at], other),
    ensures
        task_of(words.update(at, other)) == task_of(words),
{
    let changed = words.update(at, other);
    lemma_words_apart(words[at]);
    lemma_words_apart(other);
    if words[0].says("depdep"@) {
        let rest = words.skip(1);
        assert(rest[at - 1] == words[at]);
        assert(changed.skip(1) =~= rest.update(at - 1, other));
        lemma_asked_the_same(rest, at - 1, other, no_choices());
    } else {
        lemma_asked_the_same(words, at, other, no_choices());
    }
}

/// Anywhere on a command line, the other names of npm mean the same, unless they are
/// the value of an option.
pub proof fn other_names_of_npm_mean_the_same(words: Seq<Word>, at: int, npm: Word)
    requires
        0 <= at < words.len(),
        is_argument(words, at),
        words[at].says("js"@) || words[at].says("ts"@) || words[at].says("node"@),
        npm.says("npm"@),
    ensures
        task_of(words.update(at, npm)) == task_of(words),
{
    reveal_strlit("js");
    reveal_strlit("ts");
    reveal_strlit("node");
    reveal_strlit("npm");
    reveal_strlit("rust");
    assert("js"@[0] == 'j' && "ts"@[0] == 't' && "node"@[0] == 'n' && "npm"@[0] == 'n');
    assert("rust"@[0] == 'r');
    arguments_can_be_exchanged(words, at, npm);
}

} // verus!
