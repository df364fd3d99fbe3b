//! Writing command lines, and how what is written is read.

use vstd::prelude::*;

use crate::ecosystem::Ecosystem;
use crate::options;
use crate::options::{Choices, Task, Word};

verus! {

/// A part of a command line: a flag, the name of an ecosystem, or a revision behind the
/// option that takes it.
pub enum Part {
    Pretty,
    All,
    Rust,
    Npm { name: Seq<char> },
    Revision { option: Seq<char>, value: Seq<char> },
}

/// Whether a part can be written: npm has four names, and two options take a revision.
pub open spec fn is_part(part: Part) -> bool {
    match part {
        Part::Npm { name } => name == "npm"@ || name == "js"@ || name == "ts"@ || name == "node"@,
        Part::Revision { option, value } => option == "--rev"@ || option == "--branch"@,
        _ => true,
    }
}

/// A word of valid UTF-8.
pub open spec fn word(text: Seq<char>) -> Word {
    Word { text, utf8: true }
}

/// The words of a part.
pub open spec fn part_words(part: Part) -> Seq<Word> {
    match part {
        Part::Pretty => seq![word("--pretty"@)],
        Part::All => seq![word("--all"@)],
        Part::Rust => seq![word("rust"@)],
        Part::Npm { name } => seq![word(name)],
        Part::Revision { option, value } => seq![word(option), word(value)],
    }
}

/// The words of a command line.
pub open spec fn command_words(parts: Seq<Part>) -> Seq<Word>
    decreases parts.len(),
{
    if parts.len() == 0 {
        seq![]
    } else {
        part_words(parts[0]) + command_words(parts.skip(1))
    }
}

/// The ecosystem that a part names.
pub open spec fn part_ecosystem(part: Part) -> Option<Ecosystem> {
    match part {
        Part::Rust => Some(Ecosystem::Rust),
        Part::Npm { name } => Some(Ecosystem::Npm),
        _ => None,
    }
}

/// The revision that a part gives.
pub open spec fn part_revision(part: Part) -> Option<Seq<char>> {
    match part {
        Part::Revision { option, value } => Some(value),
        _ => None,
    }
}

/// Whether parts are well written: no two of them name an ecosystem, and no two give a
/// revision.
pub open spec fn well_written(parts: Seq<Part>) -> bool {
    &&& forall|i: int| 0 <= i < parts.len() ==> is_part(#[trigger] parts[i])
    &&& forall|i: int, j: int|
        0 <= i < j < parts.len() ==> !(part_ecosystem(#[trigger] parts[i]) is Some
            && part_ecosystem(#[trigger] parts[j]) is Some)
    &&& forall|i: int, j: int|
        0 <= i < j < parts.len() ==> !(part_revision(#[trigger] parts[i]) is Some && part_revision(
            #[trigger] parts[j],
        ) is Some)
}

/// Whether choices are those that parts make, in whatever order.
pub open spec fn chosen_by(parts: Seq<Part>, choices: Choices) -> bool {
    &&& choices.all <==> exists|i: int| 0 <= i < parts.len() && #[trigger] parts[i] is All
    &&& choices.pretty <==> exists|i: int| 0 <= i < parts.len() && #[trigger] parts[i] is Pretty
    &&& forall|i: int|
        0 <= i < parts.len() && part_ecosystem(#[trigger] parts[i]) is Some ==> choices.ecosystem
            == part_ecosystem(parts[i])
    &&& choices.ecosystem is Some ==> exists|i: int|
        0 <= i < parts.len() && part_ecosystem(#[trigger] parts[i]) is Some
    &&& forall|i: int|
        0 <= i < parts.len() && part_revision(#[trigger] parts[i]) is Some ==> choices.revision
            == part_revision(parts[i])
    &&& choices.revision is Some ==> exists|i: int|
        0 <= i < parts.len() && part_revision(#[trigger] parts[i]) is Some
}

/// The choices behind one more part.
spec fn with_part(chosen: Choices, part: Part) -> Choices {
    match part {
        Part::Pretty => Choices { pretty: true, ..chosen },
        Part::All => Choices { all: true, ..chosen },
        Part::Revision { option, value } => Choices { revision: Some(value), ..chosen },
        _ => Choices { ecosystem: part_ecosystem(part), ..chosen },
    }
}

/// The choices behind parts.
spec fn with_parts(chosen: Choices, parts: Seq<Part>) -> Choices
    decreases parts.len(),
{
    if parts.len() == 0 {
        chosen
    } else {
        with_parts(with_part(chosen, parts[0]), parts.skip(1))
    }
}

/// The words of a command line differ from each other.
proof fn lemma_words()
    ensures
        ({
            let words = seq![
                "--pretty"@,
                "--all"@,
                "rust"@,
                "npm"@,
                "js"@,
                "ts"@,
                "node"@,
                "--rev"@,
                "--branch"@,
                "-h"@,
                "--help"@,
                "depdep"@,
            ];
            forall|i: int, j: int| 0 <= i < 12 && 0 <= j < 12 && words[i] == words[j] ==> i == j
        }),
{
    reveal_strlit("js");
    reveal_strlit("ts");
    reveal_strlit("node");
    reveal_strlit("npm");
    reveal_strlit("rust");
    reveal_strlit("-h");
    reveal_strlit("--help");
    reveal_strlit("--pretty");
    reveal_strlit("--all");
    reveal_strlit("--rev");
    reveal_strlit("--branch");
    reveal_strlit("depdep");
    let words = seq![
        "--pretty"@,
        "--all"@,
        "rust"@,
        "npm"@,
        "js"@,
        "ts"@,
        "node"@,
        "--rev"@,
        "--branch"@,
        "-h"@,
        "--help"@,
        "depdep"@,
    ];
    assert("--pretty"@.len() == 8 && "--branch"@.len() == 8 && "--pretty"@[2] == 'p'
        && "--branch"@[2] == 'b');
    assert("--all"@.len() == 5 && "--rev"@.len() == 5 && "--all"@[2] == 'a' && "--rev"@[2] == 'r');
    assert("rust"@.len() == 4 && "node"@.len() == 4 && "rust"@[0] == 'r' && "node"@[0] == 'n');
    assert("npm"@.len() == 3);
    assert("js"@.len() == 2 && "ts"@.len() == 2 && "-h"@.len() == 2 && "js"@[0] == 'j'
        && "ts"@[0] == 't' && "-h"@[0] == '-');
    assert("--help"@.len() == 6 && "depdep"@.len() == 6 && "--help"@[0] == '-' && "depdep"@[0]
        == 'd');
}

/// The words of the command line one by one.
proof fn lemma_words_apart()
    ensures
        forall|text: Seq<char>|
            #![trigger options::ecosystem_named(word(text))]
            (text == "--pretty"@ || text == "--all"@ || text == "--rev"@ || text == "--branch"@
                || text == "-h"@ || text == "--help"@ || text == "depdep"@)
                ==> options::ecosystem_named(word(text)) is None,
        options::ecosystem_named(word("rust"@)) == Some(Ecosystem::Rust),
        options::ecosystem_named(word("npm"@)) == Some(Ecosystem::Npm),
        options::ecosystem_named(word("js"@)) == Some(Ecosystem::Npm),
        options::ecosystem_named(word("ts"@)) == Some(Ecosystem::Npm),
        options::ecosystem_named(word("node"@)) == Some(Ecosystem::Npm),
{
    lemma_words();
    let words = seq![
        "--pretty"@,
        "--all"@,
        "rust"@,
        "npm"@,
        "js"@,
        "ts"@,
        "node"@,
        "--rev"@,
        "--branch"@,
        "-h"@,
        "--help"@,
        "depdep"@,
    ];
    assert(words[2] == "rust"@ && words[3] == "npm"@ && words[4] == "js"@ && words[5] == "ts"@
        && words[6] == "node"@);
    assert(words[0] == "--pretty"@ && words[1] == "--all"@ && words[7] == "--rev"@ && words[8]
        == "--branch"@ && words[9] == "-h"@ && words[10] == "--help"@ && words[11] == "depdep"@);
}

/// One part is read.
proof fn lemma_part_read(part: Part, rest: Seq<Word>, chosen: Choices)
    requires
        is_part(part),
        part_ecosystem(part) is Some ==> chosen.ecosystem is None,
        part_revision(part) is Some ==> chosen.revision is None,
    ensures
        options::asked(part_words(part) + rest, chosen) == options::asked(
            rest,
            with_part(chosen, part),
        ),
        !part_words(part)[0].says("depdep"@),
{
    let words = part_words(part) + rest;
    lemma_words();
    let all = seq![
        "--pretty"@,
        "--all"@,
        "rust"@,
        "npm"@,
        "js"@,
        "ts"@,
        "node"@,
        "--rev"@,
        "--branch"@,
        "-h"@,
        "--help"@,
        "depdep"@,
    ];
    assert(all[0] == "--pretty"@ && all[1] == "--all"@ && all[7] == "--rev"@ && all[8]
        == "--branch"@ && all[9] == "-h"@ && all[10] == "--help"@ && all[11] == "depdep"@);
    assert(all[2] == "rust"@ && all[3] == "npm"@ && all[4] == "js"@ && all[5] == "ts"@ && all[6]
        == "node"@);
    lemma_words_apart();
    assert(words[0] == part_words(part)[0]);
    match part {
        Part::Revision { option, value } => {
            assert(words.skip(2) =~= rest);
            assert(words[1] == word(value));
        },
        _ => {
            assert(words.skip(1) =~= rest);
        },
    }
}

/// Parts are read one by one.
proof fn lemma_parts_read(parts: Seq<Part>, rest: Seq<Word>, chosen: Choices)
    requires
        well_written(parts),
        chosen.ecosystem is Some ==> forall|i: int|
            0 <= i < parts.len() ==> part_ecosystem(#[trigger] parts[i]) is None,
        chosen.revision is Some ==> forall|i: int|
            0 <= i < parts.len() ==> part_revision(#[trigger] parts[i]) is None,
    ensures
        options::asked(command_words(parts) + rest, chosen) == options::asked(
            rest,
            with_parts(chosen, parts),
        ),
        parts.len() > 0 ==> command_words(parts).len() > 0 && !command_words(parts)[0].says(
            "depdep"@,
        ),
    decreases parts.len(),
{
    if parts.len() == 0 {
        assert(command_words(parts) + rest =~= rest);
    } else {
        let part = parts[0];
        let others = parts.skip(1);
        assert(is_part(parts[0]));
        assert forall|i: int| 0 <= i < others.len() implies is_part(#[trigger] others[i])
            && !(part_ecosystem(part) is Some && part_ecosystem(others[i]) is Some)
            && !(part_revision(part) is Some && part_revision(others[i]) is Some)
            && !(chosen.ecosystem is Some && part_ecosystem(others[i]) is Some)
            && !(chosen.revision is Some && part_revision(others[i]) is Some) by {
            assert(others[i] == parts[i + 1]);
            assert(parts[0] == part);
        }
        assert forall|i: int, j: int| 0 <= i < j < others.len() implies !(part_ecosystem(
            #[trigger] others[i],
        ) is Some && part_ecosystem(#[trigger] others[j]) is Some) && !(part_revision(
            others[i],
        ) is Some && part_revision(others[j]) is Some) by {
            assert(others[i] == parts[i + 1] && others[j] == parts[j + 1]);
        }
        lemma_part_read(part, command_words(others) + rest, chosen);
        lemma_parts_read(others, rest, with_part(chosen, part));
        assert(command_words(parts) + rest =~= part_words(part) + (command_words(others) + rest));
        assert(command_words(parts)[0] == part_words(part)[0]);
    }
}

/// What parts choose is what they say, in whatever order.
proof fn lemma_chosen(parts: Seq<Part>, chosen: Choices)
    requires
        well_written(parts),
        chosen.ecosystem is Some ==> forall|i: int|
            0 <= i < parts.len() ==> part_ecosystem(#[trigger] parts[i]) is None,
        chosen.revision is Some ==> forall|i: int|
            0 <= i < parts.len() ==> part_revision(#[trigger] parts[i]) is None,
    ensures
        ({
            let made = with_parts(chosen, parts);
            &&& made.all <==> chosen.all || exists|i: int|
                0 <= i < parts.len() && #[trigger] parts[i] is All
            &&& made.pretty <==> chosen.pretty || exists|i: int|
                0 <= i < parts.len() && #[trigger] parts[i] is Pretty
            &&& forall|i: int|
                0 <= i < parts.len() && part_ecosystem(#[trigger] parts[i]) is Some
                    ==> made.ecosystem == part_ecosystem(parts[i])
            &&& (forall|i: int| 0 <= i < parts.len() ==> part_ecosystem(#[trigger] parts[i]) is None)
                ==> made.ecosystem == chosen.ecosystem
            &&& forall|i: int|
                0 <= i < parts.len() && part_revision(#[trigger] parts[i]) is Some ==> made.revision
                    == part_revision(parts[i])
            &&& (forall|i: int| 0 <= i < parts.len() ==> part_revision(#[trigger] parts[i]) is None)
                ==> made.revision == chosen.revision
        }),
    decreases parts.len(),
{
    if parts.len() > 0 {
        let part = parts[0];
        let others = parts.skip(1);
        let next = with_part(chosen, part);
        assert forall|i: int| 0 <= i < others.len() implies is_part(#[trigger] others[i])
            && !(part_ecosystem(part) is Some && part_ecosystem(others[i]) is Some)
            && !(part_revision(part) is Some && part_revision(others[i]) is Some)
            && !(chosen.ecosystem is Some && part_ecosystem(others[i]) is Some)
            && !(chosen.revision is Some && part_revision(others[i]) is Some) by {
            assert(others[i] == parts[i + 1]);
            assert(parts[0] == part);
        }
        assert forall|i: int, j: int| 0 <= i < j < others.len() implies !(part_ecosystem(
            #[trigger] others[i],
        ) is Some && part_ecosystem(#[trigger] others[j]) is Some) && !(part_revision(
            others[i],
        ) is Some && part_revision(others[j]) is Some) by {
            assert(others[i] == parts[i + 1] && others[j] == parts[j + 1]);
        }
        lemma_chosen(others, next);
        assert forall|i: int| 1 <= i < parts.len() implies #[trigger] parts[i] == others[i - 1] by {}
        let made = with_parts(chosen, parts);
        if made.all && !chosen.all && !(part is All) {
            let i = choose|i: int| 0 <= i < others.len() && #[trigger] others[i] is All;
            assert(parts[i + 1] is All);
        }
        if made.pretty && !chosen.pretty && !(part is Pretty) {
            let i = choose|i: int| 0 <= i < others.len() && #[trigger] others[i] is Pretty;
            assert(parts[i + 1] is Pretty);
        }
        if exists|i: int| 0 <= i < parts.len() && #[trigger] parts[i] is All {
            let i = choose|i: int| 0 <= i < parts.len() && #[trigger] parts[i] is All;
            if i > 0 {
                assert(others[i - 1] is All);
            }
        }
        if exists|i: int| 0 <= i < parts.len() && #[trigger] parts[i] is Pretty {
            let i = choose|i: int| 0 <= i < parts.len() && #[trigger] parts[i] is Pretty;
            if i > 0 {
                assert(others[i - 1] is Pretty);
            }
        }
        assert forall|i: int|
            0 <= i < parts.len() && part_ecosystem(#[trigger] parts[i]) is Some implies
            made.ecosystem == part_ecosystem(parts[i]) by {
            if i > 0 {
                assert(part_ecosystem(others[i - 1]) is Some);
            } else {
                assert(forall|j: int|
                    0 <= j < others.len() ==> part_ecosystem(#[trigger] others[j]) is None);
            }
        }
        assert forall|i: int|
            0 <= i < parts.len() && part_revision(#[trigger] parts[i]) is Some implies
            made.revision == part_revision(parts[i]) by {
            if i > 0 {
                assert(part_revision(others[i - 1]) is Some);
            } else {
                assert(forall|j: int|
                    0 <= j < others.len() ==> part_revision(#[trigger] others[j]) is None);
            }
        }
        if forall|i: int| 0 <= i < parts.len() ==> part_ecosystem(#[trigger] parts[i]) is None {
            assert(part_ecosystem(parts[0]) is None);
            assert forall|j: int| 0 <= j < others.len() implies part_ecosystem(
                #[trigger] others[j],
            ) is None by {
                assert(others[j] == parts[j + 1]);
            }
        }
        if forall|i: int| 0 <= i < parts.len() ==> part_revision(#[trigger] parts[i]) is None {
            assert(part_revision(parts[0]) is None);
            assert forall|j: int| 0 <= j < others.len() implies part_revision(
                #[trigger] others[j],
            ) is None by {
                assert(others[j] == parts[j + 1]);
            }
        }
    }
}

/// Nothing else is asked for by the words in front of others.
proof fn lemma_asked_behind(parts: Seq<Part>, rest: Seq<Word>, choices: Choices)
    requires
        well_written(parts),
        chosen_by(parts, choices),
        parts.len() == 0 ==> rest.len() == 0 || !rest[0].says("depdep"@),
    ensures
        options::task_of(command_words(parts) + rest) == options::asked(rest, choices),
{
    let chosen = options::no_choices();
    let made = with_parts(chosen, parts);
    let words = command_words(parts) + rest;
    lemma_parts_read(parts, rest, chosen);
    lemma_chosen(parts, chosen);
    if parts.len() > 0 {
        assert(words[0] == command_words(parts)[0]);
    } else {
        assert(words =~= rest);
    }
    if made.ecosystem is Some {
        let i = choose|i: int| 0 <= i < parts.len() && part_ecosystem(#[trigger] parts[i]) is Some;
        assert(made.ecosystem == part_ecosystem(parts[i]));
    } else if choices.ecosystem is Some {
        let i = choose|i: int| 0 <= i < parts.len() && part_ecosystem(#[trigger] parts[i]) is Some;
        assert(made.ecosystem == part_ecosystem(parts[i]));
    }
    if made.revision is Some {
        let i = choose|i: int| 0 <= i < parts.len() && part_revision(#[trigger] parts[i]) is Some;
        assert(made.revision == part_revision(parts[i]));
    } else if choices.revision is Some {
        let i = choose|i: int| 0 <= i < parts.len() && part_revision(#[trigger] parts[i]) is Some;
        assert(made.revision == part_revision(parts[i]));
    }
    assert(made =~= choices);
}

/// A command line asks for the choices that were written to it, in whatever order, and
/// for nothing else.
pub proof fn written_command_lines_read_back(parts: Seq<Part>, choices: Choices)
    requires
        well_written(parts),
        chosen_by(parts, choices),
    ensures
        options::task_of(command_words(parts)) == Ok::<Task, crate::error::Failure>(
            Task::Compare(choices),
        ),
{
    let none = Seq::<Word>::empty();
    lemma_asked_behind(parts, none, choices);
    assert(command_words(parts) + none =~= command_words(parts));
}

/// Help that is asked for behind choices is given, whatever follows.
pub proof fn help_is_given_behind_choices(
    parts: Seq<Part>,
    choices: Choices,
    help: Seq<char>,
    rest: Seq<Word>,
)
    requires
        well_written(parts),
        chosen_by(parts, choices),
        help == "-h"@ || help == "--help"@,
    ensures
        options::task_of(command_words(parts) + (seq![word(help)] + rest)) == Ok::<
            Task,
            crate::error::Failure,
        >(Task::Help),
{
    let words = seq![word(help)] + rest;
    assert(words[0] == word(help));
    assert(help != "depdep"@) by {
        lemma_words();
        reveal_strlit("-h");
        reveal_strlit("--help");
        reveal_strlit("depdep");
        assert("depdep"@[0] == 'd' && "-h"@[0] == '-' && "--help"@[0] == '-');
    }
    lemma_asked_behind(parts, words, choices);
}

/// Any other word behind choices is an error, whatever follows.
pub proof fn other_words_are_refused(
    parts: Seq<Part>,
    choices: Choices,
    other: Word,
    rest: Seq<Word>,
)
    requires
        well_written(parts),
        chosen_by(parts, choices),
        !other.utf8 || (other.text != "-h"@ && other.text != "--help"@ && other.text != "--pretty"@
            && other.text != "--all"@ && other.text != "rust"@ && other.text != "npm"@
            && other.text != "js"@ && other.text != "ts"@ && other.text != "node"@ && other.text
            != "--rev"@ && other.text != "--branch"@ && (other.text != "depdep"@ || parts.len()
            > 0)),
    ensures
        options::task_of(command_words(parts) + (seq![other] + rest)) is Err,
{
    let words = seq![other] + rest;
    assert(words[0] == other);
    lemma_asked_behind(parts, words, choices);
}

/// A second ecosystem is an error, and so is a second revision, and a revision that is
/// missing or no valid UTF-8.
pub proof fn excess_and_missing_words_are_refused(
    parts: Seq<Part>,
    choices: Choices,
    part: Part,
    value: Word,
    rest: Seq<Word>,
)
    requires
        well_written(parts),
        chosen_by(parts, choices),
        is_part(part),
    ensures
        part_ecosystem(part) is Some && choices.ecosystem is Some ==> options::task_of(
            command_words(parts) + (part_words(part) + rest),
        ) is Err,
        part_revision(part) is Some && choices.revision is Some ==> options::task_of(
            command_words(parts) + (part_words(part) + rest),
        ) is Err,
        part_revision(part) is Some ==> options::task_of(
            command_words(parts) + seq![part_words(part)[0]],
        ) is Err,
        part_revision(part) is Some && !value.utf8 ==> options::task_of(
            command_words(parts) + (seq![part_words(part)[0], value] + rest),
        ) is Err,
{
    lemma_words();
    let all = seq![
        "--pretty"@,
        "--all"@,
        "rust"@,
        "npm"@,
        "js"@,
        "ts"@,
        "node"@,
        "--rev"@,
        "--branch"@,
        "-h"@,
        "--help"@,
        "depdep"@,
    ];
    assert(all[0] == "--pretty"@ && all[1] == "--all"@ && all[7] == "--rev"@ && all[8]
        == "--branch"@ && all[9] == "-h"@ && all[10] == "--help"@ && all[11] == "depdep"@);
    assert(all[2] == "rust"@ && all[3] == "npm"@ && all[4] == "js"@ && all[5] == "ts"@ && all[6]
        == "node"@);
    lemma_words_apart();
    let first = part_words(part)[0];
    let full = part_words(part) + rest;
    let short = seq![first];
    let spoilt = seq![first, value] + rest;
    assert(full[0] == first && short[0] == first && spoilt[0] == first);
    assert(spoilt[1] == value);
    lemma_asked_behind(parts, full, choices);
    lemma_asked_behind(parts, short, choices);
    lemma_asked_behind(parts, spoilt, choices);
}

} // verus!
