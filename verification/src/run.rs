//! What a whole run asks for, what it prints, and how it ends.

use vstd::prelude::*;
use vstd::string::*;

use crate::ecosystem;
use crate::ecosystem::Ecosystem;
use crate::error;
use crate::error::{Error, Failure};
use crate::options;
use crate::options::{parse_args, Argument, Command, Task, Word, HELP};
use crate::project;
use crate::project::{select_ecosystems, Level};
use crate::report::{Printed, Report};
use crate::revision;
use crate::revision::{RevisionSearch, SearchState};

verus! {

/// A text on one of the two output streams.
pub enum Output {
    Stdout(String),
    Stderr(String),
}

/// A text on one of the two output streams.
#[verifier::ext_equal]
pub enum Piece {
    Stdout(Seq<char>),
    Stderr(Seq<char>),
}

impl View for Output {
    type V = Piece;

    open spec fn view(&self) -> Piece {
        match *self {
            Output::Stdout(text) => Piece::Stdout(text@),
            Output::Stderr(text) => Piece::Stderr(text@),
        }
    }
}

impl DeepView for Output {
    type V = Piece;

    open spec fn deep_view(&self) -> Piece {
        self@
    }
}

/// What a run printed, in order, and whether it succeeded.
pub struct Ending {
    pub output: Vec<Output>,
    pub success: bool,
}

/// What a run printed, in order, and whether it succeeded.
#[verifier::ext_equal]
pub struct Ended {
    pub output: Seq<Piece>,
    pub success: bool,
}

impl View for Ending {
    type V = Ended;

    open spec fn view(&self) -> Ended {
        Ended { output: self.output.deep_view(), success: self.success }
    }
}

/// All that was printed to the standard output.
pub open spec fn on_stdout(output: Seq<Piece>) -> Seq<char>
    decreases output.len(),
{
    if output.len() == 0 {
        seq![]
    } else {
        match output.last() {
            Piece::Stdout(text) => on_stdout(output.drop_last()) + text,
            Piece::Stderr(text) => on_stdout(output.drop_last()),
        }
    }
}

/// All that was printed to the error stream.
pub open spec fn on_stderr(output: Seq<Piece>) -> Seq<char>
    decreases output.len(),
{
    if output.len() == 0 {
        seq![]
    } else {
        match output.last() {
            Piece::Stdout(text) => on_stderr(output.drop_last()),
            Piece::Stderr(text) => on_stderr(output.drop_last()) + text,
        }
    }
}

/// Prints one more text.
fn print(output: &mut Vec<Output>, text: Output)
    ensures
        final(output).deep_view() == old(output).deep_view().push(text@),
{
    let ghost before = output.deep_view();
    output.push(text);
    assert(output.deep_view() =~= before.push(text@));
}

/// The line that tells a failure.
pub open spec fn error_line(failure: Failure) -> Seq<char> {
    "error: "@ + error::told(failure) + "\n"@
}

/// A run that fails after it printed something.
pub open spec fn failing(output: Seq<Piece>, failure: Failure) -> Ended {
    Ended { output: output.push(Piece::Stderr(error_line(failure))), success: false }
}

/// A run that fails after it printed something.
fn fail_after(output: Vec<Output>, error: &Error) -> (ending: Ending)
    ensures
        ending@ == failing(output.deep_view(), error@),
{
    let mut line = "error: ".to_owned();
    line.append(error.message().as_str());
    line.append("\n");
    let mut output = output;
    print(&mut output, Output::Stderr(line));
    Ending { output, success: false }
}

/// A run that fails before any comparison.
pub fn fail(error: &Error) -> (ending: Ending)
    ensures
        ending@ == failing(seq![], error@),
{
    let output: Vec<Output> = Vec::new();
    assert(output.deep_view() =~= seq![]);
    fail_after(output, error)
}

/// A run that only tells how the command is used.
pub open spec fn helped() -> Ended {
    Ended { output: seq![Piece::Stdout(HELP@ + "\n"@)], success: true }
}

/// A run that only tells how the command is used.
pub fn help() -> (ending: Ending)
    ensures
        ending@ == helped(),
{
    let mut text = HELP.to_owned();
    text.append("\n");
    let mut output: Vec<Output> = Vec::new();
    assert(output.deep_view() =~= seq![]);
    print(&mut output, Output::Stdout(text));
    assert(output.deep_view() =~= helped().output);
    Ending { output, success: true }
}

/// A comparison as contracts speak of it.
pub open spec fn compared(result: Result<Report, Error>) -> Result<Printed, Failure> {
    match result {
        Ok(report) => Ok(report@),
        Err(error) => Err(error@),
    }
}

/// The first comparisons of a run, each under its heading, with the remarks on a table
/// below it. The first failure ends the run.
pub open spec fn sections(
    ecosystems: Seq<Ecosystem>,
    results: Seq<Result<Report, Error>>,
    count: nat,
) -> Ended
    decreases count,
{
    if count == 0 {
        Ended { output: seq![], success: true }
    } else {
        let last = (count - 1) as nat;
        let before = sections(ecosystems, results, last);
        if !before.success {
            before
        } else {
            let headed = before.output.push(
                Piece::Stdout(
                    ecosystem::heading_of(ecosystems[last as int], last, ecosystems.len()),
                ),
            );
            match compared(results[last as int]) {
                Ok(printed) => Ended {
                    output: headed.push(Piece::Stdout(printed.stdout)).push(
                        Piece::Stderr(printed.stderr),
                    ),
                    success: true,
                },
                Err(failure) => failing(headed, failure),
            }
        }
    }
}

/// Nothing is printed behind a failure.
proof fn lemma_failed(
    ecosystems: Seq<Ecosystem>,
    results: Seq<Result<Report, Error>>,
    count: nat,
    more: nat,
)
    requires
        count <= more,
        !sections(ecosystems, results, count).success,
    ensures
        sections(ecosystems, results, more) == sections(ecosystems, results, count),
    decreases more,
{
    if count < more {
        lemma_failed(ecosystems, results, count, (more - 1) as nat);
    }
}

/// How many ecosystems were compared.
pub open spec fn compared_count(
    ecosystems: Seq<Ecosystem>,
    results: Seq<Result<Report, Error>>,
) -> nat {
    if results.len() < ecosystems.len() {
        results.len()
    } else {
        ecosystems.len()
    }
}

/// What the comparisons that were made print.
pub open spec fn concluded(
    ecosystems: Seq<Ecosystem>,
    results: Seq<Result<Report, Error>>,
) -> Ended {
    sections(ecosystems, results, compared_count(ecosystems, results))
}

/// A run that compares ecosystems one after the other. Behind a failure there may be
/// no results.
pub fn conclude(ecosystems: &Vec<Ecosystem>, results: &Vec<Result<Report, Error>>) -> (ending:
    Ending)
    ensures
        ending@ == concluded(ecosystems@, results@),
{
    let count: usize = if results.len() < ecosystems.len() {
        results.len()
    } else {
        ecosystems.len()
    };
    let mut output: Vec<Output> = Vec::new();
    assert(output.deep_view() =~= seq![]);
    for i in 0..count
        invariant
            count == compared_count(ecosystems@, results@),
            sections(ecosystems@, results@, i as nat) == (Ended {
                output: output.deep_view(),
                success: true,
            }),
    {
        print(&mut output, Output::Stdout(ecosystems[i].heading(i, ecosystems.len())));
        match &results[i] {
            Ok(report) => {
                print(&mut output, Output::Stdout(report.stdout.clone()));
                print(&mut output, Output::Stderr(report.stderr.clone()));
            },
            Err(error) => {
                proof {
                    lemma_failed(ecosystems@, results@, (i + 1) as nat, count as nat);
                }
                return fail_after(output, error);
            },
        }
    }
    Ending { output, success: true }
}

/// The manifests of the two ecosystems on the way up from the current directory.
pub struct Manifests {
    pub cargo: Vec<Level>,
    pub npm: Vec<Level>,
}

/// What a run knows so far: the current directory as it is shown, the root of the
/// repository, the search for the revision, where manifests are, and the comparisons
/// that were made.
pub struct Answers {
    pub current_dir: Option<Result<String, String>>,
    pub root: Option<Result<String, Error>>,
    pub search: Option<RevisionSearch>,
    pub manifests: Option<Manifests>,
    pub results: Vec<Result<Report, Error>>,
}

/// What a run needs next.
pub enum Request {
    CurrentDirectory,
    Root,
    Revision(RevisionSearch),
    Manifests,
    Compare { ecosystem: Ecosystem, revision: String, options: options::Options },
    Over(Ending),
}

/// What a run needs next.
#[verifier::ext_equal]
pub enum Wanted {
    CurrentDirectory,
    Root,
    Revision(SearchState),
    Manifests,
    Compare { ecosystem: Ecosystem, revision: Seq<char>, choices: options::Choices },
    Over(Ended),
}

impl View for Request {
    type V = Wanted;

    open spec fn view(&self) -> Wanted {
        match *self {
            Request::CurrentDirectory => Wanted::CurrentDirectory,
            Request::Root => Wanted::Root,
            Request::Revision(search) => Wanted::Revision(search@),
            Request::Manifests => Wanted::Manifests,
            Request::Compare { ecosystem, revision, options } => Wanted::Compare {
                ecosystem,
                revision: revision@,
                choices: options@,
            },
            Request::Over(ending) => Wanted::Over(ending@),
        }
    }
}

/// The comparisons of a run, once the revision and the ecosystems are known.
pub open spec fn wanted_comparison(
    ecosystems: Seq<Ecosystem>,
    results: Seq<Result<Report, Error>>,
    revision: Seq<char>,
    choices: options::Choices,
) -> Wanted {
    let ended = concluded(ecosystems, results);
    if ended.success && results.len() < ecosystems.len() {
        Wanted::Compare { ecosystem: ecosystems[results.len() as int], revision, choices }
    } else {
        Wanted::Over(ended)
    }
}

/// The ecosystems of a run, once the revision is known, and their comparisons.
pub open spec fn wanted_ecosystems(
    answers: Answers,
    choices: options::Choices,
    current_dir: Seq<char>,
    root: Seq<char>,
    revision: Seq<char>,
) -> Wanted {
    match (choices.ecosystem, answers.manifests) {
        (Some(ecosystem), _) => wanted_comparison(
            seq![ecosystem],
            answers.results@,
            revision,
            choices,
        ),
        (None, None) => Wanted::Manifests,
        (None, Some(manifests)) => {
            let found = project::ecosystems_of(None, manifests.cargo@, manifests.npm@);
            if found.len() == 0 {
                Wanted::Over(
                    failing(
                        seq![],
                        project::not_found("Cargo.toml or package.json"@, current_dir, root),
                    ),
                )
            } else {
                wanted_comparison(found, answers.results@, revision, choices)
            }
        },
    }
}

/// How far the search for the revision has come. It begins with the revision that was
/// asked for.
pub open spec fn search_of(answers: Answers, choices: options::Choices) -> SearchState {
    match answers.search {
        Some(search) => search@,
        None => revision::begun(choices.revision),
    }
}

/// A run that compares, from the current directory on.
pub open spec fn wanted_places(answers: Answers, choices: options::Choices) -> Wanted {
    match answers.current_dir {
        None => Wanted::CurrentDirectory,
        Some(Err(source)) => Wanted::Over(
            failing(
                seq![],
                Failure::Io {
                    context: "could not determine the current directory"@,
                    source: source@,
                },
            ),
        ),
        Some(Ok(current_dir)) => match answers.root {
            None => Wanted::Root,
            Some(Err(error)) => Wanted::Over(failing(seq![], error@)),
            Some(Ok(root)) => match search_of(answers, choices) {
                SearchState::Found(revision) => wanted_ecosystems(
                    answers,
                    choices,
                    current_dir@,
                    root@,
                    revision,
                ),
                search => Wanted::Revision(search),
            },
        },
    }
}

/// What a run needs next, given its command line and what it knows.
pub open spec fn wanted(words: Seq<Word>, answers: Answers) -> Wanted {
    match options::task_of(words) {
        Err(failure) => Wanted::Over(failing(seq![], failure)),
        Ok(Task::Help) => Wanted::Over(helped()),
        Ok(Task::Compare(choices)) => wanted_places(answers, choices),
    }
}

/// The comparisons of a run, once the revision and the ecosystems are known.
fn next_comparison(
    ecosystems: &Vec<Ecosystem>,
    results: &Vec<Result<Report, Error>>,
    revision: String,
    options: options::Options,
) -> (request: Request)
    ensures
        request@ == wanted_comparison(ecosystems@, results@, revision@, options@),
{
    let ending = conclude(ecosystems, results);
    if ending.success && results.len() < ecosystems.len() {
        Request::Compare { ecosystem: ecosystems[results.len()], revision, options }
    } else {
        Request::Over(ending)
    }
}

/// The ecosystems of a run, once the revision is known, and their comparisons.
fn next_ecosystem(
    answers: &Answers,
    options: options::Options,
    current_dir: &str,
    root: &str,
    revision: String,
) -> (request: Request)
    ensures
        request@ == wanted_ecosystems(*answers, options@, current_dir@, root@, revision@),
{
    if let Some(ecosystem) = options.ecosystem {
        let ecosystems = vec![ecosystem];
        assert(ecosystems@ =~= seq![ecosystem]);
        return next_comparison(&ecosystems, &answers.results, revision, options);
    }
    match &answers.manifests {
        None => Request::Manifests,
        Some(manifests) => match select_ecosystems(
            None,
            &manifests.cargo,
            &manifests.npm,
            current_dir,
            root,
        ) {
            Err(error) => Request::Over(fail(&error)),
            Ok(ecosystems) => next_comparison(&ecosystems, &answers.results, revision, options),
        },
    }
}

/// What a run needs next, given its command line and what it knows. A run that is over
/// has printed all that it prints.
pub fn run(args: &Vec<Argument>, answers: &Answers) -> (request: Request)
    ensures
        request@ == wanted(options::words_of(args@), *answers),
{
    let options = match parse_args(args) {
        Err(error) => {
            return Request::Over(fail(&error));
        },
        Ok(Command::Help) => {
            return Request::Over(help());
        },
        Ok(Command::Compare(options)) => options,
    };
    let current_dir = match &answers.current_dir {
        None => {
            return Request::CurrentDirectory;
        },
        Some(Err(source)) => {
            return Request::Over(
                fail(
                    &Error::Io {
                        context: "could not determine the current directory".to_owned(),
                        source: source.clone(),
                    },
                ),
            );
        },
        Some(Ok(current_dir)) => current_dir,
    };
    let root = match &answers.root {
        None => {
            return Request::Root;
        },
        Some(Err(error)) => {
            return Request::Over(fail(error));
        },
        Some(Ok(root)) => root,
    };
    let search = match &answers.search {
        Some(search) => search.clone(),
        None => RevisionSearch::begin(&options.revision),
    };
    match search {
        RevisionSearch::Found(revision) => next_ecosystem(
            answers,
            options,
            current_dir.as_str(),
            root.as_str(),
            revision,
        ),
        search => Request::Revision(search),
    }
}

/// A run asks only for what it does not know yet.
pub proof fn runs_ask_what_is_unknown(words: Seq<Word>, answers: Answers)
    ensures
        wanted(words, answers) is CurrentDirectory ==> answers.current_dir is None,
        wanted(words, answers) is Root ==> answers.root is None,
        wanted(words, answers) matches Wanted::Revision(search) ==> !(search is Found),
        wanted(words, answers) is Manifests ==> answers.manifests is None,
        wanted(words, answers) is Compare ==> answers.results@.len() < 2,
{
}

/// The revision that the command line gives is the one to compare with; Git is not
/// asked for another.
pub proof fn given_revisions_are_compared_with(
    words: Seq<Word>,
    answers: Answers,
    choices: options::Choices,
    given: Seq<char>,
)
    requires
        options::task_of(words) == Ok::<Task, Failure>(Task::Compare(choices)),
        choices.revision == Some(given),
        answers.search is None,
    ensures
        !(wanted(words, answers) is Revision),
        wanted(words, answers) matches Wanted::Compare { revision, .. } ==> revision == given,
{
}

/// Where both ecosystems are compared, each has a section of its own, and the remarks
/// on a table stand below it.
pub proof fn both_ecosystems_have_a_section(rust: Report, npm: Report)
    ensures
        ({
            let ended = sections(
                seq![Ecosystem::Rust, Ecosystem::Npm],
                seq![Ok::<Report, Error>(rust), Ok::<Report, Error>(npm)],
                2,
            );
            let rust_heading = "## "@ + "Rust"@ + "\n\n"@;
            let npm_heading = "\n## "@ + "npm"@ + "\n\n"@;
            &&& ended.success
            &&& ended.output == seq![
                Piece::Stdout(rust_heading),
                Piece::Stdout(rust@.stdout),
                Piece::Stderr(rust@.stderr),
                Piece::Stdout(npm_heading),
                Piece::Stdout(npm@.stdout),
                Piece::Stderr(npm@.stderr),
            ]
            &&& on_stdout(ended.output) == rust_heading + rust@.stdout + npm_heading + npm@.stdout
            &&& on_stderr(ended.output) == rust@.stderr + npm@.stderr
        }),
{
    reveal_with_fuel(sections, 3);
    let rust_heading = "## "@ + "Rust"@ + "\n\n"@;
    let npm_heading = "\n## "@ + "npm"@ + "\n\n"@;
    let ended = sections(
        seq![Ecosystem::Rust, Ecosystem::Npm],
        seq![Ok::<Report, Error>(rust), Ok::<Report, Error>(npm)],
        2,
    );
    let first = seq![
        Piece::Stdout(rust_heading),
        Piece::Stdout(rust@.stdout),
        Piece::Stderr(rust@.stderr),
    ];
    lemma_section_streams(seq![], rust_heading, rust@);
    assert(seq![].push(Piece::Stdout(rust_heading)).push(Piece::Stdout(rust@.stdout)).push(
        Piece::Stderr(rust@.stderr),
    ) =~= first);
    lemma_section_streams(first, npm_heading, npm@);
    let none = Seq::<char>::empty();
    assert(none + rust_heading + rust@.stdout =~= rust_heading + rust@.stdout);
    assert(none + rust@.stderr =~= rust@.stderr);
}

/// What one section prints to each stream.
proof fn lemma_section_streams(before: Seq<Piece>, heading: Seq<char>, printed: Printed)
    ensures
        ({
            let output = before.push(Piece::Stdout(heading)).push(
                Piece::Stdout(printed.stdout),
            ).push(Piece::Stderr(printed.stderr));
            &&& on_stdout(output) == on_stdout(before) + heading + printed.stdout
            &&& on_stderr(output) == on_stderr(before) + printed.stderr
        }),
{
    let headed = before.push(Piece::Stdout(heading));
    let shown = headed.push(Piece::Stdout(printed.stdout));
    let output = shown.push(Piece::Stderr(printed.stderr));
    assert(output.drop_last() =~= shown);
    assert(shown.drop_last() =~= headed);
    assert(headed.drop_last() =~= before);
    assert(on_stdout(headed) == on_stdout(before) + heading);
    assert(on_stdout(shown) == on_stdout(headed) + printed.stdout);
    assert(on_stderr(headed) == on_stderr(before));
    assert(on_stderr(shown) == on_stderr(headed));
}

/// A single ecosystem is compared without a heading.
pub proof fn one_ecosystem_has_no_heading(ecosystem: Ecosystem, report: Report)
    ensures
        ({
            let ended = sections(seq![ecosystem], seq![Ok::<Report, Error>(report)], 1);
            &&& ended.success
            &&& on_stdout(ended.output) == report@.stdout
            &&& on_stderr(ended.output) == report@.stderr
        }),
{
    reveal_with_fuel(sections, 2);
    let none = Seq::<char>::empty();
    lemma_section_streams(seq![], none, report@);
    assert(none + none + report@.stdout =~= report@.stdout);
    assert(none + report@.stderr =~= report@.stderr);
}

/// The first failure ends a run: its heading and its message are the last things that
/// are printed, and the later ecosystems are not compared.
pub proof fn first_failures_end_runs(
    ecosystems: Seq<Ecosystem>,
    results: Seq<Result<Report, Error>>,
    at: nat,
    revision: Seq<char>,
    choices: options::Choices,
)
    requires
        at < results.len() <= ecosystems.len(),
        results[at as int] is Err,
        forall|i: int| 0 <= i < at ==> (#[trigger] results[i]) is Ok,
    ensures
        concluded(ecosystems, results) == failing(
            sections(ecosystems, results, at).output.push(
                Piece::Stdout(
                    ecosystem::heading_of(ecosystems[at as int], at, ecosystems.len()),
                ),
            ),
            results[at as int]->Err_0@,
        ),
        wanted_comparison(ecosystems, results, revision, choices) == Wanted::Over(
            concluded(ecosystems, results),
        ),
{
    lemma_successes(ecosystems, results, at);
    lemma_failed(ecosystems, results, at + 1, results.len());
}

proof fn lemma_successes(
    ecosystems: Seq<Ecosystem>,
    results: Seq<Result<Report, Error>>,
    count: nat,
)
    requires
        count <= results.len(),
        forall|i: int| 0 <= i < count ==> (#[trigger] results[i]) is Ok,
    ensures
        sections(ecosystems, results, count).success,
    decreases count,
{
    if count > 0 {
        lemma_successes(ecosystems, results, (count - 1) as nat);
        assert(results[count - 1] is Ok);
    }
}

/// Whether a run knows where it is, and the revision to compare with.
pub open spec fn is_placed(
    answers: Answers,
    choices: options::Choices,
    revision: Seq<char>,
) -> bool {
    &&& answers.current_dir matches Some(Ok(_))
    &&& answers.root matches Some(Ok(_))
    &&& search_of(answers, choices) == SearchState::Found(revision)
}

/// An ecosystem that was asked for is compared with the revision that was found, as it
/// was chosen, and then the run is over with what the comparison printed.
pub proof fn asked_ecosystems_are_compared(
    words: Seq<Word>,
    answers: Answers,
    choices: options::Choices,
    ecosystem: Ecosystem,
    revision: Seq<char>,
)
    requires
        options::task_of(words) == Ok::<Task, Failure>(Task::Compare(choices)),
        choices.ecosystem == Some(ecosystem),
        is_placed(answers, choices, revision),
    ensures
        answers.results@.len() == 0 ==> wanted(words, answers) == (Wanted::Compare {
            ecosystem,
            revision,
            choices,
        }),
        answers.results@.len() == 1 ==> (answers.results@[0] matches Ok(report) ==> (wanted(
            words,
            answers,
        ) matches Wanted::Over(ended) && ended.success && on_stdout(ended.output)
            == report@.stdout && on_stderr(ended.output) == report@.stderr)),
{
    let ecosystems = seq![ecosystem];
    let results = answers.results@;
    reveal_with_fuel(sections, 2);
    if results.len() == 1 {
        if let Ok(report) = results[0] {
            one_ecosystem_has_no_heading(ecosystem, report);
            assert(results =~= seq![Ok::<Report, Error>(report)]);
        }
    }
}

/// Where none was asked for, each ecosystem whose manifest is found is compared with the
/// revision that was found: Rust first, then npm, and with neither the run fails.
pub proof fn found_ecosystems_are_compared(
    words: Seq<Word>,
    answers: Answers,
    choices: options::Choices,
    revision: Seq<char>,
)
    requires
        options::task_of(words) == Ok::<Task, Failure>(Task::Compare(choices)),
        choices.ecosystem is None,
        is_placed(answers, choices, revision),
        answers.manifests is Some,
    ensures
        ({
            let rust = project::nearest(answers.manifests->Some_0.cargo@) is Some;
            let npm = project::nearest(answers.manifests->Some_0.npm@) is Some;
            let results = answers.results@;
            let next = wanted(words, answers);
            &&& rust && results.len() == 0 ==> next == (Wanted::Compare {
                ecosystem: Ecosystem::Rust,
                revision,
                choices,
            })
            &&& rust && npm && results.len() == 1 && results[0] is Ok ==> next == (
            Wanted::Compare { ecosystem: Ecosystem::Npm, revision, choices })
            &&& !rust && npm && results.len() == 0 ==> next == (Wanted::Compare {
                ecosystem: Ecosystem::Npm,
                revision,
                choices,
            })
            &&& !rust && !npm ==> (next matches Wanted::Over(ended) && !ended.success && on_stdout(
                ended.output,
            ) == Seq::<char>::empty())
        }),
{
    reveal_with_fuel(sections, 2);
    reveal_with_fuel(on_stdout, 2);
    let failure = project::not_found(
        "Cargo.toml or package.json"@,
        answers.current_dir->Some_0->Ok_0@,
        answers.root->Some_0->Ok_0@,
    );
    let none = Seq::<Piece>::empty();
    assert(none.push(Piece::Stderr(error_line(failure))).drop_last() =~= none);
}

/// A failure is told on the error stream behind what was printed before, and makes the
/// run unsuccessful. It leaves the standard output as it was.
pub proof fn failures_are_told_on_the_error_stream(output: Seq<Piece>, failure: Failure)
    ensures
        !failing(output, failure).success,
        on_stdout(failing(output, failure).output) == on_stdout(output),
        on_stderr(failing(output, failure).output) == on_stderr(output) + "error: "@
            + error::told(failure) + seq!['\n'],
{
    let more = output.push(Piece::Stderr(error_line(failure)));
    assert(more.drop_last() =~= output);
    reveal_strlit("\n");
    assert("\n"@ =~= seq!['\n']);
    assert(on_stderr(more) =~= on_stderr(output) + "error: "@ + error::told(failure) + seq!['\n']);
}

/// A command line that is not understood ends the run with an error on the error stream,
/// and help ends it with success and the help text on the standard output; neither needs
/// to know anything.
pub proof fn some_command_lines_need_no_answers(words: Seq<Word>, answers: Answers)
    ensures
        options::task_of(words) is Err ==> (wanted(words, answers) matches Wanted::Over(ended)
            && !ended.success && on_stdout(ended.output) == Seq::<char>::empty()),
        options::task_of(words) == Ok::<Task, Failure>(Task::Help) ==> (wanted(
            words,
            answers,
        ) matches Wanted::Over(ended) && ended.success && on_stdout(ended.output) == HELP@
            + seq!['\n'] && on_stderr(ended.output) == Seq::<char>::empty()),
{
    let none = Seq::<Piece>::empty();
    if let Err(failure) = options::task_of(words) {
        failures_are_told_on_the_error_stream(none, failure);
    }
    let helped = helped().output;
    assert(helped.drop_last() =~= none);
    reveal_with_fuel(on_stdout, 2);
    reveal_with_fuel(on_stderr, 2);
    reveal_strlit("\n");
    assert("\n"@ =~= seq!['\n']);
    assert(Seq::<char>::empty() + (HELP@ + "\n"@) =~= HELP@ + seq!['\n']);
}

} // verus!
