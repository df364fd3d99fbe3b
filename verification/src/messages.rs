//! What error messages tell: the line, the name or the place that they are about.

use vstd::prelude::*;

use crate::cargo_lock;
use crate::cargo_manifest;
use crate::error::Failure;
use crate::external;
use crate::json::Json;
use crate::json_grammar;
use crate::json_grammar::Fault;
use crate::npm;
use crate::options;
use crate::project;
use crate::text;
use crate::text_writing;
use crate::toml;
use crate::workspace;

verus! {

/// Whether a message holds a text.
pub open spec fn mentions(message: Seq<char>, part: Seq<char>) -> bool {
    exists|front: Seq<char>, back: Seq<char>| message == #[trigger] (front + part + back)
}

proof fn lemma_mentions(front: Seq<char>, part: Seq<char>, back: Seq<char>)
    ensures
        mentions(front + part + back, part),
{
}

/// A package of a lockfile that lacks its name or its version is reported with the line
/// before which it ends, and with its name where it has one.
pub proof fn incomplete_packages_are_reported(shown: Seq<char>, line_number: nat)
    ensures
        mentions(cargo_lock::nameless(line_number), text::decimal(line_number)),
        mentions(cargo_lock::versionless(shown, line_number), text::decimal(line_number)),
        mentions(cargo_lock::versionless(shown, line_number), shown),
{
    let number = text::decimal(line_number);
    lemma_mentions("package ending before line "@, number, " does not have a name"@);
    let front = "package "@ + shown + " ending before line "@;
    lemma_mentions(front, number, " does not have a version"@);
    let back = " ending before line "@ + number + " does not have a version"@;
    lemma_mentions("package "@, shown, back);
    assert(cargo_lock::versionless(shown, line_number) =~= "package "@ + shown + back);
}

/// A dependency that the workspace does not declare is reported with its alias.
pub proof fn missing_dependencies_are_reported(shown: Seq<char>)
    ensures
        mentions(cargo_manifest::not_inherited(shown), shown),
{
    lemma_mentions("inherited dependency "@, shown, " missing from workspace.dependencies"@);
}

/// Files that are not found are reported with the directories between which they were
/// looked for.
pub proof fn missing_files_are_reported(
    files: Seq<char>,
    current_dir: Seq<char>,
    repository_root: Seq<char>,
)
    ensures
        project::not_found(files, current_dir, repository_root) matches Failure::Usage(message)
            && mentions(message, files) && mentions(message, current_dir) && mentions(
            message,
            repository_root,
        ),
{
    let none = Seq::<char>::empty();
    let message = "could not find "@ + files + " between "@ + current_dir + " and "@
        + repository_root;
    let back = " between "@ + current_dir + " and "@ + repository_root;
    assert(message =~= "could not find "@ + files + back);
    lemma_mentions("could not find "@, files, back);
    let front = "could not find "@ + files + " between "@;
    assert(message =~= front + current_dir + (" and "@ + repository_root));
    lemma_mentions(front, current_dir, " and "@ + repository_root);
    let most = front + current_dir + " and "@;
    assert(message =~= most + repository_root + none);
    lemma_mentions(most, repository_root, none);
}

/// An argument that is not understood is reported as it is shown.
pub proof fn unexpected_arguments_are_reported(shown: Seq<char>)
    ensures
        options::unexpected(shown) matches Failure::Usage(message) && mentions(message, shown),
{
    let none = Seq::<char>::empty();
    let message = "unexpected argument "@ + shown;
    assert(message =~= "unexpected argument "@ + shown + none);
    lemma_mentions("unexpected argument "@, shown, none);
}

/// A fault of a document is reported with its message in front and the byte behind.
pub proof fn faults_are_reported_with_their_byte(fault: Fault)
    ensures
        text::begins(json_grammar::fault_text(fault), fault.message),
        text::ends(json_grammar::fault_text(fault), text::decimal(fault.at)),
{
    let number = text::decimal(fault.at);
    let all = json_grammar::fault_text(fault);
    text_writing::texts_begin_and_end(fault.message, " at byte "@ + number, all);
    text_writing::texts_begin_and_end(fault.message + " at byte "@, number, all);
    assert(all =~= fault.message + (" at byte "@ + number));
}

/// A record that is no object is reported with its path.
pub proof fn misplaced_records_are_reported(path: Seq<char>, value: Json)
    requires
        path.len() > 0,
        !(value is Object),
    ensures
        npm::package_in_record(path, value) matches Err(message) && mentions(
            message,
            external::debug_text(path),
        ),
{
    lemma_mentions(
        "expected package "@,
        external::debug_text(path),
        " to be a JSON object"@,
    );
}

/// Whether an error begins with the number of a line.
pub open spec fn names_line(message: Seq<char>, line_number: nat) -> bool {
    text::begins(
        message,
        seq!['l', 'i', 'n', 'e', ' '] + text::decimal(line_number) + seq![':', ' '],
    )
}

proof fn lemma_names_line(line_number: nat, message: Seq<char>)
    ensures
        names_line(text::line_fault(line_number, message), line_number),
{
    let front = seq!['l', 'i', 'n', 'e', ' '] + text::decimal(line_number) + seq![':', ' '];
    text_writing::faults_name_their_line(line_number, message);
    text_writing::texts_begin_and_end(front, message, seq![]);
}

/// What cannot be read as a string, a key or an array is reported with its line, and on
/// every other line it could not be read either.
pub proof fn misread_values_are_reported_with_their_line(
    value: Seq<char>,
    line_number: nat,
    other: nat,
)
    ensures
        toml::string_of(value, line_number) matches Err(message) ==> names_line(
            message,
            line_number,
        ),
        toml::key_of(value, line_number) matches Err(message) ==> names_line(message, line_number),
        toml::dotted_key(value, line_number) matches Err(message) ==> names_line(
            message,
            line_number,
        ),
        workspace::array_of(value, line_number) matches Err(message) ==> names_line(
            message,
            line_number,
        ),
        toml::string_of(value, line_number) is Ok ==> toml::string_of(value, other)
            == toml::string_of(value, line_number),
        toml::key_of(value, line_number) is Ok ==> toml::key_of(value, other) == toml::key_of(
            value,
            line_number,
        ),
{
    lemma_string_fault(value, line_number);
    lemma_key_fault(value, line_number);
    let parts = crate::scanner::pieces(value, '.', false);
    lemma_keys_fault(parts, line_number);
    lemma_keys_fault(parts.drop_last(), line_number);
    lemma_names_line(line_number, "unterminated quoted key"@);
    lemma_names_line(line_number, "expected workspace array"@);
    lemma_strings_fault(
        workspace::array_items(toml::interior(text::trimmed(value))),
        line_number,
    );
}

proof fn lemma_string_fault(value: Seq<char>, line_number: nat)
    ensures
        toml::string_of(value, line_number) matches Err(message) ==> names_line(
            message,
            line_number,
        ),
{
    lemma_names_line(line_number, "expected a quoted string"@);
    if let Err(message) = toml::unescaped(toml::interior(value), seq![]) {
        lemma_names_line(line_number, message);
    }
}

proof fn lemma_key_fault(value: Seq<char>, line_number: nat)
    ensures
        toml::key_of(value, line_number) matches Err(message) ==> names_line(message, line_number),
{
    lemma_names_line(line_number, "expected a TOML key"@);
    lemma_string_fault(text::trimmed(value), line_number);
}

proof fn lemma_keys_fault(parts: Seq<Seq<char>>, line_number: nat)
    ensures
        toml::keys_of(parts, line_number) matches Err(message) ==> names_line(
            message,
            line_number,
        ),
    decreases parts.len(),
{
    if parts.len() > 0 {
        lemma_keys_fault(parts.drop_last(), line_number);
        lemma_key_fault(parts.last(), line_number);
    }
}

proof fn lemma_strings_fault(items: Seq<Seq<char>>, line_number: nat)
    ensures
        workspace::strings_of(items, line_number) matches Err(message) ==> names_line(
            message,
            line_number,
        ),
    decreases items.len(),
{
    if items.len() > 0 {
        lemma_strings_fault(items.drop_last(), line_number);
        lemma_string_fault(text::trimmed(items.last()), line_number);
    }
}

} // verus!
