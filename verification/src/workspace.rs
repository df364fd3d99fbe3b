//! Reading the workspace that a `Cargo.toml` declares.

use vstd::prelude::*;
use vstd::string::*;

use crate::cargo_manifest;
use crate::cargo_manifest::{cargo_dependencies, CargoDependency, Dependencies};
use crate::collections::TextMap;
use crate::external;
use crate::external::quoted;
use crate::scanner;
use crate::scanner::split_outside;
use crate::text;
use crate::text::{line_error, lines, same_text, trim, trim_end};
use crate::toml;
use crate::toml::{
    parse_toml_key, parse_toml_string, split_toml_key, strip_enclosing, strip_toml_comment,
    toml_assignment,
};

verus! {

/// What a manifest says of its workspace.
pub struct WorkspaceModel {
    pub present: bool,
    pub members: Seq<Seq<char>>,
    pub exclude: Seq<Seq<char>>,
    pub dependencies: Dependencies,
}

/// What a manifest says of its workspace: whether it declares one, the patterns
/// of its members and of those left out, and the dependencies they may inherit.
pub struct Workspace {
    pub present: bool,
    pub members: Vec<String>,
    pub exclude: Vec<String>,
    pub dependencies: TextMap<CargoDependency>,
}

impl View for Workspace {
    type V = WorkspaceModel;

    open spec fn view(&self) -> WorkspaceModel {
        WorkspaceModel {
            present: self.present,
            members: self.members.deep_view(),
            exclude: self.exclude.deep_view(),
            dependencies: self.dependencies@,
        }
    }
}

impl DeepView for Workspace {
    type V = WorkspaceModel;

    open spec fn deep_view(&self) -> WorkspaceModel {
        self@
    }
}

/// The texts that the items of an array stand for, or the first error.
pub open spec fn strings_of(items: Seq<Seq<char>>, line_number: nat) -> Result<
    Seq<Seq<char>>,
    Seq<char>,
>
    decreases items.len(),
{
    if items.len() == 0 {
        Ok(seq![])
    } else {
        match strings_of(items.drop_last(), line_number) {
            Err(e) => Err(e),
            Ok(read) => match toml::string_of(text::trimmed(items.last()), line_number) {
                Err(e) => Err(e),
                Ok(item) => Ok(read.push(item)),
            },
        }
    }
}

/// The items of an array without its brackets. Nothing needs to stand behind the
/// last comma.
pub open spec fn array_items(inner: Seq<char>) -> Seq<Seq<char>> {
    let items = scanner::pieces(inner, ',', false);
    if text::trimmed(items.last()).len() == 0 {
        items.drop_last()
    } else {
        items
    }
}

/// The texts in an array of strings.
pub open spec fn array_of(value: Seq<char>, line_number: nat) -> Result<
    Seq<Seq<char>>,
    Seq<char>,
> {
    let array = text::trimmed(value);
    if toml::enclosed(array, '[', ']') {
        strings_of(array_items(toml::interior(array)), line_number)
    } else {
        Err(text::line_fault(line_number, "expected workspace array"@))
    }
}

/// An error in an item is the error of the whole array.
proof fn lemma_strings_fault(items: Seq<Seq<char>>, count: int, line_number: nat)
    requires
        0 <= count <= items.len(),
        strings_of(items.take(count), line_number) is Err,
    ensures
        strings_of(items, line_number) == strings_of(items.take(count), line_number),
    decreases items.len(),
{
    if count < items.len() {
        assert(items.drop_last().take(count) =~= items.take(count));
        lemma_strings_fault(items.drop_last(), count, line_number);
    } else {
        assert(items.take(count) =~= items);
    }
}

/// The texts in an array of strings.
fn read_array(value: &str, line_number: usize) -> (read: Result<Vec<String>, String>)
    ensures
        text::outcome(read) == array_of(value@, line_number as nat),
{
    let inner = match strip_enclosing(trim(value), '[', ']') {
        Some(inner) => inner,
        None => {
            return Err(line_error(line_number, "expected workspace array"));
        },
    };
    let parts = split_outside(inner, ',', false);
    let ghost all = parts.deep_view();
    let ghost items = array_items(inner@);
    proof {
        toml::lemma_pieces(inner@, ',', false);
        assert(all.last() == parts@[parts.len() - 1]@);
    }
    let mut count: usize = parts.len();
    if trim(parts[count - 1]).is_empty() {
        count -= 1;
    }
    let mut strings: Vec<String> = Vec::new();
    proof {
        assert(strings.deep_view() =~= seq![]);
        assert(items.take(0) =~= seq![]);
    }
    for i in 0..count
        invariant
            all == parts.deep_view(),
            items == array_items(inner@),
            array_of(value@, line_number as nat) == strings_of(items, line_number as nat),
            count == items.len(),
            forall|j: int| 0 <= j < count ==> #[trigger] items[j] == all[j],
            count <= parts.len(),
            strings_of(items.take(i as int), line_number as nat) == Ok::<Seq<Seq<char>>, Seq<char>>(
                strings.deep_view(),
            ),
    {
        let ghost before = strings.deep_view();
        proof {
            assert(items.take(i + 1).drop_last() =~= items.take(i as int));
            assert(items.take(i + 1).last() == items[i as int]);
            assert(all[i as int] == parts@[i as int]@);
        }
        match parse_toml_string(trim(parts[i]), line_number) {
            Ok(item) => {
                strings.push(item);
                assert(strings.deep_view() =~= before.push(item@));
            },
            Err(error) => {
                proof {
                    lemma_strings_fault(items, i + 1, line_number as nat);
                }
                return Err(error);
            },
        }
    }
    assert(items.take(count as int) =~= items);
    Ok(strings)
}

/// The header under which the dependencies of a workspace, or one of them, can be
/// read like those of a package.
pub open spec fn table_header(shown_alias: Option<Seq<char>>) -> Seq<char> {
    match shown_alias {
        Some(shown) => "[dependencies"@ + "."@ + shown + "]\n"@,
        None => "[dependencies"@ + "]\n"@,
    }
}

/// The header under which the dependencies of a workspace, or one of them, can be
/// read like those of a package.
pub fn dependency_table_header(shown_alias: Option<&str>) -> (header: String)
    ensures
        header@ == table_header(shown_alias.deep_view()),
{
    let mut header = "[dependencies".to_owned();
    if let Some(shown) = shown_alias {
        header.append(".");
        header.append(shown);
    }
    header.append("]\n");
    header
}

/// What the lines of a manifest say so far: of the workspace, the table they are
/// in, an assignment that has not ended yet, and the declared dependencies as
/// they would stand in the manifest of a package.
pub struct WorkspaceState {
    pub present: bool,
    pub members: Seq<Seq<char>>,
    pub exclude: Seq<Seq<char>>,
    pub section: Seq<Seq<char>>,
    pub pending: Seq<char>,
    pub declarations: Seq<char>,
}

/// Whether a table holds dependencies of the workspace.
pub open spec fn declares(section: Seq<Seq<char>>) -> bool {
    section.len() >= 2 && section[0] == "workspace"@ && section[1] == "dependencies"@
}

/// What a header of a table says.
pub open spec fn header_line(state: WorkspaceState, line: Seq<char>, line_number: nat) -> Result<
    WorkspaceState,
    Seq<char>,
> {
    match toml::dotted_key(toml::interior(line), line_number) {
        Err(e) => Err(e),
        Ok(section) => Ok(
            WorkspaceState {
                present: state.present || section[0] == "workspace"@,
                declarations: if declares(section) {
                    state.declarations + table_header(
                        if section.len() > 2 {
                            Some(external::debug_text(section[2]))
                        } else {
                            None
                        },
                    )
                } else {
                    state.declarations
                },
                section,
                ..state
            },
        ),
    }
}

/// What an assignment in the table of the workspace says, with the part of it that
/// is pending. An array may go on over several lines.
pub open spec fn assignment_line(
    state: WorkspaceState,
    line: Seq<char>,
    line_number: nat,
) -> Result<WorkspaceState, Seq<char>> {
    let pending = state.pending + line;
    match toml::assignment_of(pending) {
        None => Ok(WorkspaceState { pending: seq![], ..state }),
        Some((key, value)) => match toml::key_of(key, line_number) {
            Err(e) => Err(e),
            Ok(name) => if name != "members"@ && name != "exclude"@ {
                Ok(WorkspaceState { pending: seq![], ..state })
            } else if !text::ends(text::trimmed_end(value), seq![']']) {
                Ok(WorkspaceState { pending, ..state })
            } else {
                match array_of(value, line_number) {
                    Err(e) => Err(e),
                    Ok(strings) => if name == "members"@ {
                        Ok(WorkspaceState { members: strings, pending: seq![], ..state })
                    } else {
                        Ok(WorkspaceState { exclude: strings, pending: seq![], ..state })
                    },
                }
            },
        },
    }
}

/// What one line of a manifest says of the workspace.
pub open spec fn workspace_line(
    state: WorkspaceState,
    line: Seq<char>,
    line_number: nat,
) -> Result<WorkspaceState, Seq<char>> {
    let line = text::trimmed(toml::without_comment(line));
    if state.pending.len() == 0 && cargo_manifest::is_header(line) {
        header_line(state, line, line_number)
    } else if declares(state.section) {
        Ok(WorkspaceState { declarations: state.declarations + line + "\n"@, ..state })
    } else if state.section == seq!["workspace"@] {
        assignment_line(state, line, line_number)
    } else {
        Ok(state)
    }
}

/// Before the first line.
pub open spec fn workspace_start() -> WorkspaceState {
    WorkspaceState {
        present: false,
        members: seq![],
        exclude: seq![],
        section: seq![],
        pending: seq![],
        declarations: seq![],
    }
}

/// What each line of a manifest adds.
pub open spec fn workspace_step() -> spec_fn(WorkspaceState, Seq<char>, nat) -> Result<
    WorkspaceState,
    Seq<char>,
> {
    |state: WorkspaceState, line: Seq<char>, line_number: nat|
        workspace_line(state, line, line_number)
}

/// The workspace that a manifest declares.
pub open spec fn workspace_of(contents: Seq<char>) -> Result<WorkspaceModel, Seq<char>> {
    match text::read_lines(text::lines_of(contents), workspace_start(), workspace_step()) {
        Err(e) => Err(e),
        Ok(state) => if state.pending.len() > 0 {
            Err("unterminated workspace array"@)
        } else {
            match cargo_manifest::declared_dependencies(state.declarations) {
                Err(e) => Err(e),
                Ok(dependencies) => Ok(
                    WorkspaceModel {
                        present: state.present,
                        members: state.members,
                        exclude: state.exclude,
                        dependencies,
                    },
                ),
            }
        },
    }
}

/// Tells whether a table holds dependencies of the workspace.
fn holds_declarations(section: &Vec<String>) -> (found: bool)
    ensures
        found == declares(section.deep_view()),
{
    let ghost names = section.deep_view();
    if section.len() < 2 {
        return false;
    }
    assert(names[0] == section@[0]@);
    assert(names[1] == section@[1]@);
    same_text(section[0].as_str(), "workspace") && same_text(section[1].as_str(), "dependencies")
}

/// The workspace that a manifest declares.
pub fn parse_workspace(contents: &str) -> (read: Result<Workspace, String>)
    ensures
        text::outcome(read) == workspace_of(contents@),
{
    let mut present = false;
    let mut members: Vec<String> = Vec::new();
    let mut exclude: Vec<String> = Vec::new();
    let mut section: Vec<String> = Vec::new();
    let mut pending = String::new();
    let mut declarations = String::new();
    let all = lines(contents);
    let ghost listing = all.deep_view();
    let ghost mut state = workspace_start();
    proof {
        assert(listing.take(0) =~= seq![]);
        assert(members.deep_view() =~= seq![]);
        assert(exclude.deep_view() =~= seq![]);
        assert(section.deep_view() =~= seq![]);
    }
    for index in 0..all.len()
        invariant
            listing == all.deep_view(),
            listing == text::lines_of(contents@),
            text::read_lines(listing.take(index as int), workspace_start(), workspace_step())
                == Ok::<WorkspaceState, Seq<char>>(state),
            state == (WorkspaceState {
                present,
                members: members.deep_view(),
                exclude: exclude.deep_view(),
                section: section.deep_view(),
                pending: pending@,
                declarations: declarations@,
            }),
    {
        let line_number: usize = index + 1;
        let ghost before = state;
        let ghost after = workspace_line(state, listing[index as int], line_number as nat);
        proof {
            text::lemma_read_line(listing, index as int, workspace_start(), workspace_step());
            assert(listing[index as int] == all@[index as int]@);
            if after is Err {
                text::lemma_read_fault(listing, index + 1, workspace_start(), workspace_step());
            }
        }
        let line = trim(strip_toml_comment(all[index].as_str()));
        let inner = strip_enclosing(line, '[', ']');
        if pending.as_str().is_empty() && inner.is_some() {
            section = match split_toml_key(inner.unwrap(), line_number) {
                Ok(section) => section,
                Err(error) => {
                    return Err(error);
                },
            };
            let ghost names = section.deep_view();
            assert(names[0] == section@[0]@);
            if same_text(section[0].as_str(), "workspace") {
                present = true;
            }
            if holds_declarations(&section) {
                if section.len() > 2 {
                    assert(names[2] == section@[2]@);
                    let shown = quoted(section[2].as_str());
                    declarations.append(dependency_table_header(Some(shown.as_str())).as_str());
                } else {
                    declarations.append(dependency_table_header(None).as_str());
                }
            }
        } else if holds_declarations(&section) {
            declarations.append(line);
            declarations.append("\n");
        } else if section.len() == 1 && same_text(section[0].as_str(), "workspace") {
            assert(section.deep_view() =~= seq!["workspace"@]);
            pending.append(line);
            let ghost joined = pending@;
            let mut ended = true;
            if let Some((key, value)) = toml_assignment(pending.as_str()) {
                let key = match parse_toml_key(key, line_number) {
                    Ok(key) => key,
                    Err(error) => {
                        return Err(error);
                    },
                };
                let is_members = same_text(key.as_str(), "members");
                if is_members || same_text(key.as_str(), "exclude") {
                    if text::ends_with(trim_end(value), "]") {
                        proof {
                            reveal_strlit("]");
                            assert("]"@ =~= seq![']']);
                        }
                        let strings = match read_array(value, line_number) {
                            Ok(strings) => strings,
                            Err(error) => {
                                return Err(error);
                            },
                        };
                        if is_members {
                            members = strings;
                        } else {
                            exclude = strings;
                        }
                    } else {
                        proof {
                            reveal_strlit("]");
                            assert("]"@ =~= seq![']']);
                        }
                        ended = false;
                    }
                }
            }
            if ended {
                pending = String::new();
            }
        } else {
            proof {
                if section.deep_view() == seq!["workspace"@] {
                    assert(section@[0]@ == section.deep_view()[0]);
                }
            }
        }
        proof {
            state = after->Ok_0;
        }
    }
    assert(listing.take(all.len() as int) =~= listing);
    if !pending.as_str().is_empty() {
        return Err("unterminated workspace array".to_owned());
    }
    match cargo_dependencies(declarations.as_str()) {
        Ok(dependencies) => Ok(Workspace { present, members, exclude, dependencies }),
        Err(error) => Err(error),
    }
}

} // verus!
