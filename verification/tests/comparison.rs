use std::collections::{BTreeMap, BTreeSet};

use depdep::collections::TextSet;
use depdep::compare::{compare_project, Comparison, ProjectPaths};
use depdep::ecosystem::Ecosystem;
use depdep::error::Error;
use depdep::git::{directories_at_revision, file_at_revision, tree_name, GitOutput};
use depdep::glob::glob_matches;
use depdep::members::{direct_dependencies, file_label};
use depdep::options::{parse_args, Argument, Command, Options, HELP};
use depdep::path::{PathSet, RepoPath};
use depdep::project::{find_project, select_ecosystems, Level};
use depdep::report::Report;
use depdep::revision::RevisionSearch;
use depdep::run::{conclude, fail, help, run, Answers, Ending, Manifests, Output, Request};
use depdep::source::{ManifestSource, Need, Progress};
use depdep::working_tree::{working_directories, working_file, Entry};

/// The files of one side, by path.
struct Side {
    revision: Option<String>,
    files: BTreeMap<String, String>,
}

impl Side {
    fn new(revision: Option<&str>, files: &[(&str, &str)]) -> Side {
        Side {
            revision: revision.map(str::to_string),
            files: files
                .iter()
                .map(|(path, contents)| (path.to_string(), contents.to_string()))
                .collect(),
        }
    }

    fn directories(&self, path: &RepoPath) -> BTreeSet<String> {
        let mut prefix = path.text();
        if !prefix.is_empty() {
            prefix.push('/');
        }
        self.files
            .keys()
            .filter_map(|file| file.strip_prefix(&prefix))
            .filter_map(|rest| rest.split_once('/'))
            .map(|(name, _)| name.to_string())
            .collect()
    }

    fn answer(&self, source: &mut ManifestSource, need: &Need) {
        match need {
            Need::File(path) => {
                assert!(source.read(path).is_none());
                let found = self.files.get(&path.text()).cloned();
                let contents = match &self.revision {
                    Some(revision) => {
                        let output = GitOutput {
                            success: found.is_some(),
                            stdout: found.unwrap_or_default().into_bytes(),
                            stderr: b"fatal: no such path\n".to_vec(),
                        };
                        file_at_revision(revision, path, Ok(output))
                    }
                    None => working_file(
                        &format!("/repo/{}", path.text()),
                        found.ok_or("not found".to_string()),
                    ),
                };
                source.learn_file(path, contents);
            }
            Need::Directories(path) => {
                assert!(source.directories(path).is_none());
                let names = self.directories(path);
                let listing = match &self.revision {
                    Some(_) => {
                        let stdout: String = names.iter().map(|name| format!("{name}\0")).collect();
                        directories_at_revision(Ok(GitOutput {
                            success: true,
                            stdout: stdout.into_bytes(),
                            stderr: Vec::new(),
                        }))
                    }
                    None => working_directories(
                        &path.text(),
                        Ok(names
                            .into_iter()
                            .map(|name| Entry::Directory(Some(name)))
                            .chain([Entry::Other])
                            .collect()),
                    ),
                };
                source.learn_directories(path, listing);
            }
        }
    }

    fn source(&self) -> ManifestSource {
        ManifestSource::new(self.revision.clone())
    }

    fn direct(&self, ecosystem: Ecosystem, manifest: &str) -> Result<BTreeSet<String>, String> {
        let contents = &self.files[manifest];
        let mut source = self.source();
        loop {
            match direct_dependencies(ecosystem, &source, &path(manifest), contents) {
                Progress::Done(direct) => return Ok(texts(&direct)),
                Progress::Failed(error) => return Err(error.message()),
                Progress::Ask(need) => self.answer(&mut source, &need),
            }
        }
    }
}

fn path(text: &str) -> RepoPath {
    RepoPath {
        names: text
            .split('/')
            .filter(|name| !name.is_empty())
            .map(str::to_string)
            .collect(),
    }
}

fn texts(set: &TextSet) -> BTreeSet<String> {
    (0..set.len()).map(|i| set.at(i).clone()).collect()
}

fn compare(
    ecosystem: Ecosystem,
    old: &Side,
    new: &Side,
    names: (&str, &str),
    all: bool,
    pretty: bool,
) -> Result<Report, Error> {
    let paths = ProjectPaths {
        manifest: path(names.0),
        lockfile: path(names.1),
        lockfile_shown: format!("/repo/{}", names.1),
    };
    let options = Options {
        ecosystem: None,
        revision: None,
        all,
        pretty,
    };
    let mut old_source = old.source();
    let mut new_source = new.source();
    loop {
        match compare_project(ecosystem, &old_source, &new_source, &paths, &options) {
            Comparison::Done(report) => return Ok(report),
            Comparison::Failed(error) => return Err(error),
            Comparison::AskOld(need) => old.answer(&mut old_source, &need),
            Comparison::AskNew(need) => new.answer(&mut new_source, &need),
        }
    }
}

const CARGO: (&str, &str) = ("Cargo.toml", "Cargo.lock");
const NPM: (&str, &str) = ("package.json", "package-lock.json");

fn lockfile(packages: &[(&str, &str)]) -> String {
    let mut contents =
        String::from("# This file is automatically @generated by Cargo.\nversion = 4\n");
    for (name, version) in packages {
        contents.push_str(&format!(
            "\n[[package]]\nname = \"{name}\"\nversion = \"{version}\"\n"
        ));
    }
    contents
}

fn manifest(dependencies: &[&str]) -> String {
    let mut contents =
        String::from("[package]\nname = \"test\"\nversion = \"0.0.0\"\n\n[dependencies]\n");
    for dependency in dependencies {
        contents.push_str(&format!("{dependency} = \"*\"\n"));
    }
    contents
}

#[test]
fn workspace_globs_respect_path_boundaries() {
    assert!(glob_matches("crates/*", "crates/foo"));
    assert!(!glob_matches("crates/*", "crates/foo/bar"));
    assert!(glob_matches("crate-[a-c]?", "crate-b1"));
    assert!(!glob_matches("crate-[!a-c]?", "crate-b1"));
}

#[test]
fn patterns_match_names() {
    assert!(glob_matches("a*b*c", "abbbc"));
    assert!(!glob_matches("a*b", "a/b"));
    assert!(!glob_matches("?", "/"));
    assert!(!glob_matches("[!a]", "/"));
    assert!(glob_matches("[a-]", "-"));
    assert!(glob_matches("[x-]", "x"));
    assert!(!glob_matches("[a", "[a"));
    assert!(!glob_matches("[]", "]"));
    assert!(glob_matches("[!]", "z"));
    assert!(glob_matches("a/[!/]", "a/x"));
    assert!(!glob_matches("a[/]b", "a/b"));
    assert!(!glob_matches("*/*", "a"));
    assert!(glob_matches("plain", "plain"));
    assert!(!glob_matches("plain", "plainer"));
    assert!(glob_matches("", ""));
    assert!(!glob_matches("?", ""));
}

#[test]
fn workspace_dependencies_follow_members_on_each_side() {
    let manifest = r#"
[workspace]
members = [
    "crates/*", # Includes both tracked and new members.
]
exclude = ["crates/excluded"]
[workspace.dependencies]
sdk = { package = "matrix-sdk", version = "*" }
unused = "*"
[workspace.dependencies.ruma_alias]
package = "ruma"
version = "*"
[dependencies]
root_only = "*"
"#;
    let member = "[dependencies]\nsdk = { workspace = true }\n[dev-dependencies.ruma_alias]\nworkspace = true\n[build-dependencies]\nadded = \"*\"\n";
    let old = Side::new(
        Some("tree"),
        &[
            ("Cargo.toml", manifest),
            (
                "crates/old/Cargo.toml",
                "[dependencies]\nsdk.workspace = true\nremoved = \"*\"\n",
            ),
            ("crates/excluded/Cargo.toml", "[dependencies]\nhidden = \"*\"\n"),
        ],
    );
    let new = Side::new(
        None,
        &[
            ("Cargo.toml", manifest),
            ("crates/new/Cargo.toml", member),
            ("crates/excluded/Cargo.toml", "[dependencies]\nhidden = \"*\"\n"),
        ],
    );
    assert_eq!(
        old.direct(Ecosystem::Rust, "Cargo.toml").unwrap(),
        BTreeSet::from(["matrix-sdk".into(), "removed".into(), "root_only".into()])
    );
    assert_eq!(
        new.direct(Ecosystem::Rust, "Cargo.toml").unwrap(),
        BTreeSet::from([
            "matrix-sdk".into(),
            "ruma".into(),
            "added".into(),
            "root_only".into()
        ])
    );
    assert_eq!(
        new.direct(Ecosystem::Rust, "crates/new/Cargo.toml").unwrap(),
        BTreeSet::from(["matrix-sdk".into(), "ruma".into(), "added".into()])
    );
}

#[test]
fn packages_without_a_workspace_stand_alone() {
    let alone = Side::new(
        None,
        &[
            ("a/b/Cargo.toml", "[dependencies]\nx = { package = \"y\" }\n"),
            ("Cargo.toml", "[package]\nname = \"no-workspace\"\n"),
        ],
    );
    assert_eq!(
        alone.direct(Ecosystem::Rust, "a/b/Cargo.toml").unwrap(),
        BTreeSet::from(["y".into()])
    );
    let broken = Side::new(
        Some("v1"),
        &[
            ("a/b/Cargo.toml", "[dependencies]\nx.workspace = true\n"),
            ("Cargo.toml", "[workspace]\nmembers = [\n"),
        ],
    );
    assert_eq!(
        broken.direct(Ecosystem::Rust, "a/b/Cargo.toml").unwrap_err(),
        "could not parse v1:a/b/Cargo.toml: unterminated workspace array"
    );
}

#[test]
fn failures_of_members_are_told() {
    let side = |members: &str, member: Option<&str>| {
        let root = format!("[workspace]\nmembers = [{members}]\n");
        let mut files = vec![("Cargo.toml", root.as_str())];
        if let Some(member) = member {
            files.push(("m/Cargo.toml", member));
        }
        Side::new(None, &files).direct(Ecosystem::Rust, "Cargo.toml")
    };
    assert_eq!(
        side("\"../x\"", None).unwrap_err(),
        "workspace member is outside the repository"
    );
    assert_eq!(
        side("\"m\"", None).unwrap_err(),
        "could not read /repo/m/Cargo.toml: not found"
    );
    assert_eq!(
        side("\"m\"", Some("[dependencies]\na.package = 1\n")).unwrap_err(),
        "could not parse m/Cargo.toml: line 2: expected a quoted string"
    );
    assert_eq!(
        side("\"./m/../m/\"", Some("[dependencies]\na = 1\n")).unwrap(),
        BTreeSet::from(["a".into()])
    );
    assert_eq!(side("\"*\"", Some("[dependencies]\na = 1\n")).unwrap().len(), 1);
    assert_eq!(side("\"n*\"", Some("[dependencies]\na = 1\n")).unwrap().len(), 0);
}

#[test]
fn exclusions_are_relative_to_the_workspace() {
    let root = "[workspace]\nmembers = [\"crates/*\", \"../other\"]\nexclude = [\"crates/a//\", \"other\"]\n";
    let side = Side::new(
        None,
        &[
            ("w/Cargo.toml", root),
            ("w/crates/a/Cargo.toml", "[dependencies]\nleft-out = 1\n"),
            ("w/crates/b/Cargo.toml", "[dependencies]\nkept = 1\n"),
            ("other/Cargo.toml", "[dependencies]\nleft-out-too = 1\n"),
        ],
    );
    assert_eq!(
        side.direct(Ecosystem::Rust, "w/Cargo.toml").unwrap(),
        BTreeSet::from(["kept".into()])
    );
}

#[test]
fn compares_the_working_lockfile_with_a_git_revision() {
    let old = Side::new(
        Some("HEAD"),
        &[
            (
                "Cargo.lock",
                &lockfile(&[
                    ("foo", "1.0.0"),
                    ("foo", "2.0.0"),
                    ("removed", "4.0.0"),
                    ("unchanged", "1.2.3"),
                ]),
            ),
            ("Cargo.toml", &manifest(&["foo", "removed", "unchanged"])),
        ],
    );
    let new = Side::new(
        None,
        &[
            (
                "Cargo.lock",
                &lockfile(&[
                    ("added", "0.1.0"),
                    ("foo", "2.0.0"),
                    ("foo", "3.0.0"),
                    ("unchanged", "1.2.3"),
                ]),
            ),
            ("Cargo.toml", &manifest(&["added", "foo", "unchanged"])),
        ],
    );
    let report = compare(Ecosystem::Rust, &old, &new, CARGO, false, false).ok().unwrap();
    assert_eq!(
        report.stdout,
        "| crate | old | new |\n\
         | --- | --- | --- |\n\
         | added |  | 0.1.0 |\n\
         | foo | 1.0.0, 2.0.0 | 2.0.0, 3.0.0 |\n\
         | removed | 4.0.0 |  |\n"
    );
    let pretty = compare(Ecosystem::Rust, &old, &new, CARGO, false, true).ok().unwrap();
    assert_eq!(
        pretty.stdout,
        "| crate   |          old |          new |\n\
         | :------ | -----------: | -----------: |\n\
         | added   |              |        0.1.0 |\n\
         | foo     | 1.0.0, 2.0.0 | 2.0.0, 3.0.0 |\n\
         | removed |        4.0.0 |              |\n"
    );
}

#[test]
fn detects_ecosystems_and_allows_explicit_overrides() {
    let side = |revision: Option<&str>, version: &str| {
        Side::new(
            revision,
            &[
                ("Cargo.toml", &manifest(&["foo"])),
                ("Cargo.lock", &lockfile(&[("foo", version)])),
                ("package.json", r#"{"dependencies":{"bar":"*"}}"#),
                (
                    "package-lock.json",
                    &format!(
                        r#"{{"lockfileVersion":3,"packages":{{"node_modules/bar":{{"version":"{version}"}}}}}}"#
                    ),
                ),
            ],
        )
    };
    let old = side(Some("tree"), "1.0.0");
    let new = side(None, "2.0.0");
    let rust = compare(Ecosystem::Rust, &old, &new, CARGO, false, false).ok().unwrap().stdout;
    let npm = compare(Ecosystem::Npm, &old, &new, NPM, false, false).ok().unwrap().stdout;
    assert!(rust.contains("| foo | 1.0.0 | 2.0.0 |"));
    assert!(npm.contains("| bar | 1.0.0 | 2.0.0 |"));

    // The files stand at the root, one level above the current directory.
    let levels = |present: bool| {
        vec![
            Level { is_root: false, present: false },
            Level { is_root: true, present },
            Level { is_root: false, present: true },
        ]
    };
    let select = |asked: Option<Ecosystem>, cargo: bool, npm: bool| {
        select_ecosystems(asked, &levels(cargo), &levels(npm), "/r/nested", "/r")
            .map_err(|error| error.message())
    };
    let both = select(None, true, true).unwrap();
    let results = vec![
        compare(Ecosystem::Rust, &old, &new, CARGO, false, false),
        compare(Ecosystem::Npm, &old, &new, NPM, false, false),
    ];
    let ending = conclude(&both, &results);
    assert!(ending.success);
    assert_eq!(stdout(&ending), format!("## Rust\n\n{rust}\n## npm\n\n{npm}"));
    for alias in ["js", "ts", "node"] {
        let words = vec![Argument { text: alias.to_string(), utf8: true }];
        let Ok(Command::Compare(options)) = parse_args(&words) else {
            panic!("no comparison");
        };
        let selected = select(options.ecosystem, true, true).unwrap();
        assert_eq!(selected, [Ecosystem::Npm]);
        let results = vec![compare(selected[0], &old, &new, NPM, options.all, options.pretty)];
        assert_eq!(stdout(&conclude(&selected, &results)), npm);
    }
    assert_eq!(select(None, false, true).unwrap(), [Ecosystem::Npm]);
    assert_eq!(select(None, true, false).unwrap(), [Ecosystem::Rust]);
    assert_eq!(select(Some(Ecosystem::Npm), true, false).unwrap(), [Ecosystem::Npm]);
    assert_eq!(Ecosystem::Npm.heading(0, 1), "");
    assert_eq!(
        select(None, false, false).unwrap_err(),
        "could not find Cargo.toml or package.json between /r/nested and /r"
    );
    let project = |manifest: bool, lockfile: bool| {
        find_project(Ecosystem::Rust, &levels(manifest), &levels(lockfile), "/r/nested", "/r")
    };
    let found = project(true, true).ok().unwrap();
    assert_eq!((found.manifest, found.lockfile), (1, 1));
    for (manifest, lockfile) in [(true, false), (false, true), (false, false)] {
        assert_eq!(
            project(manifest, lockfile).err().unwrap().message(),
            "could not find Cargo.toml and Cargo.lock between /r/nested and /r"
        );
    }
}

#[test]
fn failures_of_a_comparison_are_told_in_order() {
    let good_lock = lockfile(&[("a", "1")]);
    let good_manifest = manifest(&["a"]);
    let full: [(&str, &str); 2] = [("Cargo.lock", &good_lock), ("Cargo.toml", &good_manifest)];
    let failure = |old: &[(&str, &str)], new: &[(&str, &str)]| {
        compare(
            Ecosystem::Rust,
            &Side::new(Some("rev"), old),
            &Side::new(None, new),
            CARGO,
            false,
            false,
        )
        .err()
        .unwrap()
        .message()
    };
    assert_eq!(failure(&[], &[]), "could not read rev:Cargo.lock: fatal: no such path");
    assert_eq!(failure(&full[..1], &[]), "could not read /repo/Cargo.lock: not found");
    assert_eq!(
        failure(&full[..1], &full[..1]),
        "could not read rev:Cargo.toml: fatal: no such path"
    );
    assert_eq!(failure(&full, &full[..1]), "could not read /repo/Cargo.toml: not found");
    let broken_lock = [("Cargo.lock", "[[package]]\n"), ("Cargo.toml", good_manifest.as_str())];
    assert_eq!(
        failure(&broken_lock, &broken_lock),
        "could not parse rev:Cargo.lock: package ending before line 2 does not have a name"
    );
    assert_eq!(
        failure(&full, &broken_lock),
        "could not parse /repo/Cargo.lock: package ending before line 2 does not have a name"
    );
    let broken_manifest = [("Cargo.lock", good_lock.as_str()), ("Cargo.toml", "[]\n")];
    assert_eq!(
        failure(&broken_manifest, &broken_manifest),
        "could not parse rev:Cargo.toml: line 1: expected a TOML key"
    );
    assert_eq!(
        failure(&full, &broken_manifest),
        "could not parse Cargo.toml: line 1: expected a TOML key"
    );
}

#[test]
fn equal_lockfiles_report_no_changes() {
    let contents = lockfile(&[("a", "1")]);
    let old_manifest = manifest(&["a"]);
    let new_manifest = manifest(&["b"]);
    let old = Side::new(Some("rev"), &[("Cargo.lock", &contents), ("Cargo.toml", &old_manifest)]);
    let new = Side::new(None, &[("Cargo.lock", &contents), ("Cargo.toml", &new_manifest)]);
    let report = compare(Ecosystem::Rust, &old, &new, CARGO, true, true).ok().unwrap();
    assert_eq!((report.stdout.as_str(), report.stderr.as_str()), ("", "no changes\n"));
}

#[test]
fn paths_are_taken_name_by_name() {
    let deep = path("a/b/c");
    assert_eq!(deep.text(), "a/b/c");
    assert_eq!(deep.parent().unwrap().text(), "a/b");
    assert!(path("").parent().is_none());
    assert_eq!(path("").child("x").text(), "x");
    assert_eq!(deep.child("d").text(), "a/b/c/d");
    assert_eq!(deep.from_base(&path("a")).text(), "b/c");
    assert_eq!(deep.from_base(&path("x")).text(), "a/b/c");
    assert_eq!(deep.from_base(&deep).text(), "");
    let mut set = PathSet::new();
    for text in ["b", "a-b", "a/c", "b", "a"] {
        set.insert(path(text));
    }
    let listed: Vec<String> = (0..set.len()).map(|i| set.at(i).text()).collect();
    assert_eq!(listed, ["a", "a/c", "a-b", "b"]);
}

#[test]
fn files_are_labelled_with_their_revision() {
    let file = path("a/Cargo.toml");
    assert_eq!(file_label(&Some("v1".to_string()), &file), "v1:a/Cargo.toml");
    assert_eq!(file_label(&None, &file), "a/Cargo.toml");
    assert_eq!(tree_name("v1", &path("")), "v1");
    assert_eq!(tree_name("v1", &path("a/b")), "v1:a/b");
}

#[test]
fn npm_needs_no_workspace() {
    let side = Side::new(Some("v1"), &[("package.json", "{\"dependencies\": {\"a\": 1}}")]);
    assert_eq!(
        side.direct(Ecosystem::Npm, "package.json").unwrap(),
        BTreeSet::from(["a".into()])
    );
    let broken = Side::new(Some("v1"), &[("package.json", "[]")]);
    assert_eq!(
        broken.direct(Ecosystem::Npm, "package.json").unwrap_err(),
        "could not parse v1:package.json: expected the manifest to contain a JSON object"
    );
}

#[test]
fn knowing_everything_first_changes_nothing() {
    let root = "[workspace]\nmembers = [\"crates/*\", \"tools/one\"]\n";
    let side = Side::new(
        None,
        &[
            ("Cargo.toml", root),
            ("crates/a/Cargo.toml", "[dependencies]\nx = 1\n"),
            ("tools/one/Cargo.toml", "[dependencies]\ny = 1\n"),
            ("unrelated/Cargo.toml", "not read"),
        ],
    );
    let mut source = side.source();
    for file in side.files.keys() {
        side.answer(&mut source, &Need::File(path(file)));
    }
    for directory in ["", "crates", "tools", "unrelated"] {
        side.answer(&mut source, &Need::Directories(path(directory)));
    }
    let Progress::Done(direct) =
        direct_dependencies(Ecosystem::Rust, &source, &path("Cargo.toml"), root)
    else {
        panic!("not everything is known");
    };
    assert_eq!(texts(&direct), side.direct(Ecosystem::Rust, "Cargo.toml").unwrap());
    assert_eq!(texts(&direct), BTreeSet::from(["x".into(), "y".into()]));
}

#[test]
fn patterns_lead_to_directories() {
    let mut source = ManifestSource::new(None);
    let expand = |source: &ManifestSource, pattern: &str| match source.expand(&path("w"), pattern) {
        Progress::Done(paths) => paths.iter().map(RepoPath::text).collect::<Vec<_>>().join(" "),
        Progress::Failed(error) => error.message(),
        Progress::Ask(Need::Directories(path)) => format!("? {}", path.text()),
        Progress::Ask(Need::File(_)) => panic!("no file is needed"),
    };
    assert_eq!(expand(&source, "a//./b/"), "w/a/b");
    assert_eq!(expand(&source, ""), "w");
    assert_eq!(expand(&source, ".."), "");
    assert_eq!(expand(&source, "../.."), "workspace member is outside the repository");
    assert_eq!(expand(&source, "a/[x]*/b"), "? w/a");
    source.learn_directories(&path("w/a"), Ok(vec!["y".into(), "x2".into(), "x1".into()]));
    assert_eq!(expand(&source, "a/[x]*/b"), "w/a/x2/b w/a/x1/b");
    assert_eq!(expand(&source, "a/*/?"), "? w/a/y");
    source.learn_directories(&path("w/a/y"), Err(Error::Git("no".into())));
    assert_eq!(expand(&source, "a/*/?"), "no");
}

fn stdout(ending: &Ending) -> String {
    let pieces = ending.output.iter().map(|piece| match piece {
        Output::Stdout(text) => text.as_str(),
        Output::Stderr(_) => "",
    });
    pieces.collect()
}

/// All that a run prints, as a terminal shows it, with marks around the error stream.
fn shown(ending: &Ending) -> String {
    let pieces = ending.output.iter().map(|piece| match piece {
        Output::Stdout(text) => text.clone(),
        Output::Stderr(text) if text.is_empty() => String::new(),
        Output::Stderr(text) => format!("<{text}>"),
    });
    pieces.collect()
}

fn report(stdout: &str, stderr: &str) -> Result<Report, Error> {
    Ok(Report { stdout: stdout.into(), stderr: stderr.into() })
}

fn gone() -> Result<Report, Error> {
    Err(Error::Git("gone".into()))
}

#[test]
fn remarks_stand_below_their_table() {
    let both = vec![Ecosystem::Rust, Ecosystem::Npm];
    let ending = conclude(&both, &vec![report("r\n", "hint\n"), report("n\n", "other\n")]);
    assert_eq!(shown(&ending), "## Rust\n\nr\n<hint\n>\n## npm\n\nn\n<other\n>");
    assert!(ending.success);
}

#[test]
fn the_first_failure_ends_a_run() {
    let both = vec![Ecosystem::Rust, Ecosystem::Npm];
    let ending = conclude(&both, &vec![report("r\n", "hint\n"), gone()]);
    assert_eq!(shown(&ending), "## Rust\n\nr\n<hint\n>\n## npm\n\n<error: gone\n>");
    assert!(!ending.success);
    let ending = conclude(&both, &vec![gone()]);
    assert_eq!(shown(&ending), "## Rust\n\n<error: gone\n>");
    assert!(!ending.success);
    let ending = conclude(&both, &vec![gone(), report("n\n", "")]);
    assert_eq!(shown(&ending), "## Rust\n\n<error: gone\n>");
    let ending = conclude(&vec![Ecosystem::Npm], &vec![report("n\n", "")]);
    assert_eq!(shown(&ending), "n\n");
    assert!(ending.success);
    let ending = fail(&Error::Usage("why".into()));
    assert_eq!(shown(&ending), "<error: why\n>");
    assert!(!ending.success);
    let ending = help();
    assert_eq!(shown(&ending), format!("{HELP}\n"));
    assert!(ending.success);
}

fn nothing_known() -> Answers {
    Answers { current_dir: None, root: None, search: None, manifests: None, results: Vec::new() }
}

/// What a run needs next, in words.
fn next(texts: &[&str], answers: &Answers) -> String {
    let words = texts
        .iter()
        .map(|text| Argument { text: text.to_string(), utf8: true })
        .collect();
    match run(&words, answers) {
        Request::CurrentDirectory => "current directory".into(),
        Request::Root => "root".into(),
        Request::Revision(search) => search.arguments().join(" "),
        Request::Manifests => "manifests".into(),
        Request::Compare { ecosystem, revision, options } => {
            format!("{ecosystem:?} {revision} {} {}", options.all, options.pretty)
        }
        Request::Over(ending) => format!("over {} {}", ending.success, shown(&ending)),
    }
}

#[test]
fn a_run_asks_for_one_thing_after_the_other() {
    let found = |present: bool| vec![Level { is_root: true, present }];
    let mut answers = nothing_known();
    assert_eq!(next(&["--help"], &answers), format!("over true {HELP}\n"));
    assert_eq!(
        next(&["--rev"], &answers),
        "over false <error: --rev requires a value\n>"
    );
    assert_eq!(next(&[], &answers), "current directory");
    answers.current_dir = Some(Ok("/r/a".into()));
    assert_eq!(next(&[], &answers), "root");
    answers.root = Some(Ok("/r".into()));
    assert_eq!(next(&[], &answers), "symbolic-ref --short refs/remotes/origin/HEAD");
    assert_eq!(next(&["--rev", "v1"], &answers), "manifests");
    assert_eq!(next(&["--rev", "v1", "npm", "--all"], &answers), "Npm v1 true false");
    answers.search = Some(RevisionSearch::Found("origin/main".into()));
    assert_eq!(next(&["--pretty", "rust"], &answers), "Rust origin/main false true");
    answers.manifests = Some(Manifests { cargo: found(false), npm: found(false) });
    assert_eq!(
        next(&[], &answers),
        "over false <error: could not find Cargo.toml or package.json between /r/a and /r\n>"
    );
    answers.manifests = Some(Manifests { cargo: found(true), npm: found(true) });
    assert_eq!(next(&[], &answers), "Rust origin/main false false");
    answers.results.push(report("r\n", ""));
    assert_eq!(next(&[], &answers), "Npm origin/main false false");
    answers.results.push(report("n\n", ""));
    assert_eq!(next(&[], &answers), "over true ## Rust\n\nr\n\n## npm\n\nn\n");
    answers.results = vec![gone()];
    assert_eq!(next(&[], &answers), "over false ## Rust\n\n<error: gone\n>");
}

#[test]
fn a_run_fails_where_nothing_can_be_found() {
    let mut answers = nothing_known();
    answers.current_dir = Some(Err("denied".into()));
    assert_eq!(
        next(&[], &answers),
        "over false <error: could not determine the current directory: denied\n>"
    );
    answers.current_dir = Some(Ok("/r".into()));
    answers.root = Some(Err(Error::Git("not a repository".into())));
    assert_eq!(next(&[], &answers), "over false <error: not a repository\n>");
}
