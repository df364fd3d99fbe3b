use depdep::ecosystem::Ecosystem;
use depdep::error::Error;
use depdep::git::{
    command_error, complaint, directories_at_revision, file_at_revision, git_line,
    git_repository_root, object_name, GitOutput,
};
use depdep::options::{parse_args, unexpected_argument, Argument, Command, Options, HELP};
use depdep::path::RepoPath;
use depdep::project::{find_file, Level};
use depdep::revision::{default_revision, RevisionSearch};
use depdep::working_tree::{working_directories, working_file, Entry};

fn words(texts: &[&str]) -> Vec<Argument> {
    texts
        .iter()
        .map(|text| Argument { text: text.to_string(), utf8: true })
        .collect()
}

fn options(texts: &[&str]) -> Options {
    match parse_args(&words(texts)) {
        Ok(Command::Compare(options)) => options,
        _ => panic!("no comparison"),
    }
}

fn usage(texts: &[&str]) -> String {
    match parse_args(&words(texts)) {
        Err(Error::Usage(message)) => message,
        _ => panic!("no usage error"),
    }
}

#[test]
fn options_are_read() {
    let none = options(&[]);
    assert!(none.ecosystem.is_none() && none.revision.is_none() && !none.all && !none.pretty);
    let all = options(&["depdep", "--pretty", "npm", "--rev", "--all", "--all"]);
    assert_eq!(all.ecosystem, Some(Ecosystem::Npm));
    assert_eq!(all.revision.as_deref(), Some("--all"));
    assert!(all.all && all.pretty);
    assert_eq!(options(&["--branch", "b"]).revision.as_deref(), Some("b"));
    assert_eq!(options(&["rust"]).ecosystem, Some(Ecosystem::Rust));
    for alias in ["js", "ts", "node"] {
        assert_eq!(options(&[alias]).ecosystem, Some(Ecosystem::Npm));
    }
}

#[test]
fn arguments_can_be_exchanged() {
    let described = |texts: &[&str]| match parse_args(&words(texts)) {
        Ok(Command::Help) => "help".to_string(),
        Ok(Command::Compare(options)) => format!(
            "{:?} {:?} {} {}",
            options.ecosystem, options.revision, options.all, options.pretty
        ),
        Err(error) => error.message(),
    };
    let lines: [&[&str]; 6] = [
        &["npm"],
        &["depdep", "--all", "npm", "--rev", "v1"],
        &["--rev", "--rev", "npm", "--pretty"],
        &["rust", "npm"],
        &["npm", "nonsense"],
        &["-h", "npm"],
    ];
    for line in lines {
        let at = line.iter().position(|word| *word == "npm").unwrap();
        for alias in ["js", "ts", "node"] {
            let mut other = line.to_vec();
            other[at] = alias;
            assert_eq!(described(&other), described(line));
        }
    }
    assert_eq!(
        described(&["js", "--branch", "v1"]),
        described(&["js", "--rev", "v1"])
    );
    // The value of an option is no argument of its own.
    assert_ne!(described(&["--rev", "js"]), described(&["--rev", "npm"]));
}

#[test]
fn wrong_options_are_refused() {
    assert_eq!(usage(&["rust", "rust"]), "expected at most one ecosystem");
    assert_eq!(usage(&["--rev", "a", "--branch", "b"]), "--rev may only be used once");
    assert_eq!(usage(&["--rev"]), "--rev requires a value");
    assert_eq!(usage(&["depdep", "depdep"]), "unexpected argument \"depdep\"");
    assert_eq!(usage(&["a\"b"]), "unexpected argument \"a\\\"b\"");
    assert_eq!(unexpected_argument("<x>").message(), "unexpected argument <x>");
    let foreign = |text: &str| Argument { text: text.to_string(), utf8: false };
    let mut list = words(&["--rev"]);
    list.push(foreign("\u{fffd}"));
    assert_eq!(
        parse_args(&list).err().unwrap().message(),
        "the revision must be valid UTF-8"
    );
    assert_eq!(
        parse_args(&vec![foreign("depdep")]).err().unwrap().message(),
        "unexpected argument \"depdep\""
    );
}

#[test]
fn help_is_given_at_once() {
    for list in [&["-h"][..], &["--help", "nonsense"], &["depdep", "--all", "-h"]] {
        assert!(matches!(parse_args(&words(list)), Ok(Command::Help)));
    }
    assert_eq!(
        HELP.lines().collect::<Vec<_>>(),
        [
            "Compare dependency lockfiles with another Git revision.",
            "",
            "Usage: cargo depdep [OPTIONS] [ECOSYSTEM]",
            "",
            "Arguments:",
            "  [ECOSYSTEM]  Package ecosystem: rust or npm [default: auto-detect]",
            "",
            "Options:",
            "  --rev <REV>  Git rev to compare against [default: origin default branch, then local main/master]",
            "  --all  Include transitive dependency changes",
            "  --pretty  Align the columns for a nicely formatted ASCII table",
            "  -h, --help    Print help",
        ]
    );
}

#[test]
fn failures_are_told() {
    assert_eq!(Error::Usage("u".into()).message(), "u");
    assert_eq!(Error::Git("g".into()).message(), "g");
    assert_eq!(
        Error::File { label: "l".into(), message: "m".into() }.message(),
        "could not parse l: m"
    );
    let io = Error::Io { context: "c".into(), source: "s".into() };
    assert_eq!(io.message(), "c: s");
    assert_eq!(io.clone().message(), "c: s");
}

fn output(success: bool, stdout: &[u8], stderr: &[u8]) -> Result<GitOutput, String> {
    Ok(GitOutput { success, stdout: stdout.to_vec(), stderr: stderr.to_vec() })
}

#[test]
fn complaints_of_git_are_trimmed() {
    assert_eq!(command_error(b" fatal: \xffx\n"), "fatal: \u{fffd}x");
    assert_eq!(command_error("é\n".as_bytes()), "é");
    assert_eq!(command_error(b"\n \t"), "git exited unsuccessfully");
    assert_eq!(complaint(" a b "), "a b");
    assert_eq!(complaint(""), "git exited unsuccessfully");
}

#[test]
fn the_root_of_the_repository_is_read() {
    let root = |output: Result<GitOutput, String>| match git_repository_root(output) {
        Ok(root) => root,
        Err(error) => format!("error: {}", error.message()),
    };
    assert_eq!(root(output(true, b" /a b \n", b"")), " /a b");
    assert_eq!(root(output(true, b"\xff", b"")), "error: git returned a non-UTF-8 repository path");
    assert_eq!(root(output(false, b"/a", b"fatal\n")), "error: fatal");
    assert_eq!(root(Err("gone".into())), "error: could not run git: gone");
}

#[test]
fn lines_of_git_are_read() {
    assert_eq!(git_line(output(true, b" origin/main\n", b"")).as_deref(), Some("origin/main"));
    assert_eq!(git_line(output(true, b" \n", b"")), None);
    assert_eq!(git_line(output(true, b"\xff", b"")), None);
    assert_eq!(git_line(output(false, b"x", b"")), None);
    assert_eq!(git_line(Err("gone".into())), None);
}

#[test]
fn files_at_a_revision_are_read() {
    let path = RepoPath { names: vec!["a".into(), "Cargo.toml".into()] };
    let file = |output: Result<GitOutput, String>| match file_at_revision("v1", &path, output) {
        Ok(contents) => contents,
        Err(error) => format!("error: {}", error.message()),
    };
    assert_eq!(object_name("v1", &path), "v1:a/Cargo.toml");
    assert_eq!(file(output(true, "é\n".as_bytes(), b"")), "é\n");
    assert_eq!(file(output(true, b"\xff", b"")), "error: v1:a/Cargo.toml is not valid UTF-8");
    assert_eq!(
        file(output(false, b"", b"")),
        "error: could not read v1:a/Cargo.toml: git exited unsuccessfully"
    );
    assert_eq!(file(Err("gone".into())), "error: could not run git: gone");
}

#[test]
fn directories_are_listed() {
    let listed = |output: Result<GitOutput, String>| {
        directories_at_revision(output).map_err(|error| error.message())
    };
    assert_eq!(listed(output(true, b"a b\0c\0", b"")).unwrap(), ["a b", "c"]);
    assert!(listed(output(true, b"", b"")).unwrap().is_empty());
    assert_eq!(
        listed(output(true, b"\xff\0", b"")).unwrap_err(),
        "workspace directory is not valid UTF-8"
    );
    assert_eq!(listed(output(false, b"", b"no tree")).unwrap_err(), "no tree");
    assert_eq!(
        listed(Err("gone".into())).unwrap_err(),
        "could not list workspace directories: gone"
    );
}

#[test]
fn the_working_tree_is_read() {
    assert_eq!(working_file("/r/f", Ok("x".into())).ok().unwrap(), "x");
    assert_eq!(
        working_file("/r/f", Err("denied".into())).err().unwrap().message(),
        "could not read /r/f: denied"
    );
    let listed = |entries: Vec<Entry>| {
        working_directories("/r", Ok(entries)).map_err(|error| error.message())
    };
    let directory = |name: &str| Entry::Directory(Some(name.to_string()));
    assert_eq!(listed(vec![directory("b"), Entry::Other, directory("a")]).unwrap(), ["b", "a"]);
    assert_eq!(
        listed(vec![Entry::Directory(None), Entry::Unreadable("bad".into())]).unwrap_err(),
        "workspace directory is not valid UTF-8"
    );
    assert_eq!(
        listed(vec![directory("a"), Entry::Unreadable("bad".into())]).unwrap_err(),
        "could not read workspace directory entry: bad"
    );
    assert_eq!(
        working_directories("/r", Err("gone".into())).err().unwrap().message(),
        "could not list /r: gone"
    );
}

fn searched(head: Option<&str>, known: &[&str]) -> (String, usize) {
    let mut search = RevisionSearch::begin(&None);
    let mut questions = 0;
    loop {
        if let RevisionSearch::Found(name) = search {
            return (name, questions);
        }
        let arguments = search.arguments();
        questions += 1;
        let line = if arguments[0] == "symbolic-ref" {
            assert_eq!(arguments, ["symbolic-ref", "--short", "refs/remotes/origin/HEAD"]);
            head.map(str::to_string)
        } else {
            assert_eq!(arguments[..3], ["rev-parse", "--verify", "--quiet"]);
            known.contains(&arguments[3].as_str()).then_some("0123".to_string())
        };
        search = default_revision(search, line);
    }
}

#[test]
fn the_first_revision_that_resolves_is_found() {
    let all = ["origin/dev", "origin/main", "origin/master", "main", "master"];
    assert_eq!(searched(Some("origin/dev"), &all), ("origin/dev".into(), 2));
    assert_eq!(searched(Some("origin/gone"), &all), ("origin/main".into(), 3));
    assert_eq!(searched(None, &all), ("origin/main".into(), 2));
    assert_eq!(searched(None, &all[2..]), ("origin/master".into(), 3));
    assert_eq!(searched(None, &all[3..]), ("main".into(), 4));
    assert_eq!(searched(None, &all[4..]), ("master".into(), 5));
    assert_eq!(searched(Some("x"), &[]), ("main".into(), 6));
    assert_eq!(searched(None, &[]), ("main".into(), 5));
}

#[test]
fn a_revision_that_is_asked_for_is_found_at_once() {
    let search = RevisionSearch::begin(&Some("v1".to_string()));
    assert!(matches!(&search, RevisionSearch::Found(name) if name == "v1"));
    let search = default_revision(search, Some("origin/main".to_string()));
    assert!(matches!(&search, RevisionSearch::Found(name) if name == "v1"));
    assert!(search.arguments().is_empty());
}

#[test]
fn the_nearest_file_is_found() {
    let levels = |flags: &[(bool, bool)]| -> Vec<Level> {
        flags
            .iter()
            .map(|(is_root, present)| Level { is_root: *is_root, present: *present })
            .collect()
    };
    assert_eq!(find_file(&levels(&[(false, true), (true, true)])), Some(0));
    assert_eq!(find_file(&levels(&[(false, false), (true, true)])), Some(1));
    assert_eq!(find_file(&levels(&[(true, false), (false, true)])), None);
    assert_eq!(find_file(&levels(&[(false, false), (false, true)])), Some(1));
    assert_eq!(find_file(&levels(&[])), None);
}

#[test]
fn ecosystems_have_their_names() {
    assert_eq!(Ecosystem::Rust.package_label(), "crate");
    assert_eq!(Ecosystem::Npm.package_label(), "package");
    assert_eq!(Ecosystem::Rust.project_files(), "Cargo.toml and Cargo.lock");
    assert_eq!(Ecosystem::Npm.project_files(), "package.json and package-lock.json");
    assert_eq!(Ecosystem::Rust.manifest_name(), "Cargo.toml");
    assert_eq!(Ecosystem::Npm.lockfile_name(), "package-lock.json");
    assert!(Ecosystem::Rust.parse_lockfile("").is_ok());
    assert!(Ecosystem::Npm.parse_lockfile("").is_err());
    assert!(Ecosystem::Rust.parse_manifest("").is_ok());
    assert!(Ecosystem::Npm.parse_manifest("").is_err());
}
