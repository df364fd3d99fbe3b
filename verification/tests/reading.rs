use std::collections::BTreeMap;
use std::collections::BTreeSet;

use depdep::cargo_lock::{add_package, assignment, parse_cargo_lockfile, versionless_error};
use depdep::cargo_manifest::{
    cargo_dependencies, cargo_manifest_section, not_inherited_error, parse_cargo_manifest,
    resolved_dependencies, CargoManifestSection,
};
use depdep::collections::{Packages, TextMap, TextSet};
use depdep::json::{parse_json, JsonParser, JsonValue};
use depdep::npm::{
    add_npm_dependency_tree, json_string_field, npm_package_name, parse_npm_lockfile,
    parse_npm_manifest,
};
use depdep::toml::{
    inline_toml_field, inline_toml_string_field, parse_toml_key, parse_toml_string,
    split_toml_key, strip_enclosing, strip_toml_comment, toml_assignment,
};
use depdep::workspace::{dependency_table_header, parse_workspace};

fn texts(set: &TextSet) -> BTreeSet<String> {
    (0..set.len()).map(|i| set.at(i).clone()).collect()
}

fn names(texts: &[&str]) -> BTreeSet<String> {
    texts.iter().map(|text| text.to_string()).collect()
}

fn grouped(packages: &Packages) -> BTreeMap<String, BTreeSet<String>> {
    (0..packages.len())
        .map(|i| (packages.key(i).clone(), texts(packages.value(i))))
        .collect()
}

fn pairs(packages: &[(&str, &[&str])]) -> BTreeMap<String, BTreeSet<String>> {
    packages
        .iter()
        .map(|(name, versions)| (name.to_string(), names(versions)))
        .collect()
}

#[test]
fn parses_and_groups_package_versions() {
    let packages = parse_cargo_lockfile(
        r#"
version = 4

[[package]]
name = "same-crate"
version = "1.0.0"

[[package]]
name = "same-crate"
version = "2.0.0"

[[package]]
name = "another-crate"
version = "3.1.4"
"#,
    )
    .unwrap();

    assert_eq!(
        texts(packages.get("same-crate").unwrap()),
        BTreeSet::from(["1.0.0".into(), "2.0.0".into()])
    );
    assert_eq!(
        texts(packages.get("another-crate").unwrap()),
        BTreeSet::from(["3.1.4".into()])
    );
    assert_eq!(packages.len(), 2);
}

#[test]
fn ignores_non_package_tables() {
    let packages = parse_cargo_lockfile(
        r#"
version = 4

[[metadata]]
name = "not-a-package"
version = "1.0.0"
"#,
    )
    .unwrap();

    assert_eq!(packages.len(), 0);
}

#[test]
fn resolves_inherited_names_without_counting_unused_workspace_entries() {
    let workspace = parse_workspace("[workspace]\nmembers = []\n[workspace.dependencies]\nalias = { package = \"actual\", version = \"*\" }\nunused = \"*\"\n").ok().unwrap();
    let dependencies = resolved_dependencies("[target.'cfg(unix)'.dependencies]\nalias = { workspace = true }\n[dependencies]\nrenamed = { package = \"other\", version = \"*\" }\n", &workspace.dependencies).ok().unwrap();
    assert_eq!(
        texts(&dependencies),
        BTreeSet::from(["actual".into(), "other".into()])
    );
    assert!(
        resolved_dependencies(
            "[dependencies]\nmissing.workspace = true\n",
            &workspace.dependencies
        )
        .is_err()
    );
}

#[test]
fn a_missing_inherited_dependency_is_named() {
    let workspace = parse_workspace("[workspace.dependencies]\nother = \"*\"\n").ok().unwrap();
    let contents = "[dependencies]\nzebra.workspace = true\nother.workspace = true\nape = { workspace = true }\n";
    assert_eq!(
        resolved_dependencies(contents, &workspace.dependencies).err().unwrap(),
        "inherited dependency \"ape\" missing from workspace.dependencies"
    );
    assert_eq!(
        not_inherited_error("<x>"),
        "inherited dependency <x> missing from workspace.dependencies"
    );
}

#[test]
fn packages_of_a_lockfile_need_names_and_versions() {
    assert_eq!(
        parse_cargo_lockfile("[[package]]\nversion = \"1\"\n[[package]]\n").err().unwrap(),
        "package ending before line 3 does not have a name"
    );
    assert_eq!(
        parse_cargo_lockfile("[[package]]\nname = \"a\\\"b\"\n").err().unwrap(),
        "package \"a\\\"b\" ending before line 3 does not have a version"
    );
    assert_eq!(
        parse_cargo_lockfile("[[package]]\nname = a\n").err().unwrap(),
        "line 2: expected a quoted string"
    );
    assert_eq!(
        parse_cargo_lockfile("[[package]]\nname = \"a\"\nversion = \"\\q\"\n").err().unwrap(),
        "line 3: unsupported string escape"
    );
    assert_eq!(
        versionless_error("<a>", 12),
        "package <a> ending before line 12 does not have a version"
    );
}

#[test]
fn the_last_assignment_of_a_package_counts() {
    let packages = parse_cargo_lockfile(
        "name = \"outside\"\n[[package]]\r\n name = 'a\\n' \r\nname = \"b\"\nversion=\"1\"\nsource = \"x\"\n[[patch]]\nname = \"c\"",
    )
    .ok()
    .unwrap();
    assert_eq!(grouped(&packages), pairs(&[("b", &["1"])]));
}

#[test]
fn lockfiles_read_back_what_is_written_to_them() {
    let mut contents = String::new();
    let written = [("plain", "1.0.0"), ("back\\slash", "2"), ("quo\"te", "new\nline"), ("plain", "0.1")];
    for (name, version) in written {
        let quote = |text: &str| {
            text.replace('\\', "\\\\").replace('"', "\\\"").replace('\n', "\\n")
        };
        contents.push_str(&format!(
            "\n[[package]]\nname = \"{}\"\nversion = \"{}\"\n",
            quote(name),
            quote(version)
        ));
    }
    assert_eq!(
        grouped(&parse_cargo_lockfile(&contents).ok().unwrap()),
        pairs(&[
            ("plain", &["1.0.0", "0.1"]),
            ("back\\slash", &["2"]),
            ("quo\"te", &["new\nline"]),
        ])
    );
}

#[test]
fn assignments_are_found_by_their_key() {
    assert_eq!(assignment("name = \"a=b\"", "name"), Some("\"a=b\""));
    assert_eq!(assignment("name = 1", "version"), None);
    assert_eq!(assignment("name", "name"), None);
    assert_eq!(assignment("=", ""), Some(""));
}

#[test]
fn packages_are_added_with_name_and_version() {
    let mut packages: Packages = TextMap::new();
    assert!(add_package(&mut packages, Some("a".into()), Some("1".into()), 4).is_ok());
    assert!(add_package(&mut packages, Some("a".into()), Some("2".into()), 9).is_ok());
    assert_eq!(
        add_package(&mut packages, None, Some("2".into()), 9).err().unwrap(),
        "package ending before line 9 does not have a name"
    );
    assert_eq!(grouped(&packages), pairs(&[("a", &["1", "2"])]));
}

#[test]
fn quoted_strings_stand_for_texts() {
    assert_eq!(parse_toml_string("'a\\b'", 1).ok().unwrap(), "a\\b");
    assert_eq!(
        parse_toml_string("\"a\\b\\t\\n\\f\\r\\\"\\\\z\"", 1).ok().unwrap(),
        "a\u{8}\t\n\u{c}\r\"\\z"
    );
    assert_eq!(parse_toml_string("\"\\\"", 2).err().unwrap(), "line 2: incomplete string escape");
    assert_eq!(parse_toml_string("\"\\u\"", 3).err().unwrap(), "line 3: unsupported string escape");
    assert_eq!(parse_toml_string("'", 4).err().unwrap(), "line 4: expected a quoted string");
    assert_eq!(parse_toml_string("\"", 5).err().unwrap(), "line 5: expected a quoted string");
    assert_eq!(parse_toml_string("x", 6).err().unwrap(), "line 6: expected a quoted string");
    assert_eq!(parse_toml_string("''", 6).ok().unwrap(), "");
    assert_eq!(parse_toml_string("\"é\"", 6).ok().unwrap(), "é");
}

#[test]
fn comments_end_lines_outside_quotes() {
    assert_eq!(strip_toml_comment("a = 1 # one"), "a = 1 ");
    assert_eq!(strip_toml_comment("a = \"#\\\"#\" # é"), "a = \"#\\\"#\" ");
    assert_eq!(strip_toml_comment("a = '#\\' # x"), "a = '#\\' ");
    assert_eq!(strip_toml_comment("a = \"# unterminated"), "a = \"# unterminated");
}

#[test]
fn assignments_are_split_outside_quotes() {
    assert_eq!(toml_assignment("a = b = c"), Some(("a ", " b = c")));
    assert_eq!(toml_assignment("\"a=b\" = c"), Some(("\"a=b\" ", " c")));
    assert_eq!(toml_assignment("'a=b'"), None);
    assert_eq!(toml_assignment(""), None);
}

#[test]
fn keys_are_split_at_dots_outside_quotes() {
    assert_eq!(
        split_toml_key("target.'cfg(a.b)'. dependencies", 1).ok().unwrap(),
        ["target", "cfg(a.b)", "dependencies"]
    );
    assert_eq!(split_toml_key("\"a\\\".b\".c", 1).ok().unwrap(), ["a\".b", "c"]);
    assert_eq!(split_toml_key("a..b", 2).err().unwrap(), "line 2: expected a TOML key");
    assert_eq!(split_toml_key("", 3).err().unwrap(), "line 3: expected a TOML key");
    assert_eq!(split_toml_key("a.'b", 4).err().unwrap(), "line 4: unterminated quoted key");
    assert_eq!(split_toml_key("a..'b", 5).err().unwrap(), "line 5: expected a TOML key");
    assert_eq!(parse_toml_key("  plain key ", 5).ok().unwrap(), "plain key");
    assert_eq!(parse_toml_key(" 'single' ", 5).ok().unwrap(), "single");
    assert_eq!(parse_toml_key("\"open", 6).err().unwrap(), "line 6: expected a quoted string");
    assert_eq!(strip_enclosing("[a]", '[', ']'), Some("a"));
    assert_eq!(strip_enclosing("[", '[', '['), None);
}

#[test]
fn fields_of_inline_tables_are_found() {
    let table = "{ version = \"1, 2\", features = [\"a\", \"package = 'no'\"], package = \"real\" }";
    assert_eq!(inline_toml_field(table, "version", 1).ok().unwrap(), Some("\"1, 2\""));
    assert_eq!(
        inline_toml_string_field(table, "package", 1).ok().unwrap(),
        Some("real".to_string())
    );
    assert_eq!(inline_toml_field(table, "workspace", 1).ok().unwrap(), None);
    assert_eq!(inline_toml_field("\"1\"", "version", 1).ok().unwrap(), None);
    assert_eq!(
        inline_toml_field("{ a = 1, = 2, b = 3 }", "b", 7).err().unwrap(),
        "line 7: expected a TOML key"
    );
    assert_eq!(inline_toml_field("{ b = 3, = 2 }", "b", 7).ok().unwrap(), Some("3"));
    assert_eq!(
        inline_toml_string_field("{ package = 3 }", "package", 8).err().unwrap(),
        "line 8: expected a quoted string"
    );
    assert_eq!(inline_toml_field("{ x = { b = 1 }, ], b = 2 }", "b", 8).ok().unwrap(), Some("2"));
}

#[test]
fn sections_of_manifests_are_told_apart() {
    let section = |header: &str| match cargo_manifest_section(header, 3) {
        Ok(CargoManifestSection::Other) => "other".to_string(),
        Ok(CargoManifestSection::Dependencies) => "all".to_string(),
        Ok(CargoManifestSection::Dependency { resolved }) => format!("one {resolved}"),
        Err(error) => error,
    };
    assert_eq!(section("[dependencies]"), "all");
    assert_eq!(section("[dev-dependencies]"), "all");
    assert_eq!(section("[ build-dependencies ]"), "all");
    assert_eq!(section("[target.'cfg(unix)'.dependencies]"), "all");
    assert_eq!(section("[dependencies.\"a.b\"]"), "one a.b");
    assert_eq!(section("[target.x.build-dependencies.serde]"), "one serde");
    assert_eq!(section("[dependencies.a.b]"), "other");
    assert_eq!(section("[package]"), "other");
    assert_eq!(section("[workspace.dependencies]"), "other");
    assert_eq!(section("[target.dependencies]"), "all");
    assert_eq!(section("[[bin]]"), "other");
    assert_eq!(section("[]"), "line 3: expected a TOML key");
}

#[test]
fn manifests_declare_dependencies() {
    let contents = "[package]\nname = \"p\" # comment\n[dependencies]\na = \"1\"\nb.package = \"beta\"\nb.version = \"2\"\nc = { package = 'gamma', version = \"3\" }\n\"d\".workspace = true\n[dev-dependencies.e]\nversion = \"1\"\npackage = \"epsilon\"\n[build-dependencies]\nf.workspace = false\n";
    assert_eq!(
        texts(&parse_cargo_manifest(contents).ok().unwrap()),
        names(&["a", "beta", "gamma", "d", "epsilon", "f"])
    );
    let declared = cargo_dependencies(contents).ok().unwrap();
    let inherited: Vec<&str> = (0..declared.len())
        .filter(|i| declared.value(*i).inherited)
        .map(|i| declared.key(i).as_str())
        .collect();
    assert_eq!(inherited, ["d"]);
    assert_eq!(
        parse_cargo_manifest("[dependencies]\nb.package = beta\n").err().unwrap(),
        "line 2: expected a quoted string"
    );
    assert_eq!(
        parse_cargo_manifest("\n[dependencies.]\n").err().unwrap(),
        "line 2: expected a TOML key"
    );
}

#[test]
fn workspaces_are_read() {
    let workspace = parse_workspace(
        "[package]\nname = \"x\"\n[workspace]\nmembers = [\n  \"a, b\", # one\n  'c',\n]\nexclude = [\"d\"]\nresolver = \"2\"\n[workspace.dependencies.'odd.name']\npackage = \"real\"\n",
    )
    .ok()
    .unwrap();
    assert!(workspace.present);
    assert_eq!(workspace.members, ["a, b", "c"]);
    assert_eq!(workspace.exclude, ["d"]);
    assert_eq!(workspace.dependencies.len(), 1);
    assert_eq!(workspace.dependencies.key(0), "odd.name");
    assert_eq!(workspace.dependencies.value(0).package, Some("real".to_string()));

    assert!(!parse_workspace("[package]\n").ok().unwrap().present);
    assert!(parse_workspace("[workspace.package]\n").ok().unwrap().present);
    assert_eq!(
        parse_workspace("[workspace]\nmembers = [\n\"a\",\n").err().unwrap(),
        "unterminated workspace array"
    );
    assert_eq!(
        parse_workspace("[workspace]\nmembers = \"a]\"\n").err().unwrap(),
        "unterminated workspace array"
    );
    assert_eq!(
        parse_workspace("[workspace]\nmembers = a]\n").err().unwrap(),
        "line 2: expected workspace array"
    );
    assert_eq!(
        parse_workspace("[workspace]\nmembers = [a]\n").err().unwrap(),
        "line 2: expected a quoted string"
    );
    assert_eq!(dependency_table_header(None), "[dependencies]\n");
    assert_eq!(dependency_table_header(Some("\"a\"")), "[dependencies.\"a\"]\n");
}

#[test]
fn json_values_are_read() {
    let value = parse_json(" {\"a\": \"x\\u00e9\\uD83D\\uDE00\\n\\/\", \"b\": {\"c\": [1, -2.5e+3, true, [], {}]}, \"a\": \"é\"} ")
        .ok()
        .unwrap();
    let object = value.as_object().unwrap();
    assert_eq!(object.len(), 2);
    assert_eq!(object.get("a").unwrap().as_text(), Some("é"));
    let inner = object.get("b").unwrap().as_object().unwrap();
    assert!(matches!(inner.get("c"), Some(JsonValue::Other)));

    let text = parse_json("\"x\\u00e9\\uD83D\\uDE00\\n\\/\\b\\f\\r\\t\\\"\\\\\"").ok().unwrap();
    assert_eq!(text.as_text(), Some("xé😀\n/\u{8}\u{c}\r\t\"\\"));
    for other in ["null", "true", "false", "0", "-0.0", "10E5", "[ ]"] {
        assert!(matches!(parse_json(other), Ok(JsonValue::Other)));
    }
    assert_eq!(parse_json("{ }").ok().unwrap().as_object().unwrap().len(), 0);
}

#[test]
fn faults_in_json_are_told_with_their_place() {
    let faults = [
        ("", "unexpected end of input at byte 0"),
        ("  ", "unexpected end of input at byte 2"),
        ("x", "expected a JSON value at byte 0"),
        ("tru", "invalid JSON literal at byte 0"),
        ("[1,]", "expected a JSON value at byte 3"),
        ("[1 2]", "expected ',' at byte 3"),
        ("{\"a\" 1}", "expected ':' at byte 5"),
        ("{\"a\":1 \"b\"}", "expected ',' at byte 7"),
        ("{1}", "expected '\"' at byte 1"),
        ("01", "unexpected trailing content at byte 1"),
        ("\"é\" x", "unexpected trailing content at byte 5"),
        ("-", "expected a digit at byte 1"),
        ("1.", "expected a digit at byte 2"),
        ("1e+", "expected a digit at byte 3"),
        ("\"a", "unterminated JSON string at byte 2"),
        ("\"\\", "incomplete JSON string escape at byte 2"),
        ("\"\\x\"", "unsupported JSON string escape at byte 3"),
        ("\"\n\"", "control character in JSON string at byte 1"),
        ("\"\\u12\"", "incomplete Unicode escape at byte 3"),
        ("\"\\u00g0\"", "invalid Unicode escape at byte 6"),
        ("\"\\uD800x\"", "high surrogate without a low surrogate at byte 7"),
        ("\"\\uDC00\"", "low surrogate without a high surrogate at byte 7"),
        ("\"\\uD800\\u0041\"", "invalid low surrogate at byte 13"),
    ];
    for (input, fault) in faults {
        assert_eq!(parse_json(input).err().unwrap(), fault, "{input:?}");
    }
}

#[test]
fn npm_manifests_declare_dependencies() {
    let contents = r#"{"name": "x", "dependencies": {"b": "*", "a": "1"}, "devDependencies": {"c": {}},
        "optionalDependencies": {"@d/e": ""}, "peerDependencies": {"a": "2"}, "scripts": {"f": ""}}"#;
    assert_eq!(
        texts(&parse_npm_manifest(contents).ok().unwrap()),
        names(&["a", "b", "c", "@d/e"])
    );
    assert_eq!(
        parse_npm_manifest("{\"devDependencies\": []}").err().unwrap(),
        "expected \"devDependencies\" to be a JSON object"
    );
    assert_eq!(
        parse_npm_manifest("[]").err().unwrap(),
        "expected the manifest to contain a JSON object"
    );
    assert_eq!(parse_npm_manifest("").err().unwrap(), "unexpected end of input at byte 0");
}

#[test]
fn npm_lockfiles_record_packages_by_path() {
    let contents = r#"{"packages": {"": {"name": "root", "version": "0"},
        "node_modules/a": {"version": "1"}, "node_modules/b/node_modules/a": {"version": "2"},
        "node_modules/@s/c": {"version": "3"}, "node_modules/link": {"link": true},
        "node_modules/alias": {"name": "real", "version": "4"}, "packages/own": {"version": "5"},
        "node_modules/": {"version": "6"}}, "dependencies": 1}"#;
    assert_eq!(
        grouped(&parse_npm_lockfile(contents).ok().unwrap()),
        pairs(&[("a", &["1", "2"]), ("@s/c", &["3"]), ("real", &["4"])])
    );
    let faults = [
        ("[]", "expected the lockfile to contain a JSON object"),
        ("{\"packages\": []}", "expected \"packages\" to be a JSON object"),
        (
            "{\"packages\": {\"node_modules/b\": 1, \"node_modules/a\": 2}}",
            "expected package \"node_modules/a\" to be a JSON object",
        ),
        (
            "{\"packages\": {\"node_modules/a\": {\"version\": 2}}}",
            "expected \"version\" to be a JSON string",
        ),
        (
            "{\"packages\": {\"node_modules/a\": {\"version\": \"2\", \"name\": null}}}",
            "expected \"name\" to be a JSON string",
        ),
        ("{\"dependencies\": 1}", "expected \"dependencies\" to be a JSON object"),
        ("{", "expected '\"' at byte 1"),
    ];
    for (input, fault) in faults {
        assert_eq!(parse_npm_lockfile(input).err().unwrap(), fault);
    }
    assert_eq!(parse_npm_lockfile("{}").ok().unwrap().len(), 0);
}

#[test]
fn npm_lockfiles_nest_dependencies() {
    let contents = r#"{"dependencies": {"b": {"version": "1", "dependencies":
        {"a": {"version": "2", "dependencies": {}}, "b": {"version": "3"}}}, "a": {"version": "4"}}}"#;
    assert_eq!(
        grouped(&parse_npm_lockfile(contents).ok().unwrap()),
        pairs(&[("a", &["2", "4"]), ("b", &["1", "3"])])
    );
    let faults = [
        ("{\"b\": 1, \"a\": 2}", "expected dependency \"a\" to be a JSON object"),
        ("{\"a\": {}}", "dependency \"a\" does not have a version"),
        ("{\"a\": {\"version\": 1}}", "expected \"version\" to be a JSON string"),
        (
            "{\"a\": {\"version\": \"1\", \"dependencies\": 1}}",
            "expected nested dependencies for \"a\" to be a JSON object",
        ),
    ];
    for (input, fault) in faults {
        let tree = parse_json(input).ok().unwrap();
        let mut packages: Packages = TextMap::new();
        let added = add_npm_dependency_tree(tree.as_object().unwrap(), &mut packages);
        assert_eq!(added.err().unwrap(), fault);
    }
}

#[test]
fn npm_paths_name_their_package() {
    assert_eq!(npm_package_name("node_modules/a"), Some("a"));
    assert_eq!(npm_package_name("x/node_modules/a/node_modules/@b/c"), Some("@b/c"));
    assert_eq!(npm_package_name("node_modules/"), None);
    assert_eq!(npm_package_name("packages/a"), None);
    assert_eq!(npm_package_name(""), None);
    let tree = parse_json("{\"a\": \"b\", \"c\": 1}").ok().unwrap();
    let object = tree.as_object().unwrap();
    assert_eq!(json_string_field(object, "a").ok().unwrap(), Some("b"));
    assert_eq!(json_string_field(object, "x").ok().unwrap(), None);
    assert_eq!(
        json_string_field(object, "c").err().unwrap(),
        "expected \"c\" to be a JSON string"
    );
}

fn toml_quoted(text: &str) -> String {
    let inside = text.replace('\\', "\\\\").replace('"', "\\\"").replace('\n', "\\n");
    format!("\"{inside}\"")
}

fn json_quoted(text: &str) -> String {
    let inside: String = text
        .chars()
        .map(|c| match c {
            '"' | '\\' => format!("\\{c}"),
            c if (c as u32) < 0x20 => format!("\\u{:04x}", c as u32),
            c => c.to_string(),
        })
        .collect();
    format!("\"{inside}\"")
}

const ODD_TEXTS: [&str; 6] = ["plain", "", "a.b = c # d", "quo\"te'", "back\\slash", "é😀\n\t\u{1}"];

#[test]
fn written_toml_strings_and_keys_read_back() {
    for text in ODD_TEXTS {
        assert_eq!(parse_toml_string(&toml_quoted(text), 1).ok().unwrap(), text);
        assert_eq!(parse_toml_key(&toml_quoted(text), 1).ok().unwrap(), text);
        assert!(!toml_quoted(text).contains('\n'));
    }
}

#[test]
fn written_dependencies_are_declared() {
    for alias in ODD_TEXTS {
        let quoted = toml_quoted(alias);
        let plain = format!("[dependencies]\nother = 1\n[dependencies]\n{quoted} = \"*\"\n");
        let declared = cargo_dependencies(&plain).ok().unwrap();
        assert_eq!(declared.len(), 2);
        let found = declared.get(alias).unwrap();
        assert!(found.package.is_none() && !found.inherited);

        let inherited = format!("{plain}[dependencies]\n{quoted}.workspace = true\n");
        let declared = cargo_dependencies(&inherited).ok().unwrap();
        let found = declared.get(alias).unwrap();
        assert!(found.package.is_none() && found.inherited);

        for package in ODD_TEXTS {
            let renamed = format!(
                "{inherited}[dependencies]\n{quoted} = {{ package = {} }}\n",
                toml_quoted(package)
            );
            let declared = cargo_dependencies(&renamed).ok().unwrap();
            let found = declared.get(alias).unwrap();
            assert_eq!(found.package.as_deref(), Some(package));
            assert!(!found.inherited);
            assert_eq!(declared.len(), 2);
        }
    }
}

#[test]
fn written_workspaces_read_back() {
    let array = |items: &[&str]| {
        items.iter().map(|item| toml_quoted(item)).collect::<Vec<_>>().join(",")
    };
    for (members, exclude) in [(&ODD_TEXTS[..], &ODD_TEXTS[..1]), (&[], &ODD_TEXTS[..0])] {
        let contents = format!(
            "[workspace]\nmembers = [{}]\nexclude = [{}]\n",
            array(members),
            array(exclude)
        );
        let workspace = parse_workspace(&contents).ok().unwrap();
        assert!(workspace.present);
        assert_eq!(workspace.members, members);
        assert_eq!(workspace.exclude, exclude);
        assert_eq!(workspace.dependencies.len(), 0);
    }
}

#[test]
fn written_json_reads_back() {
    for text in ODD_TEXTS {
        assert_eq!(parse_json(&json_quoted(text)).ok().unwrap().as_text(), Some(text));
    }
    let members: Vec<String> = ODD_TEXTS
        .iter()
        .map(|text| format!("{}:{{{}:{}}}", json_quoted(text), json_quoted("x"), json_quoted(text)))
        .collect();
    let document = parse_json(&format!("{{{}}}", members.join(","))).ok().unwrap();
    let object = document.as_object().unwrap();
    assert_eq!(object.len(), ODD_TEXTS.len());
    for text in ODD_TEXTS {
        let inner = object.get(text).unwrap().as_object().unwrap();
        assert_eq!(inner.get("x").unwrap().as_text(), Some(text));
    }
}

#[test]
fn written_npm_files_read_back() {
    let any = |list: &[&str]| {
        let members: Vec<String> =
            list.iter().map(|name| format!("{}:\"*\"", json_quoted(name))).collect();
        format!("{{{}}}", members.join(","))
    };
    let manifest = format!(
        "{{\"dependencies\":{},\"devDependencies\":{},\"optionalDependencies\":{},\"peerDependencies\":{}}}",
        any(&ODD_TEXTS),
        any(&["dev", "plain"]),
        any(&[]),
        any(&["peer"])
    );
    let mut expected = names(&ODD_TEXTS);
    expected.extend(names(&["dev", "peer"]));
    assert_eq!(texts(&parse_npm_manifest(&manifest).ok().unwrap()), expected);

    let installed = [("node_modules/a", "1"), ("x/node_modules/a", "2"), ("node_modules/@b/é", "3")];
    let records: Vec<String> = installed
        .iter()
        .map(|(path, version)| format!("{}:{{\"version\":{}}}", json_quoted(path), json_quoted(version)))
        .collect();
    let lockfile = format!("{{\"packages\":{{{}}}}}", records.join(","));
    assert_eq!(
        grouped(&parse_npm_lockfile(&lockfile).ok().unwrap()),
        pairs(&[("a", &["1", "2"]), ("@b/é", &["3"])])
    );
}

#[test]
fn written_shared_dependencies_read_back() {
    for alias in ODD_TEXTS {
        let quoted = toml_quoted(alias);
        let before = "[workspace]\nmembers = [\"a\"]\n[workspace.dependencies]\nother = 1\n";
        let plain = format!("{before}[workspace.dependencies]\n{quoted} = \"*\"\n");
        let workspace = parse_workspace(&plain).ok().unwrap();
        assert!(workspace.present);
        assert_eq!(workspace.members, ["a"]);
        assert_eq!(workspace.dependencies.len(), 2);
        assert!(workspace.dependencies.get(alias).unwrap().package.is_none());
        for package in ODD_TEXTS {
            let renamed = format!(
                "{plain}[workspace.dependencies]\n{quoted} = {{ package = {} }}\n",
                toml_quoted(package)
            );
            let workspace = parse_workspace(&renamed).ok().unwrap();
            assert_eq!(workspace.dependencies.len(), 2);
            let found = workspace.dependencies.get(alias).unwrap();
            assert_eq!(found.package.as_deref(), Some(package));
        }
    }
}

#[test]
fn json_values_are_read_forward() {
    for input in [" {\"a\": [1]} x", "[]x", "\"é\"x", "truex", "-1.5e3x", "{}x"] {
        let mut parser = JsonParser { input, offset: 0 };
        assert!(parser.parse_value().is_ok());
        assert_eq!(&input[parser.offset..].trim_start()[..1], "x");
    }
}
