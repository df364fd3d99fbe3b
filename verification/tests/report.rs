use depdep::collections::{Packages, TextMap, TextSet};
use depdep::report::{
    compare_packages, escape_markdown, print_diff, print_plain, print_pretty, separator, versions,
};

fn packages(list: &[(&str, &str)]) -> Packages {
    let mut packages: Packages = TextMap::new();
    for (name, version) in list {
        packages.add(name.to_string(), version.to_string());
    }
    packages
}

fn set(list: &[&str]) -> TextSet {
    let mut set = TextSet::new();
    for text in list {
        set.insert(text.to_string());
    }
    set
}

#[test]
fn escapes_markdown_table_cells() {
    assert_eq!(escape_markdown(r"crate|name\x"), r"crate\|name\\x");
}

#[test]
fn escaped_cells_show_the_text() {
    for text in ["", "|", "\\", "\\|", "|\\|", "plain", "a\\\\||b"] {
        let cell = escape_markdown(text);
        let mut shown = String::new();
        let mut chars = cell.chars();
        while let Some(c) = chars.next() {
            assert_ne!(c, '|');
            shown.push(if c == '\\' { chars.next().unwrap() } else { c });
        }
        assert_eq!(shown, text);
    }
}

#[test]
fn versions_are_listed_in_order() {
    assert_eq!(versions(Some(&set(&["2.0.0", "10.0", "1|2"]))), "10.0, 1\\|2, 2.0.0");
    assert_eq!(versions(None), "");
    assert_eq!(versions(Some(&TextSet::new())), "");
}

#[test]
fn marks_tell_the_alignment() {
    assert_eq!(separator(5, false), ":----");
    assert_eq!(separator(3, true), "--:");
    assert_eq!(separator(1, true), ":");
    assert_eq!(separator(0, false), ":");
}

#[test]
fn tables_are_printed_plain() {
    let old = packages(&[("serde", "1.0.217"), ("syn", "1.0.109"), ("syn", "2.0.90"), ("same", "1")]);
    let new = packages(&[("serde", "1.0.219"), ("syn", "2.0.100"), ("same", "1")]);
    let report = print_diff(&old, &new, &set(&["serde", "syn", "same"]), false, false, "crate");
    assert_eq!(
        report.stdout,
        "| crate | old | new |\n\
         | --- | --- | --- |\n\
         | serde | 1.0.217 | 1.0.219 |\n\
         | syn | 1.0.109, 2.0.90 | 2.0.100 |\n"
    );
    assert_eq!(report.stderr, "");
}

#[test]
fn tables_are_printed_pretty() {
    let old = packages(&[("serde", "1.0.217"), ("syn", "1.0.109"), ("syn", "2.0.90")]);
    let new = packages(&[("serde", "1.0.219"), ("syn", "2.0.100")]);
    let report = print_diff(&old, &new, &set(&["serde", "syn"]), false, true, "crate");
    assert_eq!(
        report.stdout,
        "| crate |             old |     new |\n\
         | :---- | --------------: | ------: |\n\
         | serde |         1.0.217 | 1.0.219 |\n\
         | syn   | 1.0.109, 2.0.90 | 2.0.100 |\n"
    );
}

#[test]
fn lines_of_pretty_tables_are_equally_long() {
    let rows = vec![
        ["é".to_string(), "1".to_string(), String::new()],
        ["a long name".to_string(), String::new(), "0.0.0-alpha".to_string()],
    ];
    let table = print_pretty(&rows, "package");
    let lengths: Vec<usize> = table.lines().map(|line| line.chars().count()).collect();
    assert_eq!(lengths, [lengths[0]; 4]);
    assert_eq!(
        print_plain(&rows, "package"),
        "| package | old | new |\n| --- | --- | --- |\n| é | 1 |  |\n| a long name |  | 0.0.0-alpha |\n"
    );
}

#[test]
fn added_and_removed_packages_have_an_empty_cell() {
    let old = packages(&[("removed", "4.0.0")]);
    let new = packages(&[("added", "0.1.0")]);
    let changes = compare_packages(&old, &new, &TextSet::new(), true);
    assert_eq!(changes.rows, [["added", "", "0.1.0"], ["removed", "4.0.0", ""]]);
    assert_eq!(changes.hidden, 0);
    let swapped = compare_packages(&new, &old, &TextSet::new(), true);
    assert_eq!(swapped.rows, [["added", "0.1.0", ""], ["removed", "", "4.0.0"]]);
}

#[test]
fn transitive_changes_are_counted() {
    let old = packages(&[("a", "1"), ("b", "1"), ("c", "1"), ("same", "1")]);
    let new = packages(&[("a", "2"), ("b", "2"), ("d", "1"), ("same", "1")]);
    let report = print_diff(&old, &new, &set(&["b", "same"]), false, false, "crate");
    assert_eq!(report.stdout, "| crate | old | new |\n| --- | --- | --- |\n| b | 1 | 2 |\n");
    assert_eq!(
        report.stderr,
        "3 additional transitive dependency changes not shown; use --all to show them\n"
    );
    let report = print_diff(&old, &new, &set(&["a", "b", "c"]), false, true, "crate");
    assert_eq!(
        report.stderr,
        "1 additional transitive dependency change not shown; use --all to show it\n"
    );
    let report = print_diff(&old, &new, &TextSet::new(), false, false, "crate");
    assert_eq!(report.stdout, "");
    assert_eq!(
        report.stderr,
        "4 additional transitive dependency changes not shown; use --all to show them\n"
    );
    let report = print_diff(&old, &new, &TextSet::new(), true, false, "crate");
    assert_eq!(report.stdout.lines().count(), 6);
    assert_eq!(report.stderr, "");
}

#[test]
fn equal_packages_have_no_changes() {
    let old = packages(&[("a", "1"), ("a", "2")]);
    let new = packages(&[("a", "2"), ("a", "1")]);
    for all in [false, true] {
        for pretty in [false, true] {
            let report = print_diff(&old, &new, &set(&["a"]), all, pretty, "crate");
            assert_eq!(report.stdout, "");
            assert_eq!(report.stderr, "no changes\n");
        }
    }
}
