//! Reading `package.json` and `package-lock.json`.

use vstd::prelude::*;
use vstd::string::*;
use vstd::utf8;

use crate::collections;
use crate::collections::{Packages, PackageVersions, TextMap, TextSet};
use crate::external;
use crate::external::quoted;
use crate::json;
use crate::json::{parse_json, Json, JsonValue};
use crate::json_grammar;
use crate::order;
use crate::text;
use crate::text::{concat3, same_text};

verus! {

/// What a JSON document says.
pub open spec fn read_json(contents: Seq<char>) -> Result<Json, Seq<char>> {
    match json_grammar::document(utf8::encode_utf8(contents)) {
        Err(fault) => Err(json_grammar::fault_text(fault)),
        Ok(tree) => Ok(tree),
    }
}

/// The text of a string member.
pub open spec fn string_field(object: Map<Seq<char>, Json>, field: Seq<char>) -> Result<
    Option<Seq<char>>,
    Seq<char>,
> {
    if object.dom().contains(field) {
        match object[field] {
            Json::String(found) => Ok(Some(found)),
            _ => Err("expected "@ + external::debug_text(field) + " to be a JSON string"@),
        }
    } else {
        Ok(None)
    }
}

/// The text of a string member.
pub fn json_string_field<'a>(object: &'a TextMap<JsonValue>, field: &str) -> (found: Result<
    Option<&'a str>,
    String,
>)
    ensures
        text::outcome(found) == string_field(json::members_of(*object), field@),
{
    match object.get(field) {
        Some(value) => match value.as_text() {
            Some(found) => Ok(Some(found)),
            None => Err(concat3("expected ", quoted(field).as_str(), " to be a JSON string")),
        },
        None => Ok(None),
    }
}

/// Whether `word` stands in `s` at position `i`.
pub open spec fn occurs_at(s: Seq<char>, word: Seq<char>, i: int) -> bool {
    0 <= i && i + word.len() <= s.len() && s.subrange(i, i + word.len()) == word
}

/// Whether `word` stands in `s` at position `i` and at no later one.
pub open spec fn last_at(s: Seq<char>, word: Seq<char>, i: int) -> bool {
    occurs_at(s, word, i) && forall|j: int| i < j ==> !#[trigger] occurs_at(s, word, j)
}

/// The package installed at a path: what stands behind the last `node_modules/`.
pub open spec fn package_at(path: Seq<char>) -> Option<Seq<char>> {
    let word = "node_modules/"@;
    if exists|i: int| last_at(path, word, i) {
        let i = choose|i: int| last_at(path, word, i);
        let name = path.skip(i + word.len());
        if name.len() > 0 {
            Some(name)
        } else {
            None
        }
    } else {
        None
    }
}

/// The package installed at a path.
pub fn npm_package_name(path: &str) -> (name: Option<&str>)
    ensures
        name.deep_view() == package_at(path@),
{
    let word = "node_modules/";
    let length: usize = word.unicode_len();
    let total: usize = path.unicode_len();
    if total < length {
        return None;
    }
    let mut i: usize = total - length;
    loop
        invariant
            word@ == "node_modules/"@,
            length == word@.len(),
            total == path@.len(),
            i + length <= total,
            forall|j: int| i < j ==> !#[trigger] occurs_at(path@, word@, j),
        decreases i,
    {
        if same_text(path.substring_char(i, i + length), word) {
            proof {
                assert(last_at(path@, word@, i as int));
                let k = choose|k: int| last_at(path@, word@, k);
                assert(last_at(path@, word@, k));
                if k < i {
                    assert(occurs_at(path@, word@, i as int));
                } else if i < k {
                    assert(occurs_at(path@, word@, k));
                }
                assert(path@.skip(i + length) =~= path@.subrange(i + length, total as int));
            }
            if i + length == total {
                return None;
            }
            return Some(path.substring_char(i + length, total));
        }
        assert(!occurs_at(path@, word@, i as int));
        if i == 0 {
            proof {
                if exists|k: int| last_at(path@, word@, k) {
                    let k = choose|k: int| last_at(path@, word@, k);
                    assert(occurs_at(path@, word@, k));
                }
            }
            return None;
        }
        i -= 1;
    }
}

/// The fields of a manifest that declare dependencies.
pub open spec fn dependency_fields() -> Seq<Seq<char>> {
    seq![
        "dependencies"@,
        "devDependencies"@,
        "optionalDependencies"@,
        "peerDependencies"@,
    ]
}

/// The names that one field of a manifest declares.
pub open spec fn names_in_field(root: Map<Seq<char>, Json>, field: Seq<char>) -> Result<
    Set<Seq<char>>,
    Seq<char>,
> {
    if root.dom().contains(field) {
        match root[field] {
            Json::Object(declared) => Ok(declared.dom()),
            _ => Err("expected "@ + external::debug_text(field) + " to be a JSON object"@),
        }
    } else {
        Ok(Set::empty())
    }
}

/// The names that the fields of a manifest declare, or the first error.
pub open spec fn names_in_fields(root: Map<Seq<char>, Json>, fields: Seq<Seq<char>>) -> Result<
    Set<Seq<char>>,
    Seq<char>,
>
    decreases fields.len(),
{
    if fields.len() == 0 {
        Ok(Set::empty())
    } else {
        match names_in_fields(root, fields.drop_last()) {
            Err(e) => Err(e),
            Ok(names) => match names_in_field(root, fields.last()) {
                Err(e) => Err(e),
                Ok(more) => Ok(names.union(more)),
            },
        }
    }
}

/// The dependencies that a `package.json` declares.
pub open spec fn npm_manifest(contents: Seq<char>) -> Result<Set<Seq<char>>, Seq<char>> {
    match read_json(contents) {
        Err(e) => Err(e),
        Ok(Json::Object(root)) => names_in_fields(root, dependency_fields()),
        Ok(_) => Err("expected the manifest to contain a JSON object"@),
    }
}

/// Adds the names that one field of a manifest declares.
fn add_names(root: &TextMap<JsonValue>, field: &str, names: &mut TextSet) -> (added: Result<
    (),
    String,
>)
    ensures
        match (added, names_in_field(json::members_of(*root), field@)) {
            (Ok(_), Ok(more)) => final(names)@ == old(names)@.union(more),
            (Err(error), Err(meant)) => error@ == meant,
            _ => false,
        },
{
    let value = match root.get(field) {
        Some(value) => value,
        None => {
            assert(names@.union(Set::empty()) =~= names@);
            return Ok(());
        },
    };
    let declared = match value.as_object() {
        Some(declared) => declared,
        None => {
            return Err(concat3("expected ", quoted(field).as_str(), " to be a JSON object"));
        },
    };
    let ghost before = names@;
    let count: usize = declared.len();
    let ghost listing = declared.listing();
    assert(names@ =~= before.union(listing.take(0).to_set()));
    for i in 0..count
        invariant
            count == declared.listing().len(),
            listing == declared.listing(),
            names@ == before.union(listing.take(i as int).to_set()),
    {
        names.insert(declared.key(i).clone());
        proof {
            order::lemma_take_more(listing, i as int);
            assert(names@ =~= before.union(listing.take(i + 1).to_set()));
        }
    }
    proof {
        assert(listing.take(count as int) =~= listing);
        assert(json::members_of(*declared).dom() =~= declared.entries().dom());
    }
    Ok(())
}

/// The dependencies that a `package.json` declares.
pub fn parse_npm_manifest(contents: &str) -> (read: Result<TextSet, String>)
    ensures
        text::outcome(read) == npm_manifest(contents@),
{
    let value = match parse_json(contents) {
        Ok(value) => value,
        Err(error) => {
            return Err(error);
        },
    };
    let root = match value.as_object() {
        Some(root) => root,
        None => {
            return Err("expected the manifest to contain a JSON object".to_owned());
        },
    };
    let ghost members = json::members_of(*root);
    let ghost fields = dependency_fields();
    let mut names = TextSet::new();
    proof {
        reveal_with_fuel(names_in_fields, 5);
        assert(fields.drop_last() =~= seq![
            "dependencies"@,
            "devDependencies"@,
            "optionalDependencies"@,
        ]);
        assert(fields.drop_last().drop_last() =~= seq!["dependencies"@, "devDependencies"@]);
        assert(fields.drop_last().drop_last().drop_last() =~= seq!["dependencies"@]);
        assert(fields.drop_last().drop_last().drop_last().drop_last() =~= seq![]);
    }
    match add_names(root, "dependencies", &mut names) {
        Ok(_) => {},
        Err(error) => {
            return Err(error);
        },
    }
    match add_names(root, "devDependencies", &mut names) {
        Ok(_) => {},
        Err(error) => {
            return Err(error);
        },
    }
    match add_names(root, "optionalDependencies", &mut names) {
        Ok(_) => {},
        Err(error) => {
            return Err(error);
        },
    }
    match add_names(root, "peerDependencies", &mut names) {
        Ok(_) => {},
        Err(error) => {
            return Err(error);
        },
    }
    Ok(names)
}

/// The package that a record of a lockfile stands for. A linked workspace has no
/// version, and the record at the empty path is the project itself.
pub open spec fn package_in_record(path: Seq<char>, value: Json) -> Result<
    Option<(Seq<char>, Seq<char>)>,
    Seq<char>,
> {
    if path.len() == 0 {
        Ok(None)
    } else {
        match value {
            Json::Object(record) => match string_field(record, "version"@) {
                Err(e) => Err(e),
                Ok(None) => Ok(None),
                Ok(Some(version)) => match string_field(record, "name"@) {
                    Err(e) => Err(e),
                    Ok(Some(name)) => Ok(Some((name, version))),
                    Ok(None) => match package_at(path) {
                        Some(name) => Ok(Some((name, version))),
                        None => Ok(None),
                    },
                },
            },
            _ => Err("expected package "@ + external::debug_text(path) + " to be a JSON object"@),
        }
    }
}

/// Which records of a lockfile cannot be read.
pub open spec fn unreadable(records: Map<Seq<char>, Json>) -> spec_fn(Seq<char>) -> bool {
    |path: Seq<char>|
        records.dom().contains(path) && package_in_record(path, records[path]) is Err
}

/// The packages in the records of a lockfile.
pub open spec fn recorded(records: Map<Seq<char>, Json>) -> Set<(Seq<char>, Seq<char>)> {
    Set::new(
        |package: (Seq<char>, Seq<char>)|
            exists|path: Seq<char>| #[trigger]
                records.dom().contains(path) && package_in_record(path, records[path]) == Ok::<
                    Option<(Seq<char>, Seq<char>)>,
                    Seq<char>,
                >(Some(package)),
    )
}

/// The versions of each package in the records of a lockfile, or the error of the
/// first record, in the order of the paths, that cannot be read.
pub open spec fn recorded_versions(records: Map<Seq<char>, Json>) -> Result<
    PackageVersions,
    Seq<char>,
> {
    let bad = unreadable(records);
    if exists|path: Seq<char>| #[trigger] bad(path) {
        let path = order::first_of(bad);
        Err(package_in_record(path, records[path])->Err_0)
    } else {
        Ok(collections::grouped(recorded(records)))
    }
}

/// The package that a record of a lockfile stands for.
fn read_record(path: &str, value: &JsonValue) -> (read: Result<Option<(String, String)>, String>)
    ensures
        match (read, package_in_record(path@, value.tree())) {
            (Ok(Some((name, version))), Ok(Some(meant))) => (name@, version@) == meant,
            (Ok(None), Ok(None)) => true,
            (Err(error), Err(meant)) => error@ == meant,
            _ => false,
        },
{
    if path.is_empty() {
        return Ok(None);
    }
    let record = match value.as_object() {
        Some(record) => record,
        None => {
            return Err(
                concat3("expected package ", quoted(path).as_str(), " to be a JSON object"),
            );
        },
    };
    let version = match json_string_field(record, "version") {
        Ok(Some(version)) => version,
        Ok(None) => {
            return Ok(None);
        },
        Err(error) => {
            return Err(error);
        },
    };
    match json_string_field(record, "name") {
        Ok(Some(name)) => Ok(Some((name.to_owned(), version.to_owned()))),
        Ok(None) => match npm_package_name(path) {
            Some(name) => Ok(Some((name.to_owned(), version.to_owned()))),
            None => Ok(None),
        },
        Err(error) => Err(error),
    }
}

/// The packages in the records at the first places of a listing.
spec fn first_recorded(records: Map<Seq<char>, Json>, listing: Seq<Seq<char>>, count: int) -> Set<
    (Seq<char>, Seq<char>),
> {
    Set::new(
        |package: (Seq<char>, Seq<char>)|
            exists|i: int|
                0 <= i < count && #[trigger] package_in_record(listing[i], records[listing[i]])
                    == Ok::<Option<(Seq<char>, Seq<char>)>, Seq<char>>(Some(package)),
    )
}

proof fn lemma_first_recorded(records: Map<Seq<char>, Json>, listing: Seq<Seq<char>>, count: int)
    requires
        0 <= count < listing.len(),
    ensures
        first_recorded(records, listing, count + 1) == match package_in_record(
            listing[count],
            records[listing[count]],
        ) {
            Ok(Some(package)) => first_recorded(records, listing, count).insert(package),
            _ => first_recorded(records, listing, count),
        },
{
    let grown = first_recorded(records, listing, count + 1);
    let before = first_recorded(records, listing, count);
    let last = package_in_record(listing[count], records[listing[count]]);
    assert forall|p: (Seq<char>, Seq<char>)| #[trigger] grown.contains(p) == (before.contains(p)
        || last == Ok::<Option<(Seq<char>, Seq<char>)>, Seq<char>>(Some(p))) by {
        if grown.contains(p) {
            let i = choose|i: int|
                0 <= i < count + 1 && #[trigger] package_in_record(listing[i], records[listing[i]])
                    == Ok::<Option<(Seq<char>, Seq<char>)>, Seq<char>>(Some(p));
            if i < count {
                assert(before.contains(p));
            }
        }
    }
    match last {
        Ok(Some(package)) => {
            assert(grown =~= before.insert(package));
        },
        _ => {
            assert(grown =~= before);
        },
    }
}

proof fn lemma_all_recorded(records: Map<Seq<char>, Json>, listing: Seq<Seq<char>>)
    requires
        listing.to_set() == records.dom(),
    ensures
        first_recorded(records, listing, listing.len() as int) == recorded(records),
{
    let all = first_recorded(records, listing, listing.len() as int);
    assert forall|p: (Seq<char>, Seq<char>)| #[trigger] all.contains(p) == recorded(
        records,
    ).contains(p) by {
        if all.contains(p) {
            let i = choose|i: int|
                0 <= i < listing.len() && #[trigger] package_in_record(
                    listing[i],
                    records[listing[i]],
                ) == Ok::<Option<(Seq<char>, Seq<char>)>, Seq<char>>(Some(p));
            assert(listing.to_set().contains(listing[i]));
            assert(records.dom().contains(listing[i]));
        }
        if recorded(records).contains(p) {
            let path = choose|path: Seq<char>| #[trigger]
                records.dom().contains(path) && package_in_record(path, records[path]) == Ok::<
                    Option<(Seq<char>, Seq<char>)>,
                    Seq<char>,
                >(Some(p));
            assert(listing.to_set().contains(path));
            let i = choose|i: int| 0 <= i < listing.len() && listing[i] == path;
            assert(package_in_record(listing[i], records[listing[i]]) == Ok::<
                Option<(Seq<char>, Seq<char>)>,
                Seq<char>,
            >(Some(p)));
        }
    }
    assert(all =~= recorded(records));
}

/// The versions of each package in the records of a lockfile.
fn read_records(records: &TextMap<JsonValue>) -> (read: Result<Packages, String>)
    ensures
        text::outcome(read) == recorded_versions(json::members_of(*records)),
{
    let mut packages: Packages = TextMap::new();
    let count: usize = records.len();
    let ghost listing = records.listing();
    let ghost members = json::members_of(*records);
    let ghost bad = unreadable(members);
    let ghost none = Map::<Seq<char>, Set<Seq<char>>>::empty();
    proof {
        assert(members.dom() =~= records.entries().dom());
        assert(first_recorded(members, listing, 0) =~= Set::empty());
        collections::lemma_no_version(none);
        assert(packages@ =~= none);
        assert forall|path: Seq<char>| #[trigger] bad(path) implies listing.contains(path) by {
            assert(listing.to_set().contains(path));
        }
    }
    for i in 0..count
        invariant
            count == records.listing().len(),
            listing == records.listing(),
            order::increasing(listing, order::text_order()),
            members == json::members_of(*records),
            bad == unreadable(members),
            forall|path: Seq<char>| #[trigger] bad(path) ==> listing.contains(path),
            forall|j: int| 0 <= j < i ==> !bad(#[trigger] listing[j]),
            none == Map::<Seq<char>, Set<Seq<char>>>::empty(),
            packages@ == collections::with_versions(
                none,
                first_recorded(members, listing, i as int),
            ),
    {
        let path = records.key(i);
        let value = records.value(i);
        assert(members[listing[i as int]] == value.tree());
        assert(members.dom().contains(listing[i as int]));
        proof {
            lemma_first_recorded(members, listing, i as int);
        }
        match read_record(path.as_str(), value) {
            Ok(Some((name, version))) => {
                proof {
                    collections::lemma_one_more_version(
                        none,
                        first_recorded(members, listing, i as int),
                        name@,
                        version@,
                    );
                }
                packages.add(name, version);
            },
            Ok(None) => {},
            Err(error) => {
                proof {
                    assert(bad(listing[i as int]));
                    order::lemma_first_listed(bad, listing, i as int);
                }
                return Err(error);
            },
        }
        assert(!bad(listing[i as int]));
    }
    proof {
        assert forall|path: Seq<char>| !#[trigger] bad(path) by {
            if bad(path) {
                let j = choose|j: int| 0 <= j < listing.len() && listing[j] == path;
                assert(!bad(listing[j]));
            }
        }
        lemma_all_recorded(members, listing);
    }
    Ok(packages)
}

/// What a walk through a tree of dependencies found before it ended or failed.
pub struct Walk {
    pub found: Set<(Seq<char>, Seq<char>)>,
    pub fault: Option<Seq<char>>,
}

/// A walk that ends at a fault.
pub open spec fn failed(found: Set<(Seq<char>, Seq<char>)>, fault: Seq<char>) -> Walk {
    Walk { found, fault: Some(fault) }
}

/// The walk through a tree of dependencies, in the order of their names.
pub open spec fn walk(dependencies: Map<Seq<char>, Json>) -> Walk
    decreases dependencies, 2nat, 0nat,
{
    walk_first(dependencies, collections::listed(dependencies.dom()).len())
}

/// The walk through the first dependencies of a tree.
pub open spec fn walk_first(dependencies: Map<Seq<char>, Json>, count: nat) -> Walk
    decreases dependencies, 1nat, count,
{
    if count == 0 {
        Walk { found: Set::empty(), fault: None }
    } else {
        let before = walk_first(dependencies, (count - 1) as nat);
        if before.fault is Some {
            before
        } else {
            let name = collections::listed(dependencies.dom())[count - 1];
            let one = walk_one(dependencies, name);
            Walk { found: before.found.union(one.found), fault: one.fault }
        }
    }
}

/// The walk through one dependency, which needs a version, and through those
/// nested in it. (Objects that were read have finitely many members, as
/// `json_grammar::documents_are_finite` says.)
pub open spec fn walk_one(dependencies: Map<Seq<char>, Json>, name: Seq<char>) -> Walk
    decreases dependencies, 0nat, 0nat,
{
    if !dependencies.dom().finite() || !dependencies.dom().contains(name) {
        Walk { found: Set::empty(), fault: None }
    } else {
        let shown = external::debug_text(name);
        match dependencies[name] {
            Json::Object(record) => match string_field(record, "version"@) {
                Err(e) => failed(Set::empty(), e),
                Ok(None) => failed(
                    Set::empty(),
                    "dependency "@ + shown + " does not have a version"@,
                ),
                Ok(Some(version)) => {
                    let this = Set::empty().insert((name, version));
                    if !record.dom().finite() || !record.dom().contains("dependencies"@) {
                        Walk { found: this, fault: None }
                    } else {
                        match record["dependencies"@] {
                            Json::Object(nested) => {
                                let below = walk(nested);
                                Walk { found: this.union(below.found), fault: below.fault }
                            },
                            _ => failed(
                                this,
                                "expected nested dependencies for "@ + shown
                                    + " to be a JSON object"@,
                            ),
                        }
                    }
                },
            },
            _ => failed(
                Set::empty(),
                "expected dependency "@ + shown + " to be a JSON object"@,
            ),
        }
    }
}

/// A fault among the first dependencies of a tree is the fault of the tree.
proof fn lemma_walk_fault(dependencies: Map<Seq<char>, Json>, count: nat, more: nat)
    requires
        count <= more,
        walk_first(dependencies, count).fault is Some,
    ensures
        walk_first(dependencies, more) == walk_first(dependencies, count),
    decreases more,
{
    if count < more {
        lemma_walk_fault(dependencies, count, (more - 1) as nat);
    }
}

/// Adds the packages of a tree of dependencies. Where the tree is faulty, those
/// before the fault are added.
pub fn add_npm_dependency_tree(
    dependencies: &TextMap<JsonValue>,
    packages: &mut Packages,
) -> (added: Result<(), String>)
    ensures
        final(packages)@ == collections::with_versions(
            old(packages)@,
            walk(json::members_of(*dependencies)).found,
        ),
        match (added, walk(json::members_of(*dependencies)).fault) {
            (Ok(_), None) => true,
            (Err(error), Some(fault)) => error@ == fault,
            _ => false,
        },
    decreases json::members_of(*dependencies),
{
    let count: usize = dependencies.len();
    let ghost members = json::members_of(*dependencies);
    let ghost listing = dependencies.listing();
    let ghost known = packages@;
    proof {
        assert(members.dom() =~= dependencies.entries().dom());
        collections::lemma_no_version(known);
    }
    for i in 0..count
        invariant
            count == dependencies.listing().len(),
            listing == dependencies.listing(),
            listing == collections::listed(members.dom()),
            members == json::members_of(*dependencies),
            members.dom() == dependencies.entries().dom(),
            members.dom().finite(),
            known == old(packages)@,
            walk_first(members, i as nat).fault is None,
            packages@ == collections::with_versions(known, walk_first(members, i as nat).found),
    {
        let name = dependencies.key(i);
        let value = dependencies.value(i);
        let ghost before = walk_first(members, i as nat);
        let ghost one = walk_one(members, listing[i as int]);
        proof {
            assert(members[listing[i as int]] == value.tree());
            assert(members.dom().contains(listing[i as int]));
            if one.fault is Some {
                lemma_walk_fault(members, (i + 1) as nat, count as nat);
            }
            assert(before.found.union(Set::empty()) =~= before.found);
        }
        let dependency = match value.as_object() {
            Some(dependency) => dependency,
            None => {
                return Err(
                    concat3(
                        "expected dependency ",
                        quoted(name.as_str()).as_str(),
                        " to be a JSON object",
                    ),
                );
            },
        };
        let ghost record = json::members_of(*dependency);
        let version = match json_string_field(dependency, "version") {
            Ok(Some(version)) => version,
            Ok(None) => {
                return Err(
                    concat3(
                        "dependency ",
                        quoted(name.as_str()).as_str(),
                        " does not have a version",
                    ),
                );
            },
            Err(error) => {
                return Err(error);
            },
        };
        let ghost this = Set::<(Seq<char>, Seq<char>)>::empty().insert((name@, version@));
        proof {
            collections::lemma_one_more_version(known, before.found, name@, version@);
            assert(before.found.insert((name@, version@)) =~= before.found.union(this));
        }
        packages.add(name.clone(), version.to_owned());
        let size: usize = dependency.len();
        proof {
            assert(record.dom() =~= dependency.entries().dom());
        }
        if let Some(nested) = dependency.get("dependencies") {
            match nested.as_object() {
                Some(nested) => {
                    let ghost below = walk(json::members_of(*nested));
                    proof {
                        assert(members[name@] == Json::Object(record));
                        assert(record["dependencies"@] == Json::Object(json::members_of(*nested)));
                        assert(decreases_to!(members => members[name@]));
                        assert(decreases_to!(record => record["dependencies"@]));
                        collections::lemma_found_together(
                            known,
                            before.found.union(this),
                            below.found,
                        );
                        assert(before.found.union(this).union(below.found) =~= before.found.union(
                            this.union(below.found),
                        ));
                    }
                    match add_npm_dependency_tree(nested, packages) {
                        Ok(_) => {},
                        Err(error) => {
                            return Err(error);
                        },
                    }
                },
                None => {
                    return Err(
                        concat3(
                            "expected nested dependencies for ",
                            quoted(name.as_str()).as_str(),
                            " to be a JSON object",
                        ),
                    );
                },
            }
        }
    }
    Ok(())
}

/// The versions of each package in a tree of dependencies.
pub open spec fn nested_versions(dependencies: Map<Seq<char>, Json>) -> Result<
    PackageVersions,
    Seq<char>,
> {
    match walk(dependencies).fault {
        Some(fault) => Err(fault),
        None => Ok(collections::grouped(walk(dependencies).found)),
    }
}

/// The versions of each package in a `package-lock.json`. Newer lockfiles record
/// packages by their paths, the first format nests dependencies in a tree.
pub open spec fn npm_lockfile(contents: Seq<char>) -> Result<PackageVersions, Seq<char>> {
    match read_json(contents) {
        Err(e) => Err(e),
        Ok(Json::Object(root)) => if root.dom().contains("packages"@) {
            match root["packages"@] {
                Json::Object(records) => recorded_versions(records),
                _ => Err("expected \"packages\" to be a JSON object"@),
            }
        } else if root.dom().contains("dependencies"@) {
            match root["dependencies"@] {
                Json::Object(dependencies) => nested_versions(dependencies),
                _ => Err("expected \"dependencies\" to be a JSON object"@),
            }
        } else {
            Ok(Map::empty())
        },
        Ok(_) => Err("expected the lockfile to contain a JSON object"@),
    }
}

/// The versions of each package in a `package-lock.json`.
pub fn parse_npm_lockfile(contents: &str) -> (read: Result<Packages, String>)
    ensures
        text::outcome(read) == npm_lockfile(contents@),
{
    let value = match parse_json(contents) {
        Ok(value) => value,
        Err(error) => {
            return Err(error);
        },
    };
    let root = match value.as_object() {
        Some(root) => root,
        None => {
            return Err("expected the lockfile to contain a JSON object".to_owned());
        },
    };
    if let Some(records) = root.get("packages") {
        return match records.as_object() {
            Some(records) => read_records(records),
            None => Err("expected \"packages\" to be a JSON object".to_owned()),
        };
    }
    let mut packages: Packages = TextMap::new();
    assert(packages@ =~= Map::<Seq<char>, Set<Seq<char>>>::empty());
    if let Some(dependencies) = root.get("dependencies") {
        let dependencies = match dependencies.as_object() {
            Some(dependencies) => dependencies,
            None => {
                return Err("expected \"dependencies\" to be a JSON object".to_owned());
            },
        };
        match add_npm_dependency_tree(dependencies, &mut packages) {
            Ok(_) => {},
            Err(error) => {
                return Err(error);
            },
        }
    }
    Ok(packages)
}

/// A package is named by what stands behind the last `node_modules/` of its path.
pub proof fn paths_name_their_package(before: Seq<char>, name: Seq<char>)
    requires
        name.len() > 0,
        forall|j: int|
            before.len() < j ==> !#[trigger] occurs_at(
                before + "node_modules/"@ + name,
                "node_modules/"@,
                j,
            ),
    ensures
        package_at(before + "node_modules/"@ + name) == Some(name),
{
    let word = "node_modules/"@;
    let path = before + word + name;
    assert(path.subrange(before.len() as int, before.len() as int + word.len()) =~= word);
    assert(last_at(path, word, before.len() as int));
    let i = choose|i: int| last_at(path, word, i);
    assert(last_at(path, word, i));
    if i < before.len() {
        assert(occurs_at(path, word, before.len() as int));
    } else if i > before.len() {
        assert(occurs_at(path, word, i));
    }
    assert(path.skip(i + word.len()) =~= name);
}

proof fn lemma_walk_reaches(dependencies: Map<Seq<char>, Json>, count: nat, i: int)
    requires
        0 <= i < count,
        walk_first(dependencies, count).fault is None,
    ensures
        walk_one(dependencies, collections::listed(dependencies.dom())[i]).fault is None,
        walk_one(dependencies, collections::listed(dependencies.dom())[i]).found.subset_of(
            walk_first(dependencies, count).found,
        ),
    decreases count,
{
    if i < count - 1 {
        lemma_walk_reaches(dependencies, (count - 1) as nat, i);
    }
}

/// Every dependency of a tree that can be read has a version, which is found, and so
/// is all that is nested in it.
pub proof fn nested_dependencies_are_found(dependencies: Map<Seq<char>, Json>, name: Seq<char>)
    requires
        dependencies.dom().finite(),
        dependencies.dom().contains(name),
        walk(dependencies).fault is None,
    ensures
        dependencies[name] matches Json::Object(record) && string_field(
            record,
            "version"@,
        ) matches Ok(Some(version)) && walk(dependencies).found.contains((name, version)) && (
        record.dom().finite() && record.dom().contains("dependencies"@)
            ==> (record["dependencies"@] matches Json::Object(nested) && walk(nested).fault is None
            && walk(nested).found.subset_of(walk(dependencies).found))),
{
    let listing = collections::listed(dependencies.dom());
    collections::lemma_listed(dependencies.dom());
    assert(listing.to_set().contains(name));
    let i = choose|i: int| 0 <= i < listing.len() && listing[i] == name;
    lemma_walk_reaches(dependencies, listing.len(), i);
    let one = walk_one(dependencies, name);
    assert(one.found.subset_of(walk(dependencies).found));
    if let Json::Object(record) = dependencies[name] {
        if let Ok(Some(version)) = string_field(record, "version"@) {
            assert(one.found.contains((name, version)));
        }
    }
}

/// The record at the end of a chain of names, each nested in the one before it.
pub open spec fn record_at(dependencies: Map<Seq<char>, Json>, chain: Seq<Seq<char>>) -> Option<
    Map<Seq<char>, Json>,
>
    decreases chain.len(),
{
    if chain.len() == 0 || !dependencies.dom().contains(chain[0]) {
        None
    } else {
        match dependencies[chain[0]] {
            Json::Object(record) => if chain.len() == 1 {
                Some(record)
            } else if !record.dom().contains("dependencies"@) {
                None
            } else {
                match record["dependencies"@] {
                    Json::Object(nested) => record_at(nested, chain.skip(1)),
                    _ => None,
                }
            },
            _ => None,
        }
    }
}

/// Whether a tree of dependencies holds a version of a package at the end of a chain of
/// names.
pub open spec fn holds_at(
    dependencies: Map<Seq<char>, Json>,
    chain: Seq<Seq<char>>,
    version: Seq<char>,
) -> bool {
    record_at(dependencies, chain) matches Some(record) && string_field(record, "version"@) == Ok::<
        Option<Seq<char>>,
        Seq<char>,
    >(Some(version))
}

/// What stands anywhere in a tree that can be read is found.
proof fn lemma_held_is_found(
    dependencies: Map<Seq<char>, Json>,
    chain: Seq<Seq<char>>,
    version: Seq<char>,
)
    requires
        json::is_finite(Json::Object(dependencies)),
        walk(dependencies).fault is None,
        holds_at(dependencies, chain, version),
    ensures
        walk(dependencies).found.contains((chain.last(), version)),
    decreases chain.len(),
{
    let name = chain[0];
    nested_dependencies_are_found(dependencies, name);
    assert(json::is_finite(dependencies[name]));
    if chain.len() > 1 {
        let record = dependencies[name]->Object_0;
        assert(json::is_finite(record["dependencies"@]));
        let nested = record["dependencies"@]->Object_0;
        lemma_held_is_found(nested, chain.skip(1), version);
        assert(chain.skip(1).last() == chain.last());
    }
}

/// What is found among the first dependencies of a tree stands somewhere in it.
proof fn lemma_found_is_held(
    dependencies: Map<Seq<char>, Json>,
    count: nat,
    name: Seq<char>,
    version: Seq<char>,
) -> (chain: Seq<Seq<char>>)
    requires
        count <= collections::listed(dependencies.dom()).len(),
        walk_first(dependencies, count).found.contains((name, version)),
    ensures
        chain.len() > 0,
        chain.last() == name,
        holds_at(dependencies, chain, version),
    decreases dependencies, count,
{
    let before = walk_first(dependencies, (count - 1) as nat);
    if before.found.contains((name, version)) {
        lemma_found_is_held(dependencies, (count - 1) as nat, name, version)
    } else {
        let first = collections::listed(dependencies.dom())[count - 1];
        let one = walk_one(dependencies, first);
        assert(one.found.contains((name, version)));
        assert(dependencies.dom().finite() && dependencies.dom().contains(first));
        assert(dependencies[first] is Object);
        let record = dependencies[first]->Object_0;
        assert(string_field(record, "version"@) matches Ok(Some(_)));
        let own = string_field(record, "version"@)->Ok_0->Some_0;
        if first == name && own == version {
            let chain = seq![name];
            assert(chain.last() == name);
            chain
        } else {
            assert(record.dom().finite() && record.dom().contains("dependencies"@));
            assert(record["dependencies"@] is Object);
            let nested = record["dependencies"@]->Object_0;
            let listing = collections::listed(nested.dom());
            assert(walk(nested).found.contains((name, version)));
            let below = lemma_found_is_held(nested, listing.len(), name, version);
            let chain = seq![first] + below;
            assert(chain.skip(1) =~= below);
            assert(chain.last() == below.last());
            chain
        }
    }
}

/// A walk through a tree that can be read finds exactly the versions that stand anywhere
/// in the tree, each under the name that it stands under.
pub proof fn walks_find_what_the_tree_holds(
    dependencies: Map<Seq<char>, Json>,
    name: Seq<char>,
    version: Seq<char>,
)
    requires
        json::is_finite(Json::Object(dependencies)),
        walk(dependencies).fault is None,
    ensures
        walk(dependencies).found.contains((name, version)) <==> exists|chain: Seq<Seq<char>>|
            chain.len() > 0 && chain.last() == name && #[trigger] holds_at(
                dependencies,
                chain,
                version,
            ),
{
    if walk(dependencies).found.contains((name, version)) {
        let chain = lemma_found_is_held(
            dependencies,
            collections::listed(dependencies.dom()).len(),
            name,
            version,
        );
        assert(holds_at(dependencies, chain, version));
    }
    if exists|chain: Seq<Seq<char>>|
        chain.len() > 0 && chain.last() == name && #[trigger] holds_at(
            dependencies,
            chain,
            version,
        ) {
        let chain = choose|chain: Seq<Seq<char>>|
            chain.len() > 0 && chain.last() == name && #[trigger] holds_at(
                dependencies,
                chain,
                version,
            );
        lemma_held_is_found(dependencies, chain, version);
    }
}

} // verus!
