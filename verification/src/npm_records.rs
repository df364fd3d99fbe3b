//! What is read of the records of a lockfile and the fields of a manifest, and that
//! nothing else of them matters.

use vstd::prelude::*;

use crate::collections;
use crate::collections::PackageVersions;
use crate::json::Json;
use crate::json_writing;
use crate::json_writing::Written;
use crate::npm;
use crate::npm_writing;

verus! {

/// Whether two objects agree on a member: both have it with the same value, or neither
/// has it.
pub open spec fn agree_on(
    first: Map<Seq<char>, Json>,
    second: Map<Seq<char>, Json>,
    key: Seq<char>,
) -> bool {
    &&& first.dom().contains(key) == second.dom().contains(key)
    &&& first.dom().contains(key) ==> first[key] == second[key]
}

/// What a record stands for depends on its path, its version and its name only.
pub proof fn only_versions_and_names_count(
    path: Seq<char>,
    first: Map<Seq<char>, Json>,
    second: Map<Seq<char>, Json>,
)
    requires
        agree_on(first, second, "version"@),
        agree_on(first, second, "name"@),
    ensures
        npm::package_in_record(path, Json::Object(first)) == npm::package_in_record(
            path,
            Json::Object(second),
        ),
{
}

/// A record with a version stands for the package that it names, or else for the package
/// that its path names. Without a version, or at the empty path, it stands for none.
pub proof fn records_stand_for_packages(
    path: Seq<char>,
    record: Map<Seq<char>, Json>,
    version: Seq<char>,
    name: Seq<char>,
)
    ensures
        path.len() == 0 ==> npm::package_in_record(path, Json::Object(record)) == Ok::<
            Option<(Seq<char>, Seq<char>)>,
            Seq<char>,
        >(None),
        !record.dom().contains("version"@) ==> npm::package_in_record(path, Json::Object(record))
            == Ok::<Option<(Seq<char>, Seq<char>)>, Seq<char>>(None),
        path.len() > 0 && record.dom().contains("version"@) && record["version"@] == Json::String(
            version,
        ) && record.dom().contains("name"@) && record["name"@] == Json::String(name)
            ==> npm::package_in_record(path, Json::Object(record)) == Ok::<
            Option<(Seq<char>, Seq<char>)>,
            Seq<char>,
        >(Some((name, version))),
        path.len() > 0 && record.dom().contains("version"@) && record["version"@] == Json::String(
            version,
        ) && !record.dom().contains("name"@) && npm::package_at(path) == Some(name)
            ==> npm::package_in_record(path, Json::Object(record)) == Ok::<
            Option<(Seq<char>, Seq<char>)>,
            Seq<char>,
        >(Some((name, version))),
        path.len() > 0 && record.dom().contains("version"@) && record["version"@] == Json::String(
            version,
        ) && !record.dom().contains("name"@) && npm::package_at(path) is None
            ==> npm::package_in_record(path, Json::Object(record)) == Ok::<
            Option<(Seq<char>, Seq<char>)>,
            Seq<char>,
        >(None),
{
}

/// A record is an error exactly where it is no object, or has a version that is no
/// string, or a version and a name that is no string.
pub proof fn records_that_cannot_be_read(path: Seq<char>, value: Json)
    requires
        path.len() > 0,
    ensures
        npm::package_in_record(path, value) is Err <==> match value {
            Json::Object(record) => record.dom().contains("version"@) && (!(
            record["version"@] is String) || record.dom().contains("name"@) && !(
            record["name"@] is String)),
            _ => true,
        },
{
}

/// A path without `node_modules/`, or with nothing behind the last one, names no package.
pub proof fn other_paths_name_no_package(path: Seq<char>)
    ensures
        (forall|i: int| !#[trigger] npm::occurs_at(path, "node_modules/"@, i)) ==> npm::package_at(
            path,
        ) is None,
        npm::occurs_at(path, "node_modules/"@, path.len() - 13) ==> npm::package_at(path) is None,
{
    reveal_strlit("node_modules/");
    let word = "node_modules/"@;
    if forall|i: int| !#[trigger] npm::occurs_at(path, word, i) {
        assert forall|i: int| !#[trigger] npm::last_at(path, word, i) by {
            assert(!npm::occurs_at(path, word, i));
        }
    }
    let end = path.len() - 13;
    if npm::occurs_at(path, word, end) {
        assert forall|j: int| end < j implies !#[trigger] npm::occurs_at(path, word, j) by {}
        assert(npm::last_at(path, word, end));
        let i = choose|i: int| npm::last_at(path, word, i);
        assert(npm::last_at(path, word, i));
        if i < end {
            assert(!npm::occurs_at(path, word, end));
        } else if end < i {
            assert(!npm::occurs_at(path, word, i));
        }
    }
}

/// The walk through a dependency of a tree depends on its version and on what is nested
/// in it only.
pub proof fn only_versions_and_nested_dependencies_count(
    dependencies: Map<Seq<char>, Json>,
    name: Seq<char>,
    first: Map<Seq<char>, Json>,
    second: Map<Seq<char>, Json>,
)
    requires
        first.dom().finite(),
        second.dom().finite(),
        agree_on(first, second, "version"@),
        agree_on(first, second, "dependencies"@),
    ensures
        npm::walk_one(dependencies.insert(name, Json::Object(first)), name) == npm::walk_one(
            dependencies.insert(name, Json::Object(second)),
            name,
        ),
{
    let one = dependencies.insert(name, Json::Object(first));
    let other = dependencies.insert(name, Json::Object(second));
    assert(one.dom() =~= other.dom());
}

/// A manifest declares what its four fields declare: a package is a dependency exactly
/// where one of them has a member with its name. No other field is read, and no value
/// of a dependency.
pub proof fn manifests_declare_the_members_of_four_fields(root: Map<Seq<char>, Json>)
    ensures
        match npm::names_in_fields(root, npm::dependency_fields()) {
            Ok(names) => forall|name: Seq<char>| #[trigger]
                names.contains(name) <==> declared_in(root, "dependencies"@, name) || declared_in(
                    root,
                    "devDependencies"@,
                    name,
                ) || declared_in(root, "optionalDependencies"@, name) || declared_in(
                    root,
                    "peerDependencies"@,
                    name,
                ),
            Err(_) => misplaced(root, "dependencies"@) || misplaced(root, "devDependencies"@)
                || misplaced(root, "optionalDependencies"@) || misplaced(
                root,
                "peerDependencies"@,
            ),
        },
        misplaced(root, "dependencies"@) || misplaced(root, "devDependencies"@) || misplaced(
            root,
            "optionalDependencies"@,
        ) || misplaced(root, "peerDependencies"@) ==> npm::names_in_fields(
            root,
            npm::dependency_fields(),
        ) is Err,
{
    lemma_four_fields(root);
}

/// Whether a field of a manifest declares a package.
pub open spec fn declared_in(
    root: Map<Seq<char>, Json>,
    field: Seq<char>,
    name: Seq<char>,
) -> bool {
    root.dom().contains(field) && (root[field] matches Json::Object(declared)
        && declared.dom().contains(name))
}

/// Whether a field of a manifest is there and is no object.
pub open spec fn misplaced(root: Map<Seq<char>, Json>, field: Seq<char>) -> bool {
    root.dom().contains(field) && !(root[field] is Object)
}

/// The four fields one by one.
proof fn lemma_four_fields(root: Map<Seq<char>, Json>)
    ensures
        npm::names_in_fields(root, npm::dependency_fields()) == {
            let a = npm::names_in_field(root, "dependencies"@);
            let b = npm::names_in_field(root, "devDependencies"@);
            let c = npm::names_in_field(root, "optionalDependencies"@);
            let d = npm::names_in_field(root, "peerDependencies"@);
            if a is Err {
                a
            } else if b is Err {
                b
            } else if c is Err {
                c
            } else if d is Err {
                d
            } else {
                Ok(a->Ok_0.union(b->Ok_0).union(c->Ok_0).union(d->Ok_0))
            }
        },
{
    let fields = npm::dependency_fields();
    let three = fields.drop_last();
    let two = three.drop_last();
    let one = two.drop_last();
    assert(one.drop_last() =~= seq![]);
    assert(fields.last() == "peerDependencies"@ && three.last() == "optionalDependencies"@
        && two.last() == "devDependencies"@ && one.last() == "dependencies"@);
    reveal_with_fuel(npm::names_in_fields, 5);
    if let Ok(a) = npm::names_in_field(root, "dependencies"@) {
        assert(Set::<Seq<char>>::empty().union(a) =~= a);
    }
}

/// Only the four fields of a manifest matter.
pub proof fn only_four_fields_count(first: Map<Seq<char>, Json>, second: Map<Seq<char>, Json>)
    requires
        agree_on(first, second, "dependencies"@),
        agree_on(first, second, "devDependencies"@),
        agree_on(first, second, "optionalDependencies"@),
        agree_on(first, second, "peerDependencies"@),
    ensures
        npm::names_in_fields(first, npm::dependency_fields()) == npm::names_in_fields(
            second,
            npm::dependency_fields(),
        ),
{
    lemma_four_fields(first);
    lemma_four_fields(second);
}

/// A lockfile says what its records by path say, or else what its tree of dependencies
/// says. No other member of it is read, and the tree is not where there are records.
pub proof fn only_records_or_the_tree_count(
    contents: Seq<char>,
    others: Seq<char>,
    first: Map<Seq<char>, Json>,
    second: Map<Seq<char>, Json>,
)
    requires
        npm::read_json(contents) == Ok::<Json, Seq<char>>(Json::Object(first)),
        npm::read_json(others) == Ok::<Json, Seq<char>>(Json::Object(second)),
        agree_on(first, second, "packages"@),
        first.dom().contains("packages"@) || agree_on(first, second, "dependencies"@),
    ensures
        npm::npm_lockfile(contents) == npm::npm_lockfile(others),
{
}

/// A member with a key between others leaves the members with other keys as they are.
proof fn lemma_agree_elsewhere(
    front: Seq<(Seq<char>, Written)>,
    member: (Seq<char>, Written),
    behind: Seq<(Seq<char>, Written)>,
    key: Seq<char>,
)
    requires
        key != member.0,
    ensures
        agree_on(
            json_writing::meant_from(front + seq![member] + behind, 0, Map::empty()),
            json_writing::meant_from(front + behind, 0, Map::empty()),
            key,
        ),
{
    let long = front + seq![member] + behind;
    let short = front + behind;
    let none = Map::<Seq<char>, Json>::empty();
    npm_writing::lemma_members_meant(long, 0, none, key);
    npm_writing::lemma_members_meant(short, 0, none, key);
    let written = exists|i: int| 0 <= i < short.len() && (#[trigger] short[i]).0 == key;
    assert(written == exists|i: int| 0 <= i < long.len() && (#[trigger] long[i]).0 == key) by {
        if written {
            let i = choose|i: int| 0 <= i < short.len() && (#[trigger] short[i]).0 == key;
            let j = if i < front.len() {
                i
            } else {
                i + 1
            };
            assert(long[j] == short[i]);
        }
        if exists|i: int| 0 <= i < long.len() && (#[trigger] long[i]).0 == key {
            let i = choose|i: int| 0 <= i < long.len() && (#[trigger] long[i]).0 == key;
            assert(i != front.len());
            let j = if i < front.len() {
                i
            } else {
                i - 1
            };
            assert(short[j] == long[i]);
        }
    }
    if written {
        let at = lemma_last_written(short, key);
        let place = if at < front.len() {
            at
        } else {
            at + 1
        };
        assert(long[place] == short[at]);
        assert forall|i: int| place < i < long.len() implies (#[trigger] long[i]).0
            != long[place].0 by {
            if i != front.len() {
                let j = if i < front.len() {
                    i
                } else {
                    i - 1
                };
                assert(short[j] == long[i]);
            }
        }
        npm_writing::lemma_member_meant(short, 0, none, at);
        npm_writing::lemma_member_meant(long, 0, none, place);
    }
}

/// The last member with a key.
proof fn lemma_last_written(list: Seq<(Seq<char>, Written)>, key: Seq<char>) -> (at: int)
    requires
        exists|i: int| 0 <= i < list.len() && (#[trigger] list[i]).0 == key,
    ensures
        0 <= at < list.len(),
        list[at].0 == key,
        forall|i: int| at < i < list.len() ==> (#[trigger] list[i]).0 != key,
    decreases list.len(),
{
    let last = list.len() - 1;
    if list[last].0 == key {
        last
    } else {
        let rest = list.drop_last();
        let i = choose|i: int| 0 <= i < list.len() && (#[trigger] list[i]).0 == key;
        assert(rest[i].0 == key);
        let at = lemma_last_written(rest, key);
        assert forall|i: int| at < i < list.len() implies (#[trigger] list[i]).0 != key by {
            if i < rest.len() {
                assert(rest[i] == list[i]);
            }
        }
        at
    }
}

/// A field that declares no dependencies may stand anywhere in a manifest, with any
/// value.
pub proof fn other_fields_declare_nothing(
    front: Seq<(Seq<char>, Written)>,
    member: (Seq<char>, Written),
    behind: Seq<(Seq<char>, Written)>,
)
    requires
        member.0 != "dependencies"@,
        member.0 != "devDependencies"@,
        member.0 != "optionalDependencies"@,
        member.0 != "peerDependencies"@,
    ensures
        npm::npm_manifest(json_writing::written(Written::Members(front + seq![member] + behind)))
            == npm::npm_manifest(json_writing::written(Written::Members(front + behind))),
{
    let long = front + seq![member] + behind;
    let short = front + behind;
    npm_writing::lemma_object_read(long);
    npm_writing::lemma_object_read(short);
    lemma_agree_elsewhere(front, member, behind, "dependencies"@);
    lemma_agree_elsewhere(front, member, behind, "devDependencies"@);
    lemma_agree_elsewhere(front, member, behind, "optionalDependencies"@);
    lemma_agree_elsewhere(front, member, behind, "peerDependencies"@);
    only_four_fields_count(
        json_writing::meant_from(long, 0, Map::empty()),
        json_writing::meant_from(short, 0, Map::empty()),
    );
}

/// A member that is neither the records nor the tree may stand anywhere in a lockfile,
/// with any value.
pub proof fn other_members_say_nothing(
    front: Seq<(Seq<char>, Written)>,
    member: (Seq<char>, Written),
    behind: Seq<(Seq<char>, Written)>,
)
    requires
        member.0 != "packages"@,
        member.0 != "dependencies"@,
    ensures
        npm::npm_lockfile(json_writing::written(Written::Members(front + seq![member] + behind)))
            == npm::npm_lockfile(json_writing::written(Written::Members(front + behind))),
{
    let long = front + seq![member] + behind;
    let short = front + behind;
    npm_writing::lemma_object_read(long);
    npm_writing::lemma_object_read(short);
    lemma_agree_elsewhere(front, member, behind, "packages"@);
    lemma_agree_elsewhere(front, member, behind, "dependencies"@);
    only_records_or_the_tree_count(
        json_writing::written(Written::Members(long)),
        json_writing::written(Written::Members(short)),
        json_writing::meant_from(long, 0, Map::empty()),
        json_writing::meant_from(short, 0, Map::empty()),
    );
}

/// A package as a lockfile records it, with whatever else it says of it in front of its
/// version and behind it. Its name is written out, or left to its path.
pub struct Recorded {
    pub path: Seq<char>,
    pub name: Seq<char>,
    pub version: Seq<char>,
    pub named: bool,
    pub front: Seq<(Seq<char>, Written)>,
    pub behind: Seq<(Seq<char>, Written)>,
}

/// Whether members say neither the version nor the name of a package.
pub open spec fn are_other_members(list: Seq<(Seq<char>, Written)>) -> bool {
    forall|i: int|
        0 <= i < list.len() ==> (#[trigger] list[i]).0 != "version"@ && list[i].0 != "name"@
}

/// Whether a record can be written: its further members say neither its version nor its
/// name, and its path names it where the record does not.
pub open spec fn well_recorded(package: Recorded) -> bool {
    &&& package.path.len() > 0
    &&& are_other_members(package.front)
    &&& are_other_members(package.behind)
    &&& package.named || npm::package_at(package.path) == Some(package.name)
}

/// The members of a record.
pub open spec fn record_members(package: Recorded) -> Seq<(Seq<char>, Written)> {
    package.front + (if package.named {
        seq![("name"@, Written::Text(package.name))]
    } else {
        seq![]
    }) + seq![("version"@, Written::Text(package.version))] + package.behind
}

/// The records of packages.
pub open spec fn records(packages: Seq<Recorded>) -> Seq<(Seq<char>, Written)> {
    packages.map_values(
        |package: Recorded| (package.path, Written::Members(record_members(package))),
    )
}

/// The names and versions of recorded packages.
pub open spec fn named_versions(packages: Seq<Recorded>) -> Set<(Seq<char>, Seq<char>)> {
    packages.map_values(|package: Recorded| (package.name, package.version)).to_set()
}

/// A record stands for its package.
proof fn lemma_recorded(package: Recorded)
    requires
        well_recorded(package),
    ensures
        npm::package_in_record(
            package.path,
            json_writing::meant(Written::Members(record_members(package))),
        ) == Ok::<Option<(Seq<char>, Seq<char>)>, Seq<char>>(
            Some((package.name, package.version)),
        ),
{
    let list = record_members(package);
    let none = Map::<Seq<char>, Json>::empty();
    let front = package.front.len() as int;
    assert("version"@ != "name"@) by {
        reveal_strlit("version");
        reveal_strlit("name");
        assert("version"@.len() != "name"@.len());
    }
    let at = if package.named {
        front + 1
    } else {
        front
    };
    assert(list[at] == ("version"@, Written::Text(package.version)));
    assert forall|i: int| 0 <= i < list.len() && i != at && !(package.named && i
        == front) implies (#[trigger] list[i]).0 != "version"@ && list[i].0 != "name"@ by {
        if i < front {
            assert(list[i] == package.front[i]);
        } else {
            assert(list[i] == package.behind[i - at - 1]);
        }
    }
    npm_writing::lemma_member_meant(list, 0, none, at);
    if package.named {
        assert(list[front] == ("name"@, Written::Text(package.name)));
        npm_writing::lemma_member_meant(list, 0, none, front);
    } else {
        npm_writing::lemma_members_meant(list, 0, none, "name"@);
    }
    let record = json_writing::meant_from(list, 0, none);
    records_stand_for_packages(package.path, record, package.version, package.name);
}

/// Reading a lockfile gives back the names and versions that were written to it,
/// whatever further members its records and the lockfile itself have.
pub proof fn full_lockfiles_read_back(
    front: Seq<(Seq<char>, Written)>,
    packages: Seq<Recorded>,
    behind: Seq<(Seq<char>, Written)>,
)
    requires
        forall|i: int| 0 <= i < packages.len() ==> well_recorded(#[trigger] packages[i]),
        forall|i: int, j: int|
            0 <= i < j < packages.len() ==> (#[trigger] packages[i]).path != (
            #[trigger] packages[j]).path,
        forall|i: int| 0 <= i < front.len() ==> (#[trigger] front[i]).0 != "packages"@,
        forall|i: int| 0 <= i < behind.len() ==> (#[trigger] behind[i]).0 != "packages"@,
    ensures
        npm::npm_lockfile(
            json_writing::written(
                Written::Members(
                    front + seq![("packages"@, Written::Members(records(packages)))] + behind,
                ),
            ),
        ) == Ok::<PackageVersions, Seq<char>>(collections::grouped(named_versions(packages))),
{
    let list = records(packages);
    let outer = front + seq![("packages"@, Written::Members(list))] + behind;
    let at = front.len() as int;
    npm_writing::lemma_object_read(outer);
    assert(outer[at].0 == "packages"@);
    assert forall|i: int| at < i < outer.len() implies (#[trigger] outer[i]).0 != outer[at].0 by {
        assert(outer[i] == behind[i - at - 1]);
    }
    npm_writing::lemma_member_meant(outer, 0, Map::empty(), at);
    lemma_records(packages);
}

/// What the records of packages say.
proof fn lemma_records(packages: Seq<Recorded>)
    requires
        forall|i: int| 0 <= i < packages.len() ==> well_recorded(#[trigger] packages[i]),
        forall|i: int, j: int|
            0 <= i < j < packages.len() ==> (#[trigger] packages[i]).path != (
            #[trigger] packages[j]).path,
    ensures
        npm::recorded_versions(json_writing::meant_from(records(packages), 0, Map::empty()))
            == Ok::<PackageVersions, Seq<char>>(collections::grouped(named_versions(packages))),
{
    let list = records(packages);
    let read = json_writing::meant_from(list, 0, Map::empty());
    assert forall|i: int| 0 <= i < packages.len() implies read.dom().contains(
        (#[trigger] packages[i]).path,
    ) && npm::package_in_record(packages[i].path, read[packages[i].path]) == Ok::<
        Option<(Seq<char>, Seq<char>)>,
        Seq<char>,
    >(Some((packages[i].name, packages[i].version))) by {
        assert forall|j: int| i < j < list.len() implies (#[trigger] list[j]).0 != list[i].0 by {
            assert(packages[i].path != packages[j].path);
        }
        npm_writing::lemma_member_meant(list, 0, Map::empty(), i);
        assert(well_recorded(packages[i]));
        lemma_recorded(packages[i]);
    }
    assert forall|path: Seq<char>| #[trigger] read.dom().contains(path) implies exists|i: int|
        0 <= i < packages.len() && (#[trigger] packages[i]).path == path by {
        npm_writing::lemma_members_meant(list, 0, Map::empty(), path);
        let i = choose|i: int| 0 <= i < list.len() && (#[trigger] list[i]).0 == path;
        assert(packages[i].path == path);
    }
    let bad = npm::unreadable(read);
    assert forall|path: Seq<char>| !(#[trigger] bad(path)) by {
        if read.dom().contains(path) {
            let i = choose|i: int| 0 <= i < packages.len() && (#[trigger] packages[i]).path == path;
        }
    }
    let pairs = packages.map_values(|package: Recorded| (package.name, package.version));
    assert forall|pair: (Seq<char>, Seq<char>)| #[trigger]
        npm::recorded(read).contains(pair) == named_versions(packages).contains(pair) by {
        if npm::recorded(read).contains(pair) {
            let path = choose|path: Seq<char>| #[trigger]
                read.dom().contains(path) && npm::package_in_record(path, read[path]) == Ok::<
                    Option<(Seq<char>, Seq<char>)>,
                    Seq<char>,
                >(Some(pair));
            let i = choose|i: int| 0 <= i < packages.len() && (#[trigger] packages[i]).path == path;
            assert(pairs[i] == pair);
        }
        if named_versions(packages).contains(pair) {
            let i = choose|i: int| 0 <= i < pairs.len() && pairs[i] == pair;
            assert(read.dom().contains(packages[i].path));
        }
    }
    assert(npm::recorded(read) =~= named_versions(packages));
}

/// A dependency of a tree with its version, whatever else is written of it, and what is
/// nested in it.
pub open spec fn tree_record(
    front: Seq<(Seq<char>, Written)>,
    version: Seq<char>,
    behind: Seq<(Seq<char>, Written)>,
) -> Written {
    Written::Members(front + seq![("version"@, Written::Text(version))] + behind)
}

/// Further members of a dependency of a tree leave the walk through it as it is.
pub proof fn tree_records_are_read_by_their_version(
    dependencies: Map<Seq<char>, Json>,
    name: Seq<char>,
    front: Seq<(Seq<char>, Written)>,
    version: Seq<char>,
    behind: Seq<(Seq<char>, Written)>,
)
    requires
        dependencies.dom().finite(),
        forall|i: int|
            0 <= i < front.len() ==> (#[trigger] front[i]).0 != "version"@ && front[i].0
                != "dependencies"@,
        forall|i: int|
            0 <= i < behind.len() ==> (#[trigger] behind[i]).0 != "version"@ && behind[i].0
                != "dependencies"@,
    ensures
        npm::walk_one(
            dependencies.insert(name, json_writing::meant(tree_record(front, version, behind))),
            name,
        ) == (npm::Walk { found: Set::empty().insert((name, version)), fault: None }),
{
    let list = front + seq![("version"@, Written::Text(version))] + behind;
    let at = front.len() as int;
    assert("version"@ != "dependencies"@) by {
        reveal_strlit("version");
        reveal_strlit("dependencies");
        assert("version"@.len() != "dependencies"@.len());
    }
    assert(list[at].0 == "version"@);
    assert forall|i: int| 0 <= i < list.len() && i != at implies (#[trigger] list[i]).0
        != "version"@ && list[i].0 != "dependencies"@ by {
        if i < at {
            assert(list[i] == front[i]);
        } else {
            assert(list[i] == behind[i - at - 1]);
        }
    }
    npm_writing::lemma_member_meant(list, 0, Map::empty(), at);
    npm_writing::lemma_members_meant(list, 0, Map::empty(), "dependencies"@);
}

/// A lockfile can be read exactly where all of its records can.
pub proof fn all_records_must_be_readable(records: Map<Seq<char>, Json>)
    ensures
        npm::recorded_versions(records) is Err <==> exists|path: Seq<char>| #[trigger]
            records.dom().contains(path) && npm::package_in_record(path, records[path]) is Err,
{
    let bad = npm::unreadable(records);
    if exists|path: Seq<char>| #[trigger] bad(path) {
        let path = choose|path: Seq<char>| #[trigger] bad(path);
        assert(records.dom().contains(path));
    }
    if exists|path: Seq<char>| #[trigger]
        records.dom().contains(path) && npm::package_in_record(path, records[path]) is Err {
        let path = choose|path: Seq<char>| #[trigger]
            records.dom().contains(path) && npm::package_in_record(path, records[path]) is Err;
        assert(bad(path));
    }
}

/// A lockfile has to be an object, and so have its records and its tree. One with neither
/// holds no packages.
pub proof fn lockfiles_are_objects(contents: Seq<char>, root: Map<Seq<char>, Json>)
    ensures
        npm::read_json(contents) is Err ==> npm::npm_lockfile(contents) is Err
            && npm::npm_manifest(contents) is Err,
        (npm::read_json(contents) matches Ok(tree) && !(tree is Object)) ==> npm::npm_lockfile(
            contents,
        ) is Err && npm::npm_manifest(contents) is Err,
        npm::read_json(contents) == Ok::<Json, Seq<char>>(Json::Object(root)) ==> {
            &&& root.dom().contains("packages"@) && !(root["packages"@] is Object)
                ==> npm::npm_lockfile(contents) is Err
            &&& !root.dom().contains("packages"@) && root.dom().contains("dependencies"@) && !(
            root["dependencies"@] is Object) ==> npm::npm_lockfile(contents) is Err
            &&& !root.dom().contains("packages"@) && !root.dom().contains("dependencies"@)
                ==> npm::npm_lockfile(contents) == Ok::<PackageVersions, Seq<char>>(Map::empty())
        },
{
}

} // verus!
