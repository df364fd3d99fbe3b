//! Writing `package.json` and `package-lock.json`, and that what is written can be
//! read.

use vstd::prelude::*;

use crate::collections;
use crate::collections::PackageVersions;
use crate::json::Json;
use crate::json_writing;
use crate::json_writing::Written;
use crate::npm;

verus! {

/// The members of a document are those that were written, and none else.
pub proof fn lemma_members_meant(
    list: Seq<(Seq<char>, Written)>,
    first: nat,
    read: Map<Seq<char>, Json>,
    key: Seq<char>,
)
    requires
        first <= list.len(),
    ensures
        json_writing::meant_from(list, first, read).dom().contains(key) <==> (read.dom().contains(
            key,
        ) || exists|i: int| first <= i < list.len() && (#[trigger] list[i]).0 == key),
        (forall|i: int| first <= i < list.len() ==> (#[trigger] list[i]).0 != key)
            ==> json_writing::meant_from(list, first, read)[key] == read[key],
    decreases list.len() - first,
{
    if first < list.len() {
        let (next, value) = list[first as int];
        lemma_members_meant(list, first + 1, read.insert(next, json_writing::meant(value)), key);
        if next == key {
            assert(list[first as int].0 == key);
        }
    }
}

/// A member whose key is written once has its value.
pub proof fn lemma_member_meant(
    list: Seq<(Seq<char>, Written)>,
    first: nat,
    read: Map<Seq<char>, Json>,
    at: int,
)
    requires
        first <= at < list.len(),
        forall|i: int| at < i < list.len() ==> (#[trigger] list[i]).0 != list[at].0,
    ensures
        json_writing::meant_from(list, first, read).dom().contains(list[at].0),
        json_writing::meant_from(list, first, read)[list[at].0] == json_writing::meant(
            list[at].1,
        ),
    decreases list.len() - first,
{
    let (next, value) = list[first as int];
    let grown = read.insert(next, json_writing::meant(value));
    if first < at {
        lemma_member_meant(list, first + 1, grown, at);
    } else {
        lemma_members_meant(list, first + 1, grown, list[at].0);
    }
}

/// A document that is an object is read as its members.
pub proof fn lemma_object_read(list: Seq<(Seq<char>, Written)>)
    ensures
        npm::read_json(json_writing::written(Written::Members(list))) == Ok::<Json, Seq<char>>(
            Json::Object(json_writing::meant_from(list, 0, Map::empty())),
        ),
{
    json_writing::written_documents_read_back(Written::Members(list));
}

/// Dependencies of any version.
pub open spec fn any_version(names: Seq<Seq<char>>) -> Written {
    Written::Members(names.map_values(|name: Seq<char>| (name, Written::Text("*"@))))
}

/// A manifest that declares dependencies of the four kinds.
pub open spec fn written_manifest(
    normal: Seq<Seq<char>>,
    development: Seq<Seq<char>>,
    optional: Seq<Seq<char>>,
    peer: Seq<Seq<char>>,
) -> Seq<char> {
    json_writing::written(
        Written::Members(
            seq![
                ("dependencies"@, any_version(normal)),
                ("devDependencies"@, any_version(development)),
                ("optionalDependencies"@, any_version(optional)),
                ("peerDependencies"@, any_version(peer)),
            ],
        ),
    )
}

proof fn lemma_any_version(names: Seq<Seq<char>>)
    ensures
        json_writing::meant(any_version(names)) is Object,
        json_writing::meant(any_version(names))->Object_0.dom() == names.to_set(),
{
    let list = names.map_values(|name: Seq<char>| (name, Written::Text("*"@)));
    let members = json_writing::meant_from(list, 0, Map::empty());
    assert forall|key: Seq<char>| #[trigger] members.dom().contains(key) == names.to_set().contains(
        key,
    ) by {
        lemma_members_meant(list, 0, Map::empty(), key);
        if members.dom().contains(key) {
            let i = choose|i: int| 0 <= i < list.len() && (#[trigger] list[i]).0 == key;
            assert(names[i] == key);
        }
        if names.contains(key) {
            let i = choose|i: int| 0 <= i < names.len() && names[i] == key;
            assert(list[i].0 == key);
        }
    }
    assert(members.dom() =~= names.to_set());
}

/// Reading a manifest gives back the dependencies that were written to it.
pub proof fn written_manifests_read_back(
    normal: Seq<Seq<char>>,
    development: Seq<Seq<char>>,
    optional: Seq<Seq<char>>,
    peer: Seq<Seq<char>>,
)
    ensures
        npm::npm_manifest(written_manifest(normal, development, optional, peer)) == Ok::<
            Set<Seq<char>>,
            Seq<char>,
        >(
            normal.to_set().union(development.to_set()).union(optional.to_set()).union(
                peer.to_set(),
            ),
        ),
{
    reveal_strlit("dependencies");
    reveal_strlit("devDependencies");
    reveal_strlit("optionalDependencies");
    reveal_strlit("peerDependencies");
    let fields = npm::dependency_fields();
    assert(fields[0].len() == 12 && fields[1].len() == 15 && fields[2].len() == 20
        && fields[3].len() == 16);
    let list = seq![
        ("dependencies"@, any_version(normal)),
        ("devDependencies"@, any_version(development)),
        ("optionalDependencies"@, any_version(optional)),
        ("peerDependencies"@, any_version(peer)),
    ];
    lemma_object_read(list);
    let root = json_writing::meant_from(list, 0, Map::empty());
    assert forall|i: int, j: int|
        0 <= i < 4 && 0 <= j < 4 && i != j implies (#[trigger] list[i]).0 != (
    #[trigger] list[j]).0 by {
        assert(list[i].0 == fields[i] && list[j].0 == fields[j]);
        assert(fields[i].len() != fields[j].len());
    }
    lemma_member_meant(list, 0, Map::empty(), 0);
    lemma_member_meant(list, 0, Map::empty(), 1);
    lemma_member_meant(list, 0, Map::empty(), 2);
    lemma_member_meant(list, 0, Map::empty(), 3);
    lemma_any_version(normal);
    lemma_any_version(development);
    lemma_any_version(optional);
    lemma_any_version(peer);
    reveal_with_fuel(npm::names_in_fields, 5);
    let three = fields.drop_last();
    let two = three.drop_last();
    let one = two.drop_last();
    assert(one.drop_last() =~= seq![]);
    assert(three.last() == fields[2] && two.last() == fields[1] && one.last() == fields[0]);
    assert(npm::names_in_fields(root, one) == Ok::<Set<Seq<char>>, Seq<char>>(normal.to_set())) by {
        assert(Set::<Seq<char>>::empty().union(normal.to_set()) =~= normal.to_set());
    }
}

/// A package as a lockfile records it: where it is installed, its name and version.
pub struct Installed {
    pub path: Seq<char>,
    pub name: Seq<char>,
    pub version: Seq<char>,
}

/// A lockfile that records packages by their paths.
pub open spec fn written_lockfile(packages: Seq<Installed>) -> Seq<char> {
    json_writing::written(
        Written::Members(
            seq![
                (
                    "packages"@,
                    Written::Members(packages.map_values(|package: Installed| record_of(package))),
                ),
            ],
        ),
    )
}

/// The record of a package.
pub open spec fn record_of(package: Installed) -> (Seq<char>, Written) {
    (package.path, Written::Members(seq![("version"@, Written::Text(package.version))]))
}

/// The names and versions of packages.
pub open spec fn installed(packages: Seq<Installed>) -> Set<(Seq<char>, Seq<char>)> {
    packages.map_values(|package: Installed| (package.name, package.version)).to_set()
}

proof fn lemma_record(package: Installed)
    requires
        npm::package_at(package.path) == Some(package.name),
    ensures
        npm::package_in_record(package.path, json_writing::meant(record_of(package).1)) == Ok::<
            Option<(Seq<char>, Seq<char>)>,
            Seq<char>,
        >(Some((package.name, package.version))),
{
    reveal_strlit("version");
    reveal_strlit("name");
    reveal_strlit("node_modules/");
    let list = seq![("version"@, Written::Text(package.version))];
    lemma_member_meant(list, 0, Map::empty(), 0);
    lemma_members_meant(list, 0, Map::empty(), "name"@);
    assert("version"@.len() != "name"@.len());
    assert(list[0].0 == "version"@);
    assert(package.path.len() > 0);
}

/// Reading a lockfile gives back the packages that were written to it.
pub proof fn written_lockfiles_read_back(packages: Seq<Installed>)
    requires
        forall|i: int|
            0 <= i < packages.len() ==> npm::package_at((#[trigger] packages[i]).path) == Some(
                packages[i].name,
            ),
        forall|i: int, j: int|
            0 <= i < j < packages.len() ==> (#[trigger] packages[i]).path != (
            #[trigger] packages[j]).path,
    ensures
        npm::npm_lockfile(written_lockfile(packages)) == Ok::<PackageVersions, Seq<char>>(
            collections::grouped(installed(packages)),
        ),
{
    let list = packages.map_values(|package: Installed| record_of(package));
    let outer = seq![("packages"@, Written::Members(list))];
    lemma_object_read(outer);
    lemma_member_meant(outer, 0, Map::empty(), 0);
    assert(outer[0].0 == "packages"@);
    let records = json_writing::meant_from(list, 0, Map::empty());
    assert forall|path: Seq<char>| #[trigger] records.dom().contains(path) implies exists|i: int|
        0 <= i < packages.len() && (#[trigger] packages[i]).path == path && records[path]
            == json_writing::meant(record_of(packages[i]).1) by {
        lemma_members_meant(list, 0, Map::empty(), path);
        let i = choose|i: int| 0 <= i < list.len() && (#[trigger] list[i]).0 == path;
        assert(packages[i].path == path);
        lemma_distinct(packages, list, i);
        lemma_member_meant(list, 0, Map::empty(), i);
    }
    assert forall|path: Seq<char>| #[trigger] records.dom().contains(path) implies
        npm::package_in_record(path, records[path]) is Ok by {
        let i = choose|i: int|
            0 <= i < packages.len() && (#[trigger] packages[i]).path == path && records[path]
                == json_writing::meant(record_of(packages[i]).1);
        lemma_record(packages[i]);
    }
    let bad = npm::unreadable(records);
    assert forall|path: Seq<char>| !(#[trigger] bad(path)) by {}
    let pairs = packages.map_values(|package: Installed| (package.name, package.version));
    assert forall|pair: (Seq<char>, Seq<char>)| #[trigger]
        npm::recorded(records).contains(pair) == installed(packages).contains(pair) by {
        if npm::recorded(records).contains(pair) {
            let path = choose|path: Seq<char>| #[trigger]
                records.dom().contains(path) && npm::package_in_record(path, records[path])
                    == Ok::<Option<(Seq<char>, Seq<char>)>, Seq<char>>(Some(pair));
            let i = choose|i: int|
                0 <= i < packages.len() && (#[trigger] packages[i]).path == path && records[path]
                    == json_writing::meant(record_of(packages[i]).1);
            lemma_record(packages[i]);
            assert(pairs[i] == pair);
        }
        if installed(packages).contains(pair) {
            let i = choose|i: int| 0 <= i < pairs.len() && pairs[i] == pair;
            lemma_record(packages[i]);
            lemma_distinct(packages, list, i);
            lemma_member_meant(list, 0, Map::empty(), i);
            assert(list[i].0 == packages[i].path);
            assert(records.dom().contains(packages[i].path));
        }
    }
    assert(npm::recorded(records) =~= installed(packages));
}

/// No later record has the path of a record.
proof fn lemma_distinct(packages: Seq<Installed>, list: Seq<(Seq<char>, Written)>, at: int)
    requires
        0 <= at < packages.len(),
        list == packages.map_values(|package: Installed| record_of(package)),
        forall|i: int, j: int|
            0 <= i < j < packages.len() ==> (#[trigger] packages[i]).path != (
            #[trigger] packages[j]).path,
    ensures
        forall|i: int| at < i < list.len() ==> (#[trigger] list[i]).0 != list[at].0,
{
    assert forall|i: int| at < i < list.len() implies (#[trigger] list[i]).0 != list[at].0 by {
        assert(packages[at].path != packages[i].path);
    }
}

} // verus!
