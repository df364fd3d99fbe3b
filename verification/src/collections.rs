//! Sets of texts and maps keyed by text, both kept in text order.

use vstd::prelude::*;

use crate::order;
use crate::text::same_text;

verus! {

/// The position in an increasing list at which `key` stands or would stand.
fn search(items: &Vec<String>, key: &str) -> (at: usize)
    requires
        order::increasing(items.deep_view(), order::text_order()),
    ensures
        at <= items.len(),
        forall|j: int| 0 <= j < at ==> order::text_before(#[trigger] items.deep_view()[j], key@),
        forall|j: int|
            at <= j < items.len() ==> !order::text_before(#[trigger] items.deep_view()[j], key@),
{
    let mut low: usize = 0;
    let mut high: usize = items.len();
    let ghost listed = items.deep_view();
    proof {
        order::text_order_is_strict();
    }
    while low < high
        invariant
            listed == items.deep_view(),
            order::increasing(listed, order::text_order()),
            order::strict_order(order::text_order()),
            low <= high <= items.len(),
            forall|j: int| 0 <= j < low ==> order::text_before(#[trigger] listed[j], key@),
            forall|j: int| high <= j < items.len() ==> !order::text_before(#[trigger] listed[j], key@),
        decreases high - low,
    {
        let middle: usize = low + (high - low) / 2;
        let ghost before = order::text_order();
        assert(listed[middle as int] == items@[middle as int]@);
        if order::comes_before(items[middle].as_str(), key) {
            assert forall|j: int| 0 <= j < middle + 1 implies order::text_before(
                #[trigger] listed[j],
                key@,
            ) by {
                if j < middle {
                    assert(before(listed[j], listed[middle as int]));
                    assert(before(listed[middle as int], key@));
                }
            }
            low = middle + 1;
        } else {
            assert forall|j: int| middle <= j < items.len() implies !order::text_before(
                #[trigger] listed[j],
                key@,
            ) by {
                if j > middle && order::text_before(listed[j], key@) {
                    assert(before(listed[middle as int], listed[j]));
                    assert(before(listed[j], key@));
                }
            }
            high = middle;
        }
    }
    low
}

/// Inserting a new item where `search` puts it keeps a list increasing.
proof fn lemma_insert(items: Seq<Seq<char>>, at: int, key: Seq<char>)
    requires
        order::increasing(items, order::text_order()),
        0 <= at <= items.len(),
        forall|j: int| 0 <= j < at ==> order::text_before(#[trigger] items[j], key),
        forall|j: int| at <= j < items.len() ==> !order::text_before(#[trigger] items[j], key),
        at < items.len() ==> items[at] != key,
    ensures
        order::increasing(items.insert(at, key), order::text_order()),
        items.insert(at, key).to_set() == items.to_set().insert(key),
        !items.contains(key),
{
    order::text_order_is_strict();
    order::lemma_insert(items, at, key, order::text_order());
}

/// A set of texts.
pub struct TextSet {
    pub(crate) items: Vec<String>,
}

impl View for TextSet {
    type V = Set<Seq<char>>;

    closed spec fn view(&self) -> Set<Seq<char>> {
        self.items.deep_view().to_set()
    }
}

impl DeepView for TextSet {
    type V = Set<Seq<char>>;

    open spec fn deep_view(&self) -> Set<Seq<char>> {
        self@
    }
}

/// A set of texts, listed in text order.
pub open spec fn listed(texts: Set<Seq<char>>) -> Seq<Seq<char>> {
    order::in_order(texts, order::text_order())
}

/// Any finite set of texts can be listed.
pub proof fn lemma_listed(texts: Set<Seq<char>>)
    requires
        texts.finite(),
    ensures
        order::increasing(listed(texts), order::text_order()),
        listed(texts).to_set() == texts,
{
    order::text_order_is_strict();
    order::lemma_listing_exists(texts, order::text_order());
}

impl TextSet {
    /// The items stand in text order, none of them twice.
    #[verifier::type_invariant]
    pub(crate) closed spec fn ordered(self) -> bool {
        order::increasing(self.items.deep_view(), order::text_order())
    }

    /// The empty set.
    pub fn new() -> (set: TextSet)
        ensures
            set@ == Set::<Seq<char>>::empty(),
    {
        let set = TextSet { items: Vec::new() };
        assert(set@ =~= Set::<Seq<char>>::empty());
        set
    }

    /// Adds a text.
    pub fn insert(&mut self, text: String)
        ensures
            final(self)@ == old(self)@.insert(text@),
    {
        proof {
            use_type_invariant(&*self);
        }
        let mut items: Vec<String> = Vec::new();
        std::mem::swap(&mut items, &mut self.items);
        let ghost before = items.deep_view();
        let at = search(&items, text.as_str());
        if at < items.len() && same_text(items[at].as_str(), text.as_str()) {
            assert(before[at as int] == text@);
            assert(before.to_set().insert(text@) =~= before.to_set());
        } else {
            proof {
                assert(at < items.len() ==> before[at as int] == items@[at as int]@);
                lemma_insert(before, at as int, text@);
            }
            let ghost added = text@;
            items.insert(at, text);
            assert(items.deep_view() =~= before.insert(at as int, added));
        }
        self.items = items;
    }

    /// Tells whether the set holds `text`.
    pub fn contains(&self, text: &str) -> (found: bool)
        ensures
            found == self@.contains(text@),
    {
        proof {
            use_type_invariant(self);
        }
        let at = search(&self.items, text);
        let ghost listing = self.items.deep_view();
        if at < self.items.len() && same_text(self.items[at].as_str(), text) {
            assert(listing[at as int] == text@);
            true
        } else {
            proof {
                assert(at < self.items.len() ==> listing[at as int] == self.items@[at as int]@);
                lemma_insert(listing, at as int, text@);
            }
            false
        }
    }

    /// The number of texts in the set.
    pub fn len(&self) -> (n: usize)
        ensures
            n == listed(self@).len(),
            order::increasing(listed(self@), order::text_order()),
            listed(self@).to_set() == self@,
    {
        proof {
            use_type_invariant(self);
            order::text_order_is_strict();
            order::lemma_in_order(self.items.deep_view(), order::text_order());
        }
        self.items.len()
    }

    /// The text at a place in the listing of the set.
    pub fn at(&self, index: usize) -> (text: &String)
        requires
            index < listed(self@).len(),
        ensures
            text@ == listed(self@)[index as int],
    {
        proof {
            use_type_invariant(self);
            order::text_order_is_strict();
            order::lemma_in_order(self.items.deep_view(), order::text_order());
        }
        &self.items[index]
    }

    /// Tells whether two sets hold the same texts.
    pub fn same(&self, other: &TextSet) -> (same: bool)
        ensures
            same == (self@ == other@),
    {
        proof {
            use_type_invariant(self);
            use_type_invariant(other);
            order::text_order_is_strict();
        }
        let ghost mine = self.items.deep_view();
        let ghost theirs = other.items.deep_view();
        proof {
            if self@ == other@ {
                order::lemma_one_listing(mine, theirs, order::text_order());
            }
        }
        if self.items.len() != other.items.len() {
            return false;
        }
        for i in 0..self.items.len()
            invariant
                mine == self.items.deep_view(),
                theirs == other.items.deep_view(),
                mine.len() == theirs.len(),
                self@ == other@ ==> mine == theirs,
                forall|j: int| 0 <= j < i ==> mine[j] == theirs[j],
        {
            assert(mine[i as int] == self.items@[i as int]@);
            assert(theirs[i as int] == other.items@[i as int]@);
            if !same_text(self.items[i].as_str(), other.items[i].as_str()) {
                return false;
            }
        }
        assert(mine =~= theirs);
        true
    }

    /// Adds every text of another set.
    pub fn extend(&mut self, other: &TextSet)
        ensures
            final(self)@ == old(self)@.union(other@),
    {
        let ghost theirs = other.items.deep_view();
        let ghost mine = self@;
        assert(self@ =~= mine.union(theirs.take(0).to_set()));
        for i in 0..other.items.len()
            invariant
                theirs == other.items.deep_view(),
                self@ == mine.union(theirs.take(i as int).to_set()),
        {
            self.insert(other.items[i].clone());
            proof {
                assert(theirs.take(i + 1) =~= theirs.take(i as int).push(theirs[i as int]));
                let grown = theirs.take(i + 1);
                assert forall|t: Seq<char>|
                    grown.contains(t) == (theirs.take(i as int).contains(t) || t
                        == theirs[i as int]) by {
                    if theirs.take(i as int).contains(t) {
                        let k = choose|k: int| 0 <= k < i && theirs.take(i as int)[k] == t;
                        assert(grown[k] == t);
                    }
                    assert(grown[i as int] == theirs[i as int]);
                }
                assert(self@ =~= mine.union(grown.to_set()));
            }
        }
        assert(theirs.take(theirs.len() as int) =~= theirs);
    }
}

/// A map keyed by text.
pub struct TextMap<V> {
    pub(crate) keys: Vec<String>,
    pub(crate) values: Vec<V>,
}

impl<V> TextMap<V> {
    /// The keys stand in text order, none of them twice, each with its value.
    #[verifier::type_invariant]
    pub(crate) closed spec fn ordered(self) -> bool {
        &&& order::increasing(self.keys.deep_view(), order::text_order())
        &&& self.keys.len() == self.values.len()
    }

    /// The contents of the map.
    pub closed spec fn entries(self) -> Map<Seq<char>, V> {
        Map::new(
            |key: Seq<char>| self.keys.deep_view().to_set().contains(key),
            |key: Seq<char>| self.values@[self.keys.deep_view().index_of(key)],
        )
    }

    /// The keys in text order.
    pub open spec fn listing(self) -> Seq<Seq<char>> {
        listed(self.entries().dom())
    }

    /// How the stored keys and values make up the contents.
    pub(crate) proof fn lemma_entries(self)
        requires
            self.ordered(),
        ensures
            self.entries().dom() == self.keys.deep_view().to_set(),
            self.entries().dom().finite(),
            self.listing() == self.keys.deep_view(),
            self.keys.len() == self.values.len(),
            forall|i: int|
                0 <= i < self.keys.len() ==> self.entries().dom().contains(
                    #[trigger] self.keys.deep_view()[i],
                ) && self.entries()[self.keys.deep_view()[i]] == self.values@[i],
    {
        let keys = self.keys.deep_view();
        let before = order::text_order();
        order::text_order_is_strict();
        vstd::seq_lib::seq_to_set_is_finite(keys);
        assert(self.entries().dom() =~= keys.to_set());
        order::lemma_in_order(keys, before);
        assert forall|i: int| 0 <= i < self.keys.len() implies self.entries().dom().contains(
            #[trigger] keys[i],
        ) && self.entries()[keys[i]] == self.values@[i] by {
            let k = keys.index_of(keys[i]);
            assert(0 <= k < keys.len() && keys[k] == keys[i]);
            if k < i {
                assert(before(keys[k], keys[i]));
            } else if i < k {
                assert(before(keys[i], keys[k]));
            }
        }
    }

    /// The empty map.
    pub fn new() -> (map: TextMap<V>)
        ensures
            map.entries() == Map::<Seq<char>, V>::empty(),
    {
        let map = TextMap { keys: Vec::new(), values: Vec::new() };
        assert(map.entries() =~= Map::<Seq<char>, V>::empty());
        map
    }

    /// The position of a key, or `None` when the map does not hold it.
    fn find(&self, key: &str) -> (at: Option<usize>)
        ensures
            match at {
                Some(i) => i < self.keys.len() && self.keys.deep_view()[i as int] == key@,
                None => !self.entries().dom().contains(key@),
            },
    {
        proof {
            use_type_invariant(self);
            self.lemma_entries();
        }
        let at = search(&self.keys, key);
        let ghost keys = self.keys.deep_view();
        if at < self.keys.len() && same_text(self.keys[at].as_str(), key) {
            Some(at)
        } else {
            proof {
                assert(at < self.keys.len() ==> keys[at as int] == self.keys@[at as int]@);
                lemma_insert(keys, at as int, key@);
            }
            None
        }
    }

    /// The value of a key.
    pub fn get(&self, key: &str) -> (value: Option<&V>)
        ensures
            match value {
                Some(v) => self.entries().dom().contains(key@) && *v == self.entries()[key@],
                None => !self.entries().dom().contains(key@),
            },
    {
        proof {
            use_type_invariant(self);
            self.lemma_entries();
        }
        match self.find(key) {
            Some(i) => Some(&self.values[i]),
            None => None,
        }
    }

    /// Sets the value of a key.
    pub fn insert(&mut self, key: String, value: V)
        ensures
            final(self).entries() == old(self).entries().insert(key@, value),
    {
        proof {
            use_type_invariant(&*self);
            self.lemma_entries();
        }
        let ghost before = *self;
        let mut grown: TextMap<V> = TextMap { keys: Vec::new(), values: Vec::new() };
        std::mem::swap(&mut grown, self);
        let TextMap { mut keys, mut values } = grown;
        let ghost listing = keys.deep_view();
        let at = search(&keys, key.as_str());
        let ghost k = key@;
        let ghost v = value;
        if at < keys.len() && same_text(keys[at].as_str(), key.as_str()) {
            assert(listing[at as int] == k);
            values[at] = value;
        } else {
            proof {
                assert(at < keys.len() ==> listing[at as int] == keys@[at as int]@);
                lemma_insert(listing, at as int, k);
            }
            keys.insert(at, key);
            values.insert(at, value);
            assert(keys.deep_view() =~= listing.insert(at as int, k));
        }
        *self = TextMap { keys, values };
        proof {
            self.lemma_entries();
            let now = self.keys.deep_view();
            assert(self.entries().dom() =~= before.entries().dom().insert(k));
            assert forall|t: Seq<char>| self.entries().dom().contains(t) implies #[trigger]
                self.entries()[t] == before.entries().insert(k, v)[t] by {
                let i = choose|i: int| 0 <= i < now.len() && now[i] == t;
                assert(self.entries()[now[i]] == self.values@[i]);
                if now == listing {
                    assert(before.entries()[listing[i]] == before.values@[i]);
                    if t == k && i != at {
                        let less = order::text_order();
                        order::text_order_is_strict();
                        if i < at {
                            assert(less(now[i], now[at as int]));
                        } else {
                            assert(less(now[at as int], now[i]));
                        }
                    }
                } else if i < at {
                    assert(before.entries()[listing[i]] == before.values@[i]);
                } else if i > at {
                    assert(before.entries()[listing[i - 1]] == before.values@[i - 1]);
                }
            }
            assert(self.entries() =~= before.entries().insert(k, v));
        }
    }

    /// The number of keys.
    pub fn len(&self) -> (n: usize)
        ensures
            n == self.listing().len(),
            order::increasing(self.listing(), order::text_order()),
            self.listing().to_set() == self.entries().dom(),
            self.entries().dom().finite(),
    {
        proof {
            use_type_invariant(self);
            self.lemma_entries();
        }
        self.keys.len()
    }

    /// The key at a place in the listing of the keys.
    pub fn key(&self, index: usize) -> (key: &String)
        requires
            index < self.listing().len(),
        ensures
            key@ == self.listing()[index as int],
            self.entries().dom().contains(key@),
    {
        proof {
            use_type_invariant(self);
            self.lemma_entries();
            assert(self.keys.deep_view()[index as int] == self.keys@[index as int]@);
        }
        &self.keys[index]
    }

    /// The value of the key at a place in the listing of the keys.
    pub fn value(&self, index: usize) -> (value: &V)
        requires
            index < self.listing().len(),
        ensures
            *value == self.entries()[self.listing()[index as int]],
    {
        proof {
            use_type_invariant(self);
            self.lemma_entries();
            assert(self.keys.deep_view()[index as int] == self.keys@[index as int]@);
        }
        &self.values[index]
    }
}

impl<V: View> View for TextMap<V> {
    type V = Map<Seq<char>, V::V>;

    open spec fn view(&self) -> Map<Seq<char>, V::V> {
        self.entries().map_values(|v: V| v@)
    }
}

impl<V: View> DeepView for TextMap<V> {
    type V = Map<Seq<char>, V::V>;

    open spec fn deep_view(&self) -> Map<Seq<char>, V::V> {
        self@
    }
}

/// The resolved versions of each package.
pub type Packages = TextMap<TextSet>;

/// Packages as a map from each name to the set of its versions.
pub type PackageVersions = Map<Seq<char>, Set<Seq<char>>>;

/// The versions of a package, none when it does not occur.
pub open spec fn versions_of(packages: PackageVersions, name: Seq<char>) -> Set<Seq<char>> {
    if packages.dom().contains(name) {
        packages[name]
    } else {
        Set::empty()
    }
}

/// `packages` with one more version of a package.
pub open spec fn with_version(
    packages: PackageVersions,
    name: Seq<char>,
    version: Seq<char>,
) -> PackageVersions {
    packages.insert(name, versions_of(packages, name).insert(version))
}

/// Names and versions grouped by name, on top of the packages known already.
pub open spec fn with_versions(
    packages: PackageVersions,
    found: Set<(Seq<char>, Seq<char>)>,
) -> PackageVersions {
    Map::new(
        |name: Seq<char>|
            packages.dom().contains(name) || exists|version: Seq<char>|
                found.contains((name, version)),
        |name: Seq<char>|
            versions_of(packages, name).union(
                Set::new(|version: Seq<char>| found.contains((name, version))),
            ),
    )
}

/// Names and versions grouped by name.
pub open spec fn grouped(found: Set<(Seq<char>, Seq<char>)>) -> PackageVersions {
    with_versions(Map::empty(), found)
}

/// Recording one version groups one more.
pub proof fn lemma_one_more_version(
    packages: PackageVersions,
    found: Set<(Seq<char>, Seq<char>)>,
    name: Seq<char>,
    version: Seq<char>,
)
    ensures
        with_version(with_versions(packages, found), name, version) == with_versions(
            packages,
            found.insert((name, version)),
        ),
{
    let before = with_versions(packages, found);
    let after = with_versions(packages, found.insert((name, version)));
    let added = with_version(before, name, version);
    assert forall|n: Seq<char>| added.dom().contains(n) == #[trigger] after.dom().contains(n) by {
        if n == name {
            assert(found.insert((name, version)).contains((n, version)));
        }
        if before.dom().contains(n) && !packages.dom().contains(n) {
            let v = choose|v: Seq<char>| found.contains((n, v));
            assert(found.insert((name, version)).contains((n, v)));
        }
        if after.dom().contains(n) && n != name && !packages.dom().contains(n) {
            let v = choose|v: Seq<char>| found.insert((name, version)).contains((n, v));
            assert(found.contains((n, v)));
        }
    }
    assert(added.dom() =~= after.dom());
    assert forall|n: Seq<char>| added.dom().contains(n) implies #[trigger] added[n] == after[n] by {
        assert(added[n] =~= after[n]);
    }
    assert(added =~= after);
}

/// What is found in two steps is found together.
pub proof fn lemma_found_together(
    packages: PackageVersions,
    first: Set<(Seq<char>, Seq<char>)>,
    second: Set<(Seq<char>, Seq<char>)>,
)
    ensures
        with_versions(with_versions(packages, first), second) == with_versions(
            packages,
            first.union(second),
        ),
{
    let middle = with_versions(packages, first);
    let steps = with_versions(middle, second);
    let both = first.union(second);
    let together = with_versions(packages, both);
    assert forall|n: Seq<char>| steps.dom().contains(n) == #[trigger] together.dom().contains(n) by {
        if middle.dom().contains(n) && !packages.dom().contains(n) {
            let v = choose|v: Seq<char>| first.contains((n, v));
            assert(both.contains((n, v)));
        }
        if exists|v: Seq<char>| second.contains((n, v)) {
            let v = choose|v: Seq<char>| second.contains((n, v));
            assert(both.contains((n, v)));
        }
        if together.dom().contains(n) && !packages.dom().contains(n) {
            let v = choose|v: Seq<char>| both.contains((n, v));
            assert(first.contains((n, v)) || second.contains((n, v)));
        }
    }
    assert(steps.dom() =~= together.dom());
    assert forall|n: Seq<char>| steps.dom().contains(n) implies #[trigger] steps[n]
        == together[n] by {
        if !middle.dom().contains(n) {
            assert forall|v: Seq<char>| !first.contains((n, v)) by {}
        }
        assert(steps[n] =~= together[n]);
    }
    assert(steps =~= together);
}

/// With nothing found, the packages stay as they are.
pub proof fn lemma_no_version(packages: PackageVersions)
    ensures
        with_versions(packages, Set::empty()) == packages,
{
    let same = with_versions(packages, Set::empty());
    assert forall|n: Seq<char>| same.dom().contains(n) implies #[trigger] same[n]
        == packages[n] by {
        assert(same[n] =~= packages[n]);
    }
    assert(same =~= packages);
}

impl TextMap<TextSet> {
    /// Records one version of a package.
    pub fn add(&mut self, name: String, version: String)
        ensures
            final(self)@ == with_version(old(self)@, name@, version@),
    {
        let ghost before = *self;
        let mut set = TextSet::new();
        if let Some(known) = self.get(name.as_str()) {
            set.extend(known);
            assert(set@ =~= known@);
        }
        set.insert(version);
        self.insert(name, set);
        assert(self@ =~= with_version(before@, name@, version@));
    }
}

} // verus!
