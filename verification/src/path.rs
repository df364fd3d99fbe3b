//! Paths inside a repository, relative to its root.

use vstd::prelude::*;

use crate::order;
use crate::text;
use crate::text::{join, same_text};

verus! {

/// A path relative to the root of a repository, as the names along it.
pub struct RepoPath {
    pub names: Vec<String>,
}

impl View for RepoPath {
    type V = Seq<Seq<char>>;

    open spec fn view(&self) -> Seq<Seq<char>> {
        self.names.deep_view()
    }
}

impl DeepView for RepoPath {
    type V = Seq<Seq<char>>;

    open spec fn deep_view(&self) -> Seq<Seq<char>> {
        self@
    }
}

/// A path as it is written.
pub open spec fn written(path: Seq<Seq<char>>) -> Seq<char> {
    text::joined(path, "/"@)
}

/// Tells whether `base` leads to `path`.
pub open spec fn leads_to(base: Seq<Seq<char>>, path: Seq<Seq<char>>) -> bool {
    base.len() <= path.len() && path.take(base.len() as int) == base
}

/// The path from `base` on, or the whole path when `base` does not lead to it.
pub open spec fn relative(path: Seq<Seq<char>>, base: Seq<Seq<char>>) -> Seq<Seq<char>> {
    if leads_to(base, path) {
        path.skip(base.len() as int)
    } else {
        path
    }
}

impl Clone for RepoPath {
    fn clone(&self) -> (copy: RepoPath)
        ensures
            copy@ == self@,
    {
        self.part(0, self.names.len())
    }
}

impl RepoPath {
    /// The names from one position to another.
    fn part(&self, from: usize, to: usize) -> (path: RepoPath)
        requires
            from <= to <= self@.len(),
        ensures
            path@ == self@.subrange(from as int, to as int),
    {
        let mut names: Vec<String> = Vec::new();
        let ghost all = self@;
        assert(names.deep_view() =~= all.subrange(from as int, from as int));
        for i in from..to
            invariant
                from <= to <= self@.len(),
                all == self@,
                names.deep_view() == all.subrange(from as int, i as int),
        {
            let ghost before = names.deep_view();
            names.push(self.names[i].clone());
            assert(names.deep_view() =~= before.push(all[i as int]));
            assert(names.deep_view() =~= all.subrange(from as int, i + 1));
        }
        RepoPath { names }
    }

    /// The path as it is written.
    pub fn text(&self) -> (shown: String)
        ensures
            shown@ == written(self@),
    {
        join(&self.names, "/")
    }

    /// The directory that the path is in; the root is in none.
    pub fn parent(&self) -> (parent: Option<RepoPath>)
        ensures
            parent.deep_view() == (if self@.len() == 0 {
                None
            } else {
                Some(self@.drop_last())
            }),
    {
        if self.names.len() == 0 {
            None
        } else {
            let parent = self.part(0, self.names.len() - 1);
            assert(parent@ =~= self@.drop_last());
            Some(parent)
        }
    }

    /// The path one name further down.
    pub fn child(&self, name: &str) -> (child: RepoPath)
        ensures
            child@ == self@.push(name@),
    {
        let mut child = self.clone();
        let ghost before = child@;
        child.names.push(name.to_owned());
        assert(child@ =~= before.push(name@));
        child
    }

    /// Tells whether the first names of two paths are the same.
    fn same_until(&self, other: &RepoPath, count: usize) -> (same: bool)
        requires
            count <= self@.len(),
            count <= other@.len(),
        ensures
            same == (self@.take(count as int) == other@.take(count as int)),
    {
        for i in 0..count
            invariant
                count <= self@.len(),
                count <= other@.len(),
                forall|j: int| 0 <= j < i ==> self@[j] == #[trigger] other@[j],
        {
            assert(self@[i as int] == self.names@[i as int]@);
            assert(other@[i as int] == other.names@[i as int]@);
            if !same_text(self.names[i].as_str(), other.names[i].as_str()) {
                proof {
                    assert(self@.take(count as int)[i as int] == self@[i as int]);
                    assert(other@.take(count as int)[i as int] == other@[i as int]);
                }
                return false;
            }
        }
        assert(self@.take(count as int) =~= other@.take(count as int));
        true
    }

    /// The path from `base` on, or the whole path when `base` does not lead to it.
    pub fn from_base(&self, base: &RepoPath) -> (path: RepoPath)
        ensures
            path@ == relative(self@, base@),
    {
        let count: usize = base.names.len();
        assert(base@.take(count as int) =~= base@);
        if count <= self.names.len() && self.same_until(base, count) {
            let path = self.part(count, self.names.len());
            assert(path@ =~= self@.skip(count as int));
            path
        } else {
            self.clone()
        }
    }
}

/// Tells whether one path comes before another, name by name.
fn path_comes_before(a: &RepoPath, b: &RepoPath) -> (first: bool)
    ensures
        first == order::path_before(a@, b@),
{
    let mut i: usize = 0;
    assert(a@.skip(0) =~= a@);
    assert(b@.skip(0) =~= b@);
    while i < a.names.len() && i < b.names.len()
        invariant
            i <= a@.len(),
            i <= b@.len(),
            order::path_before(a@, b@) == order::path_before(a@.skip(i as int), b@.skip(i as int)),
        decreases a@.len() - i,
    {
        assert(a@.skip(i as int)[0] == a.names@[i as int]@);
        assert(b@.skip(i as int)[0] == b.names@[i as int]@);
        if !same_text(a.names[i].as_str(), b.names[i].as_str()) {
            return order::comes_before(a.names[i].as_str(), b.names[i].as_str());
        }
        assert(a@.skip(i as int).skip(1) =~= a@.skip(i + 1));
        assert(b@.skip(i as int).skip(1) =~= b@.skip(i + 1));
        i += 1;
    }
    i < b.names.len()
}

/// A set of paths, listed in path order.
pub open spec fn listed_paths(paths: Set<Seq<Seq<char>>>) -> Seq<Seq<Seq<char>>> {
    order::in_order(paths, order::path_order())
}

/// A set of paths.
pub struct PathSet {
    items: Vec<RepoPath>,
}

impl View for PathSet {
    type V = Set<Seq<Seq<char>>>;

    closed spec fn view(&self) -> Set<Seq<Seq<char>>> {
        self.items.deep_view().to_set()
    }
}

impl PathSet {
    /// The items stand in path order, none of them twice.
    #[verifier::type_invariant]
    spec fn ordered(self) -> bool {
        order::increasing(self.items.deep_view(), order::path_order())
    }

    /// The empty set.
    pub fn new() -> (set: PathSet)
        ensures
            set@ == Set::<Seq<Seq<char>>>::empty(),
    {
        let set = PathSet { items: Vec::new() };
        assert(set@ =~= Set::<Seq<Seq<char>>>::empty());
        set
    }

    /// Adds a path.
    pub fn insert(&mut self, path: RepoPath)
        ensures
            final(self)@ == old(self)@.insert(path@),
    {
        proof {
            use_type_invariant(&*self);
            order::path_order_is_strict();
        }
        let mut items: Vec<RepoPath> = Vec::new();
        std::mem::swap(&mut items, &mut self.items);
        let ghost listing = items.deep_view();
        let ghost before = order::path_order();
        let mut at: usize = items.len();
        while at > 0 && !path_comes_before(&items[at - 1], &path)
            invariant
                at <= items.len(),
                listing == items.deep_view(),
                before == order::path_order(),
                forall|j: int| at <= j < items.len() ==> !before(#[trigger] listing[j], path@),
            decreases at,
        {
            assert(listing[at - 1] == items@[at - 1]@);
            at -= 1;
        }
        proof {
            assert(at > 0 ==> listing[at - 1] == items@[at - 1]@);
            assert forall|j: int| 0 <= j < at implies before(#[trigger] listing[j], path@) by {
                assert(before(listing[at - 1], path@));
                if j < at - 1 {
                    assert(before(listing[j], listing[at - 1]));
                }
            }
            assert(at < items.len() ==> listing[at as int] == items@[at as int]@);
        }
        if at < items.len() && items[at].names.len() == path.names.len() && items[at].same_until(
            &path,
            path.names.len(),
        ) {
            proof {
                assert(path@.take(path@.len() as int) =~= path@);
                assert(listing[at as int].take(path@.len() as int) =~= listing[at as int]);
                assert(listing[at as int] == path@);
                assert(listing.to_set().insert(path@) =~= listing.to_set());
            }
        } else {
            proof {
                assert(at < items.len() ==> listing[at as int] != path@);
                order::lemma_insert(listing, at as int, path@, before);
            }
            let ghost added = path@;
            items.insert(at, path);
            assert(items.deep_view() =~= listing.insert(at as int, added));
        }
        self.items = items;
    }

    /// The number of paths in the set.
    pub fn len(&self) -> (n: usize)
        ensures
            n == listed_paths(self@).len(),
            order::increasing(listed_paths(self@), order::path_order()),
            listed_paths(self@).to_set() == self@,
    {
        proof {
            use_type_invariant(self);
            order::path_order_is_strict();
            order::lemma_in_order(self.items.deep_view(), order::path_order());
        }
        self.items.len()
    }

    /// The path at a place in the listing of the set.
    pub fn at(&self, index: usize) -> (path: &RepoPath)
        requires
            index < listed_paths(self@).len(),
        ensures
            path@ == listed_paths(self@)[index as int],
    {
        proof {
            use_type_invariant(self);
            order::path_order_is_strict();
            order::lemma_in_order(self.items.deep_view(), order::path_order());
        }
        &self.items[index]
    }
}

/// The way from a base to a path below it leads to the path again. A path that is not
/// below the base is left as it is.
pub proof fn ways_lead_on_from_their_base(
    base: Seq<Seq<char>>,
    way: Seq<Seq<char>>,
    other: Seq<Seq<char>>,
)
    ensures
        leads_to(base, base + way),
        relative(base + way, base) == way,
        leads_to(base, other) ==> base + relative(other, base) == other,
        !leads_to(base, other) ==> relative(other, base) == other,
{
    let path = base + way;
    assert(path.take(base.len() as int) =~= base);
    assert(path.skip(base.len() as int) =~= way);
    if leads_to(base, other) {
        assert(other =~= other.take(base.len() as int) + other.skip(base.len() as int));
    }
}

} // verus!
