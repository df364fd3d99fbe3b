//! The order in which names, versions and paths are listed.
//!
//! Texts are ordered by the code points of their characters, paths by their
//! components. Both are lexicographic orders.

use vstd::prelude::*;

use crate::text::characters;

verus! {

/// A strict total order.
pub open spec fn strict_order<T>(before: spec_fn(T, T) -> bool) -> bool {
    &&& forall|a: T| !#[trigger] before(a, a)
    &&& forall|a: T, b: T, c: T| #[trigger]
        before(a, b) && #[trigger] before(b, c) ==> before(a, c)
    &&& forall|a: T, b: T| a == b || #[trigger] before(a, b) || before(b, a)
}

/// The lexicographic order on sequences whose items `before` orders.
pub open spec fn lexicographic<T>(a: Seq<T>, b: Seq<T>, before: spec_fn(T, T) -> bool) -> bool
    decreases a.len(),
{
    if b.len() == 0 {
        false
    } else if a.len() == 0 {
        true
    } else if a[0] == b[0] {
        lexicographic(a.skip(1), b.skip(1), before)
    } else {
        before(a[0], b[0])
    }
}

/// Nothing comes before itself.
pub proof fn lemma_lexicographic_irreflexive<T>(a: Seq<T>, before: spec_fn(T, T) -> bool)
    ensures
        !lexicographic(a, a, before),
    decreases a.len(),
{
    if a.len() > 0 {
        lemma_lexicographic_irreflexive(a.skip(1), before);
    }
}

/// The order can be followed step by step.
pub proof fn lemma_lexicographic_transitive<T>(
    a: Seq<T>,
    b: Seq<T>,
    c: Seq<T>,
    before: spec_fn(T, T) -> bool,
)
    requires
        strict_order(before),
        lexicographic(a, b, before),
        lexicographic(b, c, before),
    ensures
        lexicographic(a, c, before),
    decreases a.len(),
{
    if a.len() > 0 {
        if a[0] == b[0] && b[0] == c[0] {
            lemma_lexicographic_transitive(a.skip(1), b.skip(1), c.skip(1), before);
        } else {
            assert(a[0] == c[0] ==> before(a[0], b[0]) && before(b[0], c[0]));
        }
    }
}

/// Of two different sequences one comes first.
pub proof fn lemma_lexicographic_total<T>(a: Seq<T>, b: Seq<T>, before: spec_fn(T, T) -> bool)
    requires
        strict_order(before),
    ensures
        a == b || lexicographic(a, b, before) || lexicographic(b, a, before),
    decreases a.len(),
{
    if a.len() > 0 && b.len() > 0 {
        if a[0] == b[0] {
            lemma_lexicographic_total(a.skip(1), b.skip(1), before);
            if a.skip(1) == b.skip(1) {
                assert(a =~= seq![a[0]] + a.skip(1));
                assert(b =~= seq![b[0]] + b.skip(1));
            }
        } else {
            assert(before(a[0], b[0]) || before(b[0], a[0]));
        }
    } else if a.len() == 0 && b.len() == 0 {
        assert(a =~= b);
    }
}

/// Characters by code point.
pub open spec fn char_order() -> spec_fn(char, char) -> bool {
    |a: char, b: char| a < b
}

/// Texts by the code points of their characters.
pub open spec fn text_before(a: Seq<char>, b: Seq<char>) -> bool {
    lexicographic(a, b, char_order())
}

/// The order of texts.
pub open spec fn text_order() -> spec_fn(Seq<char>, Seq<char>) -> bool {
    |a: Seq<char>, b: Seq<char>| text_before(a, b)
}

/// Paths by their components.
pub open spec fn path_before(a: Seq<Seq<char>>, b: Seq<Seq<char>>) -> bool {
    lexicographic(a, b, text_order())
}

/// The order of paths.
pub open spec fn path_order() -> spec_fn(Seq<Seq<char>>, Seq<Seq<char>>) -> bool {
    |a: Seq<Seq<char>>, b: Seq<Seq<char>>| path_before(a, b)
}

/// The order of texts is a strict total order.
pub proof fn text_order_is_strict()
    ensures
        strict_order(text_order()),
{
    let before = text_order();
    assert(strict_order(char_order()));
    assert forall|a: Seq<char>| !#[trigger] before(a, a) by {
        lemma_lexicographic_irreflexive(a, char_order());
    }
    assert forall|a: Seq<char>, b: Seq<char>, c: Seq<char>| #[trigger]
        before(a, b) && #[trigger] before(b, c) implies before(a, c) by {
        lemma_lexicographic_transitive(a, b, c, char_order());
    }
    assert forall|a: Seq<char>, b: Seq<char>| a == b || #[trigger] before(a, b) || before(b, a) by {
        lemma_lexicographic_total(a, b, char_order());
    }
}

/// The order of paths is a strict total order.
pub proof fn path_order_is_strict()
    ensures
        strict_order(path_order()),
{
    let before = path_order();
    text_order_is_strict();
    assert forall|a: Seq<Seq<char>>| !#[trigger] before(a, a) by {
        lemma_lexicographic_irreflexive(a, text_order());
    }
    assert forall|a: Seq<Seq<char>>, b: Seq<Seq<char>>, c: Seq<Seq<char>>| #[trigger]
        before(a, b) && #[trigger] before(b, c) implies before(a, c) by {
        lemma_lexicographic_transitive(a, b, c, text_order());
    }
    assert forall|a: Seq<Seq<char>>, b: Seq<Seq<char>>|
        a == b || #[trigger] before(a, b) || before(b, a) by {
        lemma_lexicographic_total(a, b, text_order());
    }
}

/// A sequence whose items stand in the given order, none of them twice.
pub open spec fn increasing<T>(items: Seq<T>, before: spec_fn(T, T) -> bool) -> bool {
    forall|i: int, j: int|
        #![trigger items[i], items[j]]
        0 <= i < j < items.len() ==> before(items[i], items[j])
}

/// The items of a finite set, listed in the given order.
pub open spec fn in_order<T>(items: Set<T>, before: spec_fn(T, T) -> bool) -> Seq<T> {
    choose|listed: Seq<T>| increasing(listed, before) && #[trigger] listed.to_set() == items
}

/// A set has only one listing in a given order.
pub proof fn lemma_one_listing<T>(a: Seq<T>, b: Seq<T>, before: spec_fn(T, T) -> bool)
    requires
        strict_order(before),
        increasing(a, before),
        increasing(b, before),
        a.to_set() == b.to_set(),
    ensures
        a == b,
    decreases a.len(),
{
    if a.len() == 0 {
        if b.len() > 0 {
            assert(b.to_set().contains(b[0]));
            assert(a.to_set().contains(b[0]));
        }
        assert(a =~= b);
    } else {
        assert(a.to_set().contains(a.last()));
        assert(b.to_set().contains(a.last()));
        let i = choose|i: int| 0 <= i < b.len() && b[i] == a.last();
        assert(b.to_set().contains(b.last()));
        assert(a.to_set().contains(b.last()));
        let j = choose|j: int| 0 <= j < a.len() && a[j] == b.last();
        if j < a.len() - 1 {
            assert(before(a[j], a[a.len() - 1]));
            if i < b.len() - 1 {
                assert(before(b[i], b[b.len() - 1]));
                assert(before(a[j], a[j]));
            }
        }
        assert(a.last() == b.last());
        let x = a.last();
        assert forall|t: T| a.drop_last().to_set().contains(t) == b.drop_last().to_set().contains(
            t,
        ) by {
            if a.drop_last().to_set().contains(t) {
                let k = choose|k: int| 0 <= k < a.len() - 1 && a.drop_last()[k] == t;
                assert(a[k] == t);
                assert(before(a[k], a[a.len() - 1]));
                assert(t != x);
                assert(a.to_set().contains(t));
                assert(b.to_set().contains(t));
                let m = choose|m: int| 0 <= m < b.len() && b[m] == t;
                assert(b.drop_last()[m] == t);
            }
            if b.drop_last().to_set().contains(t) {
                let k = choose|k: int| 0 <= k < b.len() - 1 && b.drop_last()[k] == t;
                assert(b[k] == t);
                assert(before(b[k], b[b.len() - 1]));
                assert(t != x);
                assert(b.to_set().contains(t));
                assert(a.to_set().contains(t));
                let m = choose|m: int| 0 <= m < a.len() && a[m] == t;
                assert(a.drop_last()[m] == t);
            }
        }
        assert(a.drop_last().to_set() =~= b.drop_last().to_set());
        lemma_one_listing(a.drop_last(), b.drop_last(), before);
        assert(a =~= a.drop_last().push(a.last()));
        assert(b =~= b.drop_last().push(b.last()));
    }
}

/// An increasing sequence is the listing of the set of its items.
pub proof fn lemma_in_order<T>(items: Seq<T>, before: spec_fn(T, T) -> bool)
    requires
        strict_order(before),
        increasing(items, before),
    ensures
        in_order(items.to_set(), before) == items,
{
    lemma_one_listing(in_order(items.to_set(), before), items, before);
}

/// Tells whether `a` comes before `b` in the order of texts.
pub fn comes_before(a: &str, b: &str) -> (first: bool)
    ensures
        first == text_before(a@, b@),
{
    let xs = characters(a);
    let ys = characters(b);
    let mut i: usize = 0;
    assert(a@.skip(0) =~= a@);
    assert(b@.skip(0) =~= b@);
    while i < xs.len() && i < ys.len()
        invariant
            xs@ == a@,
            ys@ == b@,
            i <= xs.len(),
            i <= ys.len(),
            text_before(a@, b@) == text_before(a@.skip(i as int), b@.skip(i as int)),
        decreases xs.len() - i,
    {
        if xs[i] != ys[i] {
            return xs[i] < ys[i];
        }
        assert(a@.skip(i as int).skip(1) =~= a@.skip(i + 1));
        assert(b@.skip(i as int).skip(1) =~= b@.skip(i + 1));
        i += 1;
    }
    i < ys.len()
}

/// Whether `a` is the first text, in text order, of those that `chosen` picks.
pub open spec fn is_first(chosen: spec_fn(Seq<char>) -> bool, a: Seq<char>) -> bool {
    chosen(a) && forall|b: Seq<char>| #[trigger] chosen(b) ==> a == b || text_before(a, b)
}

/// The first text, in text order, of those that `chosen` picks.
pub open spec fn first_of(chosen: spec_fn(Seq<char>) -> bool) -> Seq<char> {
    choose|a: Seq<char>| is_first(chosen, a)
}

/// There is only one first text.
pub proof fn lemma_first_of(chosen: spec_fn(Seq<char>) -> bool, a: Seq<char>)
    requires
        is_first(chosen, a),
    ensures
        first_of(chosen) == a,
{
    let b = first_of(chosen);
    let before = text_order();
    text_order_is_strict();
    assert(is_first(chosen, b));
    if a != b {
        assert(before(a, b) && before(b, a));
        assert(before(a, a));
    }
}

/// In a listing, the item picked at the lowest place is the first one picked.
pub proof fn lemma_first_listed(
    chosen: spec_fn(Seq<char>) -> bool,
    listing: Seq<Seq<char>>,
    i: int,
)
    requires
        increasing(listing, text_order()),
        0 <= i < listing.len(),
        chosen(listing[i]),
        forall|j: int| 0 <= j < i ==> !chosen(#[trigger] listing[j]),
        forall|a: Seq<char>| #[trigger] chosen(a) ==> listing.contains(a),
    ensures
        first_of(chosen) == listing[i],
{
    let before = text_order();
    assert forall|b: Seq<char>| #[trigger] chosen(b) implies listing[i] == b || text_before(
        listing[i],
        b,
    ) by {
        let k = choose|k: int| 0 <= k < listing.len() && listing[k] == b;
        if i < k {
            assert(before(listing[i], listing[k]));
        }
    }
    lemma_first_of(chosen, listing[i]);
}

/// One more item of a sequence.
pub proof fn lemma_take_more<T>(items: Seq<T>, count: int)
    requires
        0 <= count < items.len(),
    ensures
        items.take(count + 1).to_set() == items.take(count).to_set().insert(items[count]),
{
    let grown = items.take(count + 1);
    assert forall|t: T| #[trigger] grown.to_set().contains(t) == items.take(
        count,
    ).to_set().insert(items[count]).contains(t) by {
        if grown.contains(t) {
            let k = choose|k: int| 0 <= k < grown.len() && grown[k] == t;
            if k < count {
                assert(items.take(count)[k] == t);
            }
        }
        if items.take(count).contains(t) {
            let k = choose|k: int| 0 <= k < count && items.take(count)[k] == t;
            assert(grown[k] == t);
        }
        assert(grown[count] == items[count]);
    }
    assert(grown.to_set() =~= items.take(count).to_set().insert(items[count]));
}

/// An increasing sequence holds nothing twice.
pub proof fn lemma_increasing_is_unique<T>(items: Seq<T>, before: spec_fn(T, T) -> bool)
    requires
        strict_order(before),
        increasing(items, before),
    ensures
        items.no_duplicates(),
{
    assert forall|i: int, j: int|
        0 <= i < items.len() && 0 <= j < items.len() && i != j implies items[i] != items[j] by {
        if i < j {
            assert(before(items[i], items[j]));
        } else {
            assert(before(items[j], items[i]));
        }
    }
}

/// Inserting a new item before the first item that does not come before it keeps a list increasing.
pub proof fn lemma_insert<T>(items: Seq<T>, at: int, key: T, before: spec_fn(T, T) -> bool)
    requires
        strict_order(before),
        increasing(items, before),
        0 <= at <= items.len(),
        forall|j: int| 0 <= j < at ==> before(#[trigger] items[j], key),
        forall|j: int| at <= j < items.len() ==> !before(#[trigger] items[j], key),
        at < items.len() ==> items[at] != key,
    ensures
        increasing(items.insert(at, key), before),
        items.insert(at, key).to_set() == items.to_set().insert(key),
        !items.contains(key),
{
    let grown = items.insert(at, key);
    assert forall|j: int| at <= j < items.len() implies before(key, items[j]) by {
        if j > at {
            assert(before(items[at], items[j]));
        }
        assert(!before(items[j], key));
        if items[j] == key {
            assert(before(items[at], items[j]));
        }
        assert(items[j] == key || before(items[j], key) || before(key, items[j]));
    }
    assert forall|i: int, j: int|
        #![trigger grown[i], grown[j]]
        0 <= i < j < grown.len() implies before(grown[i], grown[j]) by {
        if i < at && j == at {
            assert(before(items[i], key));
        } else if i == at {
            assert(before(key, items[j - 1]));
        } else if j < at {
            assert(before(items[i], items[j]));
        } else if i < at {
            assert(before(items[i], items[j - 1]));
        } else {
            assert(before(items[i - 1], items[j - 1]));
        }
    }
    assert forall|t: T| grown.to_set().contains(t) == items.to_set().insert(key).contains(
        t,
    ) by {
        if grown.to_set().contains(t) {
            let k = choose|k: int| 0 <= k < grown.len() && grown[k] == t;
            if k < at {
                assert(items[k] == t);
            } else if k > at {
                assert(items[k - 1] == t);
            }
        }
        if items.to_set().contains(t) {
            let k = choose|k: int| 0 <= k < items.len() && items[k] == t;
            if k < at {
                assert(grown[k] == t);
            } else {
                assert(grown[k + 1] == t);
            }
        }
        assert(grown[at] == key);
    }
    assert(grown.to_set() =~= items.to_set().insert(key));
    if items.contains(key) {
        let k = choose|k: int| 0 <= k < items.len() && items[k] == key;
        if k < at {
            assert(before(key, key));
        } else {
            assert(before(key, items[k]));
        }
    }
}

/// Any finite set can be listed in order.
pub proof fn lemma_listing_exists<T>(set: Set<T>, before: spec_fn(T, T) -> bool)
    requires
        strict_order(before),
        set.finite(),
    ensures
        exists|items: Seq<T>|
            increasing(items, before) && #[trigger] items.to_set() == set,
    decreases set.len(),
{
    if set.len() == 0 {
        assert(Seq::<T>::empty().to_set() =~= set);
    } else {
        let key = set.choose();
        lemma_listing_exists(set.remove(key), before);
        let items = choose|items: Seq<T>|
            increasing(items, before) && #[trigger] items.to_set()
                == set.remove(key);
        let at = lemma_place(items, key, before);
        assert(at < items.len() ==> items[at] != key) by {
            if at < items.len() {
                assert(items.to_set().contains(items[at]));
            }
        }
        lemma_insert(items, at, key, before);
        assert(items.insert(at, key).to_set() =~= set);
    }
}

/// The place of a key in an increasing list.
proof fn lemma_place<T>(items: Seq<T>, key: T, before: spec_fn(T, T) -> bool) -> (at: int)
    requires
        strict_order(before),
        increasing(items, before),
    ensures
        0 <= at <= items.len(),
        forall|j: int| 0 <= j < at ==> before(#[trigger] items[j], key),
        forall|j: int| at <= j < items.len() ==> !before(#[trigger] items[j], key),
    decreases items.len(),
{
    if items.len() == 0 {
        0
    } else if before(items.last(), key) {
        assert forall|j: int| 0 <= j < items.len() implies before(
            #[trigger] items[j],
            key,
        ) by {
            if j < items.len() - 1 {
                assert(before(items[j], items[items.len() - 1]));
                assert(before(items[items.len() - 1], key));
                assert(before(items[j], key));
            }
        }
        items.len() as int
    } else {
        let rest = items.drop_last();
        assert(increasing(rest, before));
        let at = lemma_place(rest, key, before);
        assert forall|j: int| 0 <= j < at implies before(#[trigger] items[j], key) by {
            assert(items[j] == rest[j]);
        }
        assert forall|j: int| at <= j < items.len() implies !before(
            #[trigger] items[j],
            key,
        ) by {
            if j < items.len() - 1 {
                assert(items[j] == rest[j]);
            }
        }
        at
    }
}

} // verus!
