//! Matching paths against the patterns of workspace members.

use vstd::prelude::*;
use vstd::slice::*;

use crate::text;
use crate::text::characters;

verus! {

/// Whether a character class, without its brackets and negation, holds `c`.
/// Three characters with a hyphen in the middle are a range.
pub open spec fn class_holds(class: Seq<char>, c: char) -> bool
    decreases class.len(),
{
    if class.len() == 0 {
        false
    } else if class.len() >= 3 && class[1] == '-' {
        class[0] <= c <= class[2] || class_holds(class.skip(3), c)
    } else {
        class[0] == c || class_holds(class.skip(1), c)
    }
}

/// Whether a character class, without its brackets, accepts `c`. A class that
/// begins with `!` accepts what the rest of it does not hold.
pub open spec fn class_accepts(class: Seq<char>, c: char) -> bool {
    if class.len() > 0 && class[0] == '!' {
        !class_holds(class.skip(1), c)
    } else {
        class_holds(class, c)
    }
}

/// Whether a text holds no path separator.
pub open spec fn no_separator(s: Seq<char>) -> bool {
    forall|i: int| 0 <= i < s.len() ==> #[trigger] s[i] != '/'
}

/// Whether a pattern matches a whole text. `*` stands for any characters, `?` for
/// one and a class in brackets for one that it accepts, but none of them for a
/// path separator; anything else stands for itself. An unclosed class matches
/// nothing.
pub open spec fn matching(pattern: Seq<char>, value: Seq<char>) -> bool
    decreases pattern.len(),
{
    if pattern.len() == 0 {
        value.len() == 0
    } else if pattern[0] == '*' {
        exists|k: int|
            0 <= k <= value.len() && no_separator(value.take(k)) && matching(
                pattern.skip(1),
                #[trigger] value.skip(k),
            )
    } else if pattern[0] == '?' {
        value.len() > 0 && value[0] != '/' && matching(pattern.skip(1), value.skip(1))
    } else if pattern[0] == '[' {
        let end = text::position(pattern, ']') as int;
        end < pattern.len() && value.len() > 0 && value[0] != '/' && class_accepts(
            pattern.subrange(1, end),
            value[0],
        ) && matching(pattern.skip(end + 1), value.skip(1))
    } else {
        value.len() > 0 && value[0] == pattern[0] && matching(pattern.skip(1), value.skip(1))
    }
}

/// A star stands for nothing, or for one more character that is no separator.
proof fn lemma_star(pattern: Seq<char>, value: Seq<char>)
    requires
        pattern.len() > 0,
        pattern[0] == '*',
    ensures
        matching(pattern, value) == (matching(pattern.skip(1), value) || (value.len() > 0
            && value[0] != '/' && matching(pattern, value.skip(1)))),
{
    let rest = pattern.skip(1);
    if matching(rest, value) {
        assert(value.skip(0) =~= value);
        assert(no_separator(value.take(0)));
        assert(matching(rest, value.skip(0)));
    }
    if value.len() > 0 && value[0] != '/' && matching(pattern, value.skip(1)) {
        let k = choose|k: int|
            0 <= k <= value.skip(1).len() && no_separator(value.skip(1).take(k))
                && matching(rest, #[trigger] value.skip(1).skip(k));
        assert(value.skip(1).skip(k) =~= value.skip(k + 1));
        assert forall|i: int| 0 <= i < k + 1 implies #[trigger] value.take(k + 1)[i] != '/' by {
            if i > 0 {
                assert(value.skip(1).take(k)[i - 1] == value[i]);
            }
        }
        assert(no_separator(value.take(k + 1)));
        assert(matching(rest, value.skip(k + 1)));
    }
    if matching(pattern, value) && !matching(rest, value) {
        let k = choose|k: int|
            0 <= k <= value.len() && no_separator(value.take(k)) && matching(
                rest,
                #[trigger] value.skip(k),
            );
        if k == 0 {
            assert(value.skip(0) =~= value);
        } else {
            assert(value.take(k)[0] == value[0]);
            assert(value.skip(1).skip(k - 1) =~= value.skip(k));
            assert forall|i: int| 0 <= i < k - 1 implies #[trigger] value.skip(1).take(k - 1)[i]
                != '/' by {
                assert(value.take(k)[i + 1] == value[i + 1]);
            }
            assert(no_separator(value.skip(1).take(k - 1)));
            assert(matching(rest, value.skip(1).skip(k - 1)));
        }
    }
}

/// Tells whether a character class, without its brackets and negation, holds `c`.
fn holds(class: &[char], c: char) -> (found: bool)
    ensures
        found == class_holds(class@, c),
{
    let mut i: usize = 0;
    let mut found = false;
    assert(class@.skip(0) =~= class@);
    while i < class.len()
        invariant
            i <= class.len(),
            class_holds(class@, c) == (found || class_holds(class@.skip(i as int), c)),
        decreases class.len() - i,
    {
        let ghost rest = class@.skip(i as int);
        if class.len() - i >= 3 && class[i + 1] == '-' {
            found = found || (class[i] <= c && c <= class[i + 2]);
            assert(rest.skip(3) =~= class@.skip(i + 3));
            i += 3;
        } else {
            found = found || class[i] == c;
            assert(rest.skip(1) =~= class@.skip(i + 1));
            i += 1;
        }
    }
    found
}

/// Tells whether a pattern matches a whole text.
fn matches_all(pattern: &[char], value: &[char]) -> (matched: bool)
    ensures
        matched == matching(pattern@, value@),
    decreases pattern.len() + value.len(),
{
    if pattern.len() == 0 {
        return value.len() == 0;
    }
    let first: char = pattern[0];
    let rest = slice_subrange(pattern, 1, pattern.len());
    assert(rest@ =~= pattern@.skip(1));
    if first == '*' {
        proof {
            lemma_star(pattern@, value@);
        }
        if matches_all(rest, value) {
            return true;
        }
        if value.len() == 0 || value[0] == '/' {
            return false;
        }
        let tail = slice_subrange(value, 1, value.len());
        assert(tail@ =~= value@.skip(1));
        return matches_all(pattern, tail);
    }
    if value.len() == 0 {
        return false;
    }
    let tail = slice_subrange(value, 1, value.len());
    assert(tail@ =~= value@.skip(1));
    if first == '?' {
        value[0] != '/' && matches_all(rest, tail)
    } else if first == '[' {
        let mut end: usize = 0;
        while end < pattern.len() && pattern[end] != ']'
            invariant
                end <= pattern.len(),
                forall|j: int| 0 <= j < end ==> pattern@[j] != ']',
            decreases pattern.len() - end,
        {
            end += 1;
        }
        proof {
            text::lemma_position(pattern@, ']', end as int);
        }
        if end == pattern.len() || value[0] == '/' {
            return false;
        }
        let class = slice_subrange(pattern, 1, end);
        let accepted = if class.len() > 0 && class[0] == '!' {
            let refused = slice_subrange(class, 1, class.len());
            assert(refused@ =~= class@.skip(1));
            !holds(refused, value[0])
        } else {
            holds(class, value[0])
        };
        let behind = slice_subrange(pattern, end + 1, pattern.len());
        assert(behind@ =~= pattern@.skip(end + 1));
        accepted && matches_all(behind, tail)
    } else {
        value[0] == first && matches_all(rest, tail)
    }
}

/// Tells whether a pattern matches a whole text.
pub fn glob_matches(pattern: &str, value: &str) -> (matched: bool)
    ensures
        matched == matching(pattern@, value@),
{
    let pattern = characters(pattern);
    let value = characters(value);
    matches_all(pattern.as_slice(), value.as_slice())
}

/// The number of path separators in a text.
pub open spec fn separators(s: Seq<char>) -> nat
    decreases s.len(),
{
    if s.len() == 0 {
        0
    } else {
        separators(s.skip(1)) + if s[0] == '/' {
            1nat
        } else {
            0
        }
    }
}

/// Skipping characters that are no separators keeps the number of separators.
proof fn lemma_separators_skip(s: Seq<char>, k: int)
    requires
        0 <= k <= s.len(),
        no_separator(s.take(k)),
    ensures
        separators(s.skip(k)) == separators(s),
    decreases k,
{
    if k == 0 {
        assert(s.skip(0) =~= s);
    } else {
        assert(s.take(k)[0] == s[0]);
        assert forall|i: int| 0 <= i < k - 1 implies #[trigger] s.skip(1).take(k - 1)[i] != '/' by {
            assert(s.take(k)[i + 1] == s[i + 1]);
        }
        lemma_separators_skip(s.skip(1), k - 1);
        assert(s.skip(1).skip(k - 1) =~= s.skip(k));
    }
}

/// Skipping characters adds no separators.
proof fn lemma_separators_take(s: Seq<char>, k: int)
    requires
        0 <= k <= s.len(),
    ensures
        separators(s.skip(k)) <= separators(s),
    decreases k,
{
    if k == 0 {
        assert(s.skip(0) =~= s);
    } else {
        lemma_separators_take(s.skip(1), k - 1);
        assert(s.skip(1).skip(k - 1) =~= s.skip(k));
    }
}

/// The number of separators that a pattern stands for: those outside its classes.
pub open spec fn boundaries(pattern: Seq<char>) -> nat
    decreases pattern.len(),
{
    if pattern.len() == 0 {
        0
    } else if pattern[0] == '[' {
        let end = text::position(pattern, ']') as int;
        if end < pattern.len() {
            boundaries(pattern.skip(end + 1))
        } else {
            0
        }
    } else {
        boundaries(pattern.skip(1)) + if pattern[0] == '/' {
            1nat
        } else {
            0
        }
    }
}

/// The separators that a pattern stands for are among those that it holds, and without
/// classes they are all of them.
pub proof fn boundaries_are_separators(pattern: Seq<char>)
    ensures
        boundaries(pattern) <= separators(pattern),
        (forall|i: int| 0 <= i < pattern.len() ==> #[trigger] pattern[i] != '[') ==> boundaries(
            pattern,
        ) == separators(pattern),
    decreases pattern.len(),
{
    if pattern.len() > 0 {
        if pattern[0] == '[' {
            let end = text::position(pattern, ']') as int;
            if end < pattern.len() {
                boundaries_are_separators(pattern.skip(end + 1));
                lemma_separators_take(pattern, end + 1);
            }
        } else {
            let rest = pattern.skip(1);
            boundaries_are_separators(rest);
            if forall|i: int| 0 <= i < pattern.len() ==> #[trigger] pattern[i] != '[' {
                assert forall|i: int| 0 <= i < rest.len() implies #[trigger] rest[i] != '[' by {
                    assert(rest[i] == pattern[i + 1]);
                }
            }
        }
    }
}

/// Patterns respect path boundaries: a text that a pattern matches has exactly the
/// separators that the pattern stands for, so never more than the pattern holds, and as
/// many as the pattern holds when it has no classes.
pub proof fn matches_stay_within_path_boundaries(pattern: Seq<char>, value: Seq<char>)
    requires
        matching(pattern, value),
    ensures
        separators(value) == boundaries(pattern),
        separators(value) <= separators(pattern),
        (forall|i: int| 0 <= i < pattern.len() ==> #[trigger] pattern[i] != '[') ==> separators(
            value,
        ) == separators(pattern),
    decreases pattern.len(),
{
    boundaries_are_separators(pattern);
    if pattern.len() > 0 {
        let rest = pattern.skip(1);
        if pattern[0] == '*' {
            let k = choose|k: int|
                0 <= k <= value.len() && no_separator(value.take(k)) && matching(
                    rest,
                    #[trigger] value.skip(k),
                );
            matches_stay_within_path_boundaries(rest, value.skip(k));
            lemma_separators_skip(value, k);
        } else if pattern[0] == '[' {
            let end = text::position(pattern, ']') as int;
            matches_stay_within_path_boundaries(pattern.skip(end + 1), value.skip(1));
        } else {
            matches_stay_within_path_boundaries(rest, value.skip(1));
        }
    }
}

/// A text without any pattern character matches itself and nothing else.
pub proof fn plain_patterns_match_only_themselves(pattern: Seq<char>, value: Seq<char>)
    requires
        forall|i: int|
            0 <= i < pattern.len() ==> #[trigger] pattern[i] != '*' && pattern[i] != '?'
                && pattern[i] != '[',
    ensures
        matching(pattern, value) <==> pattern == value,
    decreases pattern.len(),
{
    if pattern.len() > 0 {
        if value.len() > 0 && value[0] == pattern[0] {
            plain_patterns_match_only_themselves(pattern.skip(1), value.skip(1));
            if pattern.skip(1) == value.skip(1) {
                assert(pattern =~= seq![pattern[0]] + pattern.skip(1));
                assert(value =~= seq![value[0]] + value.skip(1));
            }
        }
    } else if value.len() == 0 {
        assert(pattern =~= value);
    }
}

/// A word in front of a pattern stands for itself.
pub proof fn words_in_front_stand_for_themselves(
    word: Seq<char>,
    pattern: Seq<char>,
    value: Seq<char>,
)
    requires
        forall|i: int|
            0 <= i < word.len() ==> #[trigger] word[i] != '*' && word[i] != '?' && word[i] != '[',
    ensures
        matching(word + pattern, value) <==> text::begins(value, word) && matching(
            pattern,
            value.skip(word.len() as int),
        ),
    decreases word.len(),
{
    let all = word + pattern;
    if word.len() == 0 {
        assert(all =~= pattern);
        assert(value.skip(0) =~= value);
        assert(value.take(0) =~= word);
    } else {
        let rest = word.skip(1);
        assert(all[0] == word[0]);
        assert(all.skip(1) =~= rest + pattern);
        assert forall|i: int| 0 <= i < rest.len() implies #[trigger] rest[i] != '*' && rest[i]
            != '?' && rest[i] != '[' by {
            assert(rest[i] == word[i + 1]);
        }
        if value.len() > 0 {
            let behind = value.skip(1);
            words_in_front_stand_for_themselves(rest, pattern, behind);
            if word.len() <= value.len() {
                assert(behind.skip(rest.len() as int) =~= value.skip(word.len() as int));
                if value[0] == word[0] && text::begins(behind, rest) {
                    assert(value.take(word.len() as int) =~= seq![value[0]] + behind.take(
                        rest.len() as int,
                    ));
                    assert(word =~= seq![word[0]] + rest);
                }
                if text::begins(value, word) {
                    assert(value[0] == value.take(word.len() as int)[0]);
                    assert(behind.take(rest.len() as int) =~= value.take(word.len() as int).skip(1));
                }
            }
        }
    }
}

/// A star stands for any run of characters without a separator, and for nothing else.
pub proof fn stars_stand_for_runs(pattern: Seq<char>, run: Seq<char>, rest: Seq<char>)
    ensures
        no_separator(run) && matching(pattern, rest) ==> matching(
            seq!['*'] + pattern,
            run + rest,
        ),
        matching(seq!['*'] + pattern, rest) ==> exists|k: int|
            0 <= k <= rest.len() && no_separator(rest.take(k)) && matching(
                pattern,
                #[trigger] rest.skip(k),
            ),
{
    let all = seq!['*'] + pattern;
    assert(all.skip(1) =~= pattern);
    if no_separator(run) && matching(pattern, rest) {
        let value = run + rest;
        let k = run.len() as int;
        assert(value.take(k) =~= run);
        assert(value.skip(k) =~= rest);
    }
}

/// A question mark stands for one character that is no separator.
pub proof fn question_marks_stand_for_one_character(pattern: Seq<char>, value: Seq<char>)
    ensures
        matching(seq!['?'] + pattern, value) <==> value.len() > 0 && value[0] != '/' && matching(
            pattern,
            value.skip(1),
        ),
{
    assert((seq!['?'] + pattern).skip(1) =~= pattern);
}

/// A class in brackets stands for one character that is no separator: one that the class
/// holds or, with an exclamation mark in front, one that it does not hold.
pub proof fn classes_stand_for_one_character(
    class: Seq<char>,
    pattern: Seq<char>,
    value: Seq<char>,
)
    requires
        forall|i: int| 0 <= i < class.len() ==> #[trigger] class[i] != ']',
    ensures
        class.len() == 0 || class[0] != '!' ==> (matching(
            seq!['['] + class + seq![']'] + pattern,
            value,
        ) <==> value.len() > 0 && value[0] != '/' && class_holds(class, value[0]) && matching(
            pattern,
            value.skip(1),
        )),
        matching(seq!['[', '!'] + class + seq![']'] + pattern, value) <==> value.len() > 0
            && value[0] != '/' && !class_holds(class, value[0]) && matching(
            pattern,
            value.skip(1),
        ),
{
    let plain = seq!['['] + class + seq![']'] + pattern;
    let end = (class.len() + 1) as int;
    assert forall|j: int| 0 <= j < end implies plain[j] != ']' by {
        if j > 0 {
            assert(plain[j] == class[j - 1]);
        }
    }
    text::lemma_position(plain, ']', end);
    assert(plain.subrange(1, end) =~= class);
    assert(plain.skip(end + 1) =~= pattern);
    let negated = seq!['[', '!'] + class + seq![']'] + pattern;
    assert forall|j: int| 0 <= j < end + 1 implies negated[j] != ']' by {
        if j > 1 {
            assert(negated[j] == class[j - 2]);
        }
    }
    text::lemma_position(negated, ']', end + 1);
    assert(negated.subrange(1, end + 1) =~= seq!['!'] + class);
    assert((seq!['!'] + class).skip(1) =~= class);
    assert(negated.skip(end + 2) =~= pattern);
}

/// A class that is not closed matches nothing.
pub proof fn open_classes_match_nothing(class: Seq<char>, value: Seq<char>)
    requires
        forall|i: int| 0 <= i < class.len() ==> #[trigger] class[i] != ']',
    ensures
        !matching(seq!['['] + class, value),
{
    let pattern = seq!['['] + class;
    assert forall|j: int| 0 <= j < pattern.len() implies pattern[j] != ']' by {
        if j > 0 {
            assert(pattern[j] == class[j - 1]);
        }
    }
    text::lemma_position(pattern, ']', pattern.len() as int);
}

/// A class without hyphens holds its characters, and no others.
pub proof fn classes_hold_their_characters(class: Seq<char>, c: char)
    requires
        forall|i: int| 0 <= i < class.len() ==> #[trigger] class[i] != '-',
    ensures
        class_holds(class, c) <==> class.contains(c),
    decreases class.len(),
{
    if class.len() > 0 {
        let rest = class.skip(1);
        assert forall|i: int| 0 <= i < rest.len() implies #[trigger] rest[i] != '-' by {
            assert(rest[i] == class[i + 1]);
        }
        classes_hold_their_characters(rest, c);
        if rest.contains(c) {
            let i = choose|i: int| 0 <= i < rest.len() && rest[i] == c;
            assert(class[i + 1] == c);
        }
        if class.contains(c) && class[0] != c {
            let i = choose|i: int| 0 <= i < class.len() && class[i] == c;
            assert(rest[i - 1] == c);
        }
    }
}

/// A range in front of a class adds the characters from its first to its last.
pub proof fn ranges_hold_what_lies_between(
    first: char,
    last: char,
    class: Seq<char>,
    c: char,
)
    ensures
        class_holds(seq![first, '-', last] + class, c) <==> first <= c <= last || class_holds(
            class,
            c,
        ),
{
    assert((seq![first, '-', last] + class).skip(3) =~= class);
}

/// The empty pattern matches the empty text only.
pub proof fn empty_patterns_match_nothing_else(value: Seq<char>)
    ensures
        matching(seq![], value) <==> value.len() == 0,
{
}

} // verus!
